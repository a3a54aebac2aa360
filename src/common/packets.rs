//! Messages exchanged with clients.

pub mod c2s;
pub mod s2c;
