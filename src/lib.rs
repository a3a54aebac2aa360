//! A registry of profiles, classes and nickname propositions, with the
//! permission rules that govern who may vote for, delete or protect a
//! nickname of whom.

pub mod commands;
pub mod common;
pub mod data_server;
