//! A container that remembers whether its content was handed out for
//! mutation since the flag was last cleared.

use vstd::prelude::*;

verus! {

/// Wraps a value; any mutable access marks it dirty, whether or not the
/// value actually changes.
pub struct MutationTracker<T> {
    inner: T,
    dirty: bool,
}

impl<T> MutationTracker<T> {
    /// The wrapped value.
    pub closed spec fn value(&self) -> T {
        self.inner
    }

    /// Whether a mutable access happened since the flag was last cleared.
    pub closed spec fn is_dirty(&self) -> bool {
        self.dirty
    }

    /// What `clear_dirty` does: it answers the flag, clears it and keeps the value.
    pub open spec fn take_dirty_post(pre: Self, post: Self, r: bool) -> bool {
        &&& r == pre.is_dirty()
        &&& !post.is_dirty()
        &&& post.value() == pre.value()
    }

    /// What `get_mut` guarantees of the tracker once the access is over: it
    /// is dirty, whatever was done through the access.
    pub open spec fn mutable_access_post(pre: Self, post: Self) -> bool {
        post.is_dirty()
    }

    pub fn new(inner: T) -> (r: Self)
        ensures
            r.value() == inner,
            !r.is_dirty(),
    {
        MutationTracker { inner, dirty: false }
    }

    /// Reads and clears the dirty flag.
    pub fn clear_dirty(&mut self) -> (r: bool)
        ensures
            Self::take_dirty_post(*old(self), *final(self), r),
    {
        if self.dirty {
            self.dirty = false;
            true
        } else {
            false
        }
    }

    /// Read access; never marks the value dirty.
    pub fn get(&self) -> (r: &T)
        ensures
            *r == self.value(),
    {
        &self.inner
    }

    /// Mutable access; always marks the value dirty.
    pub fn get_mut(&mut self) -> (r: &mut T)
        ensures
            *r == old(self).value(),
            final(self).value() == *final(r),
            Self::mutable_access_post(*old(self), *final(self)),
    {
        self.dirty = true;
        &mut self.inner
    }
}

impl<T: Default> Default for MutationTracker<T> {
    fn default() -> (r: Self)
        ensures
            !r.is_dirty(),
    {
        MutationTracker { inner: T::default(), dirty: false }
    }
}

/// A clear answers true exactly once per window of mutable access: right
/// after a clear, the next clear answers false; right after a mutable
/// access, the next clear answers true.
pub proof fn lemma_dirty_taken_once<T>(
    a: MutationTracker<T>,
    b: MutationTracker<T>,
    c: MutationTracker<T>,
    first: bool,
    second: bool,
)
    ensures
        MutationTracker::take_dirty_post(a, b, first) && MutationTracker::take_dirty_post(b, c, second) ==> !second,
        MutationTracker::mutable_access_post(a, b) && MutationTracker::take_dirty_post(b, c, second) ==> second,
{
}

} // verus!
