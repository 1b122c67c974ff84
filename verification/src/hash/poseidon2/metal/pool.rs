//! The pool of buffer sets that builds in flight take from.

use vstd::prelude::*;

verus! {

/// Upper bound on concurrently in-flight builds. One set serializes them.
pub const MAX_BUFFER_SETS: usize = 1;

/// How many buffer sets exist, and how many of them are free.
#[derive(Clone, Copy, Debug)]
pub struct BufferPool {
    pub free: usize,
    pub created: usize,
}

/// What a build that needs a buffer set has to do.
#[derive(Clone, Copy, Debug, PartialEq, Eq, Structural)]
pub enum Acquired {
    /// Take a free set.
    Reuse,
    /// Take a new set, whose buffers do not exist yet.
    Create,
    /// Wait until a set is released, and ask again.
    Wait,
}

impl BufferPool {
    /// Free sets exist, and there are not too many sets.
    pub open spec fn wf(self) -> bool {
        self.free <= self.created <= MAX_BUFFER_SETS
    }

    /// The number of sets that builds hold.
    pub open spec fn in_flight(self) -> int {
        self.created - self.free
    }

    /// A pool without sets.
    pub fn new() -> (r: Self)
        ensures
            r.wf(),
            r.created == 0,
            r.free == 0,
    {
        BufferPool { free: 0, created: 0 }
    }

    /// Asks for a set. A free one comes first; a new one is made while there are few enough.
    pub fn acquire_set(&mut self) -> (r: Acquired)
        requires
            old(self).wf(),
        ensures
            final(self).wf(),
            r == (if old(self).free > 0 {
                Acquired::Reuse
            } else if old(self).created < MAX_BUFFER_SETS {
                Acquired::Create
            } else {
                Acquired::Wait
            }),
            match r {
                Acquired::Reuse => final(self).created == old(self).created && final(self).free
                    == old(self).free - 1,
                Acquired::Create => final(self).created == old(self).created + 1 && final(self).free
                    == old(self).free,
                Acquired::Wait => *final(self) == *old(self),
            },
            r != Acquired::Wait ==> final(self).in_flight() == old(self).in_flight() + 1,
            r == Acquired::Wait <==> old(self).in_flight() == MAX_BUFFER_SETS,
    {
        if self.free > 0 {
            self.free = self.free - 1;
            return Acquired::Reuse;
        }
        if self.created < MAX_BUFFER_SETS {
            self.created = self.created + 1;
            return Acquired::Create;
        }
        Acquired::Wait
    }

    /// Gives a set back.
    pub fn release_set(&mut self)
        requires
            old(self).wf(),
            old(self).in_flight() > 0,
        ensures
            final(self).wf(),
            final(self).created == old(self).created,
            final(self).free == old(self).free + 1,
            final(self).in_flight() == old(self).in_flight() - 1,
    {
        self.free = self.free + 1;
    }
}

/// Whether a buffer has to be made: there is none yet, or it is too short.
pub fn needs_new_buffer(current_bytes: Option<u64>, needed_bytes: u64) -> (r: bool)
    ensures
        r == match current_bytes {
            Some(bytes) => bytes < needed_bytes,
            None => true,
        },
{
    match current_bytes {
        Some(bytes) => bytes < needed_bytes,
        None => true,
    }
}

/// The number of threads in a group, for a kernel with the given limits.
pub fn group_width(max_threads_per_group: u64, execution_width: u64) -> (r: u64)
    ensures
        ({
            let capped = if max_threads_per_group < 64 {
                max_threads_per_group
            } else {
                64
            };
            r == (if capped < execution_width {
                execution_width
            } else {
                capped
            })
        }),
{
    let capped: u64 = if max_threads_per_group < 64 {
        max_threads_per_group
    } else {
        64
    };
    if capped < execution_width {
        execution_width
    } else {
        capped
    }
}

} // verus!
