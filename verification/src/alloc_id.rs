//! The identifier allocator for the target document.
//!
//! Target identifiers are strictly increasing integers starting at 1
//! (identifier 0 is reserved by document conventions for the absence of an
//! object).  A single allocator is shared across a whole transcoding run, so
//! identifiers issued by nested calls never collide.

use vstd::prelude::*;

verus! {

/// The largest identifier the allocator will ever issue; the target
/// document's cross-reference machinery stores identifiers in 31 bits.
pub const MAX_TARGET_ID: u64 = 0x7fff_ffff;

/// An identifier in the target document's space: a single integer,
/// monotonically increasing, never reused, assigned at first discovery.
#[derive(Clone, Copy, Debug, PartialEq, Eq, Structural)]
pub struct TargetId {
    pub value: u64,
}

/// Issues fresh target identifiers, strictly increasing, starting from 1.
pub struct IdAllocator {
    next: u64,
}

impl IdAllocator {
    /// The next identifier that `bump` would return.
    pub closed spec fn view(&self) -> u64 {
        self.next
    }

    /// The allocator never runs below 1 and never past the identifier width.
    pub open spec fn wf(&self) -> bool {
        1 <= self@ <= MAX_TARGET_ID + 1
    }

    pub fn new() -> (r: IdAllocator)
        ensures
            r.wf(),
            r@ == 1u64,
    {
        IdAllocator { next: 1 }
    }

    /// Whether another identifier can still be issued within the width.
    pub fn can_bump(&self) -> (r: bool)
        requires
            self.wf(),
        ensures
            r <==> self@ <= MAX_TARGET_ID,
    {
        self.next <= MAX_TARGET_ID
    }

    /// Returns a fresh identifier strictly greater than every identifier
    /// returned before.
    pub fn bump(&mut self) -> (r: TargetId)
        requires
            old(self).wf(),
            old(self)@ <= MAX_TARGET_ID,
        ensures
            final(self).wf(),
            r.value == old(self)@,
            final(self)@ == old(self)@ + 1,
            1 <= r.value <= MAX_TARGET_ID,
    {
        let id = TargetId { value: self.next };
        self.next = self.next + 1;
        id
    }
}

} // verus!
