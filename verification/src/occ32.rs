//! The 32-bit seqlock version word of the optimistic read protocol.
//!
//! Even = stable, odd = mutation in progress. A writer brackets every
//! mutation with `begin` (even → odd) and `end` (odd → even); a reader
//! samples an even version, reads, and validates that the version did not
//! move. Every sampling entry point that an interrupt handler may use is
//! single-attempt: `try_sample` and `try_node_sample` report an open
//! bracket as `None` instead of spinning.

use vstd::prelude::*;

verus! {

/// The successor of `v` modulo `2^32`.
pub open spec fn next_version(v: u32) -> u32 {
    if v == u32::MAX {
        0
    } else {
        (v + 1) as u32
    }
}

/// `v + 2` modulo `2^32`.
pub open spec fn wrap_add2(v: u32) -> u32 {
    if v + 2 > u32::MAX {
        (v + 2 - 0x1_0000_0000) as u32
    } else {
        (v + 2) as u32
    }
}

/// A 32-bit seqlock version word.
#[derive(Debug, Default)]
pub struct SeqVersion32 {
    v: u32,
}

impl View for SeqVersion32 {
    type V = u32;

    closed spec fn view(&self) -> u32 {
        self.v
    }
}

impl SeqVersion32 {
    /// A fresh, stable version initialized to 0.
    pub fn new() -> (s: SeqVersion32)
        ensures
            s@ == 0,
    {
        SeqVersion32 { v: 0 }
    }

    /// Writer: marks a mutation in progress (even → odd).
    pub fn begin(&mut self)
        requires
            old(self)@ % 2 == 0,
        ensures
            final(self)@ == old(self)@ + 1,
    {
        self.v = self.v + 1;
    }

    /// Writer: marks the mutation complete (odd → even), wrapping at `2^32`.
    pub fn end(&mut self)
        requires
            old(self)@ % 2 == 1,
        ensures
            final(self)@ == next_version(old(self)@),
            final(self)@ % 2 == 0,
    {
        if self.v == u32::MAX {
            self.v = 0;
        } else {
            self.v = self.v + 1;
        }
    }

    /// Reader: one bounded attempt; `Some(even)` on a stable snapshot,
    /// `None` while a writer's bracket is open.
    pub fn try_sample(&self) -> (r: Option<u32>)
        ensures
            r == if self@ % 2 == 0 {
                Some(self@)
            } else {
                None::<u32>
            },
    {
        if self.v % 2 == 0 {
            Some(self.v)
        } else {
            None
        }
    }

    /// Reader: samples a stable version. A caller on the writer's own
    /// thread can never see an open bracket close, so it must sample only
    /// outside one.
    pub fn sample(&self) -> (r: u32)
        requires
            self@ % 2 == 0,
        ensures
            r == self@,
    {
        self.v
    }

    /// Reader: true if no mutation began since `snapshot` was taken.
    pub fn validate(&self, snapshot: u32) -> (r: bool)
        ensures
            r == (self@ == snapshot),
    {
        self.v == snapshot
    }
}

/// Begins node-level in-place mutation on a node's version word.
pub fn node_version_begin(version: &mut u32)
    requires
        *old(version) % 2 == 0,
    ensures
        *final(version) == *old(version) + 1,
{
    *version = *version + 1;
}

/// Ends node-level in-place mutation on a node's version word.
pub fn node_version_end(version: &mut u32)
    requires
        *old(version) % 2 == 1,
    ensures
        *final(version) == next_version(*old(version)),
        *final(version) % 2 == 0,
{
    if *version == u32::MAX {
        *version = 0;
    } else {
        *version = *version + 1;
    }
}

/// Reader: one bounded attempt at a node-level version word.
pub fn try_node_sample(version: &u32) -> (r: Option<u32>)
    ensures
        r == if *version % 2 == 0 {
            Some(*version)
        } else {
            None::<u32>
        },
{
    if *version % 2 == 0 {
        Some(*version)
    } else {
        None
    }
}

/// Reader: validates a node-level version word against `snapshot`.
pub fn node_validate(version: &u32, snapshot: u32) -> (r: bool)
    ensures
        r == (*version == snapshot),
{
    *version == snapshot
}

/// A completed writer bracket moves the version by exactly two (modulo
/// `2^32`) and leaves it stable, so a snapshot taken before the bracket no
/// longer validates afterwards, while a fresh sample does.
pub proof fn law_bracket_invalidates_snapshot(before: u32)
    requires
        before % 2 == 0,
    ensures
        next_version((before + 1) as u32) % 2 == 0,
        next_version((before + 1) as u32) != before,
        (before + 1) as u32 != before,
        ((before + 1) as u32) % 2 == 1,
{
}

} // verus!
