//! 32-bit digital tree node geometries, sized to 32-byte cache lines.

use vstd::prelude::*;
use crate::bits::{bit_of, lemma_bit_or, lemma_bit_clear, lemma_zero_no_bits};
use crate::types32::Edge32;

verus! {

/// Header for 32-bit branch nodes.
#[derive(Clone, Copy, Debug)]
pub struct BranchHeader32 {
    /// Total population below this node minus one.
    pub pop0: u32,
    /// Number of active child edges.
    pub num_edges: u8,
    /// Tree level (2..=4).
    pub level: u8,
    /// Prefix decode digits.
    pub decode: [u8; 2],
}

impl BranchHeader32 {
    /// A branch header with no decode digits.
    pub fn new(level: u8, num_edges: u8, pop0: u32) -> (h: BranchHeader32)
        ensures
            h.pop0 == pop0,
            h.num_edges == num_edges,
            h.level == level,
            h.decode@ == seq![0u8, 0u8],
    {
        let h = BranchHeader32 { pop0, num_edges, level, decode: [0u8, 0u8] };
        proof {
            assert(h.decode@ =~= seq![0u8, 0u8]);
        }
        h
    }
}

/// Linear branch with 2 child edges (one 32-byte line).
#[derive(Clone, Copy, Debug)]
pub struct BranchL2_32 {
    /// Branch header.
    pub header: BranchHeader32,
    /// Digits of the two children, ascending.
    pub digits: [u8; 2],
    /// Padding to the edge array.
    pub _pad: [u8; 6],
    /// Child edges, in digit order.
    pub edges: [Edge32; 2],
}

impl BranchL2_32 {
    /// A two-child branch; the children are stored in digit order.
    pub fn new(level: u8, d0: u8, e0: Edge32, d1: u8, e1: Edge32, pop0: u32) -> (b: BranchL2_32)
        ensures
            b.header.level == level,
            b.header.num_edges == 2,
            b.header.pop0 == pop0,
            b.header.decode@ == seq![0u8, 0u8],
            d0 < d1 ==> b.digits@ == seq![d0, d1] && b.edges@ == seq![e0, e1],
            d0 >= d1 ==> b.digits@ == seq![d1, d0] && b.edges@ == seq![e1, e0],
    {
        let b = if d0 < d1 {
            BranchL2_32 {
                header: BranchHeader32::new(level, 2, pop0),
                digits: [d0, d1],
                _pad: [0u8; 6],
                edges: [e0, e1],
            }
        } else {
            BranchL2_32 {
                header: BranchHeader32::new(level, 2, pop0),
                digits: [d1, d0],
                _pad: [0u8; 6],
                edges: [e1, e0],
            }
        };
        proof {
            if d0 < d1 {
                assert(b.digits@ =~= seq![d0, d1]);
                assert(b.edges@ =~= seq![e0, e1]);
            } else {
                assert(b.digits@ =~= seq![d1, d0]);
                assert(b.edges@ =~= seq![e1, e0]);
            }
        }
        b
    }

    /// Edge index of `digit`, if present.
    pub fn find(&self, digit: u8) -> (r: Option<usize>)
        ensures
            r == if self.digits@[0] == digit {
                Some(0usize)
            } else if self.digits@[1] == digit {
                Some(1usize)
            } else {
                None::<usize>
            },
    {
        if self.digits[0] == digit {
            Some(0)
        } else if self.digits[1] == digit {
            Some(1)
        } else {
            None
        }
    }
}

/// Linear branch with 6 child edges (two 32-byte lines).
#[derive(Clone, Copy, Debug)]
pub struct BranchL6_32 {
    /// Branch header.
    pub header: BranchHeader32,
    /// Digits of the active children.
    pub digits: [u8; 6],
    /// Padding to the edge array.
    pub _pad: [u8; 2],
    /// Child edges.
    pub edges: [Edge32; 6],
}

impl BranchL6_32 {
    /// An empty 6-edge branch.
    pub fn new(level: u8) -> (b: BranchL6_32)
        ensures
            b.header.level == level,
            b.header.num_edges == 0,
            b.header.pop0 == 0,
            b.digits@ == seq![0u8; 6],
            forall|i: int| 0 <= i < 6 ==> #[trigger] b.edges@[i].tag == crate::types32::TAG32_NULL,
    {
        let e = Edge32::null();
        let b = BranchL6_32 {
            header: BranchHeader32::new(level, 0, 0),
            digits: [0u8; 6],
            _pad: [0u8; 2],
            edges: [e, e, e, e, e, e],
        };
        proof {
            assert(b.digits@ =~= seq![0u8; 6]);
        }
        b
    }

    /// Index of the first active edge whose digit is `digit`.
    pub fn find(&self, digit: u8) -> (r: Option<usize>)
        ensures
            match r {
                Some(i) => i < self.header.num_edges && i < 6 && self.digits@[i as int] == digit
                    && forall|j: int| 0 <= j < i ==> self.digits@[j] != digit,
                None => forall|j: int|
                    0 <= j < self.header.num_edges && j < 6 ==> self.digits@[j] != digit,
            },
    {
        let count = self.header.num_edges as usize;
        let mut i: usize = 0;
        while i < count && i < 6
            invariant
                count == self.header.num_edges,
                i <= count,
                i <= 6,
                forall|j: int| 0 <= j < i ==> self.digits@[j] != digit,
            decreases count - i,
        {
            if self.digits[i] == digit {
                return Some(i);
            }
            i = i + 1;
        }
        None
    }
}

/// Uncompressed branch: 256 child edges direct-indexed by digit.
#[derive(Clone, Copy, Debug)]
pub struct BranchU32 {
    /// Total keys below this branch.
    pub count: u32,
    /// Number of populated child edges (0..=256).
    pub num_children: u16,
    /// Tree level (2..=4).
    pub level: u8,
    /// One edge per possible digit; a null tag marks an empty subexpanse.
    pub edges: [Edge32; 256],
}

impl BranchU32 {
    /// An empty uncompressed branch at `level`.
    pub fn new(level: u8) -> (b: BranchU32)
        ensures
            b.count == 0,
            b.num_children == 0,
            b.level == level,
            forall|i: int| 0 <= i < 256 ==> #[trigger] b.edges@[i].tag == crate::types32::TAG32_NULL,
    {
        let e = Edge32::null();
        let edges: [Edge32; 256] = [e; 256];
        BranchU32 { count: 0, num_children: 0, level, edges }
    }
}

/// 256-bit bitmap leaf for level 1 of the 32-bit set.
#[derive(Clone, Copy, Debug)]
pub struct LeafBitmap1_32 {
    /// 256-bit membership mask.
    pub bitmap: [u64; 4],
    /// Number of keys in this leaf.
    pub pop0: u16,
    /// Level (always 1).
    pub level: u8,
}

impl LeafBitmap1_32 {
    /// Byte `b` is a member.
    pub open spec fn has(&self, b: u8) -> bool {
        bit_of(self.bitmap[b as int / 64], (b % 64) as u64)
    }

    /// An empty leaf.
    pub fn new() -> (l: LeafBitmap1_32)
        ensures
            forall|b: u8| !#[trigger] l.has(b),
            l.pop0 == 0,
            l.level == 1,
    {
        let l = LeafBitmap1_32 { bitmap: [0u64; 4], pop0: 0, level: 1 };
        proof {
            assert forall|b: u8| !#[trigger] l.has(b) by {
                lemma_zero_no_bits((b % 64) as u64);
            }
        }
        l
    }

    /// Membership of byte `bit`.
    pub fn test(&self, bit: u8) -> (r: bool)
        ensures
            r == self.has(bit),
    {
        let word_idx = (bit / 64) as usize;
        let bit_idx = (bit % 64) as u64;
        proof {
            lemma_bit_or(self.bitmap[word_idx as int], bit_idx, bit_idx);
        }
        (self.bitmap[word_idx] & (1u64 << bit_idx)) != 0
    }

    /// Adds byte `bit`, returning true if it was newly set (the count grows
    /// by one exactly then).
    pub fn set(&mut self, bit: u8) -> (newly: bool)
        requires
            !old(self).has(bit) ==> old(self).pop0 < u16::MAX,
        ensures
            newly == !old(self).has(bit),
            final(self).has(bit),
            forall|b: u8| b != bit ==> final(self).has(b) == old(self).has(b),
            final(self).pop0 == if newly {
                (old(self).pop0 + 1) as u16
            } else {
                old(self).pop0
            },
            final(self).level == old(self).level,
    {
        let word_idx = (bit / 64) as usize;
        let bit_idx = (bit % 64) as u64;
        let w = self.bitmap[word_idx];
        let mask = 1u64 << bit_idx;
        let was_set = (w & mask) != 0;
        proof {
            lemma_bit_or(w, bit_idx, bit_idx);
        }
        if !was_set {
            self.bitmap[word_idx] = w | mask;
            self.pop0 = self.pop0 + 1;
            proof {
                assert forall|b: u8| b != bit implies self.has(b) == old(self).has(b) by {
                    if b as int / 64 == word_idx as int {
                        lemma_bit_or(w, bit_idx, (b % 64) as u64);
                    }
                }
            }
        }
        !was_set
    }

    /// Clears byte `bit`, returning true if it was removed (the count shrinks
    /// by one exactly then).
    pub fn unset(&mut self, bit: u8) -> (was: bool)
        requires
            old(self).has(bit) ==> old(self).pop0 > 0,
        ensures
            was == old(self).has(bit),
            !final(self).has(bit),
            forall|b: u8| b != bit ==> final(self).has(b) == old(self).has(b),
            final(self).pop0 == if was {
                (old(self).pop0 - 1) as u16
            } else {
                old(self).pop0
            },
            final(self).level == old(self).level,
    {
        let word_idx = (bit / 64) as usize;
        let bit_idx = (bit % 64) as u64;
        let w = self.bitmap[word_idx];
        let mask = 1u64 << bit_idx;
        let was_set = (w & mask) != 0;
        proof {
            lemma_bit_or(w, bit_idx, bit_idx);
        }
        if was_set {
            self.bitmap[word_idx] = w & !mask;
            self.pop0 = self.pop0 - 1;
            proof {
                lemma_bit_clear(w, bit_idx, bit_idx);
                assert forall|b: u8| b != bit implies self.has(b) == old(self).has(b) by {
                    if b as int / 64 == word_idx as int {
                        lemma_bit_clear(w, bit_idx, (b % 64) as u64);
                    }
                }
            }
        }
        was_set
    }
}

impl Default for LeafBitmap1_32 {
    fn default() -> (l: LeafBitmap1_32)
        ensures
            forall|b: u8| !#[trigger] l.has(b),
            l.pop0 == 0,
            l.level == 1,
    {
        LeafBitmap1_32::new()
    }
}

} // verus!
