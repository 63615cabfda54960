//! The 8-byte edge of the 32-bit node geometries.

use vstd::prelude::*;

verus! {

/// Tag of the null 32-bit edge.
pub const TAG32_NULL: u8 = 0;

/// Tag of a map immediate holding one 1-byte key and its 32-bit value.
pub const TAG32_IMMED_MAP_U8: u8 = 0x81;

/// The 8-byte edge of the 32-bit trie: a 32-bit word (child reference or
/// immediate value), three auxiliary bytes and a type tag.
#[derive(Clone, Copy, Debug)]
pub struct Edge32 {
    /// Child reference, or an immediate's value.
    pub word: u32,
    /// Auxiliary bytes (immediate key bytes or population).
    pub aux: [u8; 3],
    /// Type tag.
    pub tag: u8,
}

impl Edge32 {
    /// The null edge: empty subexpanse.
    pub fn null() -> (e: Edge32)
        ensures
            e.tag == TAG32_NULL,
            e.word == 0,
            e.aux@ == seq![0u8, 0u8, 0u8],
    {
        let e = Edge32 { word: 0, aux: [0u8, 0u8, 0u8], tag: TAG32_NULL };
        proof {
            assert(e.aux@ =~= seq![0u8, 0u8, 0u8]);
        }
        e
    }

    /// A map immediate holding the single key byte `key` with `value`.
    pub fn new_immed_map_u8(key: u8, value: u32) -> (e: Edge32)
        ensures
            e.tag == TAG32_IMMED_MAP_U8,
            e.word == value,
            e.aux@ == seq![key, 0u8, 0u8],
    {
        let e = Edge32 { word: value, aux: [key, 0u8, 0u8], tag: TAG32_IMMED_MAP_U8 };
        proof {
            assert(e.aux@ =~= seq![key, 0u8, 0u8]);
        }
        e
    }

    /// True for the null edge.
    pub fn is_null(&self) -> (r: bool)
        ensures
            r == (self.tag == TAG32_NULL),
    {
        self.tag == TAG32_NULL
    }
}

} // verus!
