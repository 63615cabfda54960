//! Shared vocabulary of the trie: key type, geometry constants, and the
//! one-byte edge tag (structural node kinds and immediate-key encodings).

use vstd::prelude::*;

verus! {

/// A full-width key.
pub type Key = u64;

/// Cache-line size every node layout is sized against.
pub const CACHE_LINE: usize = 64;

/// Digits per branch level (one key byte).
pub const BRANCH_FANOUT: usize = 256;

/// Child capacity of the one-line linear branch.
pub const BRANCH_L3_CAP: usize = 3;

/// Child capacity of the two-line linear branch.
pub const BRANCH_L7_CAP: usize = 7;

/// Key-payload bytes of a set-flavor immediate edge (word 0 plus aux).
pub const IMMED_PAYLOAD_BYTES: usize = 15;

/// Largest population of a level-1 linear leaf before it becomes a bitmap leaf.
pub const LEAF1_CAP: usize = 48;

/// Largest population of a linear leaf above level 1.
pub const LEAF_CAP: usize = 256;

/// A bitmap leaf shrinks back to a linear leaf below this population.
pub const LEAFB1_DOWN: usize = 47;

/// Populated digits at which a bitmap branch becomes uncompressed.
pub const BITMAP_TO_UNCOMPRESSED_THRESHOLD: usize = 192;

/// `256^n`, the number of keys a level-`n` subexpanse can hold.
pub open spec fn pow256(n: nat) -> nat
    decreases n,
{
    if n == 0 {
        1
    } else {
        pow256((n - 1) as nat) * 256
    }
}

/// The digit of `key` at `level` (level 1 is the lowest byte).
pub open spec fn digit_spec(key: u64, level: u8) -> u8 {
    ((key / (pow256((level - 1) as nat) as u64)) % 256) as u8
}

/// The digit of `key` at `level` (1..=8; level 1 is the lowest byte).
pub fn digit(key: Key, level: u8) -> (d: u8)
    requires
        1 <= level <= 8,
    ensures
        d as nat == (key as nat / pow256((level - 1) as nat)) % 256,
{
    let mut v: u64 = key;
    let mut i: u8 = 1;
    assert(pow256(0) == 1);
    assert(key as nat / 1 == key as nat);
    while i < level
        invariant
            1 <= i <= level <= 8,
            v as nat == key as nat / pow256((i - 1) as nat),
        decreases level - i,
    {
        proof {
            lemma_pow256_pos((i - 1) as nat);
            vstd::arithmetic::div_mod::lemma_div_denominator(
                key as int,
                pow256((i - 1) as nat) as int,
                256,
            );
        }
        v = v / 256;
        i = i + 1;
    }
    (v % 256) as u8
}

/// `256^n` is positive.
pub proof fn lemma_pow256_pos(n: nat)
    ensures
        pow256(n) >= 1,
    decreases n,
{
    if n > 0 {
        lemma_pow256_pos((n - 1) as nat);
    }
}

/// `256^n` grows with `n`.
pub proof fn lemma_pow256_mono(a: nat, b: nat)
    requires
        a <= b,
    ensures
        pow256(a) <= pow256(b),
    decreases b,
{
    if a < b {
        lemma_pow256_mono(a, (b - 1) as nat);
        lemma_pow256_pos((b - 1) as nat);
    }
}

/// The powers the trie uses, as literals.
pub proof fn lemma_pow256_values()
    ensures
        pow256(0) == 1,
        pow256(1) == 0x100,
        pow256(2) == 0x1_0000,
        pow256(3) == 0x100_0000,
        pow256(4) == 0x1_0000_0000,
        pow256(5) == 0x100_0000_0000,
        pow256(6) == 0x1_0000_0000_0000,
        pow256(7) == 0x100_0000_0000_0000,
        pow256(8) == 0x1_0000_0000_0000_0000,
{
    reveal_with_fuel(pow256, 9);
}

/// Structural node kinds an edge can refer to.
#[derive(Clone, Copy, Debug, PartialEq, Eq, Structural)]
pub enum EdgeType {
    /// Empty subexpanse.
    Null,
    /// One-line linear branch.
    BranchL3,
    /// Two-line linear branch.
    BranchL7,
    /// Bitmap branch.
    BranchB,
    /// Uncompressed branch.
    BranchU,
    /// Linear leaf of 1-byte key remainders.
    Leaf1,
    /// Linear leaf of 2-byte key remainders.
    Leaf2,
    /// Linear leaf of 3-byte key remainders.
    Leaf3,
    /// Linear leaf of 4-byte key remainders.
    Leaf4,
    /// Linear leaf of 5-byte key remainders.
    Leaf5,
    /// Linear leaf of 6-byte key remainders.
    Leaf6,
    /// Linear leaf of 7-byte key remainders.
    Leaf7,
    /// Set-flavor bitmap leaf.
    LeafB1,
    /// Map-flavor bitmap leaf.
    LeafBL,
    /// A fully populated subexpanse (no node behind it).
    FullExpanse,
}

/// The byte encoding of each structural kind.
pub open spec fn edge_type_code(t: EdgeType) -> u8 {
    match t {
        EdgeType::Null => 0,
        EdgeType::BranchL3 => 1,
        EdgeType::BranchL7 => 2,
        EdgeType::BranchB => 3,
        EdgeType::BranchU => 4,
        EdgeType::Leaf1 => 5,
        EdgeType::Leaf2 => 6,
        EdgeType::Leaf3 => 7,
        EdgeType::Leaf4 => 8,
        EdgeType::Leaf5 => 9,
        EdgeType::Leaf6 => 10,
        EdgeType::Leaf7 => 11,
        EdgeType::LeafB1 => 12,
        EdgeType::LeafBL => 13,
        EdgeType::FullExpanse => 14,
    }
}

impl EdgeType {
    /// The tag byte of this kind.
    pub fn as_u8(self) -> (b: u8)
        ensures
            b == edge_type_code(self),
            b < 15,
    {
        match self {
            EdgeType::Null => 0,
            EdgeType::BranchL3 => 1,
            EdgeType::BranchL7 => 2,
            EdgeType::BranchB => 3,
            EdgeType::BranchU => 4,
            EdgeType::Leaf1 => 5,
            EdgeType::Leaf2 => 6,
            EdgeType::Leaf3 => 7,
            EdgeType::Leaf4 => 8,
            EdgeType::Leaf5 => 9,
            EdgeType::Leaf6 => 10,
            EdgeType::Leaf7 => 11,
            EdgeType::LeafB1 => 12,
            EdgeType::LeafBL => 13,
            EdgeType::FullExpanse => 14,
        }
    }

    /// The kind whose tag byte is `b`, if any.
    pub fn from_u8(b: u8) -> (r: Option<EdgeType>)
        ensures
            match r {
                Some(t) => edge_type_code(t) == b,
                None => b >= 15,
            },
    {
        match b {
            0 => Some(EdgeType::Null),
            1 => Some(EdgeType::BranchL3),
            2 => Some(EdgeType::BranchL7),
            3 => Some(EdgeType::BranchB),
            4 => Some(EdgeType::BranchU),
            5 => Some(EdgeType::Leaf1),
            6 => Some(EdgeType::Leaf2),
            7 => Some(EdgeType::Leaf3),
            8 => Some(EdgeType::Leaf4),
            9 => Some(EdgeType::Leaf5),
            10 => Some(EdgeType::Leaf6),
            11 => Some(EdgeType::Leaf7),
            12 => Some(EdgeType::LeafB1),
            13 => Some(EdgeType::LeafBL),
            14 => Some(EdgeType::FullExpanse),
            _ => None,
        }
    }

    /// Key-remainder width of a linear leaf kind.
    pub fn leaf_key_bytes(self) -> (r: Option<u8>)
        ensures
            match r {
                Some(kb) => 1 <= kb <= 7 && edge_type_code(self) == kb + 4,
                None => edge_type_code(self) < 5 || edge_type_code(self) > 11,
            },
    {
        match self {
            EdgeType::Leaf1 => Some(1),
            EdgeType::Leaf2 => Some(2),
            EdgeType::Leaf3 => Some(3),
            EdgeType::Leaf4 => Some(4),
            EdgeType::Leaf5 => Some(5),
            EdgeType::Leaf6 => Some(6),
            EdgeType::Leaf7 => Some(7),
            _ => None,
        }
    }
}

/// Largest key count a set-flavor immediate of `kb`-byte keys can pack.
pub open spec fn immed_max_count(kb: u8) -> u8 {
    (IMMED_PAYLOAD_BYTES / kb as usize) as u8
}

/// An immediate edge encoding: `count` keys of `kb` bytes packed in the edge.
#[derive(Clone, Copy, Debug, PartialEq, Eq, Structural)]
pub struct ImmedType {
    /// Key width in bytes.
    pub kb: u8,
    /// Number of packed keys.
    pub count: u8,
}

impl ImmedType {
    /// Well-formed: 1..=7 key bytes, 1..=capacity keys.
    pub open spec fn wf(self) -> bool {
        1 <= self.kb <= 7 && 1 <= self.count <= immed_max_count(self.kb)
    }

    /// The key width in bytes.
    pub open spec fn kb_spec(self) -> u8 {
        self.kb
    }

    /// The packed key count.
    pub open spec fn count_spec(self) -> u8 {
        self.count
    }

    /// The tag byte: high bit set, key width in bits 4..=6, count - 1 in bits 0..=3.
    pub open spec fn code(self) -> u8 {
        (0x80 + (self.kb - 1) * 16 + (self.count - 1)) as u8
    }

    /// Capacity of an immediate of `kb`-byte keys.
    pub fn max_count(kb: u8) -> (r: u8)
        requires
            1 <= kb <= 7,
        ensures
            r == immed_max_count(kb),
    {
        (IMMED_PAYLOAD_BYTES / kb as usize) as u8
    }

    /// The encoding of `count` keys of `kb` bytes, if it fits in an edge.
    pub fn new(kb: u8, count: u8) -> (r: Option<ImmedType>)
        ensures
            match r {
                Some(im) => im.wf() && im.kb == kb && im.count == count,
                None => !(1 <= kb <= 7 && 1 <= count <= immed_max_count(kb)),
            },
    {
        if kb >= 1 && kb <= 7 && count >= 1 && count <= Self::max_count(kb) {
            Some(ImmedType { kb, count })
        } else {
            None
        }
    }

    /// Key width in bytes.
    pub fn key_bytes(self) -> (r: u8)
        ensures
            r == self.kb,
    {
        self.kb
    }

    /// Number of packed keys.
    pub fn key_count(self) -> (r: u8)
        ensures
            r == self.count,
    {
        self.count
    }

    /// The tag byte of this encoding.
    pub fn as_u8(self) -> (b: u8)
        requires
            self.wf(),
        ensures
            b == self.code(),
            b >= 0x80,
    {
        0x80 + (self.kb - 1) * 16 + (self.count - 1)
    }

    /// Decodes an immediate tag byte.
    pub fn from_u8(b: u8) -> (r: Option<ImmedType>)
        ensures
            match r {
                Some(im) => im.wf() && im.code() == b,
                None => b < 0x80 || !(ImmedType { kb: ((b - 0x80) / 16 + 1) as u8, count: ((b
                    - 0x80) % 16 + 1) as u8 }).wf(),
            },
    {
        if b < 0x80 {
            return None;
        }
        let kb = (b - 0x80) / 16 + 1;
        let count = (b - 0x80) % 16 + 1;
        if kb <= 7 && count <= Self::max_count(kb) {
            Some(ImmedType { kb, count })
        } else {
            None
        }
    }
}

/// The tag byte encodes a structural kind or a well-formed immediate.
pub open spec fn tag_decodes(b: u8) -> bool {
    b < 15 || (b >= 0x80 && (ImmedType {
        kb: ((b - 0x80) / 16 + 1) as u8,
        count: ((b - 0x80) % 16 + 1) as u8,
    }).wf())
}

/// A decoded edge tag.
#[derive(Clone, Copy, Debug, PartialEq, Eq, Structural)]
pub enum EdgeTag {
    /// A structural node kind (or null / full expanse).
    Kind(EdgeType),
    /// Keys packed directly in the edge.
    Immed(ImmedType),
}

impl EdgeTag {
    /// The tag byte that encodes this tag.
    pub open spec fn code(self) -> u8 {
        match self {
            EdgeTag::Kind(t) => edge_type_code(t),
            EdgeTag::Immed(im) => im.code(),
        }
    }

    /// Decodes a tag byte; `None` for bytes that encode nothing.
    pub fn from_u8(b: u8) -> (r: Option<EdgeTag>)
        ensures
            match r {
                Some(t) => t.code() == b && (t matches EdgeTag::Immed(im) ==> im.wf()),
                None => !tag_decodes(b),
            },
    {
        if b >= 0x80 {
            match ImmedType::from_u8(b) {
                Some(im) => Some(EdgeTag::Immed(im)),
                None => None,
            }
        } else {
            match EdgeType::from_u8(b) {
                Some(t) => Some(EdgeTag::Kind(t)),
                None => None,
            }
        }
    }
}

} // verus!
