//! Node layouts of the trie: the 16-byte tagged edge, linear / bitmap /
//! uncompressed branches, and bitmap leaves.
//!
//! The edge packs word 0 (a child-node reference or immediate key bytes),
//! a 7-byte auxiliary field and a 1-byte tag. The auxiliary field is
//! level-split: for a child at level `L`, its low `L` bytes hold `pop0`
//! (subtree population minus one, little-endian) and the remaining high
//! bytes hold the narrow-pointer decode digits.

use vstd::prelude::*;
use crate::bits::{Bitmap256, find_byte_8, first_slot_of};
use crate::types::{
    BRANCH_FANOUT, BRANCH_L3_CAP, BRANCH_L7_CAP, EdgeTag, EdgeType, edge_type_code, tag_decodes, pow256,
    lemma_pow256_pos, lemma_pow256_values,
};

verus! {

/// The little-endian number spelled by `s` (`s[0]` least significant).
pub open spec fn le_value(s: Seq<u8>) -> nat
    decreases s.len(),
{
    if s.len() == 0 {
        0
    } else {
        le_value(s.drop_last()) + s.last() as nat * pow256((s.len() - 1) as nat)
    }
}

/// A little-endian number of `n` bytes is below `256^n`.
pub proof fn lemma_le_value_bound(s: Seq<u8>)
    ensures
        le_value(s) < pow256(s.len()),
    decreases s.len(),
{
    if s.len() > 0 {
        lemma_le_value_bound(s.drop_last());
        let p = pow256((s.len() - 1) as nat);
        lemma_pow256_pos((s.len() - 1) as nat);
        assert(s.last() as nat * p <= 255 * p) by (nonlinear_arith)
            requires
                s.last() <= 255,
                p >= 1,
        ;
    }
}

/// The edge's word 0 spells `addr` in little-endian byte order.
pub open spec fn word_bytes(w: Seq<u8>, addr: u64) -> bool {
    w.len() == 8 && le_value(w) == addr
}

/// The uniform 16-byte tagged edge descriptor of the trie.
#[derive(Clone, Copy, Debug)]
pub struct Edge {
    w0: [u8; 8],
    aux: [u8; 7],
    tag: u8,
}

impl Edge {
    /// Word-0 bytes.
    pub closed spec fn w0_spec(&self) -> Seq<u8> {
        self.w0@
    }

    /// Auxiliary bytes.
    pub closed spec fn aux_spec(&self) -> Seq<u8> {
        self.aux@
    }

    /// The raw tag byte.
    pub closed spec fn tag_spec(&self) -> u8 {
        self.tag
    }

    /// `pop0` of a child at `level`: the low `level` aux bytes, little-endian.
    pub closed spec fn pop0_spec(&self, level: u8) -> nat {
        le_value(self.aux@.take(level as int))
    }

    /// Word 0 holds eight bytes and the aux field seven.
    pub proof fn lemma_aux_len(&self)
        ensures
            self.aux_spec().len() == 7,
            self.w0_spec().len() == 8,
    {
    }

    /// A `pop0` field of `level` bytes holds a value below `256^level`.
    pub proof fn lemma_pop0_bound(&self, level: u8)
        requires
            1 <= level <= 7,
        ensures
            self.pop0_spec(level) < pow256(level as nat),
    {
        lemma_le_value_bound(self.aux@.take(level as int));
    }

    /// The null edge: empty subexpanse.
    pub fn null() -> (e: Edge)
        ensures
            e.tag_spec() == edge_type_code(EdgeType::Null),
            e.w0_spec() == seq![0u8; 8],
            e.aux_spec() == seq![0u8; 7],
    {
        let e = Edge { w0: [0u8; 8], aux: [0u8; 7], tag: EdgeType::Null.as_u8() };
        proof {
            assert(e.w0@ =~= seq![0u8; 8]);
            assert(e.aux@ =~= seq![0u8; 7]);
        }
        e
    }

    /// Builds an edge referring to child node `addr`, with a zero aux field.
    pub fn new_node(addr: u64, tag: u8) -> (e: Edge)
        ensures
            word_bytes(e.w0_spec(), addr),
            e.aux_spec() == seq![0u8; 7],
            e.tag_spec() == tag,
    {
        let mut w0 = [0u8; 8];
        let mut v = addr;
        let mut i: usize = 0;
        assert(pow256(0) == 1);
        assert(addr as nat / 1 == addr as nat);
        assert(addr as nat % 1 == 0);
        assert(w0@.take(0) =~= Seq::<u8>::empty());
        while i < 8
            invariant
                0 <= i <= 8,
                w0@.len() == 8,
                v as nat == addr as nat / pow256(i as nat),
                le_value(w0@.take(i as int)) == addr as nat % pow256(i as nat),
            decreases 8 - i,
        {
            proof {
                lemma_le_step(w0@, i as int, (v % 256) as u8, addr as nat);
                lemma_pow256_pos(i as nat);
                vstd::arithmetic::div_mod::lemma_div_denominator(
                    addr as int,
                    pow256(i as nat) as int,
                    256,
                );
            }
            w0[i] = (v % 256) as u8;
            v = v / 256;
            i = i + 1;
        }
        proof {
            lemma_pow256_values();
            assert(w0@.take(8) =~= w0@);
            vstd::arithmetic::div_mod::lemma_small_mod(addr as nat, pow256(8));
        }
        let e = Edge { w0, aux: [0u8; 7], tag };
        proof {
            assert(e.aux@ =~= seq![0u8; 7]);
        }
        e
    }

    /// The raw tag byte.
    pub fn tag_byte(&self) -> (b: u8)
        ensures
            b == self.tag_spec(),
    {
        self.tag
    }

    /// The decoded tag, if the byte is a valid encoding.
    pub fn tag(&self) -> (r: Option<EdgeTag>)
        ensures
            match r {
                Some(t) => t.code() == self.tag_spec() && (t matches EdgeTag::Immed(im) ==> im.wf()),
                None => !tag_decodes(self.tag_spec()),
            },
    {
        EdgeTag::from_u8(self.tag)
    }

    /// Overwrites the tag byte.
    pub fn set_tag(&mut self, tag: u8)
        ensures
            final(self).tag_spec() == tag,
            final(self).w0_spec() == old(self).w0_spec(),
            final(self).aux_spec() == old(self).aux_spec(),
    {
        self.tag = tag;
    }

    /// True for the null edge.
    pub fn is_null(&self) -> (r: bool)
        ensures
            r == (self.tag_spec() == edge_type_code(EdgeType::Null)),
    {
        self.tag == EdgeType::Null.as_u8()
    }

    /// The eight word-0 bytes (immediate key payload).
    pub fn imm_bytes(&self) -> (b: [u8; 8])
        ensures
            b@ == self.w0_spec(),
    {
        self.w0
    }

    /// The node word 0 refers to, as a little-endian address.
    pub fn node_addr(&self) -> (a: u64)
        ensures
            a as nat == le_value(self.w0_spec()),
    {
        proof {
            assert(self.w0@.subrange(0, 8) =~= self.w0@);
        }
        crate::mutate::le_read(self.w0.as_slice(), 0, 8)
    }

    /// Stores immediate key-payload bytes into word 0.
    pub fn set_imm_bytes(&mut self, bytes: [u8; 8])
        ensures
            final(self).w0_spec() == bytes@,
            final(self).aux_spec() == old(self).aux_spec(),
            final(self).tag_spec() == old(self).tag_spec(),
    {
        self.w0 = bytes;
    }

    /// The full 15-byte immediate payload: word 0 followed by the aux bytes.
    pub fn imm_payload(&self) -> (out: [u8; 15])
        ensures
            out@ == self.w0_spec() + self.aux_spec(),
    {
        let mut out = [0u8; 15];
        let mut i: usize = 0;
        while i < 15
            invariant
                0 <= i <= 15,
                out@.len() == 15,
                forall|j: int| 0 <= j < i ==> out@[j] == (self.w0_spec() + self.aux@)[j],
            decreases 15 - i,
        {
            if i < 8 {
                out[i] = self.w0[i];
            } else {
                out[i] = self.aux[i - 8];
            }
            i = i + 1;
        }
        proof {
            assert(out@ =~= self.w0_spec() + self.aux@);
        }
        out
    }

    /// The seven aux bytes.
    pub fn aux_bytes(&self) -> (b: &[u8; 7])
        ensures
            b@ == self.aux_spec(),
    {
        &self.aux
    }

    /// Writes the aux bytes wholesale.
    pub fn set_aux_bytes(&mut self, bytes: [u8; 7])
        ensures
            final(self).aux_spec() == bytes@,
            final(self).w0_spec() == old(self).w0_spec(),
            final(self).tag_spec() == old(self).tag_spec(),
    {
        self.aux = bytes;
    }

    /// Clears one aux byte.
    pub fn clear_aux_byte(&mut self, i: usize)
        requires
            i < 7,
        ensures
            final(self).aux_spec() == old(self).aux_spec().update(i as int, 0u8),
            final(self).w0_spec() == old(self).w0_spec(),
            final(self).tag_spec() == old(self).tag_spec(),
    {
        self.aux[i] = 0;
    }

    /// Subtree population minus one, for a child at `level` (1..=7).
    pub fn pop0(&self, level: u8) -> (r: u64)
        requires
            1 <= level <= 7,
        ensures
            r as nat == self.pop0_spec(level),
    {
        let mut v: u64 = 0;
        let mut pw: u64 = 1;
        let mut i: usize = 0;
        while i < level as usize
            invariant
                0 <= i <= level <= 7,
                self.aux@.len() == 7,
                i < level ==> pw as nat == pow256(i as nat),
                v as nat == le_value(self.aux@.take(i as int)),
            decreases level - i,
        {
            proof {
                lemma_le_value_bound(self.aux@.take(i as int));
                lemma_pow256_values();
                crate::types::lemma_pow256_mono(i as nat, 6);
                assert(self.aux@.take(i as int + 1).drop_last() =~= self.aux@.take(i as int));
                let a = self.aux@[i as int] as nat;
                let p = pw as nat;
                assert(a * p <= 255 * p) by (nonlinear_arith)
                    requires
                        a <= 255,
                ;
            }
            v = v + (self.aux[i] as u64) * pw;
            if i + 1 < level as usize {
                proof {
                    lemma_pow256_values();
                    crate::types::lemma_pow256_mono(i as nat + 1, 6);
                }
                pw = pw * 256;
            } else {
                proof {
                    lemma_pow256_values();
                }
            }
            i = i + 1;
        }
        v
    }

    /// Stores `pop0` for a child at `level` (1..=7) into the low `level` aux
    /// bytes, keeping the decode bytes above `level` and the tag. A value
    /// wider than `level` bytes keeps only its low `level` bytes.
    pub fn set_pop0(&mut self, level: u8, pop0: u64)
        requires
            1 <= level <= 7,
        ensures
            final(self).pop0_spec(level) == pop0 as nat % pow256(level as nat),
            final(self).aux_spec().skip(level as int) == old(self).aux_spec().skip(level as int),
            final(self).w0_spec() == old(self).w0_spec(),
            final(self).tag_spec() == old(self).tag_spec(),
    {
        let mut v = pop0;
        let mut i: usize = 0;
        assert(pow256(0) == 1);
        assert(pop0 as nat / 1 == pop0 as nat);
        assert(pop0 as nat % 1 == 0);
        assert(self.aux@.take(0) =~= Seq::<u8>::empty());
        while i < level as usize
            invariant
                0 <= i <= level <= 7,
                self.aux@.len() == 7,
                v as nat == pop0 as nat / pow256(i as nat),
                le_value(self.aux@.take(i as int)) == pop0 as nat % pow256(i as nat),
                forall|j: int| level <= j < 7 ==> self.aux@[j] == old(self).aux@[j],
                self.w0_spec() == old(self).w0_spec(),
                self.tag == old(self).tag,
            decreases level - i,
        {
            proof {
                lemma_le_step(self.aux@, i as int, (v % 256) as u8, pop0 as nat);
                lemma_pow256_pos(i as nat);
                vstd::arithmetic::div_mod::lemma_div_denominator(
                    pop0 as int,
                    pow256(i as nat) as int,
                    256,
                );
            }
            self.aux[i] = (v % 256) as u8;
            v = v / 256;
            i = i + 1;
        }
        proof {
            assert(self.aux@.skip(level as int) =~= old(self).aux@.skip(level as int));
        }
    }

    /// The decode bytes for a child at `level`: aux bytes `level..7`.
    pub fn decode_bytes(&self, level: u8) -> (r: Vec<u8>)
        requires
            1 <= level <= 7,
        ensures
            r@ == self.aux_spec().skip(level as int),
    {
        let mut r: Vec<u8> = Vec::new();
        let mut i: usize = level as usize;
        while i < 7
            invariant
                level <= i <= 7,
                self.aux@.len() == 7,
                r@ == self.aux@.subrange(level as int, i as int),
            decreases 7 - i,
        {
            r.push(self.aux[i]);
            i = i + 1;
            proof {
                assert(r@ =~= self.aux@.subrange(level as int, i as int));
            }
        }
        proof {
            assert(r@ =~= self.aux@.skip(level as int));
        }
        r
    }

    /// Writes `bytes` into the decode region for a child at `level`.
    pub fn set_decode_bytes(&mut self, level: u8, bytes: &[u8])
        requires
            1 <= level <= 7,
            level as int + bytes@.len() <= 7,
        ensures
            final(self).aux_spec() == old(self).aux_spec().take(level as int) + bytes@ + old(self).aux_spec().skip(
                level as int + bytes@.len(),
            ),
            final(self).w0_spec() == old(self).w0_spec(),
            final(self).tag_spec() == old(self).tag_spec(),
            final(self).pop0_spec(level) == old(self).pop0_spec(level),
    {
        let mut i: usize = 0;
        while i < bytes.len()
            invariant
                0 <= i <= bytes@.len(),
                level as int + bytes@.len() <= 7,
                self.aux@.len() == 7,
                forall|j: int| 0 <= j < level ==> self.aux@[j] == old(self).aux@[j],
                forall|j: int| 0 <= j < i ==> self.aux@[level + j] == bytes@[j],
                forall|j: int| level + i <= j < 7 ==> self.aux@[j] == old(self).aux@[j],
                self.w0_spec() == old(self).w0_spec(),
                self.tag == old(self).tag,
            decreases bytes@.len() - i,
        {
            self.aux[level as usize + i] = bytes[i];
            i = i + 1;
        }
        proof {
            assert(self.aux@ =~= old(self).aux@.take(level as int) + bytes@ + old(self).aux@.skip(
                level as int + bytes@.len(),
            ));
            assert(self.aux@.take(level as int) =~= old(self).aux@.take(level as int));
        }
    }
}

/// One step of writing `x` byte by byte: appending its next digit extends
/// the little-endian prefix from `x mod 256^i` to `x mod 256^(i+1)`.
pub proof fn lemma_le_step(s: Seq<u8>, i: int, b: u8, x: nat)
    requires
        0 <= i < s.len(),
        le_value(s.take(i)) == x % pow256(i as nat),
        b as nat == (x / pow256(i as nat)) % 256,
    ensures
        le_value(s.update(i, b).take(i + 1)) == x % pow256((i + 1) as nat),
{
    let t = s.update(i, b).take(i + 1);
    assert(t.drop_last() =~= s.take(i));
    let p = pow256(i as nat);
    lemma_pow256_pos(i as nat);
    vstd::arithmetic::div_mod::lemma_mod_breakdown(x as int, p as int, 256);
    assert(pow256((i + 1) as nat) == p * 256);
    assert(b as nat * p == p * ((x / p) % 256)) by (nonlinear_arith)
        requires
            b as nat == (x / p) % 256,
    ;
}

/// Common 16-byte header of linear branches: version counter, child count,
/// node level, and the sorted digit array of the populated children.
#[derive(Clone, Copy, Debug)]
pub struct BranchHeader {
    /// Version counter (odd = mutation in progress).
    pub version: u32,
    /// Number of populated child edges.
    pub num: u8,
    /// The node's own level.
    pub level: u8,
    /// Padding.
    pub pad: [u8; 2],
    /// Sorted digits of the populated children; slot 7 is unused padding.
    pub digits: [u8; 8],
}

impl BranchHeader {
    /// An empty header (version 0, no children) at `level`.
    pub fn new(level: u8) -> (h: BranchHeader)
        ensures
            h.version == 0,
            h.num == 0,
            h.level == level,
            h.digits@ == seq![0u8; 8],
    {
        let h = BranchHeader { version: 0, num: 0, level, pad: [0u8; 2], digits: [0u8; 8] };
        proof {
            assert(h.digits@ =~= seq![0u8; 8]);
        }
        h
    }

    /// Slot of `digit` among the populated children, if present.
    pub fn find(&self, digit: u8) -> (r: Option<usize>)
        ensures
            match r {
                Some(i) => first_slot_of(self.digits@, self.num as int, digit, i as int),
                None => forall|j: int|
                    0 <= j < self.num && j < 8 ==> self.digits@[j] != digit,
            },
    {
        find_byte_8(&self.digits, self.num as usize, digit)
    }
}

/// One-cache-line linear branch: header + up to 3 child edges.
#[derive(Debug)]
pub struct BranchL3 {
    /// Header (version, count, digits).
    pub hdr: BranchHeader,
    /// Child edges, `hdr.num` of them populated, in digit order.
    pub edges: [Edge; BRANCH_L3_CAP],
}

impl BranchL3 {
    /// An empty branch at `level`.
    pub fn new(level: u8) -> (b: BranchL3)
        ensures
            b.hdr.num == 0,
            b.hdr.version == 0,
            b.hdr.level == level,
            b.hdr.digits@ == seq![0u8; 8],
            forall|i: int| 0 <= i < 3 ==> #[trigger] b.edges@[i].tag_spec() == edge_type_code(EdgeType::Null),
            forall|i: int| 0 <= i < 3 ==> #[trigger] b.edges@[i].w0_spec() == seq![0u8; 8],
            forall|i: int| 0 <= i < 3 ==> #[trigger] b.edges@[i].aux_spec() == seq![0u8; 7],
    {
        let e = Edge::null();
        BranchL3 { hdr: BranchHeader::new(level), edges: [e, e, e] }
    }
}

/// Two-cache-line linear branch: header + up to 7 child edges.
#[derive(Debug)]
pub struct BranchL7 {
    /// Header (version, count, digits).
    pub hdr: BranchHeader,
    /// Child edges, `hdr.num` of them populated, in digit order.
    pub edges: [Edge; BRANCH_L7_CAP],
}

impl BranchL7 {
    /// An empty branch at `level`.
    pub fn new(level: u8) -> (b: BranchL7)
        ensures
            b.hdr.num == 0,
            b.hdr.version == 0,
            b.hdr.level == level,
            b.hdr.digits@ == seq![0u8; 8],
            forall|i: int| 0 <= i < 7 ==> #[trigger] b.edges@[i].tag_spec() == edge_type_code(EdgeType::Null),
            forall|i: int| 0 <= i < 7 ==> #[trigger] b.edges@[i].w0_spec() == seq![0u8; 8],
            forall|i: int| 0 <= i < 7 ==> #[trigger] b.edges@[i].aux_spec() == seq![0u8; 7],
    {
        let e = Edge::null();
        BranchL7 { hdr: BranchHeader::new(level), edges: [e, e, e, e, e, e, e] }
    }
}

/// Bitmap branch: 256-bit membership bitmap over eight packed child-edge
/// subarrays (one per 32-digit subexpanse), cached per-subexpanse counts,
/// the version counter and the node's level.
#[derive(Debug)]
pub struct BranchB {
    /// Membership bitmap over the 256 possible digits.
    pub bitmap: Bitmap256,
    /// Packed edge subarrays, one per 32-digit subexpanse; 0 when empty.
    pub subarrays: [u64; 8],
    /// Cached population count of each subexpanse's subarray.
    pub pop_counts: [u16; 8],
    /// Version counter.
    pub version: u32,
    /// The node's own level.
    pub level: u8,
}

impl BranchB {
    /// An empty branch at `level`.
    pub fn new(level: u8) -> (b: BranchB)
        ensures
            b.bitmap.is_empty_spec(),
            forall|i: int| 0 <= i < 8 ==> #[trigger] b.subarrays@[i] == 0,
            forall|i: int| 0 <= i < 8 ==> #[trigger] b.pop_counts@[i] == 0,
            b.version == 0,
            b.level == level,
    {
        BranchB {
            bitmap: Bitmap256::new(),
            subarrays: [0u64; 8],
            pop_counts: [0u16; 8],
            version: 0,
            level,
        }
    }
}

/// Uncompressed branch: 256 child edges direct-indexed by digit.
#[derive(Debug)]
pub struct BranchU {
    /// Version counter (odd = mutation in progress).
    pub version: u32,
    /// One edge per possible digit (null tag = empty subexpanse).
    pub edges: [Edge; BRANCH_FANOUT],
}

impl BranchU {
    /// An empty branch.
    pub fn new() -> (b: BranchU)
        ensures
            b.version == 0,
            forall|i: int| 0 <= i < 256 ==> #[trigger] b.edges@[i].tag_spec() == edge_type_code(EdgeType::Null),
            forall|i: int| 0 <= i < 256 ==> #[trigger] b.edges@[i].w0_spec() == seq![0u8; 8],
            forall|i: int| 0 <= i < 256 ==> #[trigger] b.edges@[i].aux_spec() == seq![0u8; 7],
    {
        let e = Edge::null();
        let edges: [Edge; BRANCH_FANOUT] = [e; BRANCH_FANOUT];
        BranchU { version: 0, edges }
    }
}

/// One-cache-line bitmap leaf for key presence: membership of the final
/// key byte is the bitmap itself.
#[derive(Debug)]
pub struct LeafBitmap1 {
    /// Membership of each possible final byte.
    pub bitmap: Bitmap256,
    /// Version counter.
    pub version: u32,
}

impl LeafBitmap1 {
    /// An empty leaf.
    pub fn new() -> (l: LeafBitmap1)
        ensures
            l.bitmap.is_empty_spec(),
            l.version == 0,
    {
        LeafBitmap1 { bitmap: Bitmap256::new(), version: 0 }
    }
}

/// Bitmap leaf for maps: the bitmap plus eight value-subarray references,
/// one per 32-digit subexpanse.
#[derive(Debug)]
pub struct LeafBitmapL {
    /// Membership of each possible final byte.
    pub bitmap: Bitmap256,
    /// Packed value subarrays, one per 32-digit subexpanse; 0 when empty.
    pub values: [u64; 8],
    /// Version counter.
    pub version: u32,
}

impl LeafBitmapL {
    /// An empty leaf.
    pub fn new() -> (l: LeafBitmapL)
        ensures
            l.bitmap.is_empty_spec(),
            forall|i: int| 0 <= i < 8 ==> #[trigger] l.values@[i] == 0,
            l.version == 0,
    {
        LeafBitmapL { bitmap: Bitmap256::new(), values: [0u64; 8], version: 0 }
    }
}

impl Default for Edge {
    /// The null edge.
    fn default() -> (e: Edge)
        ensures
            e.tag_spec() == edge_type_code(EdgeType::Null),
            e.w0_spec() == seq![0u8; 8],
            e.aux_spec() == seq![0u8; 7],
    {
        Edge::null()
    }
}

} // verus!
