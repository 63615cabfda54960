//! Navigation: composing keys from branch digits and suffixes, the expanse
//! position of a skipping leaf, reading immediate keys and values, a
//! subtree's population from its edge, searching a linear leaf, and the
//! forward and backward search over a trie held in an arena.

use vstd::prelude::*;
use crate::bits::Bitmap256;
use crate::node::{BranchB, BranchHeader, BranchU, Edge, LeafBitmap1, le_value};
use crate::branch_forms::{sub_rank, subs_match, views};
use crate::types::{EdgeTag, EdgeType, ImmedType, lemma_pow256_pos, lemma_pow256_values, pow256, tag_decodes};
use crate::mutate::{
    decode_spec, decode_value, immed_keys, immed_map_keys, key_low, le_read, lemma_shift_pow256, packed_key, read_packed,
    ImmedBuf,
};

verus! {

/// Facts about placing a byte above a remainder.
proof fn lemma_compose_bits(d: u64, rem: u64, s: u64)
    by (bit_vector)
    requires
        d < 256,
        s <= 56,
        rem < (1u64 << s),
    ensures
        (d << s) | rem == d * (1u64 << s) + rem,
{
}

/// Composes a branch digit at `level` with a suffix from the level below.
pub fn compose(d: u8, rem: u64, level: u8) -> (r: u64)
    requires
        1 <= level <= 8,
        rem < crate::types::pow256((level - 1) as nat),
    ensures
        r as nat == d as nat * crate::types::pow256((level - 1) as nat) + rem as nat,
{
    let s: u64 = ((level - 1) * 8) as u64;
    proof {
        lemma_shift_pow256((level - 1) as u8);
        lemma_compose_bits(d as u64, rem, s);
    }
    ((d as u64) << s) | rem
}

/// A skipping leaf's expanse position `(decode value, shift)`: its full keys
/// are `decode << shift | low`. A non-skipping leaf gives `(0, _)`.
pub fn skip_parts(edge: &Edge, kb: u8, level: u8) -> (r: (u64, u32))
    requires
        1 <= kb <= 8,
        kb < level ==> level <= 7,
    ensures
        r.0 as nat == if kb < level {
            decode_spec(*edge, kb, level)
        } else {
            0
        },
        r.1 == 8 * kb,
{
    let dv = if kb < level {
        decode_value(edge, kb, level)
    } else {
        0
    };
    (dv, 8 * (kb as u32))
}

/// The sorted keys of an immediate edge of either flavor.
pub fn immed_suffixes<const MAP: bool>(edge: &Edge, im: ImmedType) -> (out: ImmedBuf<u64>)
    requires
        im.wf(),
        MAP ==> im.count * im.kb <= 7,
    ensures
        out.wf(),
        out@.len() == im.count,
        forall|i: int| 0 <= i < im.count ==> out@[i] as nat == packed_key(
            if MAP {
                edge.aux_spec()
            } else {
                edge.w0_spec() + edge.aux_spec()
            },
            im.kb as int,
            i,
        ),
{
    if MAP {
        immed_map_keys(edge, im)
    } else {
        immed_keys(edge, im)
    }
}

/// The population an edge records for its subtree: 0 for null, the key
/// count of an immediate, otherwise `pop0 + 1` read at the width the form
/// stores it: a linear leaf's key width, 1 for a bitmap leaf, a linear or
/// bitmap branch's own level `form_level`, else the slot's `level`.
pub open spec fn edge_pop_spec(edge: Edge, level: u8, form_level: u8) -> nat {
    let b = edge.tag_spec();
    if b == 0 {
        0
    } else if b >= 0x80 {
        ((b - 0x80) % 16 + 1) as nat
    } else if 5 <= b <= 11 {
        edge.pop0_spec((b - 4) as u8) + 1
    } else if b == 12 {
        edge.pop0_spec(1) + 1
    } else if 1 <= b <= 3 {
        edge.pop0_spec(form_level) + 1
    } else {
        edge.pop0_spec(level) + 1
    }
}

/// Population of a child subtree read from its edge; `form_level` is the
/// level a linear or bitmap branch behind the edge sits at (below `level`
/// when the edge skips levels).
pub fn edge_pop(edge: &Edge, level: u8, form_level: u8) -> (p: u64)
    requires
        tag_decodes(edge.tag_spec()),
        1 <= level <= 7,
        1 <= form_level <= 7,
    ensures
        p as nat == edge_pop_spec(*edge, level, form_level),
{
    proof {
        edge.lemma_pop0_bound(level);
        edge.lemma_pop0_bound(form_level);
        edge.lemma_pop0_bound(1);
        lemma_pow256_values();
        crate::types::lemma_pow256_mono(level as nat, 7);
        crate::types::lemma_pow256_mono(form_level as nat, 7);
    }
    match edge.tag() {
        Some(EdgeTag::Kind(EdgeType::Null)) => 0,
        Some(EdgeTag::Immed(im)) => {
            proof {
                let b = edge.tag_spec();
                assert(im.count <= 15) by (nonlinear_arith)
                    requires
                        1 <= im.kb,
                        im.count <= 15usize / (im.kb as usize),
                ;
                assert(0x80 + (im.kb - 1) * 16 + (im.count - 1) < 256);
                assert(b == 0x80 + (im.kb - 1) * 16 + (im.count - 1));
                assert((b - 0x80) % 16 == im.count - 1);
            }
            im.key_count() as u64
        },
        Some(EdgeTag::Kind(t)) => {
            match t.leaf_key_bytes() {
                Some(kb) => {
                    proof {
                        edge.lemma_pop0_bound(kb);
                        crate::types::lemma_pow256_mono(kb as nat, 7);
                    }
                    edge.pop0(kb) + 1
                },
                None => match t {
                    EdgeType::LeafB1 => edge.pop0(1) + 1,
                    EdgeType::BranchL3 | EdgeType::BranchL7 | EdgeType::BranchB => edge.pop0(form_level) + 1,
                    _ => edge.pop0(level) + 1,
                },
            }
        },
        None => {
            proof {
                assert(false);
            }
            0
        },
    }
}

/// The key at `slot` of a linear leaf's packed key array.
pub fn leaf_suffix(keys: &[u8], kb: u8, pop: usize, slot: usize) -> (k: u64)
    requires
        1 <= kb <= 7,
        slot < pop,
        pop * kb <= keys@.len(),
    ensures
        k as nat == packed_key(keys@, kb as int, slot as int),
{
    proof {
        assert((slot + 1) * kb <= pop * kb) by (nonlinear_arith)
            requires
                slot + 1 <= pop,
        ;
    }
    read_packed(keys, slot, kb as usize)
}

/// The packed keys of a leaf ascend.
pub open spec fn packed_ascending(keys: Seq<u8>, kb: int, pop: int) -> bool {
    forall|i: int, j: int| 0 <= i < j < pop ==> packed_key(keys, kb, i) < packed_key(keys, kb, j)
}

/// Binary search of a linear leaf for the first slot whose key is at least
/// `suffix`. On any leaf the slot returned has a smaller key just before it
/// and a key at least `suffix` at it; on an ascending leaf it is the exact
/// lower bound.
pub fn leaf_lower_bound(keys: &[u8], kb: u8, pop: usize, suffix: u64) -> (lo: usize)
    requires
        1 <= kb <= 7,
        pop * kb <= keys@.len(),
    ensures
        lo <= pop,
        lo > 0 ==> packed_key(keys@, kb as int, lo - 1) < suffix,
        lo < pop ==> packed_key(keys@, kb as int, lo as int) >= suffix,
        packed_ascending(keys@, kb as int, pop as int) ==> {
            &&& forall|i: int| 0 <= i < lo ==> packed_key(keys@, kb as int, i) < suffix
            &&& forall|i: int| lo <= i < pop ==> packed_key(keys@, kb as int, i) >= suffix
        },
{
    let mut lo: usize = 0;
    let mut hi: usize = pop;
    while lo < hi
        invariant
            1 <= kb <= 7,
            pop * kb <= keys@.len(),
            lo <= hi <= pop,
            lo > 0 ==> packed_key(keys@, kb as int, lo - 1) < suffix,
            hi < pop ==> packed_key(keys@, kb as int, hi as int) >= suffix,
            packed_ascending(keys@, kb as int, pop as int) ==> {
                &&& forall|i: int| 0 <= i < lo ==> packed_key(keys@, kb as int, i) < suffix
                &&& forall|i: int| hi <= i < pop ==> packed_key(keys@, kb as int, i) >= suffix
            },
        decreases hi - lo,
    {
        let mid = lo + (hi - lo) / 2;
        if leaf_suffix(keys, kb, pop, mid) < suffix {
            lo = mid + 1;
        } else {
            hi = mid;
        }
    }
    lo
}

/// The value at `slot` of a map immediate: a single value sits inline in
/// word 0; several live in the value array `vals` word 0 refers to.
pub fn immed_value(edge: &Edge, im: ImmedType, vals: &[u64], slot: usize) -> (v: u64)
    requires
        im.wf(),
        im.count > 1 ==> slot < vals@.len(),
    ensures
        im.count == 1 ==> v as nat == le_value(edge.w0_spec()),
        im.count != 1 ==> v == vals@[slot as int],
{
    if im.key_count() == 1 {
        let w = edge.imm_bytes();
        proof {
            edge.lemma_aux_len();
            assert(w@.subrange(0, 8) =~= w@);
        }
        le_read(w.as_slice(), 0, 8)
    } else {
        vals[slot]
    }
}

// ---------------------------------------------------------------------------
// Walking a trie held in an arena
// ---------------------------------------------------------------------------

/// A node of a trie held in an arena, at the index its incoming edge's
/// word 0 spells.
pub enum NodeData {
    /// A linear branch: its header and child slots.
    Linear { hdr: BranchHeader, edges: Vec<Edge> },
    /// A bitmap branch and its eight child subarrays.
    Bitmap { branch: BranchB, subs: Vec<Vec<Edge>> },
    /// An uncompressed branch.
    Uncompressed { slots: BranchU },
    /// A linear leaf's packed keys (and, for maps, its values).
    Leaf { keys: Vec<u8>, values: Vec<u64> },
    /// A bitmap leaf of a set.
    Bits { leaf: LeafBitmap1 },
}

/// The arena index an edge refers to.
pub open spec fn node_index(e: Edge) -> int {
    le_value(e.w0_spec()) as int
}

/// The skipped prefix of a form of level `b` under a slot at `level`: its
/// decode digits as a number, or 0 when nothing is skipped.
pub open spec fn skip_prefix(e: Edge, b: int, level: int) -> int {
    if b < level {
        decode_spec(e, b as u8, level as u8) as int
    } else {
        0
    }
}

/// Key width of an immediate tag.
pub open spec fn imm_kb(t: u8) -> int {
    (t - 0x80) / 16 + 1
}

/// Key count of an immediate tag.
pub open spec fn imm_count(t: u8) -> int {
    (t - 0x80) % 16 + 1
}

/// `k` lies under digit `d` of a branch at level `bl` whose keys start at
/// `base`.
pub open spec fn in_slot(base: int, d: int, bl: nat, k: int) -> bool {
    base + d * pow256((bl - 1) as nat) <= k < base + d * pow256((bl - 1) as nat) + pow256((bl - 1) as nat)
}

/// The part of `k` below digit `d` of a branch at level `bl` whose keys
/// start at `base`.
pub open spec fn slot_rem(base: int, d: int, bl: nat, k: int) -> int {
    k - base - d * pow256((bl - 1) as nat)
}

/// Key `k` (a suffix of `level` bytes) is in the subtree below edge `e`.
pub open spec fn key_in(ar: Seq<NodeData>, e: Edge, level: nat, k: int) -> bool
    decreases level,
{
    let t = e.tag_spec();
    let a = node_index(e);
    if !(0 <= k < pow256(level)) || level == 0 {
        false
    } else if t == 0 {
        false
    } else if t >= 0x80 {
        exists|i: int|
            0 <= i < imm_count(t) && k == #[trigger] packed_key(e.w0_spec() + e.aux_spec(), imm_kb(t), i)
    } else if t == 14 {
        true
    } else if !(0 <= a < ar.len()) {
        false
    } else if 5 <= t <= 11 {
        let kb = t - 4;
        match ar[a] {
            NodeData::Leaf { keys, values } => exists|i: int|
                0 <= i < e.pop0_spec(kb as u8) + 1 && k == skip_prefix(e, kb, level as int) * pow256(kb as nat)
                    + #[trigger] packed_key(keys@, kb, i),
            _ => false,
        }
    } else if t == 12 {
        match ar[a] {
            NodeData::Bits { leaf } => {
                let base = skip_prefix(e, 1, level as int) * 256;
                base <= k < base + 256 && leaf.bitmap.has((k - base) as u8)
            },
            _ => false,
        }
    } else if t == 1 || t == 2 {
        match ar[a] {
            NodeData::Linear { hdr, edges } => {
                let bl = hdr.level as nat;
                let base = skip_prefix(e, bl as int, level as int) * pow256(bl);
                &&& 2 <= bl <= level
                &&& exists|i: int|
                    0 <= i < hdr.num && i < edges@.len() && #[trigger] in_slot(base, hdr.digits@[i] as int, bl, k)
                        && key_in(ar, edges@[i], (bl - 1) as nat, slot_rem(base, hdr.digits@[i] as int, bl, k))
            },
            _ => false,
        }
    } else if t == 3 {
        match ar[a] {
            NodeData::Bitmap { branch, subs } => {
                let bl = branch.level as nat;
                let base = skip_prefix(e, bl as int, level as int) * pow256(bl);
                &&& 2 <= bl <= level
                &&& exists|d: int|
                    0 <= d < 256 && branch.bitmap.has(d as u8) && #[trigger] in_slot(base, d, bl, k) && key_in(
                        ar,
                        views(subs@)[d / 32][sub_rank(branch.bitmap, d) as int],
                        (bl - 1) as nat,
                        slot_rem(base, d, bl, k),
                    )
            },
            _ => false,
        }
    } else if t == 4 {
        match ar[a] {
            NodeData::Uncompressed { slots } => {
                &&& 2 <= level
                &&& exists|d: int|
                    0 <= d < 256 && #[trigger] in_slot(0, d, level, k) && key_in(
                        ar,
                        slots.edges@[d],
                        (level - 1) as nat,
                        slot_rem(0, d, level, k),
                    )
            },
            _ => false,
        }
    } else {
        false
    }
}

/// The subtree below edge `e`, at a slot of `level`, is a well-formed set
/// trie in the arena: every edge refers to a node of its kind, every skip
/// fits the aux field, leaf and immediate keys ascend, linear branch
/// digits ascend, and bitmap subarrays match their bitmaps.
pub open spec fn walkable(ar: Seq<NodeData>, e: Edge, level: nat) -> bool
    decreases level,
{
    let t = e.tag_spec();
    let a = node_index(e);
    if !(1 <= level <= 8) {
        false
    } else if t == 0 || t == 14 {
        true
    } else if t >= 0x80 {
        let kb = imm_kb(t);
        let n = imm_count(t);
        &&& tag_decodes(t)
        &&& kb <= level
        &&& forall|i: int, j: int|
            0 <= i < j < n ==> packed_key(e.w0_spec() + e.aux_spec(), kb, i) < packed_key(
                e.w0_spec() + e.aux_spec(),
                kb,
                j,
            )
    } else if !(0 <= a < ar.len()) {
        false
    } else if 5 <= t <= 11 {
        let kb = t - 4;
        match ar[a] {
            NodeData::Leaf { keys, values } => {
                &&& kb <= level
                &&& kb < level ==> level <= 7
                &&& (e.pop0_spec(kb as u8) + 1) * kb <= keys@.len()
                &&& packed_ascending(keys@, kb as int, (e.pop0_spec(kb as u8) + 1) as int)
            },
            _ => false,
        }
    } else if t == 12 {
        &&& ar[a] is Bits
        &&& 1 < level ==> level <= 7
    } else if t == 1 || t == 2 {
        match ar[a] {
            NodeData::Linear { hdr, edges } => {
                let bl = hdr.level as nat;
                &&& 2 <= bl <= level
                &&& bl < level ==> level <= 7
                &&& hdr.num <= edges@.len()
                &&& hdr.num <= 7
                &&& crate::branch_forms::digits_ascending(hdr)
                &&& forall|i: int| 0 <= i < hdr.num ==> walkable(ar, #[trigger] edges@[i], (bl - 1) as nat)
            },
            _ => false,
        }
    } else if t == 3 {
        match ar[a] {
            NodeData::Bitmap { branch, subs } => {
                let bl = branch.level as nat;
                &&& 2 <= bl <= level
                &&& bl < level ==> level <= 7
                &&& subs_match(branch.bitmap, views(subs@))
                &&& forall|d: int|
                    0 <= d < 256 && branch.bitmap.has(d as u8) ==> walkable(
                        ar,
                        #[trigger] views(subs@)[d / 32][sub_rank(branch.bitmap, d) as int],
                        (bl - 1) as nat,
                    )
            },
            _ => false,
        }
    } else if t == 4 {
        match ar[a] {
            NodeData::Uncompressed { slots } => {
                &&& 2 <= level
                &&& forall|d: int| 0 <= d < 256 ==> walkable(ar, #[trigger] slots.edges@[d], (level - 1) as nat)
            },
            _ => false,
        }
    } else {
        false
    }
}

/// `2^(8b)` is `256^b`.
proof fn lemma_pow2_bytes(b: nat)
    requires
        b <= 7,
    ensures
        vstd::arithmetic::power2::pow2(8 * b) == pow256(b),
{
    vstd::arithmetic::power2::lemma2_to64();
    vstd::arithmetic::power2::lemma2_to64_rest();
    lemma_pow256_values();
    if b == 0 {
        assert(8 * b == 0);
    } else if b == 1 {
        assert(8 * b == 8);
    } else if b == 2 {
        assert(8 * b == 16);
    } else if b == 3 {
        assert(8 * b == 24);
    } else if b == 4 {
        assert(8 * b == 32);
    } else if b == 5 {
        assert(8 * b == 40);
    } else if b == 6 {
        assert(8 * b == 48);
    } else {
        assert(8 * b == 56);
    }
}

/// `256^(a+b)` splits as `256^a · 256^b`.
pub proof fn lemma_pow256_add(a: nat, b: nat)
    ensures
        pow256(a + b) == pow256(a) * pow256(b),
    decreases b,
{
    if b > 0 {
        let c = (b - 1) as nat;
        lemma_pow256_add(a, c);
        assert(a + c == (a + b - 1) as nat);
        assert(pow256(a + b) == pow256((a + b - 1) as nat) * 256);
        assert(pow256(b) == pow256((b - 1) as nat) * 256);
        assert(pow256(a) * pow256((b - 1) as nat) * 256 == pow256(a) * (pow256((b - 1) as nat) * 256))
            by (nonlinear_arith);
    } else {
        assert(pow256(0) == 1);
        assert(a + b == a);
    }
}

/// Keys below a form of level `b` skipping up to `level` stay below
/// `256^level`: the skipped prefix times `256^b`, plus a `b`-byte rest.
pub(crate) proof fn lemma_prefix_bound(e: Edge, b: int, level: int)
    requires
        1 <= b <= level <= 8,
        b < level ==> level <= 7,
    ensures
        0 <= skip_prefix(e, b, level),
        skip_prefix(e, b, level) * pow256(b as nat) + pow256(b as nat) <= pow256(level as nat),
{
    lemma_pow256_pos(b as nat);
    if b < level {
        e.lemma_aux_len();
        crate::node::lemma_le_value_bound(e.aux_spec().subrange(b, level));
        lemma_pow256_add((level - b) as nat, b as nat);
        let p = skip_prefix(e, b, level);
        let q = pow256((level - b) as nat);
        let r = pow256(b as nat);
        assert(p * r + r <= q * r) by (nonlinear_arith)
            requires
                0 <= p < q,
                r >= 1,
        ;
    } else {
        assert(skip_prefix(e, b, level) == 0);
    }
}

/// A digit's slot under a branch of level `bl` lies inside the branch's
/// range, and slots of smaller digits lie wholly below those of larger.
pub(crate) proof fn lemma_slot_bounds(base: int, d: int, bl: nat, r: int)
    requires
        bl >= 1,
        0 <= d < 256,
        0 <= r < pow256((bl - 1) as nat),
    ensures
        base <= base + d * pow256((bl - 1) as nat) + r < base + pow256(bl),
        in_slot(base, d, bl, base + d * pow256((bl - 1) as nat) + r),
        slot_rem(base, d, bl, base + d * pow256((bl - 1) as nat) + r) == r,
{
    let q = pow256((bl - 1) as nat);
    assert(pow256(bl) == q * 256);
    assert(d * q + r < q * 256) by (nonlinear_arith)
        requires
            0 <= d < 256,
            0 <= r < q,
    ;
    assert(0 <= d * q) by (nonlinear_arith)
        requires
            0 <= d,
            q >= 0,
    ;
}

/// Slots of distinct digits are disjoint and ordered by digit.
pub(crate) proof fn lemma_slot_order(base: int, d1: int, d2: int, bl: nat, x1: int, x2: int)
    requires
        bl >= 1,
        d1 < d2,
        in_slot(base, d1, bl, x1),
        in_slot(base, d2, bl, x2),
    ensures
        x1 < x2,
{
    let q = pow256((bl - 1) as nat);
    assert(d1 * q + q <= d2 * q) by (nonlinear_arith)
        requires
            d1 < d2,
            q >= 0,
    ;
}

/// The digit whose slot holds `k` is `(k - base) / 256^(bl-1)`.
pub(crate) proof fn lemma_slot_of(base: int, d: int, bl: nat, k: int)
    requires
        bl >= 1,
        in_slot(base, d, bl, k),
    ensures
        (k - base) / (pow256((bl - 1) as nat) as int) == d,
        (k - base) % (pow256((bl - 1) as nat) as int) == slot_rem(base, d, bl, k),
{
    let q = pow256((bl - 1) as nat) as int;
    lemma_pow256_pos((bl - 1) as nat);
    vstd::arithmetic::div_mod::lemma_fundamental_div_mod_converse(k - base, q, d, k - base - d * q);
}

/// Splits a suffix at the `b`-byte boundary against a skipped prefix `dv`:
/// `None` when the suffix lies above every key with that prefix; else the
/// low part to search from, 0 when the suffix lies below all of them.
pub fn split_suffix(suffix: u64, b: u8, dv: u64) -> (r: Option<u64>)
    requires
        1 <= b <= 7,
    ensures
        r is None ==> suffix >= dv * pow256(b as nat) + pow256(b as nat),
        r matches Some(low) ==> low < pow256(b as nat) && (suffix < dv * pow256(b as nat) ==> low == 0) && (
        suffix >= dv * pow256(b as nat) ==> suffix == dv * pow256(b as nat) + low),
{
    let s: u64 = 8 * (b as u64);
    let p = crate::mutate::pow256(b);
    proof {
        vstd::bits::lemma_u64_shr_is_div(suffix, s);
        lemma_pow2_bytes(b as nat);
        lemma_pow256_pos(b as nat);
    }
    let hi = suffix >> s;
    proof {
        let pp = p as int;
        vstd::arithmetic::div_mod::lemma_fundamental_div_mod(suffix as int, pp);
        let q = suffix as int / pp;
        let m = suffix as int % pp;
        assert(hi == q);
        if q < dv {
            assert(pp * q + m < dv * pp) by (nonlinear_arith)
                requires
                    q < dv,
                    0 <= m < pp,
            ;
        } else if q > dv {
            assert(pp * q + m >= dv * pp + pp) by (nonlinear_arith)
                requires
                    q >= dv + 1,
                    0 <= m,
                    pp >= 1,
            ;
        } else {
            assert(pp * q == dv * pp) by (nonlinear_arith)
                requires
                    q == dv,
            ;
        }
    }
    if hi < dv {
        Some(0)
    } else if hi == dv {
        Some(key_low(suffix, b))
    } else {
        None
    }
}

/// The key `dv · 256^b + k` of a skipped prefix `dv` and a `b`-byte rest `k`.
pub fn join(dv: u64, b: u8, k: u64) -> (r: u64)
    requires
        1 <= b <= 7,
        k < pow256(b as nat),
        dv * pow256(b as nat) + pow256(b as nat) <= pow256(8),
    ensures
        r == dv * pow256(b as nat) + k,
{
    let s: u64 = 8 * (b as u64);
    proof {
        lemma_pow256_values();
        lemma_pow2_bytes(b as nat);
        lemma_shift_pow256(b);
        vstd::bits::lemma_u64_shl_is_mul(dv, s);
        assert((dv << s) | k == (dv << s) + k) by (bit_vector)
            requires
                s < 64,
                k < (1u64 << s),
        ;
    }
    (dv << s) | k
}

/// What a forward search from `suffix` owes: the smallest key of the
/// subtree at or above `suffix`, or `None` when there is none.
pub open spec fn is_next(ar: Seq<NodeData>, e: Edge, level: nat, suffix: int, r: Option<u64>) -> bool {
    match r {
        Some(k) => suffix <= k && key_in(ar, e, level, k as int) && forall|x: int|
            suffix <= x < k ==> !#[trigger] key_in(ar, e, level, x),
        None => forall|x: int| suffix <= x ==> !#[trigger] key_in(ar, e, level, x),
    }
}

/// The tag byte of an immediate names its key width and count.
pub(crate) proof fn lemma_immed_tag(im: ImmedType)
    requires
        im.wf(),
    ensures
        imm_kb(im.code()) == im.kb,
        imm_count(im.code()) == im.count,
        im.code() >= 0x80,
{
    assert(im.count <= 15) by (nonlinear_arith)
        requires
            1 <= im.kb,
            im.count <= 15usize / (im.kb as usize),
    ;
    assert(0x80 + (im.kb - 1) * 16 + (im.count - 1) < 256);
}

/// Forward search in an immediate: its packed keys, searched in order.
#[verifier::loop_isolation(false)]
fn next_immed(ar: &Vec<NodeData>, edge: &Edge, im: ImmedType, suffix: u64, level: u8) -> (r: Option<u64>)
    requires
        im.wf(),
        edge.tag_spec() == im.code(),
        walkable(ar@, *edge, level as nat),
        suffix < pow256(level as nat),
    ensures
        is_next(ar@, *edge, level as nat, suffix as int, r),
{
    let keys = immed_keys(edge, im);
    let ghost payload = edge.w0_spec() + edge.aux_spec();
    proof {
        lemma_immed_tag(im);
        lemma_pow256_values();
        crate::types::lemma_pow256_mono(im.kb as nat, level as nat);
    }
    let s = keys.as_slice();
    let n = keys.len();
    let mut i: usize = 0;
    while i < n
        invariant
            n == im.count,
            s@ == keys@,
            keys@.len() == im.count,
            0 <= i <= n,
            forall|j: int| 0 <= j < im.count ==> keys@[j] as nat == packed_key(payload, im.kb as int, j),
            forall|j: int| 0 <= j < i ==> s@[j] < suffix,
        decreases n - i,
    {
        if s[i] >= suffix {
            let k = s[i];
            proof {
                edge.lemma_aux_len();
                assert(i * im.kb + im.kb <= 15) by (nonlinear_arith)
                    requires
                        i < im.count,
                        1 <= im.kb <= 7,
                        im.count <= 15usize / (im.kb as usize),
                ;
                assert(0 <= i * im.kb) by (nonlinear_arith)
                    requires
                        0 <= i,
                        1 <= im.kb,
                ;
                crate::node::lemma_le_value_bound(payload.subrange(i * im.kb, i * im.kb + im.kb));
                assert(k < pow256(level as nat));
                assert(key_in(ar@, *edge, level as nat, k as int)) by {
                    assert(k == packed_key(payload, imm_kb(edge.tag_spec()), i as int));
                }
                assert forall|x: int| suffix <= x < k implies !#[trigger] key_in(ar@, *edge, level as nat, x) by {
                    if key_in(ar@, *edge, level as nat, x) {
                        let j = choose|j: int|
                            0 <= j < imm_count(edge.tag_spec()) && x == #[trigger] packed_key(
                                payload,
                                imm_kb(edge.tag_spec()),
                                j,
                            );
                        if j < i {
                            assert(s@[j] < suffix);
                        } else if j > i {
                            assert(packed_key(payload, im.kb as int, i as int) < packed_key(payload, im.kb as int, j));
                        }
                    }
                }
            }
            return Some(k);
        }
        i = i + 1;
    }
    proof {
        assert forall|x: int| suffix <= x implies !#[trigger] key_in(ar@, *edge, level as nat, x) by {
            if key_in(ar@, *edge, level as nat, x) {
                let j = choose|j: int|
                    0 <= j < imm_count(edge.tag_spec()) && x == #[trigger] packed_key(payload, imm_kb(edge.tag_spec()), j);
                assert(s@[j] < suffix);
            }
        }
    }
    None
}

/// The arena index of the node behind a walkable edge of a node kind.
pub(crate) fn node_of(ar: &Vec<NodeData>, edge: &Edge, level: u8) -> (a: usize)
    requires
        walkable(ar@, *edge, level as nat),
        1 <= edge.tag_spec() <= 13,
    ensures
        a as int == node_index(*edge),
        a < ar@.len(),
{
    let x = edge.node_addr();
    let n = ar.len();
    proof {
        assert(0 <= node_index(*edge) < ar@.len());
        assert(x < n);
    }
    x as usize
}

/// Forward search in a linear leaf: split the suffix at the leaf's key
/// width against its skipped prefix, then binary-search the packed keys.
#[verifier::loop_isolation(false)]
fn next_leaf(ar: &Vec<NodeData>, edge: &Edge, kb: u8, suffix: u64, level: u8) -> (r: Option<u64>)
    requires
        1 <= kb <= 7,
        edge.tag_spec() == kb + 4,
        walkable(ar@, *edge, level as nat),
        suffix < pow256(level as nat),
    ensures
        is_next(ar@, *edge, level as nat, suffix as int, r),
{
    let a = node_of(ar, edge, level);
    match &ar[a] {
        NodeData::Leaf { keys, values } => {
            proof {
                edge.lemma_pop0_bound(kb);
                lemma_pow256_values();
                crate::types::lemma_pow256_mono(kb as nat, 7);
                lemma_prefix_bound(*edge, kb as int, level as int);
            }
            let p0 = edge.pop0(kb);
            let klen = keys.len();
            proof {
                assert(p0 + 1 <= (p0 + 1) * kb) by (nonlinear_arith)
                    requires
                        kb >= 1,
                        p0 >= 0,
                ;
                assert(p0 + 1 <= klen);
            }
            let pop = p0 as usize + 1;
            let (dv, _shift) = skip_parts(edge, kb, level);
            let ghost base = dv * pow256(kb as nat);
            proof {
                assert(dv == skip_prefix(*edge, kb as int, level as int));
                crate::types::lemma_pow256_mono(level as nat, 8);
            }
            match split_suffix(suffix, kb, dv) {
                None => {
                    proof {
                        assert forall|x: int| suffix <= x implies !#[trigger] key_in(ar@, *edge, level as nat, x) by {
                            if key_in(ar@, *edge, level as nat, x) {
                                let i = choose|i: int|
                                    0 <= i < edge.pop0_spec(kb) + 1 && x == skip_prefix(*edge, kb as int, level as int)
                                        * pow256(kb as nat) + #[trigger] packed_key(keys@, kb as int, i);
                                lemma_packed_bound(keys@, kb as int, i, pop as int);
                            }
                        }
                    }
                    None
                },
                Some(low) => {
                    let slot = leaf_lower_bound(keys.as_slice(), kb, pop, low);
                    if slot == pop {
                        proof {
                            assert forall|x: int| suffix <= x implies !#[trigger] key_in(ar@, *edge, level as nat, x) by {
                                if key_in(ar@, *edge, level as nat, x) {
                                    let i = choose|i: int|
                                        0 <= i < edge.pop0_spec(kb) + 1 && x == skip_prefix(
                                            *edge,
                                            kb as int,
                                            level as int,
                                        ) * pow256(kb as nat) + #[trigger] packed_key(keys@, kb as int, i);
                                    assert(packed_key(keys@, kb as int, i) < low);
                                }
                            }
                        }
                        None
                    } else {
                        let k = leaf_suffix(keys.as_slice(), kb, pop, slot);
                        proof {
                            lemma_packed_bound(keys@, kb as int, slot as int, pop as int);
                        }
                        let r = join(dv, kb, k);
                        proof {
                            assert(key_in(ar@, *edge, level as nat, r as int));
                            assert forall|x: int| suffix <= x < r implies !#[trigger] key_in(
                                ar@,
                                *edge,
                                level as nat,
                                x,
                            ) by {
                                if key_in(ar@, *edge, level as nat, x) {
                                    let i = choose|i: int|
                                        0 <= i < edge.pop0_spec(kb) + 1 && x == skip_prefix(
                                            *edge,
                                            kb as int,
                                            level as int,
                                        ) * pow256(kb as nat) + #[trigger] packed_key(keys@, kb as int, i);
                                    if i >= slot {
                                        if i > slot {
                                            assert(packed_key(keys@, kb as int, slot as int) < packed_key(
                                                keys@,
                                                kb as int,
                                                i,
                                            ));
                                        }
                                    } else {
                                        assert(packed_key(keys@, kb as int, i) < low);
                                    }
                                }
                            }
                        }
                        Some(r)
                    }
                },
            }
        },
        _ => {
            proof {
                assert(false);
            }
            None
        },
    }
}

/// A packed key of a leaf holding `pop` keys is below `256^kb`.
pub(crate) proof fn lemma_packed_bound(keys: Seq<u8>, kb: int, i: int, pop: int)
    requires
        1 <= kb <= 8,
        0 <= i < pop,
        pop * kb <= keys.len(),
    ensures
        packed_key(keys, kb, i) < pow256(kb as nat),
{
    assert(i * kb + kb <= pop * kb) by (nonlinear_arith)
        requires
            i < pop,
            kb >= 1,
    ;
    assert(0 <= i * kb) by (nonlinear_arith)
        requires
            0 <= i,
            kb >= 1,
    ;
    crate::node::lemma_le_value_bound(keys.subrange(i * kb, i * kb + kb));
}

/// Forward search in a bitmap leaf: split the suffix at the last byte
/// against the skipped prefix, then take the next member digit.
fn next_bits(ar: &Vec<NodeData>, edge: &Edge, suffix: u64, level: u8) -> (r: Option<u64>)
    requires
        edge.tag_spec() == 12,
        walkable(ar@, *edge, level as nat),
        suffix < pow256(level as nat),
    ensures
        is_next(ar@, *edge, level as nat, suffix as int, r),
{
    let a = node_of(ar, edge, level);
    match &ar[a] {
        NodeData::Bits { leaf } => {
            proof {
                lemma_pow256_values();
                lemma_prefix_bound(*edge, 1, level as int);
                crate::types::lemma_pow256_mono(level as nat, 8);
            }
            let (dv, _shift) = skip_parts(edge, 1, level);
            let ghost base = dv * 256;
            proof {
                assert(dv == skip_prefix(*edge, 1, level as int));
            }
            match split_suffix(suffix, 1, dv) {
                None => None,
                Some(low) => {
                    if low > 255 {
                        return None;
                    }
                    match leaf.bitmap.next_set(low as u8) {
                        None => {
                            proof {
                                assert forall|x: int| suffix <= x implies !#[trigger] key_in(
                                    ar@,
                                    *edge,
                                    level as nat,
                                    x,
                                ) by {
                                    if key_in(ar@, *edge, level as nat, x) {
                                        assert(leaf.bitmap.has((x - base) as u8));
                                    }
                                }
                            }
                            None
                        },
                        Some(d) => {
                            let r = join(dv, 1, d as u64);
                            proof {
                                assert((r - base) as u8 == d);
                                assert forall|x: int| suffix <= x < r implies !#[trigger] key_in(
                                    ar@,
                                    *edge,
                                    level as nat,
                                    x,
                                ) by {
                                    if key_in(ar@, *edge, level as nat, x) {
                                        assert(leaf.bitmap.has((x - base) as u8));
                                    }
                                }
                            }
                            Some(r)
                        },
                    }
                },
            }
        },
        _ => {
            proof {
                assert(false);
            }
            None
        },
    }
}

/// Splitting a suffix of a branch of level `bl` into its digit there and
/// the rest below.
pub(crate) proof fn lemma_digit_split(s: int, bl: nat)
    requires
        1 <= bl <= 8,
        0 <= s < pow256(bl),
    ensures
        0 <= s / (pow256((bl - 1) as nat) as int) < 256,
        (s / (pow256((bl - 1) as nat) as int)) % 256 == s / (pow256((bl - 1) as nat) as int),
        in_slot(0, s / (pow256((bl - 1) as nat) as int), bl, s),
        slot_rem(0, s / (pow256((bl - 1) as nat) as int), bl, s) == s % (pow256((bl - 1) as nat) as int),
{
    let q = pow256((bl - 1) as nat) as int;
    lemma_pow256_pos((bl - 1) as nat);
    assert(pow256(bl) == q * 256);
    vstd::arithmetic::div_mod::lemma_fundamental_div_mod(s, q);
    let d = s / q;
    let m = s % q;
    assert(0 <= d < 256) by (nonlinear_arith)
        requires
            s == q * d + m,
            0 <= m < q,
            0 <= s < q * 256,
            q >= 1,
    ;
    assert(q * d == d * q) by (nonlinear_arith);
}

/// Forward search through a branch's children: the keys of a branch at
/// level `bl` whose keys start at `base` fall in digit slots; a slot below
/// the suffix's digit `d` holds only smaller keys.
pub(crate) proof fn lemma_below_digit(base: int, j: int, d: int, bl: nat, x: int, s: int)
    requires
        bl >= 1,
        j < d,
        in_slot(base, j, bl, x),
        base + d * pow256((bl - 1) as nat) <= s,
    ensures
        x < s,
{
    let q = pow256((bl - 1) as nat);
    assert(j * q + q <= d * q) by (nonlinear_arith)
        requires
            j < d,
            q >= 0,
    ;
}

/// The public forward search over a walkable subtree: the smallest key at
/// or above `suffix`.
pub fn next(ar: &Vec<NodeData>, edge: &Edge, suffix: u64, level: u8) -> (r: Option<u64>)
    requires
        walkable(ar@, *edge, level as nat),
        suffix < pow256(level as nat),
    ensures
        is_next(ar@, *edge, level as nat, suffix as int, r),
    decreases level, 1nat,
{
    match edge.tag() {
        Some(EdgeTag::Kind(EdgeType::Null)) => None,
        Some(EdgeTag::Kind(EdgeType::FullExpanse)) => {
            proof {
                assert(key_in(ar@, *edge, level as nat, suffix as int));
            }
            Some(suffix)
        },
        Some(EdgeTag::Immed(im)) => next_immed(ar, edge, im, suffix, level),
        Some(EdgeTag::Kind(t)) => {
            match t.leaf_key_bytes() {
                Some(kb) => next_leaf(ar, edge, kb, suffix, level),
                None => {
                    match t {
                        EdgeType::LeafB1 => next_bits(ar, edge, suffix, level),
                        EdgeType::BranchL3 | EdgeType::BranchL7 => next_linear(ar, edge, suffix, level),
                        EdgeType::BranchB => next_bitmap(ar, edge, suffix, level),
                        EdgeType::BranchU => next_uncompressed(ar, edge, suffix, level),
                        _ => {
                            proof {
                                assert(false);
                            }
                            None
                        },
                    }
                },
            }
        },
        None => {
            proof {
                assert(false);
            }
            None
        },
    }
}

/// Forward search through an uncompressed branch: the children from the
/// suffix's digit up, in digit order.
#[verifier::loop_isolation(false)]
fn next_uncompressed(ar: &Vec<NodeData>, edge: &Edge, suffix: u64, level: u8) -> (r: Option<u64>)
    requires
        edge.tag_spec() == 4,
        walkable(ar@, *edge, level as nat),
        suffix < pow256(level as nat),
    ensures
        is_next(ar@, *edge, level as nat, suffix as int, r),
    decreases level, 0nat,
{
    let a = node_of(ar, edge, level);
    match &ar[a] {
        NodeData::Uncompressed { slots } => {
            let ghost lv = level as nat;
            let ghost q = pow256((lv - 1) as nat) as int;
            proof {
                lemma_digit_split(suffix as int, lv);
                lemma_pow256_values();
                crate::types::lemma_pow256_mono((lv - 1) as nat, 7);
            }
            let d = crate::types::digit(suffix, level);
            let rem0 = key_low(suffix, level - 1);
            proof {
                assert(d == (suffix as int) / q);
                assert(rem0 == (suffix as int) % q);
            }
            let mut bd: u16 = d as u16;
            while bd <= 255
                invariant
                    d <= bd <= 256,
                    forall|j: int, y: int|
                        d <= j < bd && (if j == d {
                            rem0 as int
                        } else {
                            0
                        }) <= y ==> !#[trigger] key_in(ar@, slots.edges@[j], (lv - 1) as nat, y),
                decreases 256 - bd,
            {
                let child = &slots.edges[bd as usize];
                if !child.is_null() {
                    let rem = if bd == d as u16 {
                        rem0
                    } else {
                        0
                    };
                    proof {
                        assert(walkable(ar@, slots.edges@[bd as int], (lv - 1) as nat));
                    }
                    match next(ar, child, rem, level - 1) {
                        Some(r) => {
                            let res = compose(bd as u8, r, level);
                            proof {
                                lemma_slot_bounds(0, bd as int, lv, r as int);
                                assert(suffix <= res) by {
                                    lemma_slot_of(0, d as int, lv, suffix as int);
                                    if bd > d {
                                        lemma_slot_order(0, d as int, bd as int, lv, suffix as int, res as int);
                                    }
                                }
                                assert(key_in(ar@, *edge, lv, res as int));
                                assert forall|x: int| suffix <= x < res implies !#[trigger] key_in(
                                    ar@,
                                    *edge,
                                    lv,
                                    x,
                                ) by {
                                    if key_in(ar@, *edge, lv, x) {
                                        let j = choose|j: int|
                                            0 <= j < 256 && #[trigger] in_slot(0, j, lv, x) && key_in(
                                                ar@,
                                                slots.edges@[j],
                                                (lv - 1) as nat,
                                                slot_rem(0, j, lv, x),
                                            );
                                        lemma_slot_of(0, j, lv, x);
                                        if j < d {
                                            lemma_below_digit(0, j, d as int, lv, x, suffix as int);
                                        } else if j > bd {
                                            lemma_slot_order(0, bd as int, j, lv, res as int, x);
                                        } else if j == d {
                                            lemma_slot_of(0, d as int, lv, suffix as int);
                                        }
                                    }
                                }
                            }
                            return Some(res);
                        },
                        None => {},
                    }
                }
                bd = bd + 1;
            }
            proof {
                assert forall|x: int| suffix <= x implies !#[trigger] key_in(ar@, *edge, lv, x) by {
                    if key_in(ar@, *edge, lv, x) {
                        let j = choose|j: int|
                            0 <= j < 256 && #[trigger] in_slot(0, j, lv, x) && key_in(
                                ar@,
                                slots.edges@[j],
                                (lv - 1) as nat,
                                slot_rem(0, j, lv, x),
                            );
                        lemma_slot_of(0, j, lv, x);
                        if j < d {
                            lemma_below_digit(0, j, d as int, lv, x, suffix as int);
                        } else if j == d {
                            lemma_slot_of(0, d as int, lv, suffix as int);
                        }
                    }
                }
            }
            None
        },
        _ => {
            proof {
                assert(false);
            }
            None
        },
    }
}

/// The position of member digit `d` in its subexpanse's subarray.
pub(crate) fn rank_in_sub(b: &Bitmap256, d: u8) -> (r: usize)
    ensures
        r == sub_rank(*b, d as int),
        r < 32,
{
    let lo: u16 = (d as u16 / 32) * 32;
    let mut x: u16 = lo;
    let mut r: usize = 0;
    while x < d as u16
        invariant
            lo <= x <= d,
            lo == 32 * (d as int / 32),
            r == crate::branch_forms::count_set(*b, lo as int, x as int),
            r <= x - lo,
        decreases d - x,
    {
        if b.test(x as u8) {
            r = r + 1;
        }
        x = x + 1;
    }
    r
}

/// Where the suffix lands in a branch of level `bl` skipping up to
/// `level`: `None` when it lies above the branch's keys, else the part of
/// it to search below the branch, with what it implies.
pub(crate) fn branch_suffix(edge: &Edge, bl: u8, suffix: u64, level: u8) -> (r: (u64, Option<u64>))
    requires
        2 <= bl <= level <= 8,
        bl < level ==> level <= 7,
        suffix < pow256(level as nat),
    ensures
        r.0 == skip_prefix(*edge, bl as int, level as int),
        r.1 is None ==> suffix >= r.0 * pow256(bl as nat) + pow256(bl as nat),
        r.1 matches Some(s2) ==> s2 < pow256(bl as nat) && (suffix < r.0 * pow256(bl as nat) ==> s2 == 0) && (
        suffix >= r.0 * pow256(bl as nat) ==> suffix == r.0 * pow256(bl as nat) + s2),
{
    if bl < level {
        let dv = decode_value(edge, bl, level);
        (dv, split_suffix(suffix, bl, dv))
    } else {
        (0, Some(suffix))
    }
}

/// Forward search through a linear branch: its children in slot order,
/// from the suffix's digit up.
#[verifier::loop_isolation(false)]
fn next_linear(ar: &Vec<NodeData>, edge: &Edge, suffix: u64, level: u8) -> (r: Option<u64>)
    requires
        edge.tag_spec() == 1 || edge.tag_spec() == 2,
        walkable(ar@, *edge, level as nat),
        suffix < pow256(level as nat),
    ensures
        is_next(ar@, *edge, level as nat, suffix as int, r),
    decreases level, 0nat,
{
    let a = node_of(ar, edge, level);
    match &ar[a] {
        NodeData::Linear { hdr, edges } => {
            let bl = hdr.level;
            let ghost lv = level as nat;
            let ghost bn = bl as nat;
            proof {
                lemma_prefix_bound(*edge, bl as int, level as int);
                lemma_pow256_values();
                crate::types::lemma_pow256_mono(lv, 8);
                crate::types::lemma_pow256_mono((bn - 1) as nat, 7);
            }
            let (dv, split) = branch_suffix(edge, bl, suffix, level);
            let ghost base = dv * pow256(bn);
            let s2 = match split {
                None => {
                    proof {
                        assert forall|x: int| suffix <= x implies !#[trigger] key_in(ar@, *edge, lv, x) by {
                            if key_in(ar@, *edge, lv, x) {
                                let i = choose|i: int|
                                    0 <= i < hdr.num && i < edges@.len() && #[trigger] in_slot(
                                        base,
                                        hdr.digits@[i] as int,
                                        bn,
                                        x,
                                    ) && key_in(
                                        ar@,
                                        edges@[i],
                                        (bn - 1) as nat,
                                        slot_rem(base, hdr.digits@[i] as int, bn, x),
                                    );
                                lemma_slot_bounds(base, hdr.digits@[i] as int, bn, slot_rem(base, hdr.digits@[i] as int, bn, x));
                            }
                        }
                    }
                    return None;
                },
                Some(s2) => s2,
            };
            let ghost q = pow256((bn - 1) as nat) as int;
            proof {
                lemma_digit_split(s2 as int, bn);
            }
            let d = crate::types::digit(s2, bl);
            let rem0 = key_low(s2, bl - 1);
            proof {
                assert(d == (s2 as int) / q);
                assert(rem0 == (s2 as int) % q);
                lemma_slot_of(0, d as int, bn, s2 as int);
            }
            let num = hdr.num as usize;
            let mut slot: usize = 0;
            while slot < num
                invariant
                    0 <= slot <= num,
                    num == hdr.num,
                    forall|j: int, y: int|
                        0 <= j < slot && hdr.digits@[j] >= d && (if hdr.digits@[j] == d {
                            rem0 as int
                        } else {
                            0
                        }) <= y ==> !#[trigger] key_in(ar@, edges@[j], (bn - 1) as nat, y),
                decreases num - slot,
            {
                let bd = hdr.digits[slot];
                if bd >= d {
                    let rem = if bd == d {
                        rem0
                    } else {
                        0
                    };
                    match next(ar, &edges[slot], rem, bl - 1) {
                        Some(r) => {
                            let c = compose(bd, r, bl);
                            proof {
                                lemma_slot_bounds(0, bd as int, bn, r as int);
                            }
                            let res = if bl < level {
                                join(dv, bl, c)
                            } else {
                                c
                            };
                            proof {
                                lemma_slot_bounds(base, bd as int, bn, r as int);
                                assert(res == base + bd * q + r);
                                assert(suffix <= res) by {
                                    lemma_slot_of(0, d as int, bn, s2 as int);
                                    if suffix >= base && bd > d {
                                        lemma_slot_order(0, d as int, bd as int, bn, s2 as int, bd * q + r);
                                    }
                                    assert(0 <= bd * q) by (nonlinear_arith)
                                        requires
                                            q >= 0,
                                    ;
                                }
                                assert(key_in(ar@, *edge, lv, res as int));
                                assert forall|x: int| suffix <= x < res implies !#[trigger] key_in(
                                    ar@,
                                    *edge,
                                    lv,
                                    x,
                                ) by {
                                    if key_in(ar@, *edge, lv, x) {
                                        let i = choose|i: int|
                                            0 <= i < hdr.num && i < edges@.len() && #[trigger] in_slot(
                                                base,
                                                hdr.digits@[i] as int,
                                                bn,
                                                x,
                                            ) && key_in(
                                                ar@,
                                                edges@[i],
                                                (bn - 1) as nat,
                                                slot_rem(base, hdr.digits@[i] as int, bn, x),
                                            );
                                        let j = hdr.digits@[i] as int;
                                        if j < d {
                                            lemma_below_digit(base, j, d as int, bn, x, suffix as int);
                                        } else if i > slot {
                                            lemma_slot_order(base, bd as int, j, bn, res as int, x);
                                        } else if i < slot {
                                        } else {
                                        }
                                    }
                                }
                            }
                            return Some(res);
                        },
                        None => {},
                    }
                }
                slot = slot + 1;
            }
            proof {
                assert forall|x: int| suffix <= x implies !#[trigger] key_in(ar@, *edge, lv, x) by {
                    if key_in(ar@, *edge, lv, x) {
                        let i = choose|i: int|
                            0 <= i < hdr.num && i < edges@.len() && #[trigger] in_slot(
                                base,
                                hdr.digits@[i] as int,
                                bn,
                                x,
                            ) && key_in(
                                ar@,
                                edges@[i],
                                (bn - 1) as nat,
                                slot_rem(base, hdr.digits@[i] as int, bn, x),
                            );
                        let j = hdr.digits@[i] as int;
                        if j < d {
                            lemma_below_digit(base, j, d as int, bn, x, suffix as int);
                        }
                    }
                }
            }
            None
        },
        _ => {
            proof {
                assert(false);
            }
            None
        },
    }
}

/// Forward search through a bitmap branch: its member digits in order,
/// from the suffix's digit up, each child at its rank in its subexpanse's
/// subarray.
#[verifier::loop_isolation(false)]
fn next_bitmap(ar: &Vec<NodeData>, edge: &Edge, suffix: u64, level: u8) -> (r: Option<u64>)
    requires
        edge.tag_spec() == 3,
        walkable(ar@, *edge, level as nat),
        suffix < pow256(level as nat),
    ensures
        is_next(ar@, *edge, level as nat, suffix as int, r),
    decreases level, 0nat,
{
    let a = node_of(ar, edge, level);
    match &ar[a] {
        NodeData::Bitmap { branch, subs } => {
            let bl = branch.level;
            let ghost lv = level as nat;
            let ghost bn = bl as nat;
            let ghost vs = views(subs@);
            let ghost b = branch.bitmap;
            proof {
                lemma_prefix_bound(*edge, bl as int, level as int);
                lemma_pow256_values();
                crate::types::lemma_pow256_mono(lv, 8);
                crate::types::lemma_pow256_mono((bn - 1) as nat, 7);
            }
            let (dv, split) = branch_suffix(edge, bl, suffix, level);
            let ghost base = dv * pow256(bn);
            let s2 = match split {
                None => {
                    proof {
                        assert forall|x: int| suffix <= x implies !#[trigger] key_in(ar@, *edge, lv, x) by {
                            if key_in(ar@, *edge, lv, x) {
                                let j = choose|j: int|
                                    0 <= j < 256 && b.has(j as u8) && #[trigger] in_slot(base, j, bn, x) && key_in(
                                        ar@,
                                        vs[j / 32][sub_rank(b, j) as int],
                                        (bn - 1) as nat,
                                        slot_rem(base, j, bn, x),
                                    );
                                lemma_slot_bounds(base, j, bn, slot_rem(base, j, bn, x));
                            }
                        }
                    }
                    return None;
                },
                Some(s2) => s2,
            };
            let ghost q = pow256((bn - 1) as nat) as int;
            proof {
                lemma_digit_split(s2 as int, bn);
            }
            let d = crate::types::digit(s2, bl);
            let rem0 = key_low(s2, bl - 1);
            proof {
                assert(d == (s2 as int) / q);
                assert(rem0 == (s2 as int) % q);
                lemma_slot_of(0, d as int, bn, s2 as int);
            }
            let mut from: u16 = d as u16;
            while from <= 255
                invariant
                    d <= from <= 256,
                    forall|j: int, y: int|
                        d <= j < from && b.has(j as u8) && (if j == d {
                            rem0 as int
                        } else {
                            0
                        }) <= y ==> !#[trigger] key_in(ar@, vs[j / 32][sub_rank(b, j) as int], (bn - 1) as nat, y),
                decreases 256 - from,
            {
                match branch.bitmap.next_set(from as u8) {
                    None => {
                        from = 256;
                    },
                    Some(bd) => {
                        let sub = (bd / 32) as usize;
                        let rank = rank_in_sub(&branch.bitmap, bd);
                        proof {
                            crate::branch_forms::lemma_count_member(
                                b,
                                32 * (bd as int / 32),
                                bd as int,
                                32 * (bd as int / 32) + 32,
                            );
                            assert(vs[sub as int] == subs@[sub as int]@);
                            assert(walkable(ar@, vs[bd as int / 32][sub_rank(b, bd as int) as int], (bn - 1) as nat));
                        }
                        let child = &subs[sub][rank];
                        let rem = if bd == d {
                            rem0
                        } else {
                            0
                        };
                        match next(ar, child, rem, bl - 1) {
                            Some(r) => {
                                let c = compose(bd, r, bl);
                                proof {
                                    lemma_slot_bounds(0, bd as int, bn, r as int);
                                }
                                let res = if bl < level {
                                    join(dv, bl, c)
                                } else {
                                    c
                                };
                                proof {
                                    lemma_slot_bounds(base, bd as int, bn, r as int);
                                    assert(res == base + bd * q + r);
                                    assert(suffix <= res) by {
                                        lemma_slot_of(0, d as int, bn, s2 as int);
                                        if suffix >= base && bd > d {
                                            lemma_slot_order(0, d as int, bd as int, bn, s2 as int, bd * q + r);
                                        }
                                        assert(0 <= bd * q) by (nonlinear_arith)
                                            requires
                                                q >= 0,
                                        ;
                                    }
                                    assert(key_in(ar@, *edge, lv, res as int));
                                    assert forall|x: int| suffix <= x < res implies !#[trigger] key_in(
                                        ar@,
                                        *edge,
                                        lv,
                                        x,
                                    ) by {
                                        if key_in(ar@, *edge, lv, x) {
                                            let j = choose|j: int|
                                                0 <= j < 256 && b.has(j as u8) && #[trigger] in_slot(base, j, bn, x)
                                                    && key_in(
                                                    ar@,
                                                    vs[j / 32][sub_rank(b, j) as int],
                                                    (bn - 1) as nat,
                                                    slot_rem(base, j, bn, x),
                                                );
                                            if j < d {
                                                lemma_below_digit(base, j, d as int, bn, x, suffix as int);
                                            } else if j > bd {
                                                lemma_slot_order(base, bd as int, j, bn, res as int, x);
                                            } else if j < bd {
                                                if j >= from {
                                                    assert(!b.has(j as u8));
                                                }
                                            }
                                        }
                                    }
                                }
                                return Some(res);
                            },
                            None => {},
                        }
                        from = bd as u16 + 1;
                    },
                }
            }
            proof {
                assert forall|x: int| suffix <= x implies !#[trigger] key_in(ar@, *edge, lv, x) by {
                    if key_in(ar@, *edge, lv, x) {
                        let j = choose|j: int|
                            0 <= j < 256 && b.has(j as u8) && #[trigger] in_slot(base, j, bn, x) && key_in(
                                ar@,
                                vs[j / 32][sub_rank(b, j) as int],
                                (bn - 1) as nat,
                                slot_rem(base, j, bn, x),
                            );
                        if j < d {
                            lemma_below_digit(base, j, d as int, bn, x, suffix as int);
                        }
                    }
                }
            }
            None
        },
        _ => {
            proof {
                assert(false);
            }
            None
        },
    }
}

/// What a backward search from `suffix` owes: the largest key of the
/// subtree at or below `suffix`, or `None` when there is none.
pub open spec fn is_prev(ar: Seq<NodeData>, e: Edge, level: nat, suffix: int, r: Option<u64>) -> bool {
    match r {
        Some(k) => k <= suffix && key_in(ar, e, level, k as int) && forall|x: int|
            k < x <= suffix ==> !#[trigger] key_in(ar, e, level, x),
        None => forall|x: int| x <= suffix ==> !#[trigger] key_in(ar, e, level, x),
    }
}

/// Splits a suffix at the `b`-byte boundary against a skipped prefix `dv`
/// for a backward search: `None` when the suffix lies below every key with
/// that prefix; else the low part to search down from, `256^b - 1` when the
/// suffix lies above all of them.
pub fn split_suffix_down(suffix: u64, b: u8, dv: u64) -> (r: Option<u64>)
    requires
        1 <= b <= 7,
    ensures
        r is None ==> suffix < dv * pow256(b as nat),
        r matches Some(high) ==> high < pow256(b as nat) && suffix >= dv * pow256(b as nat) && (suffix >= dv
            * pow256(b as nat) + pow256(b as nat) ==> high == pow256(b as nat) - 1) && (suffix < dv * pow256(
            b as nat,
        ) + pow256(b as nat) ==> suffix == dv * pow256(b as nat) + high),
{
    let s: u64 = 8 * (b as u64);
    let p = crate::mutate::pow256(b);
    proof {
        vstd::bits::lemma_u64_shr_is_div(suffix, s);
        lemma_pow2_bytes(b as nat);
        lemma_pow256_pos(b as nat);
    }
    let hi = suffix >> s;
    proof {
        let pp = p as int;
        vstd::arithmetic::div_mod::lemma_fundamental_div_mod(suffix as int, pp);
        let q = suffix as int / pp;
        let m = suffix as int % pp;
        assert(hi == q);
        if q < dv {
            assert(pp * q + m < dv * pp) by (nonlinear_arith)
                requires
                    q < dv,
                    0 <= m < pp,
            ;
        } else if q > dv {
            assert(pp * q + m >= dv * pp + pp) by (nonlinear_arith)
                requires
                    q >= dv + 1,
                    0 <= m,
                    pp >= 1,
            ;
        } else {
            assert(pp * q == dv * pp) by (nonlinear_arith)
                requires
                    q == dv,
            ;
        }
        lemma_pow256_values();
        crate::types::lemma_pow256_mono(b as nat, 7);
    }
    proof {
        lemma_max_low(b);
    }
    if hi < dv {
        None
    } else if hi == dv {
        Some(key_low(suffix, b))
    } else {
        Some(key_low(u64::MAX, b))
    }
}

/// The low `b` bytes of the all-ones word are `256^b - 1`.
proof fn lemma_max_low(b: u8)
    requires
        1 <= b <= 7,
    ensures
        crate::mutate::key_low_spec(u64::MAX, b) == pow256(b as nat) - 1,
{
    let p = pow256(b as nat) as int;
    let q = pow256((8 - b) as nat) as int;
    lemma_pow256_add(b as nat, (8 - b) as nat);
    lemma_pow256_values();
    lemma_pow256_pos(b as nat);
    lemma_pow256_pos((8 - b) as nat);
    assert(p * q == 0x1_0000_0000_0000_0000int);
    assert(u64::MAX as int == p * (q - 1) + (p - 1)) by (nonlinear_arith)
        requires
            p * q == 0x1_0000_0000_0000_0000int,
            u64::MAX as int == 0x1_0000_0000_0000_0000int - 1,
    ;
    vstd::arithmetic::div_mod::lemma_fundamental_div_mod_converse(u64::MAX as int, p, q - 1, p - 1);
}

/// Backward search in an immediate: its packed keys, the last at or below
/// the suffix.
#[verifier::loop_isolation(false)]
fn prev_immed(ar: &Vec<NodeData>, edge: &Edge, im: ImmedType, suffix: u64, level: u8) -> (r: Option<u64>)
    requires
        im.wf(),
        edge.tag_spec() == im.code(),
        walkable(ar@, *edge, level as nat),
        suffix < pow256(level as nat),
    ensures
        is_prev(ar@, *edge, level as nat, suffix as int, r),
{
    let keys = immed_keys(edge, im);
    let ghost payload = edge.w0_spec() + edge.aux_spec();
    proof {
        lemma_immed_tag(im);
        lemma_pow256_values();
        crate::types::lemma_pow256_mono(im.kb as nat, level as nat);
        edge.lemma_aux_len();
    }
    let s = keys.as_slice();
    let n = keys.len();
    let mut i: usize = n;
    while i > 0
        invariant
            n == im.count,
            s@ == keys@,
            keys@.len() == im.count,
            0 <= i <= n,
            forall|j: int| 0 <= j < im.count ==> keys@[j] as nat == packed_key(payload, im.kb as int, j),
            forall|j: int| i <= j < n ==> s@[j] > suffix,
        decreases i,
    {
        if s[i - 1] <= suffix {
            let k = s[i - 1];
            let ghost at = i - 1;
            proof {
                assert(at * im.kb + im.kb <= 15) by (nonlinear_arith)
                    requires
                        at < im.count,
                        1 <= im.kb <= 7,
                        im.count <= 15usize / (im.kb as usize),
                ;
                assert(0 <= at * im.kb) by (nonlinear_arith)
                    requires
                        0 <= at,
                        1 <= im.kb,
                ;
                crate::node::lemma_le_value_bound(payload.subrange(at * im.kb, at * im.kb + im.kb));
                assert(key_in(ar@, *edge, level as nat, k as int)) by {
                    assert(k == packed_key(payload, imm_kb(edge.tag_spec()), at));
                }
                assert forall|x: int| k < x <= suffix implies !#[trigger] key_in(ar@, *edge, level as nat, x) by {
                    if key_in(ar@, *edge, level as nat, x) {
                        let j = choose|j: int|
                            0 <= j < imm_count(edge.tag_spec()) && x == #[trigger] packed_key(
                                payload,
                                imm_kb(edge.tag_spec()),
                                j,
                            );
                        if j > at {
                            assert(s@[j] > suffix);
                        } else if j < at {
                            assert(packed_key(payload, im.kb as int, j) < packed_key(payload, im.kb as int, at));
                        }
                    }
                }
            }
            return Some(k);
        }
        i = i - 1;
    }
    proof {
        assert forall|x: int| x <= suffix implies !#[trigger] key_in(ar@, *edge, level as nat, x) by {
            if key_in(ar@, *edge, level as nat, x) {
                let j = choose|j: int|
                    0 <= j < imm_count(edge.tag_spec()) && x == #[trigger] packed_key(payload, imm_kb(edge.tag_spec()), j);
                assert(s@[j] > suffix);
            }
        }
    }
    None
}

/// Backward search in a linear leaf: split the suffix against the skipped
/// prefix, then take the last packed key at or below the low part.
#[verifier::loop_isolation(false)]
fn prev_leaf(ar: &Vec<NodeData>, edge: &Edge, kb: u8, suffix: u64, level: u8) -> (r: Option<u64>)
    requires
        1 <= kb <= 7,
        edge.tag_spec() == kb + 4,
        walkable(ar@, *edge, level as nat),
        suffix < pow256(level as nat),
    ensures
        is_prev(ar@, *edge, level as nat, suffix as int, r),
{
    let a = node_of(ar, edge, level);
    match &ar[a] {
        NodeData::Leaf { keys, values } => {
            proof {
                edge.lemma_pop0_bound(kb);
                lemma_pow256_values();
                crate::types::lemma_pow256_mono(kb as nat, 7);
                lemma_prefix_bound(*edge, kb as int, level as int);
                crate::types::lemma_pow256_mono(level as nat, 8);
            }
            let p0 = edge.pop0(kb);
            let klen = keys.len();
            proof {
                assert(p0 + 1 <= (p0 + 1) * kb) by (nonlinear_arith)
                    requires
                        kb >= 1,
                        p0 >= 0,
                ;
            }
            let pop = p0 as usize + 1;
            let (dv, _shift) = skip_parts(edge, kb, level);
            let ghost base = dv * pow256(kb as nat);
            proof {
                assert(dv == skip_prefix(*edge, kb as int, level as int));
            }
            match split_suffix_down(suffix, kb, dv) {
                None => {
                    proof {
                        assert forall|x: int| x <= suffix implies !#[trigger] key_in(ar@, *edge, level as nat, x) by {
                            if key_in(ar@, *edge, level as nat, x) {
                                let i = choose|i: int|
                                    0 <= i < edge.pop0_spec(kb) + 1 && x == skip_prefix(*edge, kb as int, level as int)
                                        * pow256(kb as nat) + #[trigger] packed_key(keys@, kb as int, i);
                            }
                        }
                    }
                    None
                },
                Some(low) => {
                    proof {
                        lemma_max_low(kb);
                    }
                    let bound = if low == key_low(u64::MAX, kb) {
                        pop
                    } else {
                        leaf_lower_bound(keys.as_slice(), kb, pop, low + 1)
                    };
                    proof {
                        assert forall|i: int| 0 <= i < bound implies #[trigger] packed_key(keys@, kb as int, i) <= low by {
                            lemma_packed_bound(keys@, kb as int, i, pop as int);
                        }
                        assert forall|i: int| bound <= i < pop implies #[trigger] packed_key(keys@, kb as int, i) > low by {
                        }
                    }
                    if bound == 0 {
                        proof {
                            assert forall|x: int| x <= suffix implies !#[trigger] key_in(
                                ar@,
                                *edge,
                                level as nat,
                                x,
                            ) by {
                                if key_in(ar@, *edge, level as nat, x) {
                                    let i = choose|i: int|
                                        0 <= i < edge.pop0_spec(kb) + 1 && x == skip_prefix(
                                            *edge,
                                            kb as int,
                                            level as int,
                                        ) * pow256(kb as nat) + #[trigger] packed_key(keys@, kb as int, i);
                                    lemma_packed_bound(keys@, kb as int, i, pop as int);
                                }
                            }
                        }
                        return None;
                    }
                    let slot = bound - 1;
                    let k = leaf_suffix(keys.as_slice(), kb, pop, slot);
                    proof {
                        lemma_packed_bound(keys@, kb as int, slot as int, pop as int);
                    }
                    let r = join(dv, kb, k);
                    proof {
                        assert(key_in(ar@, *edge, level as nat, r as int));
                        assert forall|x: int| r < x <= suffix implies !#[trigger] key_in(ar@, *edge, level as nat, x) by {
                            if key_in(ar@, *edge, level as nat, x) {
                                let i = choose|i: int|
                                    0 <= i < edge.pop0_spec(kb) + 1 && x == skip_prefix(*edge, kb as int, level as int)
                                        * pow256(kb as nat) + #[trigger] packed_key(keys@, kb as int, i);
                                lemma_packed_bound(keys@, kb as int, i, pop as int);
                                if i < slot {
                                    assert(packed_key(keys@, kb as int, i) < packed_key(keys@, kb as int, slot as int));
                                } else if i > slot {
                                    assert(packed_key(keys@, kb as int, i) > low);
                                }
                            }
                        }
                    }
                    Some(r)
                },
            }
        },
        _ => {
            proof {
                assert(false);
            }
            None
        },
    }
}

/// Backward search in a bitmap leaf: split the suffix against the skipped
/// prefix, then take the previous member digit.
fn prev_bits(ar: &Vec<NodeData>, edge: &Edge, suffix: u64, level: u8) -> (r: Option<u64>)
    requires
        edge.tag_spec() == 12,
        walkable(ar@, *edge, level as nat),
        suffix < pow256(level as nat),
    ensures
        is_prev(ar@, *edge, level as nat, suffix as int, r),
{
    let a = node_of(ar, edge, level);
    match &ar[a] {
        NodeData::Bits { leaf } => {
            proof {
                lemma_pow256_values();
                lemma_prefix_bound(*edge, 1, level as int);
                crate::types::lemma_pow256_mono(level as nat, 8);
            }
            let (dv, _shift) = skip_parts(edge, 1, level);
            let ghost base = dv * 256;
            proof {
                assert(dv == skip_prefix(*edge, 1, level as int));
            }
            match split_suffix_down(suffix, 1, dv) {
                None => None,
                Some(high) => {
                    match leaf.bitmap.prev_set(high as u8) {
                        None => {
                            proof {
                                assert forall|x: int| x <= suffix implies !#[trigger] key_in(
                                    ar@,
                                    *edge,
                                    level as nat,
                                    x,
                                ) by {
                                    if key_in(ar@, *edge, level as nat, x) {
                                        assert(leaf.bitmap.has((x - base) as u8));
                                    }
                                }
                            }
                            None
                        },
                        Some(d) => {
                            let r = join(dv, 1, d as u64);
                            proof {
                                assert((r - base) as u8 == d);
                                assert forall|x: int| r < x <= suffix implies !#[trigger] key_in(
                                    ar@,
                                    *edge,
                                    level as nat,
                                    x,
                                ) by {
                                    if key_in(ar@, *edge, level as nat, x) {
                                        assert(leaf.bitmap.has((x - base) as u8));
                                    }
                                }
                            }
                            Some(r)
                        },
                    }
                },
            }
        },
        _ => {
            proof {
                assert(false);
            }
            None
        },
    }
}

/// Where the suffix lands in a branch of level `bl` skipping up to `level`,
/// for a backward search: `None` when it lies below the branch's keys, else
/// the part of it to search down from below the branch.
fn branch_suffix_down(edge: &Edge, bl: u8, suffix: u64, level: u8) -> (r: (u64, Option<u64>))
    requires
        2 <= bl <= level <= 8,
        bl < level ==> level <= 7,
        suffix < pow256(level as nat),
    ensures
        r.0 == skip_prefix(*edge, bl as int, level as int),
        r.1 is None ==> suffix < r.0 * pow256(bl as nat),
        r.1 matches Some(s2) ==> s2 < pow256(bl as nat) && suffix >= r.0 * pow256(bl as nat) && (suffix >= r.0
            * pow256(bl as nat) + pow256(bl as nat) ==> s2 == pow256(bl as nat) - 1) && (suffix < r.0 * pow256(
            bl as nat,
        ) + pow256(bl as nat) ==> suffix == r.0 * pow256(bl as nat) + s2),
{
    if bl < level {
        let dv = decode_value(edge, bl, level);
        (dv, split_suffix_down(suffix, bl, dv))
    } else {
        (0, Some(suffix))
    }
}

/// At the top of a branch's range the digit is 255 and the rest is all
/// ones below it.
proof fn lemma_top_digit(s2: int, d: int, bl: nat)
    requires
        1 <= bl <= 8,
        s2 == pow256(bl) - 1,
        in_slot(0, d, bl, s2),
    ensures
        d == 255,
        slot_rem(0, d, bl, s2) == pow256((bl - 1) as nat) - 1,
{
    let q = pow256((bl - 1) as nat) as int;
    lemma_pow256_pos((bl - 1) as nat);
    assert(pow256(bl) == q * 256);
    assert(d == 255) by (nonlinear_arith)
        requires
            d * q <= q * 256 - 1 < d * q + q,
            q >= 1,
    ;
}

/// The public backward search over a walkable subtree: the largest key at
/// or below `suffix`.
pub fn prev(ar: &Vec<NodeData>, edge: &Edge, suffix: u64, level: u8) -> (r: Option<u64>)
    requires
        walkable(ar@, *edge, level as nat),
        suffix < pow256(level as nat),
    ensures
        is_prev(ar@, *edge, level as nat, suffix as int, r),
    decreases level, 1nat,
{
    match edge.tag() {
        Some(EdgeTag::Kind(EdgeType::Null)) => None,
        Some(EdgeTag::Kind(EdgeType::FullExpanse)) => {
            proof {
                assert(key_in(ar@, *edge, level as nat, suffix as int));
            }
            Some(suffix)
        },
        Some(EdgeTag::Immed(im)) => prev_immed(ar, edge, im, suffix, level),
        Some(EdgeTag::Kind(t)) => {
            match t.leaf_key_bytes() {
                Some(kb) => prev_leaf(ar, edge, kb, suffix, level),
                None => {
                    match t {
                        EdgeType::LeafB1 => prev_bits(ar, edge, suffix, level),
                        EdgeType::BranchL3 | EdgeType::BranchL7 => prev_linear(ar, edge, suffix, level),
                        EdgeType::BranchB => prev_bitmap(ar, edge, suffix, level),
                        EdgeType::BranchU => prev_uncompressed(ar, edge, suffix, level),
                        _ => {
                            proof {
                                assert(false);
                            }
                            None
                        },
                    }
                },
            }
        },
        None => {
            proof {
                assert(false);
            }
            None
        },
    }
}

/// Backward search through an uncompressed branch: the children from the
/// suffix's digit down.
#[verifier::loop_isolation(false)]
fn prev_uncompressed(ar: &Vec<NodeData>, edge: &Edge, suffix: u64, level: u8) -> (r: Option<u64>)
    requires
        edge.tag_spec() == 4,
        walkable(ar@, *edge, level as nat),
        suffix < pow256(level as nat),
    ensures
        is_prev(ar@, *edge, level as nat, suffix as int, r),
    decreases level, 0nat,
{
    let a = node_of(ar, edge, level);
    match &ar[a] {
        NodeData::Uncompressed { slots } => {
            let ghost lv = level as nat;
            let ghost q = pow256((lv - 1) as nat) as int;
            proof {
                lemma_digit_split(suffix as int, lv);
                lemma_pow256_values();
                crate::types::lemma_pow256_mono((lv - 1) as nat, 7);
            }
            let d = crate::types::digit(suffix, level);
            let rem0 = key_low(suffix, level - 1);
            let top = crate::mutate::pow256(level - 1) - 1;
            proof {
                assert(d == (suffix as int) / q);
                assert(rem0 == (suffix as int) % q);
                lemma_slot_of(0, d as int, lv, suffix as int);
            }
            let mut bd: u16 = d as u16 + 1;
            while bd > 0
                invariant
                    0 <= bd <= d + 1,
                    forall|j: int, y: int|
                        bd <= j <= d && 0 <= y <= (if j == d {
                            rem0 as int
                        } else {
                            top as int
                        }) ==> !#[trigger] key_in(ar@, slots.edges@[j], (lv - 1) as nat, y),
                decreases bd,
            {
                bd = bd - 1;
                let child = &slots.edges[bd as usize];
                if !child.is_null() {
                    let rem = if bd == d as u16 {
                        rem0
                    } else {
                        top
                    };
                    proof {
                        assert(walkable(ar@, slots.edges@[bd as int], (lv - 1) as nat));
                    }
                    match prev(ar, child, rem, level - 1) {
                        Some(r) => {
                            let res = compose(bd as u8, r, level);
                            proof {
                                lemma_slot_bounds(0, bd as int, lv, r as int);
                                assert(res <= suffix) by {
                                    if bd < d {
                                        lemma_slot_order(0, bd as int, d as int, lv, res as int, suffix as int);
                                    }
                                }
                                assert(key_in(ar@, *edge, lv, res as int));
                                assert forall|x: int| res < x <= suffix implies !#[trigger] key_in(
                                    ar@,
                                    *edge,
                                    lv,
                                    x,
                                ) by {
                                    if key_in(ar@, *edge, lv, x) {
                                        let j = choose|j: int|
                                            0 <= j < 256 && #[trigger] in_slot(0, j, lv, x) && key_in(
                                                ar@,
                                                slots.edges@[j],
                                                (lv - 1) as nat,
                                                slot_rem(0, j, lv, x),
                                            );
                                        lemma_slot_of(0, j, lv, x);
                                        if j > d {
                                            lemma_slot_order(0, d as int, j, lv, suffix as int, x);
                                        } else if j < bd {
                                            lemma_slot_order(0, j, bd as int, lv, x, res as int);
                                        }
                                    }
                                }
                            }
                            return Some(res);
                        },
                        None => {},
                    }
                }
            }
            proof {
                assert forall|x: int| x <= suffix implies !#[trigger] key_in(ar@, *edge, lv, x) by {
                    if key_in(ar@, *edge, lv, x) {
                        let j = choose|j: int|
                            0 <= j < 256 && #[trigger] in_slot(0, j, lv, x) && key_in(
                                ar@,
                                slots.edges@[j],
                                (lv - 1) as nat,
                                slot_rem(0, j, lv, x),
                            );
                        lemma_slot_of(0, j, lv, x);
                        if j > d {
                            lemma_slot_order(0, d as int, j, lv, suffix as int, x);
                        }
                    }
                }
            }
            None
        },
        _ => {
            proof {
                assert(false);
            }
            None
        },
    }
}

/// Backward search through a linear branch: its children in reverse slot
/// order, from the suffix's digit down.
#[verifier::loop_isolation(false)]
fn prev_linear(ar: &Vec<NodeData>, edge: &Edge, suffix: u64, level: u8) -> (r: Option<u64>)
    requires
        edge.tag_spec() == 1 || edge.tag_spec() == 2,
        walkable(ar@, *edge, level as nat),
        suffix < pow256(level as nat),
    ensures
        is_prev(ar@, *edge, level as nat, suffix as int, r),
    decreases level, 0nat,
{
    let a = node_of(ar, edge, level);
    match &ar[a] {
        NodeData::Linear { hdr, edges } => {
            let bl = hdr.level;
            let ghost lv = level as nat;
            let ghost bn = bl as nat;
            proof {
                lemma_prefix_bound(*edge, bl as int, level as int);
                lemma_pow256_values();
                crate::types::lemma_pow256_mono(lv, 8);
                crate::types::lemma_pow256_mono((bn - 1) as nat, 7);
            }
            let (dv, split) = branch_suffix_down(edge, bl, suffix, level);
            let ghost base = dv * pow256(bn);
            let s2 = match split {
                None => {
                    proof {
                        assert forall|x: int| x <= suffix implies !#[trigger] key_in(ar@, *edge, lv, x) by {
                            if key_in(ar@, *edge, lv, x) {
                                let i = choose|i: int|
                                    0 <= i < hdr.num && i < edges@.len() && #[trigger] in_slot(
                                        base,
                                        hdr.digits@[i] as int,
                                        bn,
                                        x,
                                    ) && key_in(
                                        ar@,
                                        edges@[i],
                                        (bn - 1) as nat,
                                        slot_rem(base, hdr.digits@[i] as int, bn, x),
                                    );
                                assert(0 <= hdr.digits@[i] * pow256((bn - 1) as nat)) by (nonlinear_arith);
                            }
                        }
                    }
                    return None;
                },
                Some(s2) => s2,
            };
            let ghost q = pow256((bn - 1) as nat) as int;
            proof {
                lemma_digit_split(s2 as int, bn);
            }
            let d = crate::types::digit(s2, bl);
            let rem0 = key_low(s2, bl - 1);
            let top = crate::mutate::pow256(bl - 1) - 1;
            proof {
                assert(d == (s2 as int) / q);
                assert(rem0 == (s2 as int) % q);
                lemma_slot_of(0, d as int, bn, s2 as int);
                if suffix >= base + pow256(bn) {
                    lemma_top_digit(s2 as int, d as int, bn);
                }
            }
            let num = hdr.num as usize;
            let mut slot: usize = num;
            while slot > 0
                invariant
                    0 <= slot <= num,
                    num == hdr.num,
                    forall|j: int, y: int|
                        slot <= j < num && hdr.digits@[j] <= d && 0 <= y <= (if hdr.digits@[j] == d {
                            rem0 as int
                        } else {
                            top as int
                        }) ==> !#[trigger] key_in(ar@, edges@[j], (bn - 1) as nat, y),
                decreases slot,
            {
                slot = slot - 1;
                let bd = hdr.digits[slot];
                if bd <= d {
                    let rem = if bd == d {
                        rem0
                    } else {
                        top
                    };
                    match prev(ar, &edges[slot], rem, bl - 1) {
                        Some(r) => {
                            let c = compose(bd, r, bl);
                            proof {
                                lemma_slot_bounds(0, bd as int, bn, r as int);
                            }
                            let res = if bl < level {
                                join(dv, bl, c)
                            } else {
                                c
                            };
                            proof {
                                lemma_slot_bounds(base, bd as int, bn, r as int);
                                assert(res == base + bd * q + r);
                                assert(res <= suffix) by {
                                    if suffix < base + pow256(bn) && bd < d {
                                        lemma_slot_order(0, bd as int, d as int, bn, bd * q + r, s2 as int);
                                    }
                                }
                                assert(key_in(ar@, *edge, lv, res as int));
                                assert forall|x: int| res < x <= suffix implies !#[trigger] key_in(
                                    ar@,
                                    *edge,
                                    lv,
                                    x,
                                ) by {
                                    if key_in(ar@, *edge, lv, x) {
                                        let i = choose|i: int|
                                            0 <= i < hdr.num && i < edges@.len() && #[trigger] in_slot(
                                                base,
                                                hdr.digits@[i] as int,
                                                bn,
                                                x,
                                            ) && key_in(
                                                ar@,
                                                edges@[i],
                                                (bn - 1) as nat,
                                                slot_rem(base, hdr.digits@[i] as int, bn, x),
                                            );
                                        let j = hdr.digits@[i] as int;
                                        lemma_slot_of(base, j, bn, x);
                                        if j > d {
                                            lemma_slot_order(0, d as int, j, bn, s2 as int, x - base);
                                        } else if i < slot {
                                            lemma_slot_order(base, j, bd as int, bn, x, res as int);
                                        }
                                    }
                                }
                            }
                            return Some(res);
                        },
                        None => {},
                    }
                }
            }
            proof {
                assert forall|x: int| x <= suffix implies !#[trigger] key_in(ar@, *edge, lv, x) by {
                    if key_in(ar@, *edge, lv, x) {
                        let i = choose|i: int|
                            0 <= i < hdr.num && i < edges@.len() && #[trigger] in_slot(
                                base,
                                hdr.digits@[i] as int,
                                bn,
                                x,
                            ) && key_in(
                                ar@,
                                edges@[i],
                                (bn - 1) as nat,
                                slot_rem(base, hdr.digits@[i] as int, bn, x),
                            );
                        let j = hdr.digits@[i] as int;
                        lemma_slot_of(base, j, bn, x);
                        if j > d {
                            lemma_slot_order(0, d as int, j, bn, s2 as int, x - base);
                        }
                    }
                }
            }
            None
        },
        _ => {
            proof {
                assert(false);
            }
            None
        },
    }
}

/// Backward search through a bitmap branch: its member digits in reverse
/// order, from the suffix's digit down.
#[verifier::loop_isolation(false)]
fn prev_bitmap(ar: &Vec<NodeData>, edge: &Edge, suffix: u64, level: u8) -> (r: Option<u64>)
    requires
        edge.tag_spec() == 3,
        walkable(ar@, *edge, level as nat),
        suffix < pow256(level as nat),
    ensures
        is_prev(ar@, *edge, level as nat, suffix as int, r),
    decreases level, 0nat,
{
    let a = node_of(ar, edge, level);
    match &ar[a] {
        NodeData::Bitmap { branch, subs } => {
            let bl = branch.level;
            let ghost lv = level as nat;
            let ghost bn = bl as nat;
            let ghost vs = views(subs@);
            let ghost b = branch.bitmap;
            proof {
                lemma_prefix_bound(*edge, bl as int, level as int);
                lemma_pow256_values();
                crate::types::lemma_pow256_mono(lv, 8);
                crate::types::lemma_pow256_mono((bn - 1) as nat, 7);
            }
            let (dv, split) = branch_suffix_down(edge, bl, suffix, level);
            let ghost base = dv * pow256(bn);
            let s2 = match split {
                None => {
                    proof {
                        assert forall|x: int| x <= suffix implies !#[trigger] key_in(ar@, *edge, lv, x) by {
                            if key_in(ar@, *edge, lv, x) {
                                let j = choose|j: int|
                                    0 <= j < 256 && b.has(j as u8) && #[trigger] in_slot(base, j, bn, x) && key_in(
                                        ar@,
                                        vs[j / 32][sub_rank(b, j) as int],
                                        (bn - 1) as nat,
                                        slot_rem(base, j, bn, x),
                                    );
                                assert(0 <= j * pow256((bn - 1) as nat)) by (nonlinear_arith)
                                    requires
                                        0 <= j,
                                ;
                            }
                        }
                    }
                    return None;
                },
                Some(s2) => s2,
            };
            let ghost q = pow256((bn - 1) as nat) as int;
            proof {
                lemma_digit_split(s2 as int, bn);
            }
            let d = crate::types::digit(s2, bl);
            let rem0 = key_low(s2, bl - 1);
            let top = crate::mutate::pow256(bl - 1) - 1;
            proof {
                assert(d == (s2 as int) / q);
                assert(rem0 == (s2 as int) % q);
                lemma_slot_of(0, d as int, bn, s2 as int);
                if suffix >= base + pow256(bn) {
                    lemma_top_digit(s2 as int, d as int, bn);
                }
            }
            let mut to: u16 = d as u16 + 1;
            while to > 0
                invariant
                    0 <= to <= d + 1,
                    forall|j: int, y: int|
                        to <= j <= d && b.has(j as u8) && 0 <= y <= (if j == d {
                            rem0 as int
                        } else {
                            top as int
                        }) ==> !#[trigger] key_in(ar@, vs[j / 32][sub_rank(b, j) as int], (bn - 1) as nat, y),
                decreases to,
            {
                match branch.bitmap.prev_set((to - 1) as u8) {
                    None => {
                        to = 0;
                    },
                    Some(bd) => {
                        let sub = (bd / 32) as usize;
                        let rank = rank_in_sub(&branch.bitmap, bd);
                        proof {
                            crate::branch_forms::lemma_count_member(
                                b,
                                32 * (bd as int / 32),
                                bd as int,
                                32 * (bd as int / 32) + 32,
                            );
                            assert(vs[sub as int] == subs@[sub as int]@);
                            assert(walkable(ar@, vs[bd as int / 32][sub_rank(b, bd as int) as int], (bn - 1) as nat));
                        }
                        let child = &subs[sub][rank];
                        let rem = if bd == d {
                            rem0
                        } else {
                            top
                        };
                        match prev(ar, child, rem, bl - 1) {
                            Some(r) => {
                                let c = compose(bd, r, bl);
                                proof {
                                    lemma_slot_bounds(0, bd as int, bn, r as int);
                                }
                                let res = if bl < level {
                                    join(dv, bl, c)
                                } else {
                                    c
                                };
                                proof {
                                    lemma_slot_bounds(base, bd as int, bn, r as int);
                                    assert(res == base + bd * q + r);
                                    assert(res <= suffix) by {
                                        if suffix < base + pow256(bn) && bd < d {
                                            lemma_slot_order(0, bd as int, d as int, bn, bd * q + r, s2 as int);
                                        }
                                    }
                                    assert(key_in(ar@, *edge, lv, res as int));
                                    assert forall|x: int| res < x <= suffix implies !#[trigger] key_in(
                                        ar@,
                                        *edge,
                                        lv,
                                        x,
                                    ) by {
                                        if key_in(ar@, *edge, lv, x) {
                                            let j = choose|j: int|
                                                0 <= j < 256 && b.has(j as u8) && #[trigger] in_slot(base, j, bn, x)
                                                    && key_in(
                                                    ar@,
                                                    vs[j / 32][sub_rank(b, j) as int],
                                                    (bn - 1) as nat,
                                                    slot_rem(base, j, bn, x),
                                                );
                                            lemma_slot_of(base, j, bn, x);
                                            if j > d {
                                                lemma_slot_order(0, d as int, j, bn, s2 as int, x - base);
                                            } else if j < bd {
                                                lemma_slot_order(base, j, bd as int, bn, x, res as int);
                                            } else if j > bd {
                                                if j < to {
                                                    assert(!b.has(j as u8));
                                                }
                                            }
                                        }
                                    }
                                }
                                return Some(res);
                            },
                            None => {},
                        }
                        to = bd as u16;
                    },
                }
            }
            proof {
                assert forall|x: int| x <= suffix implies !#[trigger] key_in(ar@, *edge, lv, x) by {
                    if key_in(ar@, *edge, lv, x) {
                        let j = choose|j: int|
                            0 <= j < 256 && b.has(j as u8) && #[trigger] in_slot(base, j, bn, x) && key_in(
                                ar@,
                                vs[j / 32][sub_rank(b, j) as int],
                                (bn - 1) as nat,
                                slot_rem(base, j, bn, x),
                            );
                        lemma_slot_of(base, j, bn, x);
                        if j > d {
                            lemma_slot_order(0, d as int, j, bn, s2 as int, x - base);
                        }
                    }
                }
            }
            None
        },
        _ => {
            proof {
                assert(false);
            }
            None
        },
    }
}

} // verus!
