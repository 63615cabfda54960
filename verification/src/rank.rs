//! Rank and select over a trie held in an arena: the keys of a subtree in
//! the order a forward walk meets them, how many of them lie below a
//! suffix, and the key with a given number of keys below it.

use vstd::prelude::*;
use crate::bits::Bitmap256;
use crate::branch_forms::{bitmap_children, count_set, digits_ascending, linear_children, sub_rank, uncompressed_children, views};
use crate::mutate::{immed_keys, key_low, packed_key};
use crate::nav::{
    branch_suffix, compose, edge_pop, next, edge_pop_spec, imm_count, imm_kb, in_slot, is_next, is_prev, join, key_in,
    leaf_lower_bound, leaf_suffix, lemma_digit_split, lemma_immed_tag, lemma_packed_bound, lemma_prefix_bound,
    node_index, node_of, rank_in_sub, skip_parts, skip_prefix, slot_rem, split_suffix, walkable, NodeData,
};
use crate::node::{BranchHeader, Edge};
use crate::types::{lemma_pow256_pos, lemma_pow256_values, pow256, EdgeTag, EdgeType, ImmedType};

verus! {

// ---------------------------------------------------------------------------
// The keys of a subtree in walk order
// ---------------------------------------------------------------------------

/// Every element of `s` moved up by `off`.
pub open spec fn shifted(s: Seq<int>, off: int) -> Seq<int> {
    s.map_values(|r: int| off + r)
}

/// The member digits of a bitmap below `n`, in order, each added to `base`.
pub open spec fn bits_seq(b: Bitmap256, base: int, n: int) -> Seq<int>
    decreases n,
{
    if n <= 0 {
        Seq::empty()
    } else if b.has((n - 1) as u8) {
        bits_seq(b, base, n - 1).push(base + n - 1)
    } else {
        bits_seq(b, base, n - 1)
    }
}

/// The keys of a subtree below edge `e` at a slot of `level`, in the order
/// a forward walk meets them.
pub open spec fn key_seq(ar: Seq<NodeData>, e: Edge, level: nat) -> Seq<int>
    decreases level, 300nat,
{
    let t = e.tag_spec();
    let a = node_index(e);
    if !(1 <= level <= 8) || t == 0 {
        Seq::empty()
    } else if t >= 0x80 {
        Seq::new(imm_count(t) as nat, |i: int| packed_key(e.w0_spec() + e.aux_spec(), imm_kb(t), i) as int)
    } else if t == 14 {
        Seq::new(pow256(level), |i: int| i)
    } else if !(0 <= a < ar.len()) {
        Seq::empty()
    } else if 5 <= t <= 11 {
        let kb = t - 4;
        match ar[a] {
            NodeData::Leaf { keys, values } => Seq::new(
                e.pop0_spec(kb as u8) + 1,
                |i: int| skip_prefix(e, kb, level as int) * pow256(kb as nat) + packed_key(keys@, kb, i),
            ),
            _ => Seq::empty(),
        }
    } else if t == 12 {
        match ar[a] {
            NodeData::Bits { leaf } => bits_seq(leaf.bitmap, skip_prefix(e, 1, level as int) * 256, 256),
            _ => Seq::empty(),
        }
    } else if t == 1 || t == 2 {
        match ar[a] {
            NodeData::Linear { hdr, edges } => {
                let bl = hdr.level as nat;
                linear_seq(ar, skip_prefix(e, bl as int, level as int) * pow256(bl), bl, hdr, edges@, level, hdr.num as int)
            },
            _ => Seq::empty(),
        }
    } else if t == 3 {
        match ar[a] {
            NodeData::Bitmap { branch, subs } => {
                let bl = branch.level as nat;
                bitmap_seq(
                    ar,
                    skip_prefix(e, bl as int, level as int) * pow256(bl),
                    bl,
                    branch.bitmap,
                    views(subs@),
                    level,
                    256,
                )
            },
            _ => Seq::empty(),
        }
    } else if t == 4 {
        match ar[a] {
            NodeData::Uncompressed { slots } => uncompressed_seq(ar, slots.edges@, level, 256),
            _ => Seq::empty(),
        }
    } else {
        Seq::empty()
    }
}

/// The keys under the first `i` slots of a linear branch of level `bl`
/// whose keys start at `base`, under a slot of level `lv`.
pub open spec fn linear_seq(
    ar: Seq<NodeData>,
    base: int,
    bl: nat,
    hdr: BranchHeader,
    edges: Seq<Edge>,
    lv: nat,
    i: int,
) -> Seq<int>
    decreases lv, i,
{
    if i <= 0 || !(2 <= bl <= lv) || i > edges.len() {
        Seq::empty()
    } else {
        linear_seq(ar, base, bl, hdr, edges, lv, i - 1) + shifted(
            key_seq(ar, edges[i - 1], (bl - 1) as nat),
            base + hdr.digits@[i - 1] * pow256((bl - 1) as nat),
        )
    }
}

/// The keys under the member digits below `n` of a bitmap branch.
pub open spec fn bitmap_seq(
    ar: Seq<NodeData>,
    base: int,
    bl: nat,
    b: Bitmap256,
    subs: Seq<Seq<Edge>>,
    lv: nat,
    n: int,
) -> Seq<int>
    decreases lv, n,
{
    if n <= 0 || !(2 <= bl <= lv) {
        Seq::empty()
    } else if b.has((n - 1) as u8) {
        bitmap_seq(ar, base, bl, b, subs, lv, n - 1) + shifted(
            key_seq(ar, subs[(n - 1) / 32][sub_rank(b, n - 1) as int], (bl - 1) as nat),
            base + (n - 1) * pow256((bl - 1) as nat),
        )
    } else {
        bitmap_seq(ar, base, bl, b, subs, lv, n - 1)
    }
}

/// The keys under the slots below `n` of an uncompressed branch.
pub open spec fn uncompressed_seq(ar: Seq<NodeData>, edges: Seq<Edge>, lv: nat, n: int) -> Seq<int>
    decreases lv, n,
{
    if n <= 0 || lv < 2 {
        Seq::empty()
    } else {
        uncompressed_seq(ar, edges, lv, n - 1) + shifted(
            key_seq(ar, edges[n - 1], (lv - 1) as nat),
            (n - 1) * pow256((lv - 1) as nat),
        )
    }
}

// ---------------------------------------------------------------------------
// Counting below a bound
// ---------------------------------------------------------------------------

/// How many elements of `s` lie below `x`.
pub open spec fn count_lt(s: Seq<int>, x: int) -> nat
    decreases s.len(),
{
    if s.len() == 0 {
        0
    } else {
        count_lt(s.drop_last(), x) + if s.last() < x {
            1nat
        } else {
            0nat
        }
    }
}

/// The elements of `s` strictly ascend.
pub open spec fn ascending(s: Seq<int>) -> bool {
    forall|i: int, j: int| 0 <= i < j < s.len() ==> s[i] < s[j]
}

/// Every element of `s` lies in `[lo, hi)`.
pub open spec fn within(s: Seq<int>, lo: int, hi: int) -> bool {
    forall|i: int| 0 <= i < s.len() ==> lo <= #[trigger] s[i] < hi
}

/// Counting splits over a concatenation.
pub proof fn lemma_count_lt_concat(a: Seq<int>, b: Seq<int>, x: int)
    ensures
        count_lt(a + b, x) == count_lt(a, x) + count_lt(b, x),
    decreases b.len(),
{
    if b.len() == 0 {
        assert(a + b =~= a);
    } else {
        assert((a + b).drop_last() =~= a + b.drop_last());
        lemma_count_lt_concat(a, b.drop_last(), x);
    }
}

/// Where the elements below `x` are exactly the first `k`, `k` of them
/// count.
pub proof fn lemma_count_lt_split(s: Seq<int>, x: int, k: int)
    requires
        0 <= k <= s.len(),
        forall|i: int| 0 <= i < k ==> #[trigger] s[i] < x,
        forall|i: int| k <= i < s.len() ==> #[trigger] s[i] >= x,
    ensures
        count_lt(s, x) == k,
    decreases s.len(),
{
    if s.len() > 0 {
        let t = s.drop_last();
        if k == s.len() {
            assert(s[s.len() - 1] < x);
            lemma_count_lt_split(t, x, k - 1);
        } else {
            assert(s[s.len() - 1] >= x);
            lemma_count_lt_split(t, x, k);
        }
    }
}

/// Moving every element up by `off` moves the bound with it.
pub proof fn lemma_count_lt_shift(s: Seq<int>, off: int, x: int)
    ensures
        count_lt(shifted(s, off), x) == count_lt(s, x - off),
    decreases s.len(),
{
    if s.len() > 0 {
        assert(shifted(s, off).drop_last() =~= shifted(s.drop_last(), off));
        lemma_count_lt_shift(s.drop_last(), off, x);
    }
}

/// An ascending sequence of naturals has each element at least its index.
proof fn lemma_ascending_index(s: Seq<int>, i: int)
    requires
        ascending(s),
        within(s, 0, s.len() + s.last() + 1),
        0 <= i < s.len(),
    ensures
        s[i] >= i,
    decreases i,
{
    if i > 0 {
        lemma_ascending_index(s, i - 1);
    }
}

/// Of distinct naturals in ascending order, at most `x` lie below `x`.
pub proof fn lemma_count_lt_at_most(s: Seq<int>, lo: int, hi: int, x: int)
    requires
        ascending(s),
        within(s, lo, hi),
        0 <= lo,
        0 <= x,
    ensures
        count_lt(s, x) <= x,
    decreases s.len(),
{
    if s.len() > 0 {
        let n = s.len() as int;
        if s[n - 1] < x {
            assert(within(s, 0, s.len() + s.last() + 1));
            lemma_ascending_index(s, n - 1);
            lemma_count_lt_split(s, x, n);
        } else {
            lemma_count_lt_at_most(s.drop_last(), lo, hi, x);
        }
    }
}

/// Joining two ascending runs, the first wholly below `m` and the second
/// wholly at or above it, ascends.
proof fn lemma_join_ascending(a: Seq<int>, b: Seq<int>, lo: int, m: int, hi: int)
    requires
        ascending(a),
        ascending(b),
        within(a, lo, m),
        within(b, m, hi),
        lo <= m <= hi,
    ensures
        ascending(a + b),
        within(a + b, lo, hi),
{
    let c = a + b;
    assert forall|i: int, j: int| 0 <= i < j < c.len() implies c[i] < c[j] by {
        if j < a.len() {
            assert(a[i] < a[j]);
        } else if i >= a.len() {
            assert(b[i - a.len()] < b[j - a.len()]);
        } else {
            assert(a[i] < m);
            assert(b[j - a.len()] >= m);
        }
    }
    assert forall|i: int| 0 <= i < c.len() implies lo <= #[trigger] c[i] < hi by {
        if i < a.len() {
            assert(c[i] == a[i]);
            assert(lo <= a[i] < m);
        } else {
            let j = i - a.len();
            assert(0 <= j < b.len());
            assert(c[i] == b[j]);
            assert(m <= b[j] < hi);
        }
    }
}

/// Moving a run up by `off` keeps it ascending and moves its bounds.
proof fn lemma_shifted_facts(s: Seq<int>, off: int, lo: int, hi: int)
    requires
        ascending(s),
        within(s, lo, hi),
    ensures
        ascending(shifted(s, off)),
        within(shifted(s, off), lo + off, hi + off),
        shifted(s, off).len() == s.len(),
{
    let t = shifted(s, off);
    assert forall|i: int, j: int| 0 <= i < j < t.len() implies t[i] < t[j] by {
        assert(s[i] < s[j]);
    }
    assert forall|i: int| 0 <= i < t.len() implies lo + off <= #[trigger] t[i] < hi + off by {
        assert(lo <= s[i] < hi);
    }
}

/// The members of a bitmap below `n`, offset by `base`, ascend inside
/// `[base, base + n)`, one per member.
pub proof fn lemma_bits_seq(b: Bitmap256, base: int, n: int)
    requires
        0 <= n <= 256,
    ensures
        ascending(bits_seq(b, base, n)),
        within(bits_seq(b, base, n), base, base + n),
        bits_seq(b, base, n).len() == count_set(b, 0, n),
    decreases n,
{
    if n > 0 {
        lemma_bits_seq(b, base, n - 1);
        let s = bits_seq(b, base, n - 1);
        if b.has((n - 1) as u8) {
            let t = s.push(base + n - 1);
            assert forall|i: int, j: int| 0 <= i < j < t.len() implies t[i] < t[j] by {
                if j < s.len() {
                    assert(s[i] < s[j]);
                } else {
                    assert(s[i] < base + n - 1);
                }
            }
            assert forall|i: int| 0 <= i < t.len() implies base <= #[trigger] t[i] < base + n by {
                if i < s.len() {
                    assert(base <= s[i] < base + n - 1);
                }
            }
        }
    }
}


/// Scaling by a nonnegative factor keeps order.
proof fn lemma_scale(d1: int, d2: int, q: int)
    requires
        d1 <= d2,
        q >= 0,
    ensures
        d1 * q <= d2 * q,
{
    assert(d1 * q <= d2 * q) by (nonlinear_arith)
        requires
            d1 <= d2,
            q >= 0,
    ;
}

/// Widening the bounds keeps a run inside them.
proof fn lemma_within_widen(s: Seq<int>, lo: int, hi: int, lo2: int, hi2: int)
    requires
        within(s, lo, hi),
        lo2 <= lo,
        hi <= hi2,
    ensures
        within(s, lo2, hi2),
{
    assert forall|i: int| 0 <= i < s.len() implies lo2 <= #[trigger] s[i] < hi2 by {
        assert(lo <= s[i] < hi);
    }
}

/// The keys of a walkable subtree ascend and lie below `256^level`.
pub proof fn lemma_key_seq_facts(ar: Seq<NodeData>, e: Edge, level: nat)
    requires
        walkable(ar, e, level),
    ensures
        ascending(key_seq(ar, e, level)),
        within(key_seq(ar, e, level), 0, pow256(level) as int),
    decreases level, 300nat,
{
    let t = e.tag_spec();
    let a = node_index(e);
    let s = key_seq(ar, e, level);
    lemma_pow256_pos(level);
    if t == 0 {
    } else if t >= 0x80 {
        let kb = imm_kb(t);
        let n = imm_count(t);
        let payload = e.w0_spec() + e.aux_spec();
        e.lemma_aux_len();
        assert(n * kb <= 15) by (nonlinear_arith)
            requires
                1 <= kb <= 7,
                1 <= n <= 15int / kb,
        ;
        crate::types::lemma_pow256_mono(kb as nat, level);
        assert forall|i: int| 0 <= i < s.len() implies 0 <= #[trigger] s[i] < pow256(level) as int by {
            lemma_packed_bound(payload, kb, i, n);
        }
        assert forall|i: int, j: int| 0 <= i < j < s.len() implies s[i] < s[j] by {
            assert(packed_key(payload, kb, i) < packed_key(payload, kb, j));
        }
    } else if t == 14 {
    } else if 5 <= t <= 11 {
        let kb = t - 4;
        match ar[a] {
            NodeData::Leaf { keys, values } => {
                let pop = e.pop0_spec(kb as u8) + 1;
                let p = skip_prefix(e, kb, level as int);
                lemma_prefix_bound(e, kb, level as int);
                lemma_pow256_pos(kb as nat);
                assert(0 <= p * pow256(kb as nat)) by (nonlinear_arith)
                    requires
                        0 <= p,
                ;
                assert forall|i: int| 0 <= i < s.len() implies 0 <= #[trigger] s[i] < pow256(level) as int by {
                    lemma_packed_bound(keys@, kb, i, pop as int);
                }
                assert forall|i: int, j: int| 0 <= i < j < s.len() implies s[i] < s[j] by {
                    assert(packed_key(keys@, kb, i) < packed_key(keys@, kb, j));
                }
            },
            _ => {},
        }
    } else if t == 12 {
        match ar[a] {
            NodeData::Bits { leaf } => {
                let base = skip_prefix(e, 1, level as int) * 256;
                lemma_prefix_bound(e, 1, level as int);
                lemma_pow256_values();
                lemma_bits_seq(leaf.bitmap, base, 256);
                lemma_within_widen(s, base, base + 256, 0, pow256(level) as int);
            },
            _ => {},
        }
    } else if t == 1 || t == 2 {
        match ar[a] {
            NodeData::Linear { hdr, edges } => {
                let bl = hdr.level as nat;
                let q = pow256((bl - 1) as nat) as int;
                let base = skip_prefix(e, bl as int, level as int) * pow256(bl);
                lemma_prefix_bound(e, bl as int, level as int);
                lemma_pow256_pos((bl - 1) as nat);
                assert(pow256(bl) == q * 256);
                lemma_linear_facts(ar, base, bl, hdr, edges@, level, hdr.num as int);
                if hdr.num > 0 {
                    lemma_scale(hdr.digits@[hdr.num - 1] + 1, 256, q);
                }
                lemma_scale(0, skip_prefix(e, bl as int, level as int), pow256(bl) as int);
                lemma_within_widen(
                    s,
                    base,
                    base + (if hdr.num == 0 {
                        0
                    } else {
                        (hdr.digits@[hdr.num - 1] + 1) * q
                    }),
                    0,
                    pow256(level) as int,
                );
            },
            _ => {},
        }
    } else if t == 3 {
        match ar[a] {
            NodeData::Bitmap { branch, subs } => {
                let bl = branch.level as nat;
                let q = pow256((bl - 1) as nat) as int;
                let base = skip_prefix(e, bl as int, level as int) * pow256(bl);
                lemma_prefix_bound(e, bl as int, level as int);
                lemma_pow256_pos((bl - 1) as nat);
                assert(pow256(bl) == q * 256);
                lemma_bitmap_facts(ar, base, bl, branch.bitmap, views(subs@), level, 256);
                lemma_scale(0, skip_prefix(e, bl as int, level as int), pow256(bl) as int);
                lemma_within_widen(s, base, base + 256 * q, 0, pow256(level) as int);
            },
            _ => {},
        }
    } else if t == 4 {
        match ar[a] {
            NodeData::Uncompressed { slots } => {
                let q = pow256((level - 1) as nat) as int;
                assert(pow256(level) == q * 256);
                lemma_uncompressed_facts(ar, slots.edges@, level, 256);
            },
            _ => {},
        }
    }
}

/// The keys under the first `i` slots of a linear branch ascend, from the
/// branch's base to the end of slot `i - 1`.
proof fn lemma_linear_facts(
    ar: Seq<NodeData>,
    base: int,
    bl: nat,
    hdr: BranchHeader,
    edges: Seq<Edge>,
    lv: nat,
    i: int,
)
    requires
        2 <= bl <= lv,
        0 <= i <= hdr.num,
        hdr.num <= edges.len(),
        digits_ascending(hdr),
        forall|j: int| 0 <= j < hdr.num ==> walkable(ar, #[trigger] edges[j], (bl - 1) as nat),
    ensures
        ascending(linear_seq(ar, base, bl, hdr, edges, lv, i)),
        within(
            linear_seq(ar, base, bl, hdr, edges, lv, i),
            base,
            base + (if i == 0 {
                0
            } else {
                (hdr.digits@[i - 1] + 1) * pow256((bl - 1) as nat)
            }),
        ),
    decreases lv, i,
{
    if i > 0 {
        let q = pow256((bl - 1) as nat) as int;
        let d = hdr.digits@[i - 1] as int;
        let off = base + d * q;
        let prev = linear_seq(ar, base, bl, hdr, edges, lv, i - 1);
        let child = key_seq(ar, edges[i - 1], (bl - 1) as nat);
        lemma_linear_facts(ar, base, bl, hdr, edges, lv, i - 1);
        lemma_key_seq_facts(ar, edges[i - 1], (bl - 1) as nat);
        lemma_shifted_facts(child, off, 0, q);
        lemma_scale(0, d, q);
        lemma_scale(d, d + 1, q);
        if i > 1 {
            assert(hdr.digits@[i - 2] < hdr.digits@[i - 1]);
            lemma_scale(hdr.digits@[i - 2] + 1, d, q);
        }
        lemma_join_ascending(prev, shifted(child, off), base, off, off + q);
        assert(off + q == base + (d + 1) * q) by (nonlinear_arith)
            requires
                off == base + d * q,
        ;
    }
}

/// The keys under the member digits below `n` of a bitmap branch ascend
/// inside the first `n` slots.
proof fn lemma_bitmap_facts(
    ar: Seq<NodeData>,
    base: int,
    bl: nat,
    b: Bitmap256,
    subs: Seq<Seq<Edge>>,
    lv: nat,
    n: int,
)
    requires
        2 <= bl <= lv,
        0 <= n <= 256,
        forall|d: int|
            0 <= d < 256 && b.has(d as u8) ==> walkable(
                ar,
                #[trigger] subs[d / 32][sub_rank(b, d) as int],
                (bl - 1) as nat,
            ),
    ensures
        ascending(bitmap_seq(ar, base, bl, b, subs, lv, n)),
        within(bitmap_seq(ar, base, bl, b, subs, lv, n), base, base + n * pow256((bl - 1) as nat)),
    decreases lv, n,
{
    if n > 0 {
        let q = pow256((bl - 1) as nat) as int;
        lemma_pow256_pos((bl - 1) as nat);
        lemma_bitmap_facts(ar, base, bl, b, subs, lv, n - 1);
        let prev = bitmap_seq(ar, base, bl, b, subs, lv, n - 1);
        lemma_scale(n - 1, n, q);
        lemma_scale(0, n - 1, q);
        if b.has((n - 1) as u8) {
            let off = base + (n - 1) * q;
            let child = key_seq(ar, subs[(n - 1) / 32][sub_rank(b, n - 1) as int], (bl - 1) as nat);
            lemma_key_seq_facts(ar, subs[(n - 1) / 32][sub_rank(b, n - 1) as int], (bl - 1) as nat);
            lemma_shifted_facts(child, off, 0, q);
            assert(off + q == base + n * q) by (nonlinear_arith)
                requires
                    off == base + (n - 1) * q,
            ;
            lemma_join_ascending(prev, shifted(child, off), base, off, off + q);
        } else {
            lemma_within_widen(prev, base, base + (n - 1) * q, base, base + n * q);
        }
    }
}

/// The keys under the slots below `n` of an uncompressed branch ascend
/// inside those slots.
proof fn lemma_uncompressed_facts(ar: Seq<NodeData>, edges: Seq<Edge>, lv: nat, n: int)
    requires
        2 <= lv,
        0 <= n <= 256,
        forall|d: int| 0 <= d < 256 ==> walkable(ar, #[trigger] edges[d], (lv - 1) as nat),
    ensures
        ascending(uncompressed_seq(ar, edges, lv, n)),
        within(uncompressed_seq(ar, edges, lv, n), 0, n * pow256((lv - 1) as nat)),
    decreases lv, n,
{
    if n > 0 {
        let q = pow256((lv - 1) as nat) as int;
        lemma_pow256_pos((lv - 1) as nat);
        lemma_uncompressed_facts(ar, edges, lv, n - 1);
        let prev = uncompressed_seq(ar, edges, lv, n - 1);
        let off = (n - 1) * q;
        let child = key_seq(ar, edges[n - 1], (lv - 1) as nat);
        lemma_scale(0, n - 1, q);
        lemma_key_seq_facts(ar, edges[n - 1], (lv - 1) as nat);
        lemma_shifted_facts(child, off, 0, q);
        assert(off + q == n * q) by (nonlinear_arith)
            requires
                off == (n - 1) * q,
        ;
        lemma_join_ascending(prev, shifted(child, off), 0, off, off + q);
    }
}


/// Below `base + x`, a bitmap's members offset by `base` number its
/// members below `x`.
pub proof fn lemma_bits_count(b: Bitmap256, base: int, n: int, x: int)
    requires
        0 <= n <= 256,
        0 <= x,
    ensures
        count_lt(bits_seq(b, base, n), base + x) == count_set(b, 0, if n <= x {
            n
        } else {
            x
        }),
    decreases n,
{
    lemma_bits_seq(b, base, n);
    if n <= x {
        lemma_count_lt_split(bits_seq(b, base, n), base + x, bits_seq(b, base, n).len() as int);
    } else {
        lemma_bits_count(b, base, n - 1, x);
        if b.has((n - 1) as u8) {
            assert(bits_seq(b, base, n).drop_last() =~= bits_seq(b, base, n - 1));
        }
    }
}

/// A member `d` of a bitmap sits in the offset member run at its rank.
pub proof fn lemma_bits_select(b: Bitmap256, base: int, n: int, d: int)
    requires
        0 <= d < n <= 256,
        b.has(d as u8),
    ensures
        count_set(b, 0, d) < bits_seq(b, base, n).len(),
        bits_seq(b, base, n)[count_set(b, 0, d) as int] == base + d,
    decreases n,
{
    lemma_bits_seq(b, base, n);
    lemma_bits_seq(b, base, d);
    if d == n - 1 {
    } else {
        lemma_bits_select(b, base, n - 1, d);
        lemma_bits_seq(b, base, n - 1);
    }
}

// ---------------------------------------------------------------------------
// Populations recorded on edges
// ---------------------------------------------------------------------------

/// The level the form behind `e` sits at: a linear or bitmap branch's own
/// level, otherwise the slot's `level`.
pub open spec fn form_level(ar: Seq<NodeData>, e: Edge, level: nat) -> nat {
    let t = e.tag_spec();
    let a = node_index(e);
    if 1 <= t <= 3 && 0 <= a < ar.len() {
        match ar[a] {
            NodeData::Linear { hdr, edges } => hdr.level as nat,
            NodeData::Bitmap { branch, subs } => branch.level as nat,
            _ => level,
        }
    } else {
        level
    }
}

/// Every edge of the subtree below `e` that sits in a slot below the root
/// level records the number of keys under it: the population the edge
/// spells equals the length of the subtree's key run.
pub open spec fn counted(ar: Seq<NodeData>, e: Edge, level: nat) -> bool
    decreases level,
{
    let t = e.tag_spec();
    let a = node_index(e);
    &&& (1 <= level <= 7 ==> edge_pop_spec(e, level as u8, form_level(ar, e, level) as u8) == key_seq(
        ar,
        e,
        level,
    ).len())
    &&& if 1 <= t <= 4 && 0 <= a < ar.len() {
        match ar[a] {
            NodeData::Linear { hdr, edges } => {
                let bl = hdr.level as nat;
                2 <= bl <= level ==> forall|i: int|
                    0 <= i < hdr.num && i < edges@.len() ==> counted(ar, #[trigger] edges@[i], (bl - 1) as nat)
            },
            NodeData::Bitmap { branch, subs } => {
                let bl = branch.level as nat;
                2 <= bl <= level ==> forall|d: int|
                    0 <= d < 256 && branch.bitmap.has(d as u8) ==> counted(
                        ar,
                        #[trigger] views(subs@)[d / 32][sub_rank(branch.bitmap, d) as int],
                        (bl - 1) as nat,
                    )
            },
            NodeData::Uncompressed { slots } => 2 <= level ==> forall|d: int|
                0 <= d < 256 ==> counted(ar, #[trigger] slots.edges@[d], (level - 1) as nat),
            _ => true,
        }
    } else {
        true
    }
}

/// The level a branch behind `edge` sits at, read from its node; the slot's
/// level for any other form.
pub fn branch_form_level(ar: &Vec<NodeData>, edge: &Edge, slot_level: u8) -> (l: u8)
    requires
        walkable(ar@, *edge, slot_level as nat),
    ensures
        l == form_level(ar@, *edge, slot_level as nat),
        1 <= l <= slot_level,
{
    match edge.tag() {
        Some(EdgeTag::Kind(EdgeType::BranchL3)) | Some(EdgeTag::Kind(EdgeType::BranchL7)) | Some(
            EdgeTag::Kind(EdgeType::BranchB),
        ) => {
            let a = node_of(ar, edge, slot_level);
            match &ar[a] {
                NodeData::Linear { hdr, edges } => hdr.level,
                NodeData::Bitmap { branch, subs } => branch.level,
                _ => slot_level,
            }
        },
        _ => slot_level,
    }
}

/// The number of keys under a child edge in a slot of `level`, read from
/// the edge at the width its form stores it.
pub fn child_pop(ar: &Vec<NodeData>, edge: &Edge, level: u8) -> (p: u64)
    requires
        walkable(ar@, *edge, level as nat),
        counted(ar@, *edge, level as nat),
        1 <= level <= 7,
    ensures
        p == key_seq(ar@, *edge, level as nat).len(),
{
    let fl = branch_form_level(ar, edge, level);
    edge_pop(edge, level, fl)
}


// ---------------------------------------------------------------------------
// Counting the keys below a suffix
// ---------------------------------------------------------------------------

/// A child's key run placed in slot `bd` of a branch whose keys start at
/// `base` counts below `base + d·q + rem` wholly when `bd < d`, as the
/// child counts below `rem` when `bd == d`, and not at all when `bd > d`.
proof fn lemma_slot_count(c: Seq<int>, base: int, bd: int, d: int, q: int, rem: int)
    requires
        q > 0,
        0 <= rem < q,
        within(c, 0, q),
    ensures
        count_lt(shifted(c, base + bd * q), base + d * q + rem) == if bd < d {
            c.len()
        } else if bd == d {
            count_lt(c, rem)
        } else {
            0
        },
{
    let off = base + bd * q;
    let x = base + d * q + rem;
    lemma_count_lt_shift(c, off, x);
    let y = x - off;
    if bd < d {
        assert(y >= q) by (nonlinear_arith)
            requires
                y == base + d * q + rem - (base + bd * q),
                bd < d,
                q > 0,
                rem >= 0,
        ;
        lemma_count_lt_split(c, y, c.len() as int);
    } else if bd == d {
        assert(y == rem);
    } else {
        assert(y < 0) by (nonlinear_arith)
            requires
                y == base + d * q + rem - (base + bd * q),
                bd > d,
                rem < q,
                q > 0,
        ;
        lemma_count_lt_split(c, y, 0);
    }
}

/// Slots from `n` up of a bitmap branch add nothing below a bound that
/// lies at or below slot `n`'s start.
proof fn lemma_bitmap_tail(
    ar: Seq<NodeData>,
    base: int,
    bl: nat,
    b: Bitmap256,
    subs: Seq<Seq<Edge>>,
    lv: nat,
    n: int,
    m: int,
    x: int,
)
    requires
        2 <= bl <= lv,
        0 <= n <= m <= 256,
        x <= base + n * pow256((bl - 1) as nat),
        forall|d: int|
            0 <= d < 256 && b.has(d as u8) ==> walkable(
                ar,
                #[trigger] subs[d / 32][sub_rank(b, d) as int],
                (bl - 1) as nat,
            ),
    ensures
        count_lt(bitmap_seq(ar, base, bl, b, subs, lv, m), x) == count_lt(bitmap_seq(ar, base, bl, b, subs, lv, n), x),
    decreases m,
{
    if m > n {
        let q = pow256((bl - 1) as nat) as int;
        lemma_bitmap_tail(ar, base, bl, b, subs, lv, n, m - 1, x);
        if b.has((m - 1) as u8) {
            let e = subs[(m - 1) / 32][sub_rank(b, m - 1) as int];
            let c = key_seq(ar, e, (bl - 1) as nat);
            let off = base + (m - 1) * q;
            lemma_key_seq_facts(ar, e, (bl - 1) as nat);
            lemma_shifted_facts(c, off, 0, q);
            lemma_scale(n, m - 1, q);
            lemma_count_lt_split(shifted(c, off), x, 0);
            lemma_count_lt_concat(bitmap_seq(ar, base, bl, b, subs, lv, m - 1), shifted(c, off), x);
        }
    }
}

/// Slots from `n` up of an uncompressed branch add nothing below a bound
/// that lies at or below slot `n`'s start.
proof fn lemma_uncompressed_tail(ar: Seq<NodeData>, edges: Seq<Edge>, lv: nat, n: int, m: int, x: int)
    requires
        2 <= lv,
        0 <= n <= m <= 256,
        x <= n * pow256((lv - 1) as nat),
        forall|d: int| 0 <= d < 256 ==> walkable(ar, #[trigger] edges[d], (lv - 1) as nat),
    ensures
        count_lt(uncompressed_seq(ar, edges, lv, m), x) == count_lt(uncompressed_seq(ar, edges, lv, n), x),
    decreases m,
{
    if m > n {
        let q = pow256((lv - 1) as nat) as int;
        lemma_uncompressed_tail(ar, edges, lv, n, m - 1, x);
        let c = key_seq(ar, edges[m - 1], (lv - 1) as nat);
        let off = (m - 1) * q;
        lemma_key_seq_facts(ar, edges[m - 1], (lv - 1) as nat);
        lemma_shifted_facts(c, off, 0, q);
        lemma_scale(n, m - 1, q);
        lemma_count_lt_split(shifted(c, off), x, 0);
        lemma_count_lt_concat(uncompressed_seq(ar, edges, lv, m - 1), shifted(c, off), x);
    }
}

/// The number of keys of the subtree below `edge`, at a slot of `level`,
/// that lie below `suffix`.
pub fn count_below(ar: &Vec<NodeData>, edge: &Edge, suffix: u64, level: u8) -> (c: u64)
    requires
        walkable(ar@, *edge, level as nat),
        counted(ar@, *edge, level as nat),
        suffix < pow256(level as nat),
    ensures
        c == count_lt(key_seq(ar@, *edge, level as nat), suffix as int),
    decreases level, 1nat,
{
    match edge.tag() {
        Some(EdgeTag::Kind(EdgeType::Null)) => 0,
        Some(EdgeTag::Kind(EdgeType::FullExpanse)) => {
            proof {
                lemma_count_lt_split(key_seq(ar@, *edge, level as nat), suffix as int, suffix as int);
            }
            suffix
        },
        Some(EdgeTag::Immed(im)) => count_below_immed(ar, edge, im, suffix, level),
        Some(EdgeTag::Kind(t)) => {
            match t.leaf_key_bytes() {
                Some(kb) => count_below_leaf(ar, edge, kb, suffix, level),
                None => {
                    match t {
                        EdgeType::LeafB1 => count_below_bits(ar, edge, suffix, level),
                        EdgeType::BranchL3 | EdgeType::BranchL7 => count_below_linear(ar, edge, suffix, level),
                        EdgeType::BranchB => count_below_bitmap(ar, edge, suffix, level),
                        EdgeType::BranchU => count_below_uncompressed(ar, edge, suffix, level),
                        _ => {
                            proof {
                                assert(false);
                            }
                            0
                        },
                    }
                },
            }
        },
        None => {
            proof {
                assert(false);
            }
            0
        },
    }
}

/// Counting in an immediate: its packed keys below the suffix.
fn count_below_immed(ar: &Vec<NodeData>, edge: &Edge, im: ImmedType, suffix: u64, level: u8) -> (c: u64)
    requires
        im.wf(),
        edge.tag_spec() == im.code(),
        walkable(ar@, *edge, level as nat),
    ensures
        c == count_lt(key_seq(ar@, *edge, level as nat), suffix as int),
{
    let keys = immed_keys(edge, im);
    let ghost ks = key_seq(ar@, *edge, level as nat);
    proof {
        lemma_immed_tag(im);
    }
    let s = keys.as_slice();
    let n = keys.len();
    let mut i: usize = 0;
    let mut c: u64 = 0;
    while i < n
        invariant
            n == im.count,
            s@ == keys@,
            keys@.len() == im.count,
            ks.len() == n,
            forall|j: int| 0 <= j < n ==> ks[j] == #[trigger] s@[j] as int,
            0 <= i <= n,
            c == count_lt(ks.take(i as int), suffix as int),
            c <= i,
        decreases n - i,
    {
        proof {
            assert(ks.take(i + 1).drop_last() =~= ks.take(i as int));
            assert(ks.take(i + 1).last() == s@[i as int] as int);
        }
        if s[i] < suffix {
            c = c + 1;
        }
        i = i + 1;
    }
    proof {
        assert(ks.take(n as int) =~= ks);
    }
    c
}

/// Counting in a linear leaf: split the suffix at the key width against
/// the skipped prefix, then binary-search the packed keys.
fn count_below_leaf(ar: &Vec<NodeData>, edge: &Edge, kb: u8, suffix: u64, level: u8) -> (c: u64)
    requires
        1 <= kb <= 7,
        edge.tag_spec() == kb + 4,
        walkable(ar@, *edge, level as nat),
        suffix < pow256(level as nat),
    ensures
        c == count_lt(key_seq(ar@, *edge, level as nat), suffix as int),
{
    let a = node_of(ar, edge, level);
    match &ar[a] {
        NodeData::Leaf { keys, values } => {
            proof {
                edge.lemma_pop0_bound(kb);
                lemma_pow256_values();
                crate::types::lemma_pow256_mono(kb as nat, 7);
                lemma_prefix_bound(*edge, kb as int, level as int);
            }
            let p0 = edge.pop0(kb);
            let klen = keys.len();
            proof {
                assert(p0 + 1 <= (p0 + 1) * kb) by (nonlinear_arith)
                    requires
                        kb >= 1,
                        p0 >= 0,
                ;
            }
            let pop = p0 as usize + 1;
            let (dv, _shift) = skip_parts(edge, kb, level);
            let ghost base = dv * pow256(kb as nat);
            let ghost ks = key_seq(ar@, *edge, level as nat);
            proof {
                assert(dv == skip_prefix(*edge, kb as int, level as int));
                crate::types::lemma_pow256_mono(level as nat, 8);
                assert(ks.len() == pop);
                assert forall|i: int| 0 <= i < pop implies #[trigger] ks[i] == base + packed_key(keys@, kb as int, i) by {
                }
            }
            match split_suffix(suffix, kb, dv) {
                None => {
                    proof {
                        assert forall|i: int| 0 <= i < pop implies #[trigger] ks[i] < suffix by {
                            lemma_packed_bound(keys@, kb as int, i, pop as int);
                        }
                        lemma_count_lt_split(ks, suffix as int, pop as int);
                    }
                    p0 + 1
                },
                Some(low) => {
                    let slot = leaf_lower_bound(keys.as_slice(), kb, pop, low);
                    proof {
                        if suffix < base {
                            assert(slot == 0);
                            lemma_count_lt_split(ks, suffix as int, 0);
                        } else {
                            assert forall|i: int| 0 <= i < slot implies #[trigger] ks[i] < suffix by {
                                assert(packed_key(keys@, kb as int, i) < low);
                            }
                            assert forall|i: int| slot <= i < pop implies #[trigger] ks[i] >= suffix by {
                                assert(packed_key(keys@, kb as int, i) >= low);
                            }
                            lemma_count_lt_split(ks, suffix as int, slot as int);
                        }
                    }
                    slot as u64
                },
            }
        },
        _ => {
            proof {
                assert(false);
            }
            0
        },
    }
}

/// Counting in a bitmap leaf: split the suffix at the last byte against
/// the skipped prefix, then rank the low byte among the members.
fn count_below_bits(ar: &Vec<NodeData>, edge: &Edge, suffix: u64, level: u8) -> (c: u64)
    requires
        edge.tag_spec() == 12,
        walkable(ar@, *edge, level as nat),
        counted(ar@, *edge, level as nat),
        suffix < pow256(level as nat),
    ensures
        c == count_lt(key_seq(ar@, *edge, level as nat), suffix as int),
{
    let a = node_of(ar, edge, level);
    match &ar[a] {
        NodeData::Bits { leaf } => {
            proof {
                lemma_pow256_values();
                lemma_prefix_bound(*edge, 1, level as int);
                crate::types::lemma_pow256_mono(level as nat, 8);
            }
            let (dv, _shift) = skip_parts(edge, 1, level);
            let ghost base = dv * 256;
            let ghost ks = key_seq(ar@, *edge, level as nat);
            proof {
                assert(dv == skip_prefix(*edge, 1, level as int));
                assert(ks == bits_seq(leaf.bitmap, base, 256));
                lemma_bits_seq(leaf.bitmap, base, 256);
            }
            match split_suffix(suffix, 1, dv) {
                None => {
                    proof {
                        assert(1 < level);
                        edge.lemma_pop0_bound(1);
                        lemma_count_lt_split(ks, suffix as int, ks.len() as int);
                    }
                    edge.pop0(1) + 1
                },
                Some(low) => {
                    let r = leaf.bitmap.rank(low as u8);
                    proof {
                        if suffix < base {
                            assert(low == 0);
                            lemma_count_lt_split(ks, suffix as int, 0);
                        } else {
                            lemma_bits_count(leaf.bitmap, base, 256, low as int);
                        }
                    }
                    r as u64
                },
            }
        },
        _ => {
            proof {
                assert(false);
            }
            0
        },
    }
}


/// Counting through a linear branch: children in slot order, whole for
/// digits below the suffix's digit, counted below the rest of the suffix
/// at its digit, skipped above it.
#[verifier::loop_isolation(false)]
fn count_below_linear(ar: &Vec<NodeData>, edge: &Edge, suffix: u64, level: u8) -> (c: u64)
    requires
        edge.tag_spec() == 1 || edge.tag_spec() == 2,
        walkable(ar@, *edge, level as nat),
        counted(ar@, *edge, level as nat),
        suffix < pow256(level as nat),
    ensures
        c == count_lt(key_seq(ar@, *edge, level as nat), suffix as int),
    decreases level, 0nat,
{
    let a = node_of(ar, edge, level);
    match &ar[a] {
        NodeData::Linear { hdr, edges } => {
            let bl = hdr.level;
            let ghost lv = level as nat;
            let ghost bn = bl as nat;
            let ghost q = pow256((bn - 1) as nat) as int;
            proof {
                lemma_prefix_bound(*edge, bl as int, level as int);
                lemma_pow256_values();
                crate::types::lemma_pow256_mono(lv, 8);
                crate::types::lemma_pow256_mono((bn - 1) as nat, 7);
                lemma_pow256_pos((bn - 1) as nat);
                assert(pow256(bn) == q * 256);
            }
            let (dv, split) = branch_suffix(edge, bl, suffix, level);
            let ghost base = dv * pow256(bn);
            let ghost ks = key_seq(ar@, *edge, lv);
            proof {
                assert(ks == linear_seq(ar@, base, bn, *hdr, edges@, lv, hdr.num as int));
                lemma_linear_facts(ar@, base, bn, *hdr, edges@, lv, hdr.num as int);
                if hdr.num > 0 {
                    lemma_scale(hdr.digits@[hdr.num - 1] + 1, 256, q);
                }
                lemma_within_widen(
                    ks,
                    base,
                    base + (if hdr.num == 0 {
                        0
                    } else {
                        (hdr.digits@[hdr.num - 1] + 1) * q
                    }),
                    base,
                    base + 256 * q,
                );
                lemma_scale(0, dv as int, pow256(bn) as int);
            }
            let s2 = match split {
                None => {
                    proof {
                        assert(bl < level);
                        edge.lemma_pop0_bound(bl);
                        lemma_count_lt_split(ks, suffix as int, ks.len() as int);
                    }
                    return edge.pop0(bl) + 1;
                },
                Some(s2) => s2,
            };
            let ghost x = base + s2;
            proof {
                if suffix < base {
                    lemma_count_lt_split(ks, suffix as int, 0);
                    lemma_count_lt_split(ks, x, 0);
                }
                lemma_digit_split(s2 as int, bn);
            }
            let d = crate::types::digit(s2, bl);
            let rem0 = key_low(s2, bl - 1);
            proof {
                assert(d == (s2 as int) / q);
                assert(rem0 == (s2 as int) % q);
                vstd::arithmetic::div_mod::lemma_fundamental_div_mod(s2 as int, q);
                assert(q * d == d * q) by (nonlinear_arith);
                assert(x == base + d * q + rem0);
            }
            let num = hdr.num as usize;
            let mut below: u64 = 0;
            let mut slot: usize = 0;
            while slot < num
                invariant
                    0 <= slot <= num,
                    num == hdr.num,
                    below == count_lt(linear_seq(ar@, base, bn, *hdr, edges@, lv, slot as int), x),
                decreases num - slot,
            {
                let bd = hdr.digits[slot];
                let child = &edges[slot];
                let ghost cs = key_seq(ar@, edges@[slot as int], (bn - 1) as nat);
                proof {
                    assert(walkable(ar@, edges@[slot as int], (bn - 1) as nat));
                    assert(counted(ar@, edges@[slot as int], (bn - 1) as nat));
                    lemma_key_seq_facts(ar@, edges@[slot as int], (bn - 1) as nat);
                }
                let add = if bd < d {
                    child_pop(ar, child, bl - 1)
                } else if bd == d {
                    count_below(ar, child, rem0, bl - 1)
                } else {
                    0
                };
                proof {
                    let prev = linear_seq(ar@, base, bn, *hdr, edges@, lv, slot as int);
                    lemma_slot_count(cs, base, bd as int, d as int, q, rem0 as int);
                    lemma_count_lt_concat(prev, shifted(cs, base + bd * q), x);
                    assert(linear_seq(ar@, base, bn, *hdr, edges@, lv, slot + 1) == prev + shifted(
                        cs,
                        base + hdr.digits@[slot as int] * q,
                    ));
                    lemma_linear_facts(ar@, base, bn, *hdr, edges@, lv, slot + 1);
                    lemma_count_lt_at_most(
                        linear_seq(ar@, base, bn, *hdr, edges@, lv, slot + 1),
                        base,
                        base + (hdr.digits@[slot as int] + 1) * q,
                        x,
                    );
                }
                below = below + add;
                slot = slot + 1;
            }
            below
        },
        _ => {
            proof {
                assert(false);
            }
            0
        },
    }
}

/// Counting through a bitmap branch: member digits up to the suffix's
/// digit, each child at its rank in its subexpanse's subarray.
#[verifier::loop_isolation(false)]
fn count_below_bitmap(ar: &Vec<NodeData>, edge: &Edge, suffix: u64, level: u8) -> (c: u64)
    requires
        edge.tag_spec() == 3,
        walkable(ar@, *edge, level as nat),
        counted(ar@, *edge, level as nat),
        suffix < pow256(level as nat),
    ensures
        c == count_lt(key_seq(ar@, *edge, level as nat), suffix as int),
    decreases level, 0nat,
{
    let a = node_of(ar, edge, level);
    match &ar[a] {
        NodeData::Bitmap { branch, subs } => {
            let bl = branch.level;
            let ghost lv = level as nat;
            let ghost bn = bl as nat;
            let ghost vs = views(subs@);
            let ghost b = branch.bitmap;
            let ghost q = pow256((bn - 1) as nat) as int;
            proof {
                lemma_prefix_bound(*edge, bl as int, level as int);
                lemma_pow256_values();
                crate::types::lemma_pow256_mono(lv, 8);
                crate::types::lemma_pow256_mono((bn - 1) as nat, 7);
                lemma_pow256_pos((bn - 1) as nat);
                assert(pow256(bn) == q * 256);
            }
            let (dv, split) = branch_suffix(edge, bl, suffix, level);
            let ghost base = dv * pow256(bn);
            let ghost ks = key_seq(ar@, *edge, lv);
            proof {
                assert(ks == bitmap_seq(ar@, base, bn, b, vs, lv, 256));
                lemma_bitmap_facts(ar@, base, bn, b, vs, lv, 256);
                lemma_scale(0, dv as int, pow256(bn) as int);
            }
            let s2 = match split {
                None => {
                    proof {
                        assert(bl < level);
                        edge.lemma_pop0_bound(bl);
                        lemma_count_lt_split(ks, suffix as int, ks.len() as int);
                    }
                    return edge.pop0(bl) + 1;
                },
                Some(s2) => s2,
            };
            let ghost x = base + s2;
            proof {
                if suffix < base {
                    lemma_count_lt_split(ks, suffix as int, 0);
                    lemma_count_lt_split(ks, x, 0);
                }
                lemma_digit_split(s2 as int, bn);
            }
            let d = crate::types::digit(s2, bl);
            let rem0 = key_low(s2, bl - 1);
            proof {
                assert(d == (s2 as int) / q);
                assert(rem0 == (s2 as int) % q);
                vstd::arithmetic::div_mod::lemma_fundamental_div_mod(s2 as int, q);
                assert(q * d == d * q) by (nonlinear_arith);
                assert(x == base + d * q + rem0);
            }
            let mut below: u64 = 0;
            let mut j: u16 = 0;
            while j <= d as u16
                invariant
                    0 <= j <= d + 1,
                    below == count_lt(bitmap_seq(ar@, base, bn, b, vs, lv, j as int), x),
                decreases d + 1 - j,
            {
                let bd = j as u8;
                if branch.bitmap.test(bd) {
                    let sub = (bd / 32) as usize;
                    let rank = rank_in_sub(&branch.bitmap, bd);
                    let ghost ce = vs[bd as int / 32][sub_rank(b, bd as int) as int];
                    proof {
                        crate::branch_forms::lemma_count_member(
                            b,
                            32 * (bd as int / 32),
                            bd as int,
                            32 * (bd as int / 32) + 32,
                        );
                        assert(vs[sub as int] == subs@[sub as int]@);
                        assert(walkable(ar@, ce, (bn - 1) as nat));
                        assert(counted(ar@, ce, (bn - 1) as nat));
                        lemma_key_seq_facts(ar@, ce, (bn - 1) as nat);
                    }
                    let child = &subs[sub][rank];
                    let add = if bd < d {
                        child_pop(ar, child, bl - 1)
                    } else {
                        count_below(ar, child, rem0, bl - 1)
                    };
                    proof {
                        let cs = key_seq(ar@, ce, (bn - 1) as nat);
                        let prev = bitmap_seq(ar@, base, bn, b, vs, lv, j as int);
                        lemma_slot_count(cs, base, bd as int, d as int, q, rem0 as int);
                        lemma_count_lt_concat(prev, shifted(cs, base + bd * q), x);
                        assert(bitmap_seq(ar@, base, bn, b, vs, lv, j + 1) == prev + shifted(cs, base + j * q));
                        lemma_bitmap_facts(ar@, base, bn, b, vs, lv, j + 1);
                        lemma_count_lt_at_most(bitmap_seq(ar@, base, bn, b, vs, lv, j + 1), base, base + (j + 1) * q, x);
                    }
                    below = below + add;
                } else {
                    proof {
                        assert(bitmap_seq(ar@, base, bn, b, vs, lv, j + 1) == bitmap_seq(ar@, base, bn, b, vs, lv, j as int));
                    }
                }
                j = j + 1;
            }
            proof {
                assert((d + 1) * q == d * q + q) by (nonlinear_arith);
                lemma_bitmap_tail(ar@, base, bn, b, vs, lv, d + 1, 256, x);
            }
            below
        },
        _ => {
            proof {
                assert(false);
            }
            0
        },
    }
}

/// Counting through an uncompressed branch: the non-null children up to
/// the suffix's digit.
#[verifier::loop_isolation(false)]
fn count_below_uncompressed(ar: &Vec<NodeData>, edge: &Edge, suffix: u64, level: u8) -> (c: u64)
    requires
        edge.tag_spec() == 4,
        walkable(ar@, *edge, level as nat),
        counted(ar@, *edge, level as nat),
        suffix < pow256(level as nat),
    ensures
        c == count_lt(key_seq(ar@, *edge, level as nat), suffix as int),
    decreases level, 0nat,
{
    let a = node_of(ar, edge, level);
    match &ar[a] {
        NodeData::Uncompressed { slots } => {
            let ghost lv = level as nat;
            let ghost q = pow256((lv - 1) as nat) as int;
            let ghost es = slots.edges@;
            proof {
                lemma_digit_split(suffix as int, lv);
                lemma_pow256_values();
                crate::types::lemma_pow256_mono((lv - 1) as nat, 7);
                crate::types::lemma_pow256_mono(lv, 8);
                lemma_pow256_pos((lv - 1) as nat);
                assert(pow256(lv) == q * 256);
            }
            let d = crate::types::digit(suffix, level);
            let rem0 = key_low(suffix, level - 1);
            proof {
                assert(d == (suffix as int) / q);
                assert(rem0 == (suffix as int) % q);
                vstd::arithmetic::div_mod::lemma_fundamental_div_mod(suffix as int, q);
                assert(q * d == d * q) by (nonlinear_arith);
                assert(suffix == 0 + d * q + rem0);
            }
            let mut below: u64 = 0;
            let mut bd: u16 = 0;
            while bd <= d as u16
                invariant
                    0 <= bd <= d + 1,
                    below == count_lt(uncompressed_seq(ar@, es, lv, bd as int), suffix as int),
                decreases d + 1 - bd,
            {
                let child = &slots.edges[bd as usize];
                let ghost cs = key_seq(ar@, es[bd as int], (lv - 1) as nat);
                proof {
                    assert(walkable(ar@, es[bd as int], (lv - 1) as nat));
                    assert(counted(ar@, es[bd as int], (lv - 1) as nat));
                    lemma_key_seq_facts(ar@, es[bd as int], (lv - 1) as nat);
                    let prev = uncompressed_seq(ar@, es, lv, bd as int);
                    lemma_slot_count(cs, 0, bd as int, d as int, q, rem0 as int);
                    lemma_count_lt_concat(prev, shifted(cs, 0 + bd * q), suffix as int);
                    assert(uncompressed_seq(ar@, es, lv, bd + 1) == prev + shifted(cs, bd * q));
                    lemma_uncompressed_facts(ar@, es, lv, bd + 1);
                    lemma_count_lt_at_most(uncompressed_seq(ar@, es, lv, bd + 1), 0, (bd + 1) * q, suffix as int);
                }
                if !child.is_null() {
                    let add = if bd < d as u16 {
                        child_pop(ar, child, level - 1)
                    } else {
                        count_below(ar, child, rem0, level - 1)
                    };
                    below = below + add;
                }
                bd = bd + 1;
            }
            proof {
                assert((d + 1) * q == d * q + q) by (nonlinear_arith);
                lemma_uncompressed_tail(ar@, es, lv, d + 1, 256, suffix as int);
            }
            below
        },
        _ => {
            proof {
                assert(false);
            }
            0
        },
    }
}


// ---------------------------------------------------------------------------
// Selecting the key with a given number of keys below it
// ---------------------------------------------------------------------------

/// The keys under the first `i` slots of a linear branch begin the keys
/// under its first `j`.
proof fn lemma_linear_prefix(
    ar: Seq<NodeData>,
    base: int,
    bl: nat,
    hdr: BranchHeader,
    edges: Seq<Edge>,
    lv: nat,
    i: int,
    j: int,
)
    requires
        2 <= bl <= lv,
        0 <= i <= j <= edges.len(),
    ensures
        linear_seq(ar, base, bl, hdr, edges, lv, i).len() <= linear_seq(ar, base, bl, hdr, edges, lv, j).len(),
        forall|k: int|
            0 <= k < linear_seq(ar, base, bl, hdr, edges, lv, i).len() ==> #[trigger] linear_seq(
                ar,
                base,
                bl,
                hdr,
                edges,
                lv,
                j,
            )[k] == linear_seq(ar, base, bl, hdr, edges, lv, i)[k],
    decreases j,
{
    if j > i {
        lemma_linear_prefix(ar, base, bl, hdr, edges, lv, i, j - 1);
    }
}

/// The keys under the member digits below `i` of a bitmap branch begin
/// those below `j`.
proof fn lemma_bitmap_prefix(
    ar: Seq<NodeData>,
    base: int,
    bl: nat,
    b: Bitmap256,
    subs: Seq<Seq<Edge>>,
    lv: nat,
    i: int,
    j: int,
)
    requires
        2 <= bl <= lv,
        0 <= i <= j,
    ensures
        bitmap_seq(ar, base, bl, b, subs, lv, i).len() <= bitmap_seq(ar, base, bl, b, subs, lv, j).len(),
        forall|k: int|
            0 <= k < bitmap_seq(ar, base, bl, b, subs, lv, i).len() ==> #[trigger] bitmap_seq(
                ar,
                base,
                bl,
                b,
                subs,
                lv,
                j,
            )[k] == bitmap_seq(ar, base, bl, b, subs, lv, i)[k],
    decreases j,
{
    if j > i {
        lemma_bitmap_prefix(ar, base, bl, b, subs, lv, i, j - 1);
    }
}

/// The keys under the slots below `i` of an uncompressed branch begin
/// those below `j`.
proof fn lemma_uncompressed_prefix(ar: Seq<NodeData>, edges: Seq<Edge>, lv: nat, i: int, j: int)
    requires
        2 <= lv,
        0 <= i <= j,
    ensures
        uncompressed_seq(ar, edges, lv, i).len() <= uncompressed_seq(ar, edges, lv, j).len(),
        forall|k: int|
            0 <= k < uncompressed_seq(ar, edges, lv, i).len() ==> #[trigger] uncompressed_seq(ar, edges, lv, j)[k]
                == uncompressed_seq(ar, edges, lv, i)[k],
    decreases j,
{
    if j > i {
        lemma_uncompressed_prefix(ar, edges, lv, i, j - 1);
    }
}

/// The key of the subtree below `edge`, at a slot of `level`, with `n` of
/// its keys below it.
pub fn by_count(ar: &Vec<NodeData>, edge: &Edge, n: u64, level: u8) -> (k: u64)
    requires
        walkable(ar@, *edge, level as nat),
        counted(ar@, *edge, level as nat),
        n < key_seq(ar@, *edge, level as nat).len(),
    ensures
        k == key_seq(ar@, *edge, level as nat)[n as int],
    decreases level, 1nat,
{
    match edge.tag() {
        Some(EdgeTag::Kind(EdgeType::FullExpanse)) => n,
        Some(EdgeTag::Immed(im)) => by_count_immed(ar, edge, im, n, level),
        Some(EdgeTag::Kind(t)) => {
            match t.leaf_key_bytes() {
                Some(kb) => by_count_leaf(ar, edge, kb, n, level),
                None => {
                    match t {
                        EdgeType::LeafB1 => by_count_bits(ar, edge, n, level),
                        EdgeType::BranchL3 | EdgeType::BranchL7 => by_count_linear(ar, edge, n, level),
                        EdgeType::BranchB => by_count_bitmap(ar, edge, n, level),
                        EdgeType::BranchU => by_count_uncompressed(ar, edge, n, level),
                        _ => {
                            proof {
                                assert(false);
                            }
                            0
                        },
                    }
                },
            }
        },
        None => {
            proof {
                assert(false);
            }
            0
        },
    }
}

/// Selecting in an immediate: its packed key at the rank.
fn by_count_immed(ar: &Vec<NodeData>, edge: &Edge, im: ImmedType, n: u64, level: u8) -> (k: u64)
    requires
        im.wf(),
        edge.tag_spec() == im.code(),
        walkable(ar@, *edge, level as nat),
        n < key_seq(ar@, *edge, level as nat).len(),
    ensures
        k == key_seq(ar@, *edge, level as nat)[n as int],
{
    let keys = immed_keys(edge, im);
    proof {
        lemma_immed_tag(im);
    }
    let s = keys.as_slice();
    proof {
        assert(s@ == keys@);
    }
    s[n as usize]
}

/// Selecting in a linear leaf: the packed key at the rank under the
/// skipped prefix.
fn by_count_leaf(ar: &Vec<NodeData>, edge: &Edge, kb: u8, n: u64, level: u8) -> (k: u64)
    requires
        1 <= kb <= 7,
        edge.tag_spec() == kb + 4,
        walkable(ar@, *edge, level as nat),
        n < key_seq(ar@, *edge, level as nat).len(),
    ensures
        k == key_seq(ar@, *edge, level as nat)[n as int],
{
    let a = node_of(ar, edge, level);
    match &ar[a] {
        NodeData::Leaf { keys, values } => {
            proof {
                edge.lemma_pop0_bound(kb);
                lemma_pow256_values();
                crate::types::lemma_pow256_mono(kb as nat, 7);
                crate::types::lemma_pow256_mono(level as nat, 8);
                lemma_prefix_bound(*edge, kb as int, level as int);
            }
            let p0 = edge.pop0(kb);
            let klen = keys.len();
            proof {
                assert(p0 + 1 <= (p0 + 1) * kb) by (nonlinear_arith)
                    requires
                        kb >= 1,
                        p0 >= 0,
                ;
            }
            let pop = p0 as usize + 1;
            let (dv, _shift) = skip_parts(edge, kb, level);
            proof {
                assert(dv == skip_prefix(*edge, kb as int, level as int));
            }
            let k = leaf_suffix(keys.as_slice(), kb, pop, n as usize);
            proof {
                lemma_packed_bound(keys@, kb as int, n as int, pop as int);
            }
            join(dv, kb, k)
        },
        _ => {
            proof {
                assert(false);
            }
            0
        },
    }
}

/// Selecting in a bitmap leaf: the member digit at the rank under the
/// skipped prefix.
fn by_count_bits(ar: &Vec<NodeData>, edge: &Edge, n: u64, level: u8) -> (k: u64)
    requires
        edge.tag_spec() == 12,
        walkable(ar@, *edge, level as nat),
        n < key_seq(ar@, *edge, level as nat).len(),
    ensures
        k == key_seq(ar@, *edge, level as nat)[n as int],
{
    let a = node_of(ar, edge, level);
    match &ar[a] {
        NodeData::Bits { leaf } => {
            proof {
                lemma_pow256_values();
                lemma_prefix_bound(*edge, 1, level as int);
                crate::types::lemma_pow256_mono(level as nat, 8);
            }
            let (dv, _shift) = skip_parts(edge, 1, level);
            let ghost base = dv * 256;
            proof {
                assert(dv == skip_prefix(*edge, 1, level as int));
                lemma_bits_seq(leaf.bitmap, base, 256);
                assert(key_seq(ar@, *edge, level as nat) == bits_seq(leaf.bitmap, base, 256));
                crate::branch_forms::lemma_count_mono(leaf.bitmap, 0, 0, 256);
            }
            match leaf.bitmap.select(n as u32) {
                Some(d) => {
                    proof {
                        lemma_bits_select(leaf.bitmap, base, 256, d as int);
                    }
                    join(dv, 1, d as u64)
                },
                None => {
                    proof {
                        assert(false);
                    }
                    0
                },
            }
        },
        _ => {
            proof {
                assert(false);
            }
            0
        },
    }
}

/// Selecting through a linear branch: children in slot order, stepping
/// over each child's population until the rank falls inside one.
#[verifier::loop_isolation(false)]
fn by_count_linear(ar: &Vec<NodeData>, edge: &Edge, n: u64, level: u8) -> (k: u64)
    requires
        edge.tag_spec() == 1 || edge.tag_spec() == 2,
        walkable(ar@, *edge, level as nat),
        counted(ar@, *edge, level as nat),
        n < key_seq(ar@, *edge, level as nat).len(),
    ensures
        k == key_seq(ar@, *edge, level as nat)[n as int],
    decreases level, 0nat,
{
    let a = node_of(ar, edge, level);
    match &ar[a] {
        NodeData::Linear { hdr, edges } => {
            let bl = hdr.level;
            let ghost lv = level as nat;
            let ghost bn = bl as nat;
            let ghost q = pow256((bn - 1) as nat) as int;
            proof {
                lemma_prefix_bound(*edge, bl as int, level as int);
                lemma_pow256_values();
                crate::types::lemma_pow256_mono(lv, 8);
                crate::types::lemma_pow256_mono((bn - 1) as nat, 7);
                lemma_pow256_pos((bn - 1) as nat);
                assert(pow256(bn) == q * 256);
            }
            let dv = if bl < level {
                crate::mutate::decode_value(edge, bl, level)
            } else {
                0
            };
            let ghost base = dv * pow256(bn);
            let ghost ks = key_seq(ar@, *edge, lv);
            proof {
                assert(dv == skip_prefix(*edge, bl as int, level as int));
                assert(ks == linear_seq(ar@, base, bn, *hdr, edges@, lv, hdr.num as int));
            }
            let num = hdr.num as usize;
            let mut m: u64 = n;
            let mut slot: usize = 0;
            while slot < num
                invariant
                    0 <= slot <= num,
                    num == hdr.num,
                    m + linear_seq(ar@, base, bn, *hdr, edges@, lv, slot as int).len() == n,
                decreases num - slot,
            {
                let bd = hdr.digits[slot];
                let child = &edges[slot];
                let ghost cs = key_seq(ar@, edges@[slot as int], (bn - 1) as nat);
                let ghost prev = linear_seq(ar@, base, bn, *hdr, edges@, lv, slot as int);
                proof {
                    assert(walkable(ar@, edges@[slot as int], (bn - 1) as nat));
                    assert(counted(ar@, edges@[slot as int], (bn - 1) as nat));
                    lemma_key_seq_facts(ar@, edges@[slot as int], (bn - 1) as nat);
                    assert(linear_seq(ar@, base, bn, *hdr, edges@, lv, slot + 1) == prev + shifted(
                        cs,
                        base + hdr.digits@[slot as int] * q,
                    ));
                }
                let pop = child_pop(ar, child, bl - 1);
                if m < pop {
                    let r = by_count(ar, child, m, bl - 1);
                    let c = compose(bd, r, bl);
                    proof {
                        crate::nav::lemma_slot_bounds(0, bd as int, bn, r as int);
                    }
                    let res = if bl < level {
                        join(dv, bl, c)
                    } else {
                        c
                    };
                    proof {
                        lemma_linear_prefix(ar@, base, bn, *hdr, edges@, lv, slot + 1, hdr.num as int);
                        assert(res == base + bd * q + r);
                        assert(linear_seq(ar@, base, bn, *hdr, edges@, lv, slot + 1)[n as int] == res);
                    }
                    return res;
                }
                m = m - pop;
                slot = slot + 1;
            }
            proof {
                assert(false);
            }
            0
        },
        _ => {
            proof {
                assert(false);
            }
            0
        },
    }
}

/// Selecting through a bitmap branch: member digits in order, each child
/// at its rank in its subexpanse's subarray.
#[verifier::loop_isolation(false)]
fn by_count_bitmap(ar: &Vec<NodeData>, edge: &Edge, n: u64, level: u8) -> (k: u64)
    requires
        edge.tag_spec() == 3,
        walkable(ar@, *edge, level as nat),
        counted(ar@, *edge, level as nat),
        n < key_seq(ar@, *edge, level as nat).len(),
    ensures
        k == key_seq(ar@, *edge, level as nat)[n as int],
    decreases level, 0nat,
{
    let a = node_of(ar, edge, level);
    match &ar[a] {
        NodeData::Bitmap { branch, subs } => {
            let bl = branch.level;
            let ghost lv = level as nat;
            let ghost bn = bl as nat;
            let ghost vs = views(subs@);
            let ghost b = branch.bitmap;
            let ghost q = pow256((bn - 1) as nat) as int;
            proof {
                lemma_prefix_bound(*edge, bl as int, level as int);
                lemma_pow256_values();
                crate::types::lemma_pow256_mono(lv, 8);
                crate::types::lemma_pow256_mono((bn - 1) as nat, 7);
                lemma_pow256_pos((bn - 1) as nat);
                assert(pow256(bn) == q * 256);
            }
            let dv = if bl < level {
                crate::mutate::decode_value(edge, bl, level)
            } else {
                0
            };
            let ghost base = dv * pow256(bn);
            let ghost ks = key_seq(ar@, *edge, lv);
            proof {
                assert(dv == skip_prefix(*edge, bl as int, level as int));
                assert(ks == bitmap_seq(ar@, base, bn, b, vs, lv, 256));
            }
            let mut m: u64 = n;
            let mut j: u16 = 0;
            while j < 256
                invariant
                    0 <= j <= 256,
                    m + bitmap_seq(ar@, base, bn, b, vs, lv, j as int).len() == n,
                decreases 256 - j,
            {
                let bd = j as u8;
                let ghost prev = bitmap_seq(ar@, base, bn, b, vs, lv, j as int);
                if branch.bitmap.test(bd) {
                    let sub = (bd / 32) as usize;
                    let rank = rank_in_sub(&branch.bitmap, bd);
                    let ghost ce = vs[bd as int / 32][sub_rank(b, bd as int) as int];
                    let ghost cs = key_seq(ar@, ce, (bn - 1) as nat);
                    proof {
                        crate::branch_forms::lemma_count_member(
                            b,
                            32 * (bd as int / 32),
                            bd as int,
                            32 * (bd as int / 32) + 32,
                        );
                        assert(vs[sub as int] == subs@[sub as int]@);
                        assert(walkable(ar@, ce, (bn - 1) as nat));
                        assert(counted(ar@, ce, (bn - 1) as nat));
                        lemma_key_seq_facts(ar@, ce, (bn - 1) as nat);
                        assert(bitmap_seq(ar@, base, bn, b, vs, lv, j + 1) == prev + shifted(cs, base + j * q));
                    }
                    let child = &subs[sub][rank];
                    let pop = child_pop(ar, child, bl - 1);
                    if m < pop {
                        let r = by_count(ar, child, m, bl - 1);
                        let c = compose(bd, r, bl);
                        proof {
                            crate::nav::lemma_slot_bounds(0, bd as int, bn, r as int);
                        }
                        let res = if bl < level {
                            join(dv, bl, c)
                        } else {
                            c
                        };
                        proof {
                            lemma_bitmap_prefix(ar@, base, bn, b, vs, lv, j + 1, 256);
                            assert(res == base + bd * q + r);
                            assert(bitmap_seq(ar@, base, bn, b, vs, lv, j + 1)[n as int] == res);
                        }
                        return res;
                    }
                    m = m - pop;
                } else {
                    proof {
                        assert(bitmap_seq(ar@, base, bn, b, vs, lv, j + 1) == prev);
                    }
                }
                j = j + 1;
            }
            proof {
                assert(false);
            }
            0
        },
        _ => {
            proof {
                assert(false);
            }
            0
        },
    }
}

/// Selecting through an uncompressed branch: the non-null children in
/// digit order.
#[verifier::loop_isolation(false)]
fn by_count_uncompressed(ar: &Vec<NodeData>, edge: &Edge, n: u64, level: u8) -> (k: u64)
    requires
        edge.tag_spec() == 4,
        walkable(ar@, *edge, level as nat),
        counted(ar@, *edge, level as nat),
        n < key_seq(ar@, *edge, level as nat).len(),
    ensures
        k == key_seq(ar@, *edge, level as nat)[n as int],
    decreases level, 0nat,
{
    let a = node_of(ar, edge, level);
    match &ar[a] {
        NodeData::Uncompressed { slots } => {
            let ghost lv = level as nat;
            let ghost q = pow256((lv - 1) as nat) as int;
            let ghost es = slots.edges@;
            proof {
                lemma_pow256_values();
                crate::types::lemma_pow256_mono((lv - 1) as nat, 7);
                lemma_pow256_pos((lv - 1) as nat);
            }
            let mut m: u64 = n;
            let mut bd: u16 = 0;
            while bd < 256
                invariant
                    0 <= bd <= 256,
                    m + uncompressed_seq(ar@, es, lv, bd as int).len() == n,
                decreases 256 - bd,
            {
                let child = &slots.edges[bd as usize];
                let ghost cs = key_seq(ar@, es[bd as int], (lv - 1) as nat);
                let ghost prev = uncompressed_seq(ar@, es, lv, bd as int);
                proof {
                    assert(walkable(ar@, es[bd as int], (lv - 1) as nat));
                    assert(counted(ar@, es[bd as int], (lv - 1) as nat));
                    lemma_key_seq_facts(ar@, es[bd as int], (lv - 1) as nat);
                    assert(uncompressed_seq(ar@, es, lv, bd + 1) == prev + shifted(cs, bd * q));
                }
                if !child.is_null() {
                    let pop = child_pop(ar, child, level - 1);
                    if m < pop {
                        let r = by_count(ar, child, m, level - 1);
                        let res = compose(bd as u8, r, level);
                        proof {
                            lemma_uncompressed_prefix(ar@, es, lv, bd + 1, 256);
                            assert(uncompressed_seq(ar@, es, lv, bd + 1)[n as int] == res);
                        }
                        return res;
                    }
                    m = m - pop;
                }
                bd = bd + 1;
            }
            proof {
                assert(false);
            }
            0
        },
        _ => {
            proof {
                assert(false);
            }
            0
        },
    }
}


// ---------------------------------------------------------------------------
// Rank and select undo each other
// ---------------------------------------------------------------------------

/// In an ascending run, the elements below `x` are exactly the first
/// `count_lt(s, x)`.
pub proof fn lemma_count_lt_ascending(s: Seq<int>, x: int)
    requires
        ascending(s),
    ensures
        count_lt(s, x) <= s.len(),
        forall|i: int| 0 <= i < count_lt(s, x) ==> #[trigger] s[i] < x,
        forall|i: int| count_lt(s, x) <= i < s.len() ==> #[trigger] s[i] >= x,
    decreases s.len(),
{
    if s.len() > 0 {
        let t = s.drop_last();
        let n = s.len() - 1;
        lemma_count_lt_ascending(t, x);
        if s[n] < x {
            assert forall|i: int| 0 <= i < n implies #[trigger] t[i] < x by {
                assert(s[i] < s[n]);
            }
            if count_lt(t, x) < n {
                assert(t[count_lt(t, x) as int] >= x);
            }
            assert(count_lt(s, x) == n + 1);
            assert forall|i: int| 0 <= i < count_lt(s, x) implies #[trigger] s[i] < x by {
                if i < n {
                    assert(t[i] < x);
                }
            }
        } else {
            assert forall|i: int| 0 <= i < count_lt(s, x) implies #[trigger] s[i] < x by {
                assert(t[i] < x);
            }
            assert forall|i: int| count_lt(s, x) <= i < s.len() implies #[trigger] s[i] >= x by {
                if i < n {
                    assert(t[i] >= x);
                }
            }
        }
    }
}

/// Counting below the key of rank `n` gives `n` back: in a walkable
/// subtree exactly `n` keys lie below its key of rank `n`.
pub proof fn law_count_below_by_count(ar: Seq<NodeData>, e: Edge, level: nat, n: int)
    requires
        walkable(ar, e, level),
        0 <= n < key_seq(ar, e, level).len(),
    ensures
        count_lt(key_seq(ar, e, level), key_seq(ar, e, level)[n]) == n,
{
    let s = key_seq(ar, e, level);
    lemma_key_seq_facts(ar, e, level);
    assert forall|i: int| 0 <= i < n implies #[trigger] s[i] < s[n] by {
    }
    assert forall|i: int| n <= i < s.len() implies #[trigger] s[i] >= s[n] by {
        if i > n {
            assert(s[n] < s[i]);
        }
    }
    lemma_count_lt_split(s, s[n], n);
}

/// Selecting at the count below a bound gives the smallest key at or above
/// it: in a walkable subtree, the key of rank `count_lt(keys, x)` is at
/// least `x`, and the key just before it is below `x`.
pub proof fn law_by_count_count_below(ar: Seq<NodeData>, e: Edge, level: nat, x: int)
    requires
        walkable(ar, e, level),
    ensures
        ({
            let s = key_seq(ar, e, level);
            let c = count_lt(s, x) as int;
            &&& c <= s.len()
            &&& c < s.len() ==> s[c] >= x
            &&& 0 < c ==> s[c - 1] < x
        }),
{
    lemma_key_seq_facts(ar, e, level);
    lemma_count_lt_ascending(key_seq(ar, e, level), x);
}


// ---------------------------------------------------------------------------
// The walk-order run lists exactly the keys
// ---------------------------------------------------------------------------

/// Each element of a bitmap's offset member run is a member digit above
/// the offset.
proof fn lemma_bits_members(b: Bitmap256, base: int, n: int)
    requires
        0 <= n <= 256,
    ensures
        forall|i: int|
            0 <= i < bits_seq(b, base, n).len() ==> 0 <= #[trigger] bits_seq(b, base, n)[i] - base < n && b.has(
                (bits_seq(b, base, n)[i] - base) as u8,
            ),
    decreases n,
{
    if n > 0 {
        let prev = bits_seq(b, base, n - 1);
        let cur = bits_seq(b, base, n);
        lemma_bits_members(b, base, n - 1);
        assert forall|i: int| 0 <= i < cur.len() implies 0 <= #[trigger] cur[i] - base < n && b.has(
            (cur[i] - base) as u8,
        ) by {
            if i < prev.len() {
                assert(cur[i] == prev[i]);
            } else {
                assert(cur[i] == base + n - 1);
            }
        }
    }
}

/// `k` falls in one of the first `i` slots of a linear branch whose keys
/// start at `base`, with its rest under that slot's child.
pub open spec fn linear_has(
    ar: Seq<NodeData>,
    base: int,
    bl: nat,
    hdr: BranchHeader,
    edges: Seq<Edge>,
    i: int,
    k: int,
) -> bool {
    exists|j: int|
        0 <= j < i && #[trigger] in_slot(base, hdr.digits@[j] as int, bl, k) && key_in(
            ar,
            edges[j],
            (bl - 1) as nat,
            slot_rem(base, hdr.digits@[j] as int, bl, k),
        )
}

/// `k` falls under a member digit below `n` of a bitmap branch whose keys
/// start at `base`, with its rest under that digit's child.
pub open spec fn bitmap_has(
    ar: Seq<NodeData>,
    base: int,
    bl: nat,
    b: Bitmap256,
    subs: Seq<Seq<Edge>>,
    n: int,
    k: int,
) -> bool {
    exists|d: int|
        0 <= d < n && b.has(d as u8) && #[trigger] in_slot(base, d, bl, k) && key_in(
            ar,
            subs[d / 32][sub_rank(b, d) as int],
            (bl - 1) as nat,
            slot_rem(base, d, bl, k),
        )
}

/// `k` falls under a digit below `n` of an uncompressed branch, with its
/// rest under that digit's child.
pub open spec fn uncompressed_has(ar: Seq<NodeData>, edges: Seq<Edge>, lv: nat, n: int, k: int) -> bool {
    exists|d: int|
        0 <= d < n && #[trigger] in_slot(0, d, lv, k) && key_in(ar, edges[d], (lv - 1) as nat, slot_rem(0, d, lv, k))
}

/// The keys under the first `i` slots of a linear branch are exactly the
/// keys that fall in one of those slots with their rest under its child.
proof fn lemma_linear_members(
    ar: Seq<NodeData>,
    base: int,
    bl: nat,
    hdr: BranchHeader,
    edges: Seq<Edge>,
    lv: nat,
    i: int,
)
    requires
        2 <= bl <= lv,
        0 <= i <= hdr.num,
        hdr.num <= edges.len(),
        forall|j: int| 0 <= j < hdr.num ==> walkable(ar, #[trigger] edges[j], (bl - 1) as nat),
    ensures
        forall|x: int|
            0 <= x < linear_seq(ar, base, bl, hdr, edges, lv, i).len() ==> linear_has(
                ar,
                base,
                bl,
                hdr,
                edges,
                i,
                #[trigger] linear_seq(ar, base, bl, hdr, edges, lv, i)[x],
            ),
        forall|k: int|
            #[trigger] linear_has(ar, base, bl, hdr, edges, i, k) ==> exists|x: int|
                0 <= x < linear_seq(ar, base, bl, hdr, edges, lv, i).len() && #[trigger] linear_seq(
                    ar,
                    base,
                    bl,
                    hdr,
                    edges,
                    lv,
                    i,
                )[x] == k,
    decreases lv, i,
{
    if i > 0 {
        let q = pow256((bl - 1) as nat) as int;
        let d = hdr.digits@[i - 1] as int;
        let off = base + d * q;
        let prev = linear_seq(ar, base, bl, hdr, edges, lv, i - 1);
        let ce = edges[i - 1];
        let c = key_seq(ar, ce, (bl - 1) as nat);
        let cur = linear_seq(ar, base, bl, hdr, edges, lv, i);
        lemma_linear_members(ar, base, bl, hdr, edges, lv, i - 1);
        lemma_key_seq_members(ar, ce, (bl - 1) as nat);
        lemma_key_seq_facts(ar, ce, (bl - 1) as nat);
        assert(cur == prev + shifted(c, off));
        assert forall|x: int| 0 <= x < cur.len() implies linear_has(ar, base, bl, hdr, edges, i, #[trigger] cur[x]) by {
            if x < prev.len() {
                assert(cur[x] == prev[x]);
                assert(linear_has(ar, base, bl, hdr, edges, i - 1, prev[x]));
                let j = choose|j: int|
                    0 <= j < i - 1 && #[trigger] in_slot(base, hdr.digits@[j] as int, bl, prev[x]) && key_in(
                        ar,
                        edges[j],
                        (bl - 1) as nat,
                        slot_rem(base, hdr.digits@[j] as int, bl, prev[x]),
                    );
                assert(in_slot(base, hdr.digits@[j] as int, bl, cur[x]));
            } else {
                let y = x - prev.len();
                assert(cur[x] == off + c[y]);
                assert(0 <= c[y] < q);
                crate::nav::lemma_slot_bounds(base, d, bl, c[y]);
                assert(key_in(ar, ce, (bl - 1) as nat, c[y]));
                assert(in_slot(base, hdr.digits@[i - 1] as int, bl, cur[x]));
            }
        }
        assert forall|k: int| #[trigger] linear_has(ar, base, bl, hdr, edges, i, k) implies exists|x: int|
            0 <= x < cur.len() && #[trigger] cur[x] == k by {
            let j = choose|j: int|
                0 <= j < i && #[trigger] in_slot(base, hdr.digits@[j] as int, bl, k) && key_in(
                    ar,
                    edges[j],
                    (bl - 1) as nat,
                    slot_rem(base, hdr.digits@[j] as int, bl, k),
                );
            if j < i - 1 {
                assert(linear_has(ar, base, bl, hdr, edges, i - 1, k));
                let x = choose|x: int| 0 <= x < prev.len() && #[trigger] prev[x] == k;
                assert(cur[x] == prev[x]);
            } else {
                let r = slot_rem(base, d, bl, k);
                let y = choose|y: int| 0 <= y < c.len() && #[trigger] c[y] == r;
                assert(cur[prev.len() + y] == off + c[y]);
            }
        }
    }
}

/// The keys under the member digits below `n` of a bitmap branch are
/// exactly the keys that fall in one of those slots with their rest under
/// its child.
proof fn lemma_bitmap_members(
    ar: Seq<NodeData>,
    base: int,
    bl: nat,
    b: Bitmap256,
    subs: Seq<Seq<Edge>>,
    lv: nat,
    n: int,
)
    requires
        2 <= bl <= lv,
        0 <= n <= 256,
        forall|d: int|
            0 <= d < 256 && b.has(d as u8) ==> walkable(
                ar,
                #[trigger] subs[d / 32][sub_rank(b, d) as int],
                (bl - 1) as nat,
            ),
    ensures
        forall|x: int|
            0 <= x < bitmap_seq(ar, base, bl, b, subs, lv, n).len() ==> bitmap_has(
                ar,
                base,
                bl,
                b,
                subs,
                n,
                #[trigger] bitmap_seq(ar, base, bl, b, subs, lv, n)[x],
            ),
        forall|k: int|
            #[trigger] bitmap_has(ar, base, bl, b, subs, n, k) ==> exists|x: int|
                0 <= x < bitmap_seq(ar, base, bl, b, subs, lv, n).len() && #[trigger] bitmap_seq(
                    ar,
                    base,
                    bl,
                    b,
                    subs,
                    lv,
                    n,
                )[x] == k,
    decreases lv, n,
{
    if n > 0 {
        let q = pow256((bl - 1) as nat) as int;
        let prev = bitmap_seq(ar, base, bl, b, subs, lv, n - 1);
        let cur = bitmap_seq(ar, base, bl, b, subs, lv, n);
        let off = base + (n - 1) * q;
        let ce = subs[(n - 1) / 32][sub_rank(b, n - 1) as int];
        let c = key_seq(ar, ce, (bl - 1) as nat);
        lemma_bitmap_members(ar, base, bl, b, subs, lv, n - 1);
        if b.has((n - 1) as u8) {
            lemma_key_seq_members(ar, ce, (bl - 1) as nat);
            lemma_key_seq_facts(ar, ce, (bl - 1) as nat);
            assert(cur == prev + shifted(c, off));
        } else {
            assert(cur == prev);
        }
        assert forall|x: int| 0 <= x < cur.len() implies bitmap_has(ar, base, bl, b, subs, n, #[trigger] cur[x]) by {
            if x < prev.len() {
                assert(cur[x] == prev[x]);
                assert(bitmap_has(ar, base, bl, b, subs, n - 1, prev[x]));
                let d = choose|d: int|
                    0 <= d < n - 1 && b.has(d as u8) && #[trigger] in_slot(base, d, bl, prev[x]) && key_in(
                        ar,
                        subs[d / 32][sub_rank(b, d) as int],
                        (bl - 1) as nat,
                        slot_rem(base, d, bl, prev[x]),
                    );
                assert(in_slot(base, d, bl, cur[x]));
            } else {
                let y = x - prev.len();
                assert(cur[x] == off + c[y]);
                assert(0 <= c[y] < q);
                crate::nav::lemma_slot_bounds(base, n - 1, bl, c[y]);
                assert(key_in(ar, ce, (bl - 1) as nat, c[y]));
                assert(in_slot(base, n - 1, bl, cur[x]));
            }
        }
        assert forall|k: int| #[trigger] bitmap_has(ar, base, bl, b, subs, n, k) implies exists|x: int|
            0 <= x < cur.len() && #[trigger] cur[x] == k by {
            let d = choose|d: int|
                0 <= d < n && b.has(d as u8) && #[trigger] in_slot(base, d, bl, k) && key_in(
                    ar,
                    subs[d / 32][sub_rank(b, d) as int],
                    (bl - 1) as nat,
                    slot_rem(base, d, bl, k),
                );
            if d < n - 1 {
                assert(bitmap_has(ar, base, bl, b, subs, n - 1, k));
                let x = choose|x: int| 0 <= x < prev.len() && #[trigger] prev[x] == k;
                assert(cur[x] == prev[x]);
            } else {
                let r = slot_rem(base, d, bl, k);
                let y = choose|y: int| 0 <= y < c.len() && #[trigger] c[y] == r;
                assert(cur[prev.len() + y] == off + c[y]);
            }
        }
    }
}

/// The keys under the slots below `n` of an uncompressed branch are
/// exactly the keys that fall in one of those slots with their rest under
/// its child.
proof fn lemma_uncompressed_members(ar: Seq<NodeData>, edges: Seq<Edge>, lv: nat, n: int)
    requires
        2 <= lv,
        0 <= n <= 256,
        forall|d: int| 0 <= d < 256 ==> walkable(ar, #[trigger] edges[d], (lv - 1) as nat),
    ensures
        forall|x: int|
            0 <= x < uncompressed_seq(ar, edges, lv, n).len() ==> uncompressed_has(
                ar,
                edges,
                lv,
                n,
                #[trigger] uncompressed_seq(ar, edges, lv, n)[x],
            ),
        forall|k: int|
            #[trigger] uncompressed_has(ar, edges, lv, n, k) ==> exists|x: int|
                0 <= x < uncompressed_seq(ar, edges, lv, n).len() && #[trigger] uncompressed_seq(ar, edges, lv, n)[x]
                    == k,
    decreases lv, n,
{
    if n > 0 {
        let q = pow256((lv - 1) as nat) as int;
        let prev = uncompressed_seq(ar, edges, lv, n - 1);
        let cur = uncompressed_seq(ar, edges, lv, n);
        let off = (n - 1) * q;
        let ce = edges[n - 1];
        let c = key_seq(ar, ce, (lv - 1) as nat);
        lemma_uncompressed_members(ar, edges, lv, n - 1);
        lemma_key_seq_members(ar, ce, (lv - 1) as nat);
        lemma_key_seq_facts(ar, ce, (lv - 1) as nat);
        assert(cur == prev + shifted(c, off));
        assert forall|x: int| 0 <= x < cur.len() implies uncompressed_has(ar, edges, lv, n, #[trigger] cur[x]) by {
            if x < prev.len() {
                assert(cur[x] == prev[x]);
                assert(uncompressed_has(ar, edges, lv, n - 1, prev[x]));
                let d = choose|d: int|
                    0 <= d < n - 1 && #[trigger] in_slot(0, d, lv, prev[x]) && key_in(
                        ar,
                        edges[d],
                        (lv - 1) as nat,
                        slot_rem(0, d, lv, prev[x]),
                    );
                assert(in_slot(0, d, lv, cur[x]));
            } else {
                let y = x - prev.len();
                assert(cur[x] == off + c[y]);
                assert(0 <= c[y] < q);
                crate::nav::lemma_slot_bounds(0, n - 1, lv, c[y]);
                assert(key_in(ar, ce, (lv - 1) as nat, c[y]));
                assert(in_slot(0, n - 1, lv, cur[x]));
            }
        }
        assert forall|k: int| #[trigger] uncompressed_has(ar, edges, lv, n, k) implies exists|x: int|
            0 <= x < cur.len() && #[trigger] cur[x] == k by {
            let d = choose|d: int|
                0 <= d < n && #[trigger] in_slot(0, d, lv, k) && key_in(
                    ar,
                    edges[d],
                    (lv - 1) as nat,
                    slot_rem(0, d, lv, k),
                );
            if d < n - 1 {
                assert(uncompressed_has(ar, edges, lv, n - 1, k));
                let x = choose|x: int| 0 <= x < prev.len() && #[trigger] prev[x] == k;
                assert(cur[x] == prev[x]);
            } else {
                let r = slot_rem(0, d, lv, k);
                let y = choose|y: int| 0 <= y < c.len() && #[trigger] c[y] == r;
                assert(cur[prev.len() + y] == off + c[y]);
            }
        }
    }
}

/// The walk-order run of a walkable subtree lists exactly its keys: every
/// element is a key, and every key is an element.
pub proof fn lemma_key_seq_members(ar: Seq<NodeData>, e: Edge, level: nat)
    requires
        walkable(ar, e, level),
    ensures
        forall|i: int|
            0 <= i < key_seq(ar, e, level).len() ==> key_in(ar, e, level, #[trigger] key_seq(ar, e, level)[i]),
        forall|k: int|
            key_in(ar, e, level, k) ==> exists|i: int|
                0 <= i < key_seq(ar, e, level).len() && #[trigger] key_seq(ar, e, level)[i] == k,
    decreases level, 300nat,
{
    let t = e.tag_spec();
    let a = node_index(e);
    let s = key_seq(ar, e, level);
    lemma_key_seq_facts(ar, e, level);
    if t == 0 {
    } else if t >= 0x80 {
        let kb = imm_kb(t);
        let payload = e.w0_spec() + e.aux_spec();
        assert forall|i: int| 0 <= i < s.len() implies key_in(ar, e, level, #[trigger] s[i]) by {
            assert(s[i] == packed_key(payload, kb, i));
        }
        assert forall|k: int| key_in(ar, e, level, k) implies exists|i: int| 0 <= i < s.len() && #[trigger] s[i] == k by {
            let i = choose|i: int| 0 <= i < imm_count(t) && k == #[trigger] packed_key(payload, kb, i);
            assert(s[i] == k);
        }
    } else if t == 14 {
        assert forall|k: int| key_in(ar, e, level, k) implies exists|i: int| 0 <= i < s.len() && #[trigger] s[i] == k by {
            assert(s[k] == k);
        }
    } else if 5 <= t <= 11 {
        let kb = t - 4;
        match ar[a] {
            NodeData::Leaf { keys, values } => {
                let p = skip_prefix(e, kb, level as int);
                assert forall|i: int| 0 <= i < s.len() implies key_in(ar, e, level, #[trigger] s[i]) by {
                    assert(s[i] == p * pow256(kb as nat) + packed_key(keys@, kb, i));
                }
                assert forall|k: int| key_in(ar, e, level, k) implies exists|i: int|
                    0 <= i < s.len() && #[trigger] s[i] == k by {
                    let i = choose|i: int|
                        0 <= i < e.pop0_spec(kb as u8) + 1 && k == p * pow256(kb as nat) + #[trigger] packed_key(
                            keys@,
                            kb,
                            i,
                        );
                    assert(s[i] == k);
                }
            },
            _ => {},
        }
    } else if t == 12 {
        match ar[a] {
            NodeData::Bits { leaf } => {
                let base = skip_prefix(e, 1, level as int) * 256;
                lemma_bits_members(leaf.bitmap, base, 256);
                assert forall|k: int| key_in(ar, e, level, k) implies exists|i: int|
                    0 <= i < s.len() && #[trigger] s[i] == k by {
                    lemma_bits_select(leaf.bitmap, base, 256, k - base);
                    assert(s[count_set(leaf.bitmap, 0, k - base) as int] == k);
                }
            },
            _ => {},
        }
    } else if t == 1 || t == 2 {
        match ar[a] {
            NodeData::Linear { hdr, edges } => {
                let bl = hdr.level as nat;
                let base = skip_prefix(e, bl as int, level as int) * pow256(bl);
                lemma_linear_members(ar, base, bl, hdr, edges@, level, hdr.num as int);
                assert(s == linear_seq(ar, base, bl, hdr, edges@, level, hdr.num as int));
                assert forall|i: int| 0 <= i < s.len() implies key_in(ar, e, level, #[trigger] s[i]) by {
                    assert(linear_has(ar, base, bl, hdr, edges@, hdr.num as int, s[i]));
                    let j = choose|j: int|
                        0 <= j < hdr.num && #[trigger] in_slot(base, hdr.digits@[j] as int, bl, s[i]) && key_in(
                            ar,
                            edges@[j],
                            (bl - 1) as nat,
                            slot_rem(base, hdr.digits@[j] as int, bl, s[i]),
                        );
                    assert(in_slot(base, hdr.digits@[j] as int, bl, s[i]));
                }
                assert forall|k: int| key_in(ar, e, level, k) implies exists|i: int|
                    0 <= i < s.len() && #[trigger] s[i] == k by {
                    let j = choose|j: int|
                        0 <= j < hdr.num && j < edges@.len() && #[trigger] in_slot(
                            base,
                            hdr.digits@[j] as int,
                            bl,
                            k,
                        ) && key_in(ar, edges@[j], (bl - 1) as nat, slot_rem(base, hdr.digits@[j] as int, bl, k));
                    assert(linear_has(ar, base, bl, hdr, edges@, hdr.num as int, k));
                }
            },
            _ => {},
        }
    } else if t == 3 {
        match ar[a] {
            NodeData::Bitmap { branch, subs } => {
                let bl = branch.level as nat;
                let b = branch.bitmap;
                let vs = views(subs@);
                let base = skip_prefix(e, bl as int, level as int) * pow256(bl);
                lemma_bitmap_members(ar, base, bl, b, vs, level, 256);
                assert(s == bitmap_seq(ar, base, bl, b, vs, level, 256));
                assert forall|i: int| 0 <= i < s.len() implies key_in(ar, e, level, #[trigger] s[i]) by {
                    assert(bitmap_has(ar, base, bl, b, vs, 256, s[i]));
                    let d = choose|d: int|
                        0 <= d < 256 && b.has(d as u8) && #[trigger] in_slot(base, d, bl, s[i]) && key_in(
                            ar,
                            vs[d / 32][sub_rank(b, d) as int],
                            (bl - 1) as nat,
                            slot_rem(base, d, bl, s[i]),
                        );
                    assert(in_slot(base, d, bl, s[i]));
                }
                assert forall|k: int| key_in(ar, e, level, k) implies exists|i: int|
                    0 <= i < s.len() && #[trigger] s[i] == k by {
                    let d = choose|d: int|
                        0 <= d < 256 && b.has(d as u8) && #[trigger] in_slot(base, d, bl, k) && key_in(
                            ar,
                            vs[d / 32][sub_rank(b, d) as int],
                            (bl - 1) as nat,
                            slot_rem(base, d, bl, k),
                        );
                    assert(bitmap_has(ar, base, bl, b, vs, 256, k));
                }
            },
            _ => {},
        }
    } else if t == 4 {
        match ar[a] {
            NodeData::Uncompressed { slots } => {
                let es = slots.edges@;
                lemma_uncompressed_members(ar, es, level, 256);
                assert(s == uncompressed_seq(ar, es, level, 256));
                assert forall|i: int| 0 <= i < s.len() implies key_in(ar, e, level, #[trigger] s[i]) by {
                    assert(uncompressed_has(ar, es, level, 256, s[i]));
                    let d = choose|d: int|
                        0 <= d < 256 && #[trigger] in_slot(0, d, level, s[i]) && key_in(
                            ar,
                            es[d],
                            (level - 1) as nat,
                            slot_rem(0, d, level, s[i]),
                        );
                    assert(in_slot(0, d, level, s[i]));
                }
                assert forall|k: int| key_in(ar, e, level, k) implies exists|i: int|
                    0 <= i < s.len() && #[trigger] s[i] == k by {
                    let d = choose|d: int|
                        0 <= d < 256 && #[trigger] in_slot(0, d, level, k) && key_in(
                            ar,
                            es[d],
                            (level - 1) as nat,
                            slot_rem(0, d, level, k),
                        );
                    assert(uncompressed_has(ar, es, level, 256, k));
                }
            },
            _ => {},
        }
    }
}


// ---------------------------------------------------------------------------
// Searching agrees with rank and select
// ---------------------------------------------------------------------------

/// A forward search answers what selecting at the rank of its bound
/// gives: the smallest key at or above `x` is the key of rank
/// `count_lt(keys, x)`, and there is none exactly when that rank is the
/// population.
pub proof fn law_next_by_rank(ar: Seq<NodeData>, e: Edge, level: nat, x: int, r: Option<u64>)
    requires
        walkable(ar, e, level),
        level <= 8,
        is_next(ar, e, level, x, r),
    ensures
        ({
            let s = key_seq(ar, e, level);
            let c = count_lt(s, x) as int;
            match r {
                Some(k) => c < s.len() && k == s[c],
                None => c == s.len(),
            }
        }),
{
    let s = key_seq(ar, e, level);
    let c = count_lt(s, x) as int;
    lemma_key_seq_facts(ar, e, level);
    lemma_key_seq_members(ar, e, level);
    lemma_count_lt_ascending(s, x);
    match r {
        Some(k) => {
            let i = choose|i: int| 0 <= i < s.len() && #[trigger] s[i] == k;
            assert(i >= c);
            assert(key_in(ar, e, level, s[c]));
            if s[c] < k {
                assert(!key_in(ar, e, level, s[c]));
            }
            if c < i {
                assert(s[c] < s[i]);
            }
        },
        None => {
            if c < s.len() {
                assert(key_in(ar, e, level, s[c]));
            }
        },
    }
}

/// A backward search answers what selecting just below the rank of the
/// bound's successor gives: the largest key at or below `x` is the key of
/// rank `count_lt(keys, x + 1) - 1`, and there is none exactly when that
/// count is zero.
pub proof fn law_prev_by_rank(ar: Seq<NodeData>, e: Edge, level: nat, x: int, r: Option<u64>)
    requires
        walkable(ar, e, level),
        level <= 8,
        is_prev(ar, e, level, x, r),
    ensures
        ({
            let s = key_seq(ar, e, level);
            let c = count_lt(s, x + 1) as int;
            match r {
                Some(k) => 0 < c && k == s[c - 1],
                None => c == 0,
            }
        }),
{
    let s = key_seq(ar, e, level);
    let c = count_lt(s, x + 1) as int;
    lemma_key_seq_facts(ar, e, level);
    lemma_key_seq_members(ar, e, level);
    lemma_count_lt_ascending(s, x + 1);
    match r {
        Some(k) => {
            let i = choose|i: int| 0 <= i < s.len() && #[trigger] s[i] == k;
            assert(i < c);
            assert(key_in(ar, e, level, s[c - 1]));
            if s[c - 1] > k {
                assert(!key_in(ar, e, level, s[c - 1]));
            }
            if i < c - 1 {
                assert(s[i] < s[c - 1]);
            }
        },
        None => {
            if c > 0 {
                assert(key_in(ar, e, level, s[c - 1]));
            }
        },
    }
}


// ---------------------------------------------------------------------------
// A branch's keys depend only on its children
// ---------------------------------------------------------------------------

/// The keys under a run of `(digit, child)` slots of a branch of level `bl`
/// whose keys start at `base`, slot after slot.
pub open spec fn children_keys(ar: Seq<NodeData>, base: int, bl: nat, cs: Seq<(u8, Edge)>) -> Seq<int>
    decreases cs.len(),
{
    if cs.len() == 0 {
        Seq::empty()
    } else {
        children_keys(ar, base, bl, cs.drop_last()) + shifted(
            key_seq(ar, cs.last().1, (bl - 1) as nat),
            base + cs.last().0 * pow256((bl - 1) as nat),
        )
    }
}

/// The `(digit, child)` slots of the branch behind `e`, in digit order,
/// whatever its form.
pub open spec fn branch_children(ar: Seq<NodeData>, e: Edge, level: nat) -> Seq<(u8, Edge)> {
    let a = node_index(e);
    if 0 <= a < ar.len() {
        match ar[a] {
            NodeData::Linear { hdr, edges } => linear_children(hdr, edges@),
            NodeData::Bitmap { branch, subs } => bitmap_children(branch.bitmap, views(subs@), 256),
            NodeData::Uncompressed { slots } => uncompressed_children(slots.edges@, 256),
            _ => Seq::empty(),
        }
    } else {
        Seq::empty()
    }
}

/// A linear branch's keys under its first `i` slots are its first `i`
/// children's keys.
proof fn lemma_linear_keys(
    ar: Seq<NodeData>,
    base: int,
    bl: nat,
    hdr: BranchHeader,
    edges: Seq<Edge>,
    lv: nat,
    i: int,
)
    requires
        2 <= bl <= lv,
        0 <= i <= hdr.num,
        hdr.num <= edges.len(),
    ensures
        linear_seq(ar, base, bl, hdr, edges, lv, i) == children_keys(
            ar,
            base,
            bl,
            linear_children(hdr, edges).take(i),
        ),
    decreases i,
{
    let cs = linear_children(hdr, edges).take(i);
    if i > 0 {
        lemma_linear_keys(ar, base, bl, hdr, edges, lv, i - 1);
        assert(cs.drop_last() =~= linear_children(hdr, edges).take(i - 1));
        assert(cs.last() == (hdr.digits@[i - 1], edges[i - 1]));
    } else {
        assert(cs =~= Seq::<(u8, Edge)>::empty());
    }
}

/// A bitmap branch's keys under its member digits below `n` are those
/// members' children's keys.
proof fn lemma_bitmap_keys(
    ar: Seq<NodeData>,
    base: int,
    bl: nat,
    b: Bitmap256,
    subs: Seq<Seq<Edge>>,
    lv: nat,
    n: int,
)
    requires
        2 <= bl <= lv,
        0 <= n <= 256,
    ensures
        bitmap_seq(ar, base, bl, b, subs, lv, n) == children_keys(ar, base, bl, bitmap_children(b, subs, n)),
    decreases n,
{
    if n > 0 {
        lemma_bitmap_keys(ar, base, bl, b, subs, lv, n - 1);
        if b.has((n - 1) as u8) {
            let cs = bitmap_children(b, subs, n);
            assert(cs.drop_last() =~= bitmap_children(b, subs, n - 1));
            assert(cs.last().0 == n - 1);
        }
    }
}

/// An uncompressed branch's keys under its slots below `n` are its
/// non-null children's keys there: a null slot holds no key.
proof fn lemma_uncompressed_keys(ar: Seq<NodeData>, edges: Seq<Edge>, lv: nat, n: int)
    requires
        2 <= lv <= 8,
        0 <= n <= 256,
    ensures
        uncompressed_seq(ar, edges, lv, n) == children_keys(ar, 0, lv, uncompressed_children(edges, n)),
    decreases n,
{
    if n > 0 {
        lemma_uncompressed_keys(ar, edges, lv, n - 1);
        let q = pow256((lv - 1) as nat) as int;
        let c = key_seq(ar, edges[n - 1], (lv - 1) as nat);
        if edges[n - 1].tag_spec() != crate::types::edge_type_code(EdgeType::Null) {
            let cs = uncompressed_children(edges, n);
            assert(cs.drop_last() =~= uncompressed_children(edges, n - 1));
            assert(cs.last().0 == n - 1);
            assert(0 + (n - 1) * q == (n - 1) * q);
        } else {
            assert(c =~= Seq::<int>::empty());
            assert(shifted(c, (n - 1) * q) =~= Seq::<int>::empty());
            assert(uncompressed_seq(ar, edges, lv, n) =~= uncompressed_seq(ar, edges, lv, n - 1));
        }
    }
}

/// The keys of a walkable branch, whatever its form, are its children's
/// keys, slot after slot, above the branch's skipped prefix.
pub proof fn lemma_branch_keys(ar: Seq<NodeData>, e: Edge, level: nat)
    requires
        walkable(ar, e, level),
        1 <= e.tag_spec() <= 4,
    ensures
        ({
            let fl = form_level(ar, e, level);
            key_seq(ar, e, level) == children_keys(
                ar,
                skip_prefix(e, fl as int, level as int) * pow256(fl),
                fl,
                branch_children(ar, e, level),
            )
        }),
{
    let t = e.tag_spec();
    let a = node_index(e);
    match ar[a] {
        NodeData::Linear { hdr, edges } => {
            let bl = hdr.level as nat;
            let base = skip_prefix(e, bl as int, level as int) * pow256(bl);
            lemma_linear_keys(ar, base, bl, hdr, edges@, level, hdr.num as int);
            assert(linear_children(hdr, edges@).take(hdr.num as int) =~= linear_children(hdr, edges@));
        },
        NodeData::Bitmap { branch, subs } => {
            let bl = branch.level as nat;
            let base = skip_prefix(e, bl as int, level as int) * pow256(bl);
            lemma_bitmap_keys(ar, base, bl, branch.bitmap, views(subs@), level, 256);
        },
        NodeData::Uncompressed { slots } => {
            lemma_uncompressed_keys(ar, slots.edges@, level, 256);
            assert(skip_prefix(e, level as int, level as int) == 0);
        },
        _ => {},
    }
}

/// Converting a branch between forms keeps its keys: two walkable
/// branches at one level with the same skipped prefix, the same level and
/// the same `(digit, child)` slots list the same keys in the same order.
pub proof fn law_same_children_same_keys(ar: Seq<NodeData>, e1: Edge, e2: Edge, level: nat)
    requires
        walkable(ar, e1, level),
        walkable(ar, e2, level),
        1 <= e1.tag_spec() <= 4,
        1 <= e2.tag_spec() <= 4,
        form_level(ar, e1, level) == form_level(ar, e2, level),
        skip_prefix(e1, form_level(ar, e1, level) as int, level as int) == skip_prefix(
            e2,
            form_level(ar, e2, level) as int,
            level as int,
        ),
        branch_children(ar, e1, level) == branch_children(ar, e2, level),
    ensures
        key_seq(ar, e1, level) == key_seq(ar, e2, level),
{
    lemma_branch_keys(ar, e1, level);
    lemma_branch_keys(ar, e2, level);
}


// ---------------------------------------------------------------------------
// Gathering a tree's keys by forward search
// ---------------------------------------------------------------------------

/// Gathers the keys of a tree below the top edge in ascending order by
/// forward search from zero, each search resuming just past the key it
/// found: the walk that condenses a small tree back into a root leaf.
pub fn condense_to_root_leaf(ar: &Vec<NodeData>, top: &Edge) -> (keys: Vec<u64>)
    requires
        walkable(ar@, *top, 8),
    ensures
        keys@.len() == key_seq(ar@, *top, 8).len(),
        forall|i: int| 0 <= i < keys@.len() ==> keys@[i] as int == #[trigger] key_seq(ar@, *top, 8)[i],
{
    let ghost ks = key_seq(ar@, *top, 8);
    proof {
        lemma_key_seq_facts(ar@, *top, 8);
        lemma_pow256_values();
        lemma_count_lt_split(ks, 0, 0);
    }
    let mut keys: Vec<u64> = Vec::new();
    let mut from: Option<u64> = Some(0);
    loop
        invariant
            ks == key_seq(ar@, *top, 8),
            pow256(8) == 0x1_0000_0000_0000_0000,
            ascending(ks),
            within(ks, 0, pow256(8) as int),
            walkable(ar@, *top, 8),
            keys@.len() <= ks.len(),
            forall|i: int| 0 <= i < keys@.len() ==> keys@[i] as int == #[trigger] ks[i],
            match from {
                Some(f) => count_lt(ks, f as int) == keys@.len(),
                None => keys@.len() == ks.len(),
            },
        ensures
            keys@.len() == ks.len(),
            forall|i: int| 0 <= i < keys@.len() ==> keys@[i] as int == #[trigger] ks[i],
        decreases ks.len() - keys@.len() + if from is Some {
            1int
        } else {
            0int
        },
    {
        let f = match from {
            Some(f) => f,
            None => break,
        };
        match next(ar, top, f, 8) {
            None => {
                proof {
                    law_next_by_rank(ar@, *top, 8, f as int, None);
                }
                break;
            },
            Some(k) => {
                let ghost c = keys@.len() as int;
                proof {
                    law_next_by_rank(ar@, *top, 8, f as int, Some(k));
                    assert(c < ks.len() && k == ks[c]);
                }
                keys.push(k);
                from = k.checked_add(1);
                proof {
                    if k < u64::MAX {
                        assert forall|i: int| 0 <= i < c + 1 implies #[trigger] ks[i] < k + 1 by {
                            if i < c {
                                assert(ks[i] < ks[c]);
                            }
                        }
                        assert forall|i: int| c + 1 <= i < ks.len() implies #[trigger] ks[i] >= k + 1 by {
                            assert(ks[c] < ks[i]);
                        }
                        lemma_count_lt_split(ks, k + 1, c + 1);
                    } else {
                        if c + 1 < ks.len() {
                            assert(ks[c] < ks[c + 1]);
                            assert(ks[c + 1] < pow256(8));
                        }
                    }
                    assert forall|i: int| 0 <= i < keys@.len() implies keys@[i] as int == #[trigger] ks[i] by {
                        if i < c {
                        }
                    }
                }
            },
        }
    }
    keys
}


// ---------------------------------------------------------------------------
// Where each form records its population
// ---------------------------------------------------------------------------

/// In a counted walkable subtree under a slot below the root level, the
/// population an edge records is the number of keys under it, read where its
/// form keeps it: an immediate's count in its tag; a linear leaf's `pop0` at
/// its key width; a bitmap leaf's at width one; a linear or bitmap branch's
/// at the branch's own level, so that decode digits it skips above that
/// level are never read as population; an uncompressed branch's or a full
/// expanse's at the slot's level. A null edge holds no key.
pub proof fn law_population_record(ar: Seq<NodeData>, e: Edge, level: nat)
    requires
        walkable(ar, e, level),
        counted(ar, e, level),
        1 <= level <= 7,
    ensures
        ({
            let n = key_seq(ar, e, level).len();
            let t = e.tag_spec();
            &&& t == 0 ==> n == 0
            &&& t >= 0x80 ==> n == imm_count(t)
            &&& 5 <= t <= 11 ==> n == e.pop0_spec((t - 4) as u8) + 1
            &&& t == 12 ==> n == e.pop0_spec(1) + 1
            &&& 1 <= t <= 3 ==> n == e.pop0_spec(form_level(ar, e, level) as u8) + 1
            &&& 1 <= t <= 3 ==> 2 <= form_level(ar, e, level) <= level
            &&& (t == 4 || t == 14) ==> n == e.pop0_spec(level as u8) + 1
        }),
{
    let t = e.tag_spec();
    let a = node_index(e);
    if 1 <= t <= 3 {
        match ar[a] {
            NodeData::Linear { hdr, edges } => {},
            NodeData::Bitmap { branch, subs } => {},
            _ => {},
        }
    }
}

} // verus!
