//! Conversions between branch forms as a subexpanse grows and shrinks:
//! linear branches of three and seven children, the bitmap branch (a
//! 256-bit membership bitmap over eight packed child subarrays, one per
//! 32-digit subexpanse) and the uncompressed branch of 256 direct slots.
//!
//! Every form is read as its children: the `(digit, child edge)` pairs in
//! ascending digit order. Each conversion builds the new node from the old
//! one and keeps the children; allocating the new node and its subarrays
//! and freeing the old ones is the allocator's part, so the new node's
//! address and its subarrays' addresses come in as arguments and the
//! subarrays' contents come back as values.

use vstd::prelude::*;
use crate::bits::Bitmap256;
use crate::mutate::is_null_edge;
use crate::node::{BranchB, BranchHeader, BranchL3, BranchL7, BranchU, Edge, word_bytes};
use crate::types::{EdgeType, edge_type_code};

verus! {

/// The children of a linear branch: its first `num` digits with their edges.
pub open spec fn linear_children(hdr: BranchHeader, edges: Seq<Edge>) -> Seq<(u8, Edge)> {
    Seq::new(hdr.num as nat, |i: int| (hdr.digits@[i], edges[i]))
}

/// Member digits `e` of `b` with `lo <= e < hi`.
pub open spec fn count_set(b: Bitmap256, lo: int, hi: int) -> nat
    decreases hi - lo,
{
    if hi <= lo {
        0
    } else {
        count_set(b, lo, hi - 1) + if b.has((hi - 1) as u8) {
            1nat
        } else {
            0nat
        }
    }
}

/// Members of `b` in the 32-digit subexpanse `s`.
pub open spec fn sub_pop(b: Bitmap256, s: int) -> nat {
    count_set(b, 32 * s, 32 * s + 32)
}

/// The position of digit `d` in its subexpanse's subarray: the members of
/// its subexpanse below it.
pub open spec fn sub_rank(b: Bitmap256, d: int) -> nat {
    count_set(b, 32 * (d / 32), d)
}

/// The subarrays hold one edge per member digit of their subexpanse.
pub open spec fn subs_match(b: Bitmap256, subs: Seq<Seq<Edge>>) -> bool {
    &&& subs.len() == 8
    &&& forall|s: int| 0 <= s < 8 ==> #[trigger] subs[s].len() == sub_pop(b, s)
}

/// The children of a bitmap branch among digits below `n`: each member
/// digit with the edge at its rank in its subexpanse's subarray.
pub open spec fn bitmap_children(b: Bitmap256, subs: Seq<Seq<Edge>>, n: int) -> Seq<(u8, Edge)>
    decreases n,
{
    if n <= 0 {
        Seq::empty()
    } else if b.has((n - 1) as u8) {
        bitmap_children(b, subs, n - 1).push(((n - 1) as u8, subs[(n - 1) / 32][sub_rank(b, n - 1) as int]))
    } else {
        bitmap_children(b, subs, n - 1)
    }
}

/// The children of an uncompressed branch among digits below `n`: its
/// non-null slots.
pub open spec fn uncompressed_children(edges: Seq<Edge>, n: int) -> Seq<(u8, Edge)>
    decreases n,
{
    if n <= 0 {
        Seq::empty()
    } else if edges[n - 1].tag_spec() != edge_type_code(EdgeType::Null) {
        uncompressed_children(edges, n - 1).push(((n - 1) as u8, edges[n - 1]))
    } else {
        uncompressed_children(edges, n - 1)
    }
}

/// A bitmap branch node and its subarray contents agree: the subarrays
/// match the bitmap and the cached counts are the subexpanse populations.
pub open spec fn branch_b_holds(b: BranchB, subs: Seq<Seq<Edge>>) -> bool {
    &&& subs_match(b.bitmap, subs)
    &&& forall|s: int| 0 <= s < 8 ==> #[trigger] b.pop_counts@[s] == sub_pop(b.bitmap, s)
}

/// Counting over a range grows with the range.
pub(crate) proof fn lemma_count_mono(b: Bitmap256, lo: int, m: int, hi: int)
    requires
        lo <= m <= hi,
    ensures
        count_set(b, lo, m) <= count_set(b, lo, hi),
        count_set(b, lo, hi) <= count_set(b, lo, m) + (hi - m),
    decreases hi - m,
{
    if m < hi {
        lemma_count_mono(b, lo, m, hi - 1);
    }
}

/// A member counts: below it there are fewer members than up to `hi`.
pub(crate) proof fn lemma_count_member(b: Bitmap256, lo: int, x: int, hi: int)
    requires
        lo <= x < hi,
        0 <= x < 256,
        b.has(x as u8),
    ensures
        count_set(b, lo, x) < count_set(b, lo, hi),
{
    lemma_count_mono(b, lo, x + 1, hi);
}

/// With no member from `m` on, counting up to `hi` stops at `m`.
proof fn lemma_count_none_above(b: Bitmap256, lo: int, m: int, hi: int)
    requires
        lo <= m <= hi,
        forall|x: int| m <= x < hi ==> !#[trigger] b.has(x as u8),
    ensures
        count_set(b, lo, hi) == count_set(b, lo, m),
    decreases hi - m,
{
    if m < hi {
        lemma_count_none_above(b, lo, m, hi - 1);
        assert(!b.has((hi - 1) as u8));
    }
}

/// Bitmaps with the same members below `hi` count alike there.
proof fn lemma_count_same(b: Bitmap256, c: Bitmap256, lo: int, hi: int)
    requires
        forall|x: int| lo <= x < hi ==> #[trigger] b.has(x as u8) == c.has(x as u8),
    ensures
        count_set(b, lo, hi) == count_set(c, lo, hi),
    decreases hi - lo,
{
    if lo < hi {
        lemma_count_same(b, c, lo, hi - 1);
        assert(b.has((hi - 1) as u8) == c.has((hi - 1) as u8));
    }
}

/// Adding member `d` adds one to every range holding it.
proof fn lemma_count_add(b: Bitmap256, c: Bitmap256, d: int, lo: int, hi: int)
    requires
        0 <= d < 256,
        0 <= lo,
        hi <= 256,
        !b.has(d as u8),
        forall|x: u8| #[trigger] c.has(x) == (b.has(x) || x == d),
    ensures
        lo <= d < hi ==> count_set(c, lo, hi) == count_set(b, lo, hi) + 1,
        !(lo <= d < hi) ==> count_set(c, lo, hi) == count_set(b, lo, hi),
    decreases hi - lo,
{
    if lo < hi {
        lemma_count_add(b, c, d, lo, hi - 1);
        assert(c.has((hi - 1) as u8) == (b.has((hi - 1) as u8) || hi - 1 == d)) by {
            assert(c.has((hi - 1) as u8) == (b.has((hi - 1) as u8) || (hi - 1) as u8 == d));
        }
    }
}

/// With no member from `m` on, the children stop at `m`.
proof fn lemma_children_none_above(b: Bitmap256, subs: Seq<Seq<Edge>>, m: int, n: int)
    requires
        m <= n,
        forall|x: int| m <= x < n ==> !#[trigger] b.has(x as u8),
    ensures
        bitmap_children(b, subs, n) == bitmap_children(b, subs, m),
    decreases n - m,
{
    if m < n {
        lemma_children_none_above(b, subs, m, n - 1);
        assert(!b.has((n - 1) as u8));
    }
}

/// Adding a member `d` above every member, with its edge `e` appended to
/// its subexpanse's subarray, appends `(d, e)` to the children.
pub proof fn lemma_children_add_max(
    b: Bitmap256,
    subs: Seq<Seq<Edge>>,
    c: Bitmap256,
    d: int,
    e: Edge,
)
    requires
        0 <= d < 256,
        subs_match(b, subs),
        forall|x: int| d <= x < 256 ==> !#[trigger] b.has(x as u8),
        forall|x: u8| #[trigger] c.has(x) == (b.has(x) || x == d),
    ensures
        subs_match(c, subs.update(d / 32, subs[d / 32].push(e))),
        bitmap_children(c, subs.update(d / 32, subs[d / 32].push(e)), 256) == bitmap_children(b, subs, 256).push(
            (d as u8, e),
        ),
        forall|s: int| 0 <= s < 8 ==> #[trigger] sub_pop(c, s) == sub_pop(b, s) + if s == d / 32 {
            1nat
        } else {
            0nat
        },
{
    let t = subs.update(d / 32, subs[d / 32].push(e));
    assert(!b.has(d as u8));
    assert forall|s: int| 0 <= s < 8 implies #[trigger] sub_pop(c, s) == sub_pop(b, s) + if s == d / 32 {
        1nat
    } else {
        0nat
    } by {
        lemma_count_add(b, c, d, 32 * s, 32 * s + 32);
    }
    assert forall|s: int| 0 <= s < 8 implies #[trigger] t[s].len() == sub_pop(c, s) by {
        assert(sub_pop(c, s) == sub_pop(b, s) + if s == d / 32 {
            1nat
        } else {
            0nat
        });
    }
    // Below d nothing changes.
    assert forall|n: int| 0 <= n <= d implies #[trigger] bitmap_children(c, t, n) == bitmap_children(b, subs, n) by {
        lemma_children_prefix(b, subs, c, d, e, n);
    }
    // At d the new pair appears.
    let s = d / 32;
    lemma_count_add(b, c, d, 32 * s, d);
    lemma_count_none_above(b, 32 * s, d, 32 * s + 32);
    assert(sub_rank(c, d) == subs[s].len());
    assert(c.has(d as u8));
    assert(bitmap_children(c, t, d + 1) == bitmap_children(c, t, d).push((d as u8, t[s][sub_rank(c, d) as int])));
    assert(t[s][subs[s].len() as int] == e);
    // Above d nothing more.
    assert forall|x: int| d + 1 <= x < 256 implies !#[trigger] c.has(x as u8) by {
        assert(c.has(x as u8) == (b.has(x as u8) || x as u8 == d));
    }
    lemma_children_none_above(c, t, d + 1, 256);
    lemma_children_none_above(b, subs, d, 256);
}

/// Below a new maximum member the children of the grown bitmap are the old
/// ones.
proof fn lemma_children_prefix(b: Bitmap256, subs: Seq<Seq<Edge>>, c: Bitmap256, d: int, e: Edge, n: int)
    requires
        0 <= d < 256,
        0 <= n <= d,
        subs_match(b, subs),
        !b.has(d as u8),
        forall|x: u8| #[trigger] c.has(x) == (b.has(x) || x == d),
    ensures
        bitmap_children(c, subs.update(d / 32, subs[d / 32].push(e)), n) == bitmap_children(b, subs, n),
    decreases n,
{
    let t = subs.update(d / 32, subs[d / 32].push(e));
    if n > 0 {
        lemma_children_prefix(b, subs, c, d, e, n - 1);
        let x = n - 1;
        assert(c.has(x as u8) == b.has(x as u8)) by {
            assert(c.has(x as u8) == (b.has(x as u8) || x as u8 == d));
        }
        if b.has(x as u8) {
            let s = x / 32;
            lemma_count_add(b, c, d, 32 * s, x);
            assert(sub_rank(c, x) == sub_rank(b, x));
            lemma_count_member(b, 32 * s, x, 32 * s + 32);
            assert(sub_rank(b, x) < subs[s].len());
            assert(t[s][sub_rank(b, x) as int] == subs[s][sub_rank(b, x) as int]);
        }
    }
}

/// The contents of a list of subarrays.
pub open spec fn views(subs: Seq<Vec<Edge>>) -> Seq<Seq<Edge>> {
    subs.map_values(|v: Vec<Edge>| v@)
}

/// Every edge in the subarrays is non-null.
pub open spec fn subs_non_null(subs: Seq<Seq<Edge>>) -> bool {
    forall|s: int, k: int|
        0 <= s < subs.len() && 0 <= k < subs[s].len() ==> (#[trigger] subs[s][k]).tag_spec() != edge_type_code(
            EdgeType::Null,
        )
}

/// Appends `e` to subarray `s`.
fn push_into(subs: &mut Vec<Vec<Edge>>, s: usize, e: Edge)
    requires
        s < old(subs)@.len(),
    ensures
        views(final(subs)@) == views(old(subs)@).update(s as int, views(old(subs)@)[s as int].push(e)),
{
    let mut v = subs.remove(s);
    v.push(e);
    subs.insert(s, v);
    proof {
        assert(views(subs@) =~= views(old(subs)@).update(s as int, views(old(subs)@)[s as int].push(e)));
    }
}

/// Eight empty subarrays.
fn empty_subs() -> (subs: Vec<Vec<Edge>>)
    ensures
        subs@.len() == 8,
        forall|s: int| 0 <= s < 8 ==> (#[trigger] views(subs@)[s]).len() == 0,
{
    let mut subs: Vec<Vec<Edge>> = Vec::new();
    let mut s: usize = 0;
    while s < 8
        invariant
            0 <= s <= 8,
            subs@.len() == s,
            forall|t: int| 0 <= t < s ==> (#[trigger] views(subs@)[t]).len() == 0,
        decreases 8 - s,
    {
        let ghost prev = views(subs@);
        subs.push(Vec::new());
        proof {
            assert(views(subs@) =~= prev.push(Seq::<Edge>::empty()));
        }
        s = s + 1;
    }
    subs
}

/// Repoints `edge` at node `addr` of kind `t`, keeping its aux bytes (the
/// subtree's `pop0` and any decode digits).
fn retarget(edge: &mut Edge, addr: u64, t: EdgeType)
    ensures
        word_bytes(final(edge).w0_spec(), addr),
        final(edge).aux_spec() == old(edge).aux_spec(),
        final(edge).tag_spec() == edge_type_code(t),
{
    let aux = *edge.aux_bytes();
    *edge = Edge::new_node(addr, t.as_u8());
    edge.set_aux_bytes(aux);
}

/// Grows a full three-child linear branch into a seven-child one at `addr`:
/// same header and children, the new slots null.
pub fn upgrade_l3_to_l7(node: &BranchL3, edge: &mut Edge, addr: u64) -> (new: BranchL7)
    ensures
        new.hdr == node.hdr,
        forall|i: int| 0 <= i < 3 ==> #[trigger] new.edges@[i] == node.edges@[i],
        forall|i: int| 3 <= i < 7 ==> is_null_edge(#[trigger] new.edges@[i]),
        node.hdr.num <= 3 ==> linear_children(new.hdr, new.edges@) == linear_children(node.hdr, node.edges@),
        word_bytes(final(edge).w0_spec(), addr),
        final(edge).aux_spec() == old(edge).aux_spec(),
        final(edge).tag_spec() == edge_type_code(EdgeType::BranchL7),
{
    let z = Edge::null();
    let new = BranchL7 { hdr: node.hdr, edges: [node.edges[0], node.edges[1], node.edges[2], z, z, z, z] };
    retarget(edge, addr, EdgeType::BranchL7);
    proof {
        assert(linear_children(new.hdr, new.edges@) =~= linear_children(node.hdr, node.edges@) || node.hdr.num > 3);
    }
    new
}

/// Shrinks a seven-child linear branch of at most three children into a
/// three-child one at `addr`.
pub fn downgrade_l7_to_l3(node: &BranchL7, edge: &mut Edge, addr: u64) -> (new: BranchL3)
    requires
        node.hdr.num <= 3,
    ensures
        new.hdr == node.hdr,
        forall|i: int| 0 <= i < 3 ==> #[trigger] new.edges@[i] == node.edges@[i],
        linear_children(new.hdr, new.edges@) == linear_children(node.hdr, node.edges@),
        word_bytes(final(edge).w0_spec(), addr),
        final(edge).aux_spec() == old(edge).aux_spec(),
        final(edge).tag_spec() == edge_type_code(EdgeType::BranchL3),
{
    let new = BranchL3 { hdr: node.hdr, edges: [node.edges[0], node.edges[1], node.edges[2]] };
    retarget(edge, addr, EdgeType::BranchL3);
    proof {
        assert(linear_children(new.hdr, new.edges@) =~= linear_children(node.hdr, node.edges@));
    }
    new
}

/// Flattens a bitmap branch into an uncompressed one at `addr`: each member
/// digit's slot gets the edge at its rank in its subexpanse's subarray;
/// every other slot is null.
pub fn upgrade_b_to_u(node: &BranchB, subs: &Vec<Vec<Edge>>, edge: &mut Edge, addr: u64) -> (new: BranchU)
    requires
        subs_match(node.bitmap, views(subs@)),
    ensures
        new.version == 0,
        forall|d: int|
            0 <= d < 256 ==> if node.bitmap.has(d as u8) {
                #[trigger] new.edges@[d] == views(subs@)[d / 32][sub_rank(node.bitmap, d) as int]
            } else {
                is_null_edge(new.edges@[d])
            },
        subs_non_null(views(subs@)) ==> uncompressed_children(new.edges@, 256) == bitmap_children(
            node.bitmap,
            views(subs@),
            256,
        ),
        word_bytes(final(edge).w0_spec(), addr),
        final(edge).aux_spec() == old(edge).aux_spec(),
        final(edge).tag_spec() == edge_type_code(EdgeType::BranchU),
{
    let mut u = BranchU::new();
    let ghost vs = views(subs@);
    let mut d: usize = 0;
    let mut r: usize = 0;
    while d < 256
        invariant
            0 <= d <= 256,
            vs == views(subs@),
            subs_match(node.bitmap, vs),
            u.version == 0,
            d % 32 != 0 ==> r == sub_rank(node.bitmap, d as int),
            forall|x: int|
                0 <= x < d ==> if node.bitmap.has(x as u8) {
                    #[trigger] u.edges@[x] == vs[x / 32][sub_rank(node.bitmap, x) as int]
                } else {
                    is_null_edge(u.edges@[x])
                },
            forall|x: int| d <= x < 256 ==> is_null_edge(#[trigger] u.edges@[x]),
        decreases 256 - d,
    {
        if d % 32 == 0 {
            r = 0;
        }
        proof {
            assert(r == sub_rank(node.bitmap, d as int));
            lemma_count_mono(node.bitmap, 32 * (d as int / 32), 32 * (d as int / 32), d as int);
        }
        if node.bitmap.test(d as u8) {
            let s = d / 32;
            proof {
                lemma_count_member(node.bitmap, 32 * (s as int), d as int, 32 * (s as int) + 32);
                assert(vs[s as int] == subs@[s as int]@);
            }
            u.edges[d] = subs[s][r];
            r = r + 1;
        }
        d = d + 1;
    }
    retarget(edge, addr, EdgeType::BranchU);
    proof {
        if subs_non_null(vs) {
            lemma_uncompressed_from_bitmap(node.bitmap, vs, u.edges@, 256);
        }
    }
    u
}

/// An uncompressed node filled from a bitmap branch with non-null
/// children has the bitmap branch's children.
proof fn lemma_uncompressed_from_bitmap(b: Bitmap256, subs: Seq<Seq<Edge>>, edges: Seq<Edge>, n: int)
    requires
        0 <= n <= 256,
        subs_match(b, subs),
        subs_non_null(subs),
        forall|d: int|
            0 <= d < 256 ==> if b.has(d as u8) {
                #[trigger] edges[d] == subs[d / 32][sub_rank(b, d) as int]
            } else {
                is_null_edge(edges[d])
            },
    ensures
        uncompressed_children(edges, n) == bitmap_children(b, subs, n),
    decreases n,
{
    if n > 0 {
        lemma_uncompressed_from_bitmap(b, subs, edges, n - 1);
        let d = n - 1;
        assert(edges[d] == edges[d]);
        if b.has(d as u8) {
            lemma_count_member(b, 32 * (d / 32), d, 32 * (d / 32) + 32);
            assert(subs[d / 32][sub_rank(b, d) as int].tag_spec() != edge_type_code(EdgeType::Null));
        }
    }
}

/// The populated digits of a linear branch ascend.
pub open spec fn digits_ascending(hdr: BranchHeader) -> bool {
    forall|i: int, j: int| 0 <= i < j < hdr.num ==> hdr.digits@[i] < hdr.digits@[j]
}

/// The subexpanse of a digit.
proof fn lemma_sub_of(d: u8)
    ensures
        d >> 5 == d / 32,
        d / 32 < 8,
{
    assert(d >> 5 == d / 32) by (bit_vector);
}

/// A subexpanse never holds more than 32 members.
proof fn lemma_sub_pop_bound(b: Bitmap256, s: int)
    ensures
        sub_pop(b, s) <= 32,
{
    lemma_count_mono(b, 32 * s, 32 * s, 32 * s + 32);
}

/// Shrinks a bitmap branch of at most seven members into a seven-child
/// linear branch at `addr`: the members in ascending order, each with the
/// edge at its rank in its subexpanse's subarray.
pub fn downgrade_b_to_l7(node: &BranchB, subs: &Vec<Vec<Edge>>, edge: &mut Edge, addr: u64) -> (new: BranchL7)
    requires
        subs_match(node.bitmap, views(subs@)),
        count_set(node.bitmap, 0, 256) <= 7,
    ensures
        linear_children(new.hdr, new.edges@) == bitmap_children(node.bitmap, views(subs@), 256),
        new.hdr.num == count_set(node.bitmap, 0, 256),
        digits_ascending(new.hdr),
        new.hdr.level == node.level,
        new.hdr.version == 0,
        forall|i: int| new.hdr.num <= i < 7 ==> is_null_edge(#[trigger] new.edges@[i]),
        forall|i: int| new.hdr.num <= i < 8 ==> #[trigger] new.hdr.digits@[i] == 0,
        word_bytes(final(edge).w0_spec(), addr),
        final(edge).aux_spec() == old(edge).aux_spec(),
        final(edge).tag_spec() == edge_type_code(EdgeType::BranchL7),
{
    let ghost vs = views(subs@);
    let ghost b = node.bitmap;
    let mut new = BranchL7::new(node.level);
    let mut d: usize = 0;
    let mut r: usize = 0;
    proof {
        assert(linear_children(new.hdr, new.edges@) =~= Seq::<(u8, Edge)>::empty());
    }
    while d < 256
        invariant
            0 <= d <= 256,
            vs == views(subs@),
            b == node.bitmap,
            subs_match(b, vs),
            count_set(b, 0, 256) <= 7,
            new.hdr.num as int == count_set(b, 0, d as int),
            new.hdr.level == node.level,
            new.hdr.version == 0,
            d % 32 != 0 ==> r == sub_rank(b, d as int),
            linear_children(new.hdr, new.edges@) == bitmap_children(b, vs, d as int),
            forall|i: int, j: int| 0 <= i < j < new.hdr.num ==> new.hdr.digits@[i] < new.hdr.digits@[j],
            forall|i: int| 0 <= i < new.hdr.num ==> new.hdr.digits@[i] < d,
            forall|i: int| new.hdr.num <= i < 7 ==> is_null_edge(#[trigger] new.edges@[i]),
            forall|i: int| new.hdr.num <= i < 8 ==> #[trigger] new.hdr.digits@[i] == 0,
        decreases 256 - d,
    {
        if d % 32 == 0 {
            r = 0;
        }
        proof {
            lemma_count_mono(b, 32 * (d as int / 32), 32 * (d as int / 32), d as int);
            lemma_count_mono(b, 0, d as int + 1, 256);
        }
        if node.bitmap.test(d as u8) {
            let s = d / 32;
            proof {
                lemma_count_member(b, 32 * (s as int), d as int, 32 * (s as int) + 32);
                assert(vs[s as int] == subs@[s as int]@);
            }
            let e = subs[s][r];
            let n = new.hdr.num as usize;
            let ghost before = linear_children(new.hdr, new.edges@);
            new.hdr.digits[n] = d as u8;
            new.edges[n] = e;
            new.hdr.num = new.hdr.num + 1;
            proof {
                assert(linear_children(new.hdr, new.edges@) =~= before.push((d as u8, e)));
            }
            r = r + 1;
        }
        d = d + 1;
    }
    retarget(edge, addr, EdgeType::BranchL7);
    new
}

/// Grows a full seven-child linear branch into a bitmap branch: each child
/// goes, in digit order, to the subarray of its digit's subexpanse; a
/// subexpanse with children refers to its subarray at `sub_addrs[s]`, the
/// others hold 0. Returns the node and its eight subarrays.
pub fn upgrade_l7_to_b(node: &BranchL7, edge: &mut Edge, addr: u64, sub_addrs: &[u64; 8]) -> (r: (
    BranchB,
    Vec<Vec<Edge>>,
))
    requires
        node.hdr.num <= 7,
        digits_ascending(node.hdr),
    ensures
        branch_b_holds(r.0, views(r.1@)),
        bitmap_children(r.0.bitmap, views(r.1@), 256) == linear_children(node.hdr, node.edges@),
        r.0.level == node.hdr.level,
        r.0.version == 0,
        forall|s: int|
            0 <= s < 8 ==> #[trigger] r.0.subarrays@[s] == if sub_pop(r.0.bitmap, s) > 0 {
                sub_addrs@[s]
            } else {
                0
            },
        word_bytes(final(edge).w0_spec(), addr),
        final(edge).aux_spec() == old(edge).aux_spec(),
        final(edge).tag_spec() == edge_type_code(EdgeType::BranchB),
{
    let mut b = BranchB::new(node.hdr.level);
    let mut subs = empty_subs();
    let num = node.hdr.num as usize;
    proof {
        assert forall|s: int| 0 <= s < 8 implies #[trigger] sub_pop(b.bitmap, s) == 0 by {
            lemma_count_same(b.bitmap, b.bitmap, 32 * s, 32 * s + 32);
            lemma_count_none_above(b.bitmap, 32 * s, 32 * s, 32 * s + 32);
        }
        assert(bitmap_children(b.bitmap, views(subs@), 256) == bitmap_children(b.bitmap, views(subs@), 0)) by {
            lemma_children_none_above(b.bitmap, views(subs@), 0, 256);
        }
        assert(linear_children(node.hdr, node.edges@).take(0) =~= Seq::<(u8, Edge)>::empty());
    }
    let mut i: usize = 0;
    while i < num
        invariant
            num == node.hdr.num,
            num <= 7,
            digits_ascending(node.hdr),
            0 <= i <= num,
            subs_match(b.bitmap, views(subs@)),
            forall|s: int| 0 <= s < 8 ==> #[trigger] b.pop_counts@[s] == sub_pop(b.bitmap, s),
            forall|s: int| 0 <= s < 8 ==> #[trigger] b.subarrays@[s] == 0,
            b.level == node.hdr.level,
            b.version == 0,
            forall|x: u8| #[trigger] b.bitmap.has(x) <==> exists|k: int| 0 <= k < i && node.hdr.digits@[k] == x,
            bitmap_children(b.bitmap, views(subs@), 256) == linear_children(node.hdr, node.edges@).take(i as int),
        decreases num - i,
    {
        let d = node.hdr.digits[i];
        let e = node.edges[i];
        let s = (d >> 5) as usize;
        let ghost b0 = b.bitmap;
        let ghost v0 = views(subs@);
        proof {
            lemma_sub_of(d);
            assert forall|x: int| d <= x < 256 implies !#[trigger] b0.has(x as u8) by {
                if b0.has(x as u8) {
                    let k = choose|k: int| 0 <= k < i && node.hdr.digits@[k] == x as u8;
                    assert(node.hdr.digits@[k] < node.hdr.digits@[i as int]);
                }
            }
            lemma_sub_pop_bound(b0, s as int);
        }
        b.bitmap.set(d);
        push_into(&mut subs, s, e);
        proof {
            lemma_children_add_max(b0, v0, b.bitmap, d as int, e);
        }
        b.pop_counts[s] = b.pop_counts[s] + 1;
        proof {
            assert(linear_children(node.hdr, node.edges@).take(i + 1) =~= linear_children(node.hdr, node.edges@).take(
                i as int,
            ).push((d, e)));
            assert forall|x: u8| #[trigger] b.bitmap.has(x) <==> exists|k: int|
                0 <= k < i + 1 && node.hdr.digits@[k] == x by {
                if x == d {
                    assert(node.hdr.digits@[i as int] == x);
                }
            }
        }
        i = i + 1;
    }
    proof {
        assert(linear_children(node.hdr, node.edges@).take(num as int) =~= linear_children(node.hdr, node.edges@));
    }
    let mut s: usize = 0;
    while s < 8
        invariant
            0 <= s <= 8,
            subs_match(b.bitmap, views(subs@)),
            bitmap_children(b.bitmap, views(subs@), 256) == linear_children(node.hdr, node.edges@),
            b.level == node.hdr.level,
            b.version == 0,
            forall|t: int| 0 <= t < 8 ==> #[trigger] b.pop_counts@[t] == sub_pop(b.bitmap, t),
            forall|t: int|
                0 <= t < s ==> #[trigger] b.subarrays@[t] == if sub_pop(b.bitmap, t) > 0 {
                    sub_addrs@[t]
                } else {
                    0
                },
            forall|t: int| s <= t < 8 ==> #[trigger] b.subarrays@[t] == 0,
        decreases 8 - s,
    {
        if b.pop_counts[s] > 0 {
            b.subarrays[s] = sub_addrs[s];
        }
        s = s + 1;
    }
    retarget(edge, addr, EdgeType::BranchB);
    (b, subs)
}

/// Compresses an uncompressed branch into a bitmap branch at `addr` and
/// `level`: each non-null slot becomes a member, its edge going, in digit
/// order, to its subexpanse's subarray, referred to at `sub_addrs[s]`.
/// Returns the node and its eight subarrays.
pub fn downgrade_u_to_b(node: &BranchU, edge: &mut Edge, addr: u64, level: u8, sub_addrs: &[u64; 8]) -> (r: (
    BranchB,
    Vec<Vec<Edge>>,
))
    ensures
        branch_b_holds(r.0, views(r.1@)),
        bitmap_children(r.0.bitmap, views(r.1@), 256) == uncompressed_children(node.edges@, 256),
        r.0.level == level,
        r.0.version == 0,
        forall|s: int|
            0 <= s < 8 ==> #[trigger] r.0.subarrays@[s] == if sub_pop(r.0.bitmap, s) > 0 {
                sub_addrs@[s]
            } else {
                0
            },
        word_bytes(final(edge).w0_spec(), addr),
        final(edge).aux_spec() == old(edge).aux_spec(),
        final(edge).tag_spec() == edge_type_code(EdgeType::BranchB),
{
    let mut b = BranchB::new(level);
    let mut subs = empty_subs();
    proof {
        assert forall|s: int| 0 <= s < 8 implies #[trigger] sub_pop(b.bitmap, s) == 0 by {
            lemma_count_none_above(b.bitmap, 32 * s, 32 * s, 32 * s + 32);
        }
        lemma_children_none_above(b.bitmap, views(subs@), 0, 256);
    }
    let mut d: usize = 0;
    while d < 256
        invariant
            0 <= d <= 256,
            subs_match(b.bitmap, views(subs@)),
            forall|s: int| 0 <= s < 8 ==> #[trigger] b.pop_counts@[s] == sub_pop(b.bitmap, s),
            forall|s: int| 0 <= s < 8 ==> #[trigger] b.subarrays@[s] == 0,
            b.level == level,
            b.version == 0,
            forall|x: int| d <= x < 256 ==> !#[trigger] b.bitmap.has(x as u8),
            bitmap_children(b.bitmap, views(subs@), 256) == uncompressed_children(node.edges@, d as int),
        decreases 256 - d,
    {
        let e = node.edges[d];
        if !e.is_null() {
            let s = d / 32;
            let ghost b0 = b.bitmap;
            let ghost v0 = views(subs@);
            proof {
                lemma_sub_pop_bound(b0, s as int);
            }
            b.bitmap.set(d as u8);
            push_into(&mut subs, s, e);
            proof {
                lemma_children_add_max(b0, v0, b.bitmap, d as int, e);
                assert forall|x: int| d + 1 <= x < 256 implies !#[trigger] b.bitmap.has(x as u8) by {
                    assert(b.bitmap.has(x as u8) == b0.has(x as u8));
                }
            }
            b.pop_counts[s] = b.pop_counts[s] + 1;
        }
        d = d + 1;
    }
    let mut s: usize = 0;
    while s < 8
        invariant
            0 <= s <= 8,
            subs_match(b.bitmap, views(subs@)),
            bitmap_children(b.bitmap, views(subs@), 256) == uncompressed_children(node.edges@, 256),
            b.level == level,
            b.version == 0,
            forall|t: int| 0 <= t < 8 ==> #[trigger] b.pop_counts@[t] == sub_pop(b.bitmap, t),
            forall|t: int|
                0 <= t < s ==> #[trigger] b.subarrays@[t] == if sub_pop(b.bitmap, t) > 0 {
                    sub_addrs@[t]
                } else {
                    0
                },
            forall|t: int| s <= t < 8 ==> #[trigger] b.subarrays@[t] == 0,
        decreases 8 - s,
    {
        if b.pop_counts[s] > 0 {
            b.subarrays[s] = sub_addrs[s];
        }
        s = s + 1;
    }
    retarget(edge, addr, EdgeType::BranchB);
    (b, subs)
}

} // verus!
