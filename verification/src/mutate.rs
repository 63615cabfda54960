//! Building blocks of insertion and removal: key slicing by level, the
//! decode digits of narrow pointers and the splitting of a skipped level,
//! packed little-endian key arrays and the linear leaves and immediates
//! built from them, sorted slot maintenance in linear branches, small fixed
//! buffers for immediate payloads, and the cached descent path used by
//! sequential inserts with its deferred population updates.

use vstd::prelude::*;
use crate::node::{BranchL3, Edge, le_value, lemma_le_value_bound};
use crate::types::{Key, ImmedType, EdgeType, edge_type_code, lemma_pow256_values, lemma_pow256_pos, lemma_pow256_mono};

verus! {

/// `1 << 8k` is `256^k` for the byte counts of a key.
pub proof fn lemma_shift_pow256(k: u8)
    requires
        k < 8,
    ensures
        (1u64 << (8 * k as u64)) as nat == crate::types::pow256(k as nat),
{
    lemma_pow256_values();
    assert(1u64 << 0u64 == 1u64 && 1u64 << 8u64 == 0x100u64 && 1u64 << 16u64 == 0x1_0000u64 && 1u64 << 24u64
        == 0x100_0000u64 && 1u64 << 32u64 == 0x1_0000_0000u64 && 1u64 << 40u64 == 0x100_0000_0000u64
        && 1u64 << 48u64 == 0x1_0000_0000_0000u64 && 1u64 << 56u64 == 0x100_0000_0000_0000u64) by (bit_vector);
}

/// The low `kb` bytes of `key` (the whole key from 8 bytes up).
pub open spec fn key_low_spec(key: u64, kb: u8) -> u64 {
    if kb >= 8 {
        key
    } else {
        (key as nat % crate::types::pow256(kb as nat)) as u64
    }
}

/// Masks a key down to its low `kb` bytes.
pub fn key_low(key: Key, kb: u8) -> (r: u64)
    ensures
        r == key_low_spec(key, kb),
{
    if kb >= 8 {
        key
    } else {
        let p = pow256(kb);
        proof {
            lemma_pow256_pos(kb as nat);
        }
        key % p
    }
}

/// `256^level` for a level below 8.
pub fn pow256(level: u8) -> (r: u64)
    requires
        level < 8,
    ensures
        r as nat == crate::types::pow256(level as nat),
{
    proof {
        lemma_shift_pow256(level);
    }
    1u64 << (8 * level as u64)
}

/// Facts about the highest set bit `p` of a nonzero word.
proof fn lemma_top_bit_bytes(x: u64, p: u64)
    by (bit_vector)
    requires
        p < 64,
        (x >> p) & 1u64 != 0u64,
        p == 63 || x >> ((p + 1) as u64) == 0,
    ensures
        (1u64 << ((p / 8) * 8)) <= x,
        p / 8 < 7 ==> x < (1u64 << (((p / 8) * 8 + 8) as u64)),
{
}

/// Highest level (1-based) at which two `level`-byte suffixes differ: the
/// number of significant bytes in the low `level` bytes of `a ^ b`.
pub fn divergence_level(a: u64, b: u64, level: u8) -> (r: u8)
    requires
        1 <= level <= 8,
        key_low_spec(a ^ b, level) != 0,
    ensures
        1 <= r <= level,
        crate::types::pow256((r - 1) as nat) <= key_low_spec(a ^ b, level) < crate::types::pow256(r as nat),
{
    let x = key_low(a ^ b, level);
    let lz = x.leading_zeros();
    proof {
        vstd::std_specs::bits::axiom_u64_leading_zeros(x);
        let p: u64 = (63 - lz) as u64;
        assert((x >> p) & 1u64 != 0u64);
        if lz > 0 {
            assert(x >> ((p + 1) as u64) == 0);
        }
        lemma_top_bit_bytes(x, p);
        let k = (p / 8) as u8;
        lemma_shift_pow256(k);
        if k < 7 {
            lemma_shift_pow256((k + 1) as u8);
        }
        lemma_pow256_values();
        if level < 8 {
            lemma_pow256_pos(level as nat);
            assert(x < crate::types::pow256(level as nat));
            if k + 1 > level {
                lemma_pow256_mono(level as nat, k as nat);
            }
        }
    }
    (63 - lz as u8) / 8 + 1
}

/// Prepending a byte to a little-endian string adds it as the low digit.
pub proof fn lemma_le_value_prepend(b: u8, s: Seq<u8>)
    ensures
        le_value(seq![b] + s) == b as nat + 256 * le_value(s),
    decreases s.len(),
{
    let t = seq![b] + s;
    if s.len() == 0 {
        assert(t.drop_last() =~= Seq::<u8>::empty());
        assert(le_value(Seq::<u8>::empty()) == 0);
        assert(t.last() == b);
        lemma_pow256_values();
        assert(le_value(t) == le_value(t.drop_last()) + t.last() as nat * crate::types::pow256(0));
    } else {
        assert(t.drop_last() =~= seq![b] + s.drop_last());
        assert(t.last() == s.last());
        assert(t.len() == s.len() + 1);
        lemma_le_value_prepend(b, s.drop_last());
        let n = s.len();
        assert(crate::types::pow256(n as nat) == crate::types::pow256((n - 1) as nat) * 256);
        let p = crate::types::pow256((n - 1) as nat);
        let l = s.last() as nat;
        assert(l * (p * 256) == 256 * (l * p)) by (nonlinear_arith);
    }
}

/// Shifting a word under a byte.
proof fn lemma_shl8_or(v: u64, x: u64)
    by (bit_vector)
    requires
        v < 0x100_0000_0000_0000,
        x < 256,
    ensures
        (v << 8u64) | x == v * 256 + x,
{
}

/// The decode digits of a narrow pointer (levels `kb+1..=level`) as one
/// number, the digit at level `kb+1` least significant.
pub open spec fn decode_spec(edge: Edge, kb: u8, level: u8) -> nat {
    le_value(edge.aux_spec().subrange(kb as int, level as int))
}

/// Reads a skipping edge's decode digits (levels `kb+1..=level`) as one
/// integer, least significant byte = the digit at level `kb+1`.
pub fn decode_value(edge: &Edge, kb: u8, level: u8) -> (v: u64)
    requires
        1 <= kb <= level <= 7,
    ensures
        v as nat == decode_spec(*edge, kb, level),
{
    let d = edge.decode_bytes(kb);
    let n = (level - kb) as usize;
    let mut v = 0u64;
    let mut i = n;
    proof {
        edge.lemma_aux_len();
        assert(d@.subrange(i as int, n as int) =~= Seq::<u8>::empty());
    }
    while i > 0
        invariant
            0 <= i <= n,
            n == level - kb,
            1 <= kb <= level <= 7,
            d@ == edge.aux_spec().skip(kb as int),
            edge.aux_spec().len() == 7,
            v as nat == le_value(d@.subrange(i as int, n as int)),
        decreases i,
    {
        i = i - 1;
        proof {
            lemma_le_value_bound(d@.subrange(i + 1, n as int));
            lemma_pow256_values();
            lemma_pow256_mono((n - i - 1) as nat, 6);
            assert(d@.subrange(i as int, n as int) =~= seq![d@[i as int]] + d@.subrange(i + 1, n as int));
            lemma_le_value_prepend(d@[i as int], d@.subrange(i + 1, n as int));
            lemma_shl8_or(v, d@[i as int] as u64);
        }
        v = (v << 8u64) | (d[i] as u64);
    }
    proof {
        assert(d@.subrange(0, n as int) =~= edge.aux_spec().subrange(kb as int, level as int));
    }
    v
}

/// Writes the decode digits for a child at `kb` under a slot at `level`,
/// taken from `key`'s digits at levels `kb+1..=level`.
pub fn write_decode(edge: &mut Edge, kb: u8, level: u8, key: u64)
    requires
        1 <= kb <= level <= 7,
    ensures
        final(edge).aux_spec() == old(edge).aux_spec().take(kb as int) + Seq::new(
            (level - kb) as nat,
            |i: int| ((key as nat / crate::types::pow256((kb + i) as nat)) % 256) as u8,
        ) + old(edge).aux_spec().skip(level as int),
        final(edge).w0_spec() == old(edge).w0_spec(),
        final(edge).tag_spec() == old(edge).tag_spec(),
{
    let n = (level - kb) as usize;
    let mut dec: Vec<u8> = Vec::new();
    let mut i: usize = 0;
    while i < n
        invariant
            0 <= i <= n,
            n == level - kb,
            1 <= kb <= level <= 7,
            dec@.len() == i,
            forall|j: int| 0 <= j < i ==> dec@[j] == ((key as nat / crate::types::pow256((kb + j) as nat)) % 256) as u8,
        decreases n - i,
    {
        let dg = crate::types::digit(key, kb + 1 + i as u8);
        dec.push(dg);
        i = i + 1;
    }
    proof {
        assert(dec@ =~= Seq::new(n as nat, |i: int| ((key as nat / crate::types::pow256((kb + i) as nat)) % 256) as u8));
    }
    edge.set_decode_bytes(kb, dec.as_slice());
}

/// Restores a narrow pointer's decode bytes (levels `kb+1..=level`) from a
/// saved copy of the aux field.
pub fn restore_decode(edge: &mut Edge, kb: u8, level: u8, saved_aux: &[u8; 7])
    requires
        1 <= kb,
        kb < level ==> level <= 7,
    ensures
        kb < level ==> final(edge).aux_spec() == old(edge).aux_spec().take(kb as int) + saved_aux@.subrange(
            kb as int,
            level as int,
        ) + old(edge).aux_spec().skip(level as int),
        kb >= level ==> *final(edge) == *old(edge),
        final(edge).w0_spec() == old(edge).w0_spec(),
        final(edge).tag_spec() == old(edge).tag_spec(),
{
    if kb < level {
        let mut bytes: Vec<u8> = Vec::new();
        let mut i: usize = kb as usize;
        while i < level as usize
            invariant
                kb <= i <= level <= 7,
                bytes@ == saved_aux@.subrange(kb as int, i as int),
            decreases level - i,
        {
            bytes.push(saved_aux[i]);
            i = i + 1;
            proof {
                assert(bytes@ =~= saved_aux@.subrange(kb as int, i as int));
            }
        }
        edge.set_decode_bytes(kb, bytes.as_slice());
    }
}

/// Materializes one skipped level of a narrow pointer as a one-child
/// three-slot linear branch at level `at`, at node `addr`: the decode digit
/// at `at` becomes the branch digit; the branch keeps the decode digits
/// above `at` (it is itself narrow when `at < slot_level`) and the subtree's
/// `pop0`; the child keeps the decode digits below `at`. Returns the branch.
pub fn wrap_skip_level(edge: &mut Edge, addr: u64, at: u8, slot_level: u8, subtree_pop: u64) -> (node: BranchL3)
    requires
        2 <= at <= slot_level <= 7,
        subtree_pop >= 1,
    ensures
        node.hdr.level == at,
        node.hdr.num == 1,
        node.hdr.version == 0,
        node.hdr.digits@ == seq![old(edge).aux_spec()[at - 1]] + seq![0u8; 7],
        node.edges@[0].w0_spec() == old(edge).w0_spec(),
        node.edges@[0].tag_spec() == old(edge).tag_spec(),
        node.edges@[0].aux_spec() == old(edge).aux_spec().take(at - 1) + Seq::new(
            (slot_level - at + 1) as nat,
            |i: int| 0u8,
        ) + old(edge).aux_spec().skip(slot_level as int),
        is_null_edge(node.edges@[1]),
        is_null_edge(node.edges@[2]),
        crate::node::word_bytes(final(edge).w0_spec(), addr),
        final(edge).tag_spec() == edge_type_code(EdgeType::BranchL3),
        final(edge).pop0_spec(at) == (subtree_pop - 1) as nat % crate::types::pow256(at as nat),
        final(edge).aux_spec().skip(at as int) == old(edge).aux_spec().subrange(at as int, slot_level as int)
            + Seq::new((7 - slot_level) as nat, |i: int| 0u8),
{
    let aux = *edge.aux_bytes();
    proof {
        edge.lemma_aux_len();
    }
    let t = aux[at as usize - 1];
    let mut child = *edge;
    let mut i = at as usize - 1;
    while i < slot_level as usize
        invariant
            2 <= at,
            at - 1 <= i <= slot_level <= 7,
            aux@ == old(edge).aux_spec(),
            child.w0_spec() == old(edge).w0_spec(),
            child.tag_spec() == old(edge).tag_spec(),
            child.aux_spec().len() == 7,
            forall|j: int| 0 <= j < at - 1 ==> child.aux_spec()[j] == aux@[j],
            forall|j: int| at - 1 <= j < i ==> child.aux_spec()[j] == 0,
            forall|j: int| i <= j < 7 ==> child.aux_spec()[j] == aux@[j],
        decreases slot_level - i,
    {
        child.clear_aux_byte(i);
        i = i + 1;
    }
    proof {
        assert(child.aux_spec() =~= old(edge).aux_spec().take(at - 1) + Seq::new(
            (slot_level - at + 1) as nat,
            |i: int| 0u8,
        ) + old(edge).aux_spec().skip(slot_level as int));
    }
    let mut node = BranchL3::new(at);
    node.hdr.num = 1;
    node.hdr.digits[0] = t;
    node.edges[0] = child;
    *edge = Edge::new_node(addr, EdgeType::BranchL3.as_u8());
    restore_decode(edge, at, slot_level, &aux);
    edge.set_pop0(at, subtree_pop - 1);
    proof {
        assert(node.hdr.digits@ =~= seq![t] + seq![0u8; 7]);
        assert(edge.aux_spec().skip(at as int) =~= aux@.subrange(at as int, slot_level as int) + Seq::new(
            (7 - slot_level) as nat,
            |i: int| 0u8,
        ));
    }
    node
}

/// The highest level in `lo..=level` whose decode digit disagrees with `key`.
pub open spec fn split_level(aux: Seq<u8>, key: u64, level: u8, at: u8) -> bool {
    &&& 2 <= at <= level
    &&& crate::types::digit_spec(key, at) != aux[at - 1]
    &&& forall|l: int| at < l <= level ==> #[trigger] crate::types::digit_spec(key, l as u8) == aux[l - 1]
}

/// Splits a narrow pointer where `key` leaves its skipped prefix: wraps the
/// skipped level at the highest decode level whose digit disagrees with
/// `key` (see [`wrap_skip_level`]). Returns that level and the branch.
pub fn split_skip(edge: &mut Edge, addr: u64, key: Key, level: u8, subtree_pop: u64) -> (r: (u8, BranchL3))
    requires
        level <= 7,
        subtree_pop >= 1,
        exists|l: int| 2 <= l <= level && #[trigger] crate::types::digit_spec(key, l as u8) != old(edge).aux_spec()[l - 1],
    ensures
        split_level(old(edge).aux_spec(), key, level, r.0),
        r.1.hdr.level == r.0,
        r.1.hdr.digits@[0] == old(edge).aux_spec()[r.0 - 1],
        final(edge).tag_spec() == edge_type_code(EdgeType::BranchL3),
        crate::node::word_bytes(final(edge).w0_spec(), addr),
        final(edge).pop0_spec(r.0) == (subtree_pop - 1) as nat % crate::types::pow256(r.0 as nat),
{
    let aux = *edge.aux_bytes();
    proof {
        edge.lemma_aux_len();
    }
    let mut at = level;
    let ghost w = choose|l: int| 2 <= l <= level && #[trigger] crate::types::digit_spec(key, l as u8) != aux@[l - 1];
    while crate::types::digit(key, at) == aux[at as usize - 1]
        invariant
            w <= at <= level <= 7,
            2 <= w,
            aux@ == old(edge).aux_spec(),
            crate::types::digit_spec(key, w as u8) != aux@[w - 1],
            forall|l: int| at < l <= level ==> #[trigger] crate::types::digit_spec(key, l as u8) == aux@[l - 1],
        decreases at,
    {
        proof {
            lemma_digit_spec(key, at);
        }
        at = at - 1;
    }
    proof {
        lemma_digit_spec(key, at);
    }
    let node = wrap_skip_level(edge, addr, at, level, subtree_pop);
    (at, node)
}

/// The executable digit agrees with its specification.
proof fn lemma_digit_spec(key: u64, level: u8)
    requires
        1 <= level <= 8,
    ensures
        crate::types::digit_spec(key, level) as nat == (key as nat / crate::types::pow256((level - 1) as nat)) % 256,
{
    lemma_pow256_values();
    lemma_pow256_pos((level - 1) as nat);
    lemma_pow256_mono((level - 1) as nat, 7);
}

/// The empty edge.
pub open spec fn is_null_edge(e: Edge) -> bool {
    &&& e.tag_spec() == edge_type_code(EdgeType::Null)
    &&& e.w0_spec() == seq![0u8; 8]
    &&& e.aux_spec() == seq![0u8; 7]
}

/// `pos` is where digit `d` belongs among the first `num` digits: after
/// every digit not above it, before the first one above it.
pub open spec fn insert_position(digits: Seq<u8>, num: int, d: u8, pos: int) -> bool {
    &&& 0 <= pos <= num
    &&& forall|i: int| 0 <= i < pos ==> digits[i] <= d
    &&& pos < num ==> digits[pos] > d
}

/// Inserts a new digit and a null child into a linear branch at its sorted
/// position among the first `num` entries, and returns that slot.
pub fn linear_insert_slot(digits: &mut [u8; 8], edges: &mut [Edge], num: usize, d: u8) -> (pos: usize)
    requires
        num < 8,
        num < old(edges)@.len(),
    ensures
        insert_position(old(digits)@, num as int, d, pos as int),
        final(edges)@.len() == old(edges)@.len(),
        forall|i: int| 0 <= i < pos ==> final(digits)@[i] == old(digits)@[i] && final(edges)@[i] == old(edges)@[i],
        final(digits)@[pos as int] == d,
        is_null_edge(final(edges)@[pos as int]),
        forall|i: int| pos < i <= num ==> final(digits)@[i] == old(digits)@[i - 1] && final(edges)@[i] == old(
            edges,
        )@[i - 1],
        forall|i: int| num < i < 8 ==> final(digits)@[i] == old(digits)@[i],
        forall|i: int| num < i < final(edges)@.len() ==> final(edges)@[i] == old(edges)@[i],
{
    let mut pos = num;
    let mut j: usize = 0;
    while j < num
        invariant_except_break
            pos == num,
        invariant
            0 <= j <= num < 8,
            digits@ == old(digits)@,
            forall|i: int| 0 <= i < j ==> digits@[i] <= d,
        ensures
            insert_position(old(digits)@, num as int, d, pos as int),
        decreases num - j,
    {
        if digits[j] > d {
            pos = j;
            break;
        }
        j = j + 1;
    }
    let mut i = num;
    while i > pos
        invariant
            pos <= i <= num < 8,
            num < edges@.len(),
            edges@.len() == old(edges)@.len(),
            forall|k: int| 0 <= k <= i ==> digits@[k] == old(digits)@[k] && edges@[k] == old(edges)@[k],
            forall|k: int| i < k <= num ==> digits@[k] == old(digits)@[k - 1] && edges@[k] == old(edges)@[k - 1],
            forall|k: int| num < k < 8 ==> digits@[k] == old(digits)@[k],
            forall|k: int| num < k < edges@.len() ==> edges@[k] == old(edges)@[k],
        decreases i - pos,
    {
        let dv = digits[i - 1];
        digits[i] = dv;
        let ev = edges[i - 1];
        edges[i] = ev;
        i = i - 1;
    }
    digits[pos] = d;
    edges[pos] = Edge::null();
    pos
}

/// [`linear_insert_slot`] for a three-slot branch, by direct comparison.
pub fn linear_insert_slot_l3(digits: &mut [u8; 8], edges: &mut [Edge; 3], num: usize, d: u8) -> (pos: usize)
    requires
        num < 3,
    ensures
        insert_position(old(digits)@, num as int, d, pos as int),
        forall|i: int| 0 <= i < pos ==> final(digits)@[i] == old(digits)@[i] && final(edges)@[i] == old(edges)@[i],
        final(digits)@[pos as int] == d,
        is_null_edge(final(edges)@[pos as int]),
        forall|i: int| pos < i <= num ==> final(digits)@[i] == old(digits)@[i - 1] && final(edges)@[i] == old(
            edges,
        )@[i - 1],
        forall|i: int| num < i < 8 ==> final(digits)@[i] == old(digits)@[i],
        forall|i: int| num < i < 3 ==> final(edges)@[i] == old(edges)@[i],
{
    let pos: usize = if num == 0 || digits[0] > d {
        0
    } else if num == 1 || digits[1] > d {
        1
    } else {
        2
    };
    if num == 2 {
        if pos == 0 {
            digits[2] = digits[1];
            digits[1] = digits[0];
            edges[2] = edges[1];
            edges[1] = edges[0];
        } else if pos == 1 {
            digits[2] = digits[1];
            edges[2] = edges[1];
        }
    } else if num == 1 && pos == 0 {
        digits[1] = digits[0];
        edges[1] = edges[0];
    }
    digits[pos] = d;
    edges[pos] = Edge::null();
    pos
}

/// Removes slot `slot` of a linear branch with `num` children, closing the
/// gap and clearing the vacated last entry.
pub fn linear_remove_slot(digits: &mut [u8; 8], edges: &mut [Edge], num: usize, slot: usize)
    requires
        slot < num <= 8,
        num <= old(edges)@.len(),
    ensures
        final(edges)@.len() == old(edges)@.len(),
        forall|i: int| 0 <= i < slot ==> final(digits)@[i] == old(digits)@[i] && final(edges)@[i] == old(edges)@[i],
        forall|i: int| slot <= i < num - 1 ==> final(digits)@[i] == old(digits)@[i + 1] && final(edges)@[i] == old(
            edges,
        )@[i + 1],
        final(digits)@[num - 1] == 0,
        is_null_edge(final(edges)@[num - 1]),
        forall|i: int| num <= i < 8 ==> final(digits)@[i] == old(digits)@[i],
        forall|i: int| num <= i < final(edges)@.len() ==> final(edges)@[i] == old(edges)@[i],
{
    let mut i = slot;
    while i < num - 1
        invariant
            slot <= i <= num - 1,
            num <= 8,
            num <= edges@.len(),
            edges@.len() == old(edges)@.len(),
            forall|k: int| 0 <= k < slot ==> digits@[k] == old(digits)@[k] && edges@[k] == old(edges)@[k],
            forall|k: int| slot <= k < i ==> digits@[k] == old(digits)@[k + 1] && edges@[k] == old(edges)@[k + 1],
            forall|k: int| i <= k < 8 ==> digits@[k] == old(digits)@[k],
            forall|k: int| i <= k < edges@.len() ==> edges@[k] == old(edges)@[k],
        decreases num - 1 - i,
    {
        let dv = digits[i + 1];
        digits[i] = dv;
        let ev = edges[i + 1];
        edges[i] = ev;
        i = i + 1;
    }
    digits[num - 1] = 0;
    edges[num - 1] = Edge::null();
}

/// Slot capacity of [`ImmedBuf`]: the 15-key immediate maximum plus one
/// transient slot for a key being inserted.
pub const IMMED_BUF_CAP: usize = 16;

/// A stack-resident buffer for one immediate edge's keys.
pub struct ImmedBuf<T: Copy + Default> {
    buf: [T; 16],
    len: usize,
}

impl<T: Copy + Default> View for ImmedBuf<T> {
    type V = Seq<T>;

    /// The populated prefix.
    closed spec fn view(&self) -> Seq<T> {
        self.buf@.take(self.len as int)
    }
}

impl<T: Copy + Default> ImmedBuf<T> {
    /// The length never exceeds the capacity.
    pub closed spec fn wf(&self) -> bool {
        self.len <= IMMED_BUF_CAP
    }

    /// An empty buffer.
    pub fn new() -> (b: Self)
        ensures
            b.wf(),
            b@ == Seq::<T>::empty(),
    {
        let b = ImmedBuf { buf: [T::default(); 16], len: 0 };
        proof {
            assert(b@ =~= Seq::<T>::empty());
        }
        b
    }

    /// Number of values held.
    pub fn len(&self) -> (n: usize)
        requires
            self.wf(),
        ensures
            n == self@.len(),
    {
        self.len
    }

    /// Appends `v`.
    pub fn push(&mut self, v: T)
        requires
            old(self).wf(),
            old(self)@.len() < IMMED_BUF_CAP,
        ensures
            final(self).wf(),
            final(self)@ == old(self)@.push(v),
    {
        self.buf[self.len] = v;
        self.len = self.len + 1;
        proof {
            assert(self@ =~= old(self)@.push(v));
        }
    }

    /// Inserts `v` at `at`, shifting the tail up.
    pub fn insert(&mut self, at: usize, v: T)
        requires
            old(self).wf(),
            at <= old(self)@.len() < IMMED_BUF_CAP,
        ensures
            final(self).wf(),
            final(self)@ == old(self)@.insert(at as int, v),
    {
        let mut i = self.len;
        while i > at
            invariant
                at <= i <= self.len < IMMED_BUF_CAP,
                self.len == old(self).len,
                forall|k: int| 0 <= k <= i ==> self.buf@[k] == old(self).buf@[k],
                forall|k: int| i < k <= self.len ==> self.buf@[k] == old(self).buf@[k - 1],
            decreases i - at,
        {
            let x = self.buf[i - 1];
            self.buf[i] = x;
            i = i - 1;
        }
        self.buf[at] = v;
        self.len = self.len + 1;
        proof {
            assert(self@ =~= old(self)@.insert(at as int, v));
        }
    }

    /// Removes and returns the value at `at`, shifting the tail down.
    pub fn remove(&mut self, at: usize) -> (v: T)
        requires
            old(self).wf(),
            at < old(self)@.len(),
        ensures
            final(self).wf(),
            v == old(self)@[at as int],
            final(self)@ == old(self)@.remove(at as int),
    {
        let v = self.buf[at];
        let mut i = at;
        while i + 1 < self.len
            invariant
                at <= i < self.len <= IMMED_BUF_CAP,
                self.len == old(self).len,
                forall|k: int| 0 <= k < at ==> self.buf@[k] == old(self).buf@[k],
                forall|k: int| at <= k < i ==> self.buf@[k] == old(self).buf@[k + 1],
                forall|k: int| i <= k < IMMED_BUF_CAP ==> self.buf@[k] == old(self).buf@[k],
            decreases self.len - i,
        {
            let x = self.buf[i + 1];
            self.buf[i] = x;
            i = i + 1;
        }
        self.len = self.len - 1;
        proof {
            assert(self@ =~= old(self)@.remove(at as int));
        }
        v
    }

    /// The populated prefix as a slice.
    pub fn as_slice(&self) -> (s: &[T])
        requires
            self.wf(),
        ensures
            s@ == self@,
    {
        vstd::slice::slice_subrange(self.buf.as_slice(), 0, self.len)
    }
}

/// The little-endian number in `n` bytes of `bytes` from `start`.
pub(crate) fn le_read(bytes: &[u8], start: usize, n: usize) -> (v: u64)
    requires
        start + n <= bytes@.len(),
        n <= 8,
    ensures
        v as nat == le_value(bytes@.subrange(start as int, start + n)),
{
    let ghost s = bytes@.subrange(start as int, start + n);
    let blen = bytes.len();
    let mut v: u64 = 0;
    let mut j = n;
    proof {
        assert(s.subrange(n as int, n as int) =~= Seq::<u8>::empty());
    }
    while j > 0
        invariant
            0 <= j <= n <= 8,
            start + n <= bytes@.len(),
            blen == bytes@.len(),
            s == bytes@.subrange(start as int, start + n),
            v as nat == le_value(s.subrange(j as int, n as int)),
        decreases j,
    {
        j = j - 1;
        proof {
            lemma_le_value_bound(s.subrange(j + 1, n as int));
            lemma_pow256_values();
            lemma_pow256_mono((n - j - 1) as nat, 7);
            assert(s.subrange(j as int, n as int) =~= seq![s[j as int]] + s.subrange(j + 1, n as int));
            lemma_le_value_prepend(s[j as int], s.subrange(j + 1, n as int));
            lemma_shl8_or(v, s[j as int] as u64);
        }
        v = (v << 8u64) | (bytes[start + j] as u64);
    }
    proof {
        assert(s.subrange(0, n as int) =~= s);
    }
    v
}

/// The `slot`-th `kb`-byte little-endian key packed in `bytes`.
pub open spec fn packed_key(bytes: Seq<u8>, kb: int, slot: int) -> nat {
    le_value(bytes.subrange(slot * kb, slot * kb + kb))
}

/// The keys packed in the first `count * kb` bytes of `bytes`.
fn read_keys(bytes: &[u8], kb: usize, count: usize) -> (out: ImmedBuf<u64>)
    requires
        1 <= kb <= 8,
        count <= IMMED_BUF_CAP,
        count * kb <= bytes@.len(),
    ensures
        out.wf(),
        out@.len() == count,
        forall|i: int| 0 <= i < count ==> out@[i] as nat == packed_key(bytes@, kb as int, i),
{
    let mut out = ImmedBuf::new();
    let mut slot: usize = 0;
    let blen = bytes.len();
    while slot < count
        invariant
            blen == bytes@.len(),
            0 <= slot <= count <= IMMED_BUF_CAP,
            1 <= kb <= 8,
            count * kb <= bytes@.len(),
            out.wf(),
            out@.len() == slot,
            forall|i: int| 0 <= i < slot ==> out@[i] as nat == packed_key(bytes@, kb as int, i),
        decreases count - slot,
    {
        proof {
            assert((slot + 1) * kb <= count * kb) by (nonlinear_arith)
                requires
                    slot + 1 <= count,
            ;
            assert((slot + 1) * kb == slot * kb + kb) by (nonlinear_arith);
        }
        let k = le_read(bytes, slot * kb, kb);
        out.push(k);
        slot = slot + 1;
    }
    out
}

/// The sorted keys of a set-flavor immediate edge: `count` keys of `kb`
/// bytes packed in the 15-byte payload.
pub fn immed_keys(edge: &Edge, im: ImmedType) -> (out: ImmedBuf<u64>)
    requires
        im.wf(),
    ensures
        out.wf(),
        out@.len() == im.count,
        forall|i: int| 0 <= i < im.count ==> out@[i] as nat == packed_key(
            edge.w0_spec() + edge.aux_spec(),
            im.kb as int,
            i,
        ),
{
    let payload = edge.imm_payload();
    let kb = im.key_bytes() as usize;
    let count = im.key_count() as usize;
    proof {
        assert(count * kb <= 15) by (nonlinear_arith)
            requires
                1 <= kb <= 7,
                count <= 15usize / kb,
        ;
        assert(count <= 15) by (nonlinear_arith)
            requires
                1 <= kb,
                count <= 15usize / kb,
        ;
    }
    read_keys(payload.as_slice(), kb, count)
}

/// Map immediates keep their keys in the 7 aux bytes, so their capacity
/// is `7 / key_bytes`.
pub fn map_immed_max(kb: u8) -> (r: usize)
    requires
        kb > 0,
    ensures
        r == 7int / (kb as int),
{
    7 / kb as usize
}

/// The sorted keys of a map-flavor immediate edge, packed in its aux bytes.
pub fn immed_map_keys(edge: &Edge, im: ImmedType) -> (out: ImmedBuf<u64>)
    requires
        im.wf(),
        im.count * im.kb <= 7,
    ensures
        out.wf(),
        out@.len() == im.count,
        forall|i: int| 0 <= i < im.count ==> out@[i] as nat == packed_key(edge.aux_spec(), im.kb as int, i),
{
    let aux = edge.aux_bytes();
    let kb = im.key_bytes() as usize;
    let count = im.key_count() as usize;
    proof {
        edge.lemma_aux_len();
    }
    read_keys(aux.as_slice(), kb, count)
}

/// Writes the low `n` bytes of `val`, little-endian, at `bytes[start..start + n]`.
fn le_write(bytes: &mut [u8], start: usize, n: usize, val: u64)
    requires
        start + n <= old(bytes)@.len(),
        n <= 8,
    ensures
        final(bytes)@.len() == old(bytes)@.len(),
        le_value(final(bytes)@.subrange(start as int, start + n)) == val as nat % crate::types::pow256(n as nat),
        forall|i: int|
            0 <= i < old(bytes)@.len() && !(start <= i < start + n) ==> #[trigger] final(bytes)@[i] == old(bytes)@[i],
{
    let blen = bytes.len();
    let mut v = val;
    let mut j: usize = 0;
    proof {
        assert(bytes@.subrange(start as int, start as int) =~= Seq::<u8>::empty());
        assert(crate::types::pow256(0) == 1);
        assert(val as nat / 1 == val as nat);
        assert(val as nat % 1 == 0);
    }
    while j < n
        invariant
            0 <= j <= n <= 8,
            start + n <= bytes@.len(),
            blen == bytes@.len(),
            bytes@.len() == old(bytes)@.len(),
            v as nat == val as nat / crate::types::pow256(j as nat),
            le_value(bytes@.subrange(start as int, start + j)) == val as nat % crate::types::pow256(j as nat),
            forall|i: int|
                0 <= i < bytes@.len() && !(start <= i < start + j) ==> #[trigger] bytes@[i] == old(bytes)@[i],
        decreases n - j,
    {
        let ghost pre = bytes@;
        let b = (v % 256) as u8;
        proof {
            let w = pre.skip(start as int);
            assert(w.take(j as int) =~= pre.subrange(start as int, start + j));
            crate::node::lemma_le_step(w, j as int, b, val as nat);
            assert(pre.update(start + j, b).subrange(start as int, start + j + 1) =~= w.update(j as int, b).take(
                j + 1,
            ));
            lemma_pow256_pos(j as nat);
            vstd::arithmetic::div_mod::lemma_div_denominator(val as int, crate::types::pow256(j as nat) as int, 256);
        }
        bytes[start + j] = b;
        v = v / 256;
        j = j + 1;
    }
}

/// The `slot`-th packed key of width `KB` (1..=8 bytes).
pub fn read_packed_fixed<const KB: usize>(keys: &[u8], slot: usize) -> (v: u64)
    requires
        1 <= KB <= 8,
        (slot + 1) * KB <= keys@.len(),
    ensures
        v as nat == packed_key(keys@, KB as int, slot as int),
{
    let _len = keys.len();
    proof {
        assert((slot + 1) * KB == slot * KB + KB) by (nonlinear_arith);
    }
    le_read(keys, slot * KB, KB)
}

/// Writes the low `KB` bytes of `val` as the `slot`-th packed key.
pub fn write_packed_fixed<const KB: usize>(keys: &mut [u8], slot: usize, val: u64)
    requires
        1 <= KB <= 8,
        (slot + 1) * KB <= old(keys)@.len(),
    ensures
        final(keys)@.len() == old(keys)@.len(),
        packed_key(final(keys)@, KB as int, slot as int) == val as nat % crate::types::pow256(KB as nat),
        forall|i: int|
            0 <= i < old(keys)@.len() && !(slot * KB <= i < slot * KB + KB) ==> #[trigger] final(keys)@[i]
                == old(keys)@[i],
{
    let _len = keys.len();
    proof {
        assert((slot + 1) * KB == slot * KB + KB) by (nonlinear_arith);
    }
    le_write(keys, slot * KB, KB, val)
}

/// The `slot`-th packed key of width `kb`; a width outside 1..=7 reads 0.
pub fn read_packed(keys: &[u8], slot: usize, kb: usize) -> (v: u64)
    requires
        1 <= kb <= 7 ==> (slot + 1) * kb <= keys@.len(),
    ensures
        1 <= kb <= 7 ==> v as nat == packed_key(keys@, kb as int, slot as int),
        !(1 <= kb <= 7) ==> v == 0,
{
    match kb {
        1 => read_packed_fixed::<1>(keys, slot),
        2 => read_packed_fixed::<2>(keys, slot),
        3 => read_packed_fixed::<3>(keys, slot),
        4 => read_packed_fixed::<4>(keys, slot),
        5 => read_packed_fixed::<5>(keys, slot),
        6 => read_packed_fixed::<6>(keys, slot),
        7 => read_packed_fixed::<7>(keys, slot),
        _ => 0,
    }
}

/// Finds key `k` among the first `pop` packed keys of an ascending leaf:
/// `Ok` with its slot when present, else `Err` with the slot it would be
/// inserted at to keep the keys ascending.
pub fn leaf_locate_fixed(keys: &[u8], pop: usize, kb: u8, k: u64) -> (r: Result<usize, usize>)
    requires
        1 <= kb <= 7,
        pop * kb <= keys@.len(),
        crate::nav::packed_ascending(keys@, kb as int, pop as int),
    ensures
        match r {
            Ok(i) => i < pop && packed_key(keys@, kb as int, i as int) == k,
            Err(i) => {
                &&& i <= pop
                &&& forall|j: int| 0 <= j < i ==> packed_key(keys@, kb as int, j) < k
                &&& forall|j: int| i <= j < pop ==> packed_key(keys@, kb as int, j) > k
            },
        },
{
    let lo = crate::nav::leaf_lower_bound(keys, kb, pop, k);
    if lo < pop && crate::nav::leaf_suffix(keys, kb, pop, lo) == k {
        Ok(lo)
    } else {
        proof {
            if lo < pop {
                assert forall|j: int| lo <= j < pop implies packed_key(keys@, kb as int, j) > k by {
                    if j > lo {
                        assert(packed_key(keys@, kb as int, lo as int) < packed_key(keys@, kb as int, j));
                    }
                }
            }
        }
        Err(lo)
    }
}

/// Writes the low `kb` bytes of `val` as the `slot`-th packed key; a width
/// of 8 writes the whole word.
pub fn write_packed(keys: &mut [u8], slot: usize, kb: usize, val: u64)
    requires
        1 <= kb <= 8,
        (slot + 1) * kb <= old(keys)@.len(),
    ensures
        final(keys)@.len() == old(keys)@.len(),
        packed_key(final(keys)@, kb as int, slot as int) == val as nat % crate::types::pow256(kb as nat),
        forall|i: int|
            0 <= i < old(keys)@.len() && !(slot * kb <= i < slot * kb + kb) ==> #[trigger] final(keys)@[i]
                == old(keys)@[i],
{
    match kb {
        1 => write_packed_fixed::<1>(keys, slot, val),
        2 => write_packed_fixed::<2>(keys, slot, val),
        3 => write_packed_fixed::<3>(keys, slot, val),
        4 => write_packed_fixed::<4>(keys, slot, val),
        5 => write_packed_fixed::<5>(keys, slot, val),
        6 => write_packed_fixed::<6>(keys, slot, val),
        7 => write_packed_fixed::<7>(keys, slot, val),
        _ => write_packed_fixed::<8>(keys, slot, val),
    }
}

/// `bytes` holds exactly `keys`, each as its low `kb` bytes, packed in order.
pub open spec fn leaf_encodes(bytes: Seq<u8>, kb: u8, keys: Seq<u64>) -> bool {
    &&& bytes.len() == keys.len() * kb
    &&& forall|i: int|
        0 <= i < keys.len() ==> #[trigger] packed_key(bytes, kb as int, i) == keys[i] as nat % crate::types::pow256(
            kb as nat,
        )
}

/// Packs `keys` at width `KB` into the front of `out`.
fn fill_packed<const KB: usize>(out: &mut [u8], keys: &[u64])
    requires
        1 <= KB <= 8,
        keys@.len() * KB <= old(out)@.len(),
    ensures
        final(out)@.len() == old(out)@.len(),
        forall|i: int|
            0 <= i < keys@.len() ==> #[trigger] packed_key(final(out)@, KB as int, i) == keys@[i] as nat
                % crate::types::pow256(KB as nat),
        forall|j: int| keys@.len() * KB <= j < old(out)@.len() ==> #[trigger] final(out)@[j] == old(out)@[j],
{
    let n = keys.len();
    let mut slot: usize = 0;
    while slot < n
        invariant
            n == keys@.len(),
            1 <= KB <= 8,
            0 <= slot <= n,
            n * KB <= out@.len(),
            out@.len() == old(out)@.len(),
            forall|i: int|
                0 <= i < slot ==> #[trigger] packed_key(out@, KB as int, i) == keys@[i] as nat
                    % crate::types::pow256(KB as nat),
            forall|j: int| slot * KB <= j < out@.len() ==> #[trigger] out@[j] == old(out)@[j],
        decreases n - slot,
    {
        let ghost pre = out@;
        proof {
            assert((slot + 1) * KB <= n * KB) by (nonlinear_arith)
                requires
                    slot + 1 <= n,
            ;
            assert((slot + 1) * KB == slot * KB + KB) by (nonlinear_arith);
        }
        write_packed_fixed::<KB>(out, slot, keys[slot]);
        proof {
            assert forall|i: int| 0 <= i < slot + 1 implies #[trigger] packed_key(out@, KB as int, i)
                == keys@[i] as nat % crate::types::pow256(KB as nat) by {
                if i < slot {
                    assert(i * KB + KB <= slot * KB) by (nonlinear_arith)
                        requires
                            i + 1 <= slot,
                    ;
                    assert(0 <= i * KB) by (nonlinear_arith)
                        requires
                            0 <= i,
                    ;
                    assert(out@.subrange(i * KB, i * KB + KB) =~= pre.subrange(i * KB, i * KB + KB));
                    assert(packed_key(out@, KB as int, i) == packed_key(pre, KB as int, i));
                    assert(packed_key(pre, KB as int, i) == keys@[i] as nat % crate::types::pow256(KB as nat));
                } else {
                    assert(i == slot);
                    assert(packed_key(out@, KB as int, i) == keys@[i] as nat % crate::types::pow256(KB as nat));
                }
            }
        }
        slot = slot + 1;
    }
}

/// The keys of a linear leaf: `pop` packed keys of `kb` bytes.
pub fn leaf_keys(keys: &[u8], kb: u8, pop: usize) -> (out: Vec<u64>)
    requires
        1 <= kb <= 7,
        pop * kb <= keys@.len(),
    ensures
        out@.len() == pop,
        forall|i: int| 0 <= i < pop ==> #[trigger] out@[i] as nat == packed_key(keys@, kb as int, i),
{
    let mut out: Vec<u64> = Vec::new();
    let mut slot: usize = 0;
    while slot < pop
        invariant
            1 <= kb <= 7,
            pop * kb <= keys@.len(),
            0 <= slot <= pop,
            out@.len() == slot,
            forall|i: int| 0 <= i < slot ==> #[trigger] out@[i] as nat == packed_key(keys@, kb as int, i),
        decreases pop - slot,
    {
        proof {
            assert((slot + 1) * kb <= pop * kb) by (nonlinear_arith)
                requires
                    slot + 1 <= pop,
            ;
        }
        out.push(read_packed(keys, slot, kb as usize));
        slot = slot + 1;
    }
    out
}

/// Builds a linear leaf of `kb`-byte key remainders from sorted `keys`:
/// points `edge` at the leaf node `addr` with the leaf tag for `kb` and
/// `pop0 = keys.len() - 1`, and returns the packed key array to store there.
pub fn build_leaf(edge: &mut Edge, addr: u64, kb: u8, keys: &[u64]) -> (bytes: Vec<u8>)
    requires
        1 <= kb <= 7,
        keys@.len() >= 1,
        keys@.len() * kb <= usize::MAX,
    ensures
        leaf_encodes(bytes@, kb, keys@),
        final(edge).tag_spec() == kb + 4,
        crate::node::word_bytes(final(edge).w0_spec(), addr),
        final(edge).pop0_spec(kb) == (keys@.len() - 1) as nat % crate::types::pow256(kb as nat),
        final(edge).aux_spec().skip(kb as int) == seq![0u8; 7].skip(kb as int),
{
    let n = keys.len();
    let mut bytes: Vec<u8> = vec![0u8; n * (kb as usize)];
    match kb {
        1 => fill_packed::<1>(bytes.as_mut_slice(), keys),
        2 => fill_packed::<2>(bytes.as_mut_slice(), keys),
        3 => fill_packed::<3>(bytes.as_mut_slice(), keys),
        4 => fill_packed::<4>(bytes.as_mut_slice(), keys),
        5 => fill_packed::<5>(bytes.as_mut_slice(), keys),
        6 => fill_packed::<6>(bytes.as_mut_slice(), keys),
        _ => fill_packed::<7>(bytes.as_mut_slice(), keys),
    }
    let tag = match kb {
        1 => EdgeType::Leaf1,
        2 => EdgeType::Leaf2,
        3 => EdgeType::Leaf3,
        4 => EdgeType::Leaf4,
        5 => EdgeType::Leaf5,
        6 => EdgeType::Leaf6,
        _ => EdgeType::Leaf7,
    };
    *edge = Edge::new_node(addr, tag.as_u8());
    edge.set_pop0(kb, n as u64 - 1);
    bytes
}

/// The edge is a set-flavor immediate holding `keys`, each as its low
/// `kb` bytes, packed in order across word 0 and the aux bytes, the rest
/// of the payload zero.
pub open spec fn immed_encodes(edge: Edge, kb: u8, keys: Seq<u64>) -> bool {
    let payload = edge.w0_spec() + edge.aux_spec();
    &&& edge.tag_spec() == (ImmedType { kb, count: keys.len() as u8 }).code()
    &&& forall|i: int|
        0 <= i < keys.len() ==> #[trigger] packed_key(payload, kb as int, i) == keys[i] as nat
            % crate::types::pow256(kb as nat)
    &&& forall|j: int| keys.len() * kb <= j < 15 ==> #[trigger] payload[j] == 0
}

/// Rebuilds a set-flavor immediate edge of several keys from sorted `keys`.
pub fn write_immed(edge: &mut Edge, kb: u8, keys: &[u64])
    requires
        1 <= kb <= 7,
        2 <= keys@.len() <= crate::types::immed_max_count(kb),
    ensures
        immed_encodes(*final(edge), kb, keys@),
{
    let count = keys.len();
    let im = ImmedType::new(kb, count as u8);
    let im = match im {
        Some(im) => im,
        None => {
            proof {
                assert(false);
            }
            ImmedType { kb, count: 1 }
        },
    };
    proof {
        assert(count * kb <= 15) by (nonlinear_arith)
            requires
                1 <= kb <= 7,
                count <= 15usize / (kb as usize),
        ;
    }
    let mut payload: Vec<u8> = vec![0u8; 16];
    fill_packed_width(payload.as_mut_slice(), kb, keys);
    let mut w0 = [0u8; 8];
    let mut aux = [0u8; 7];
    let mut i: usize = 0;
    while i < 15
        invariant
            0 <= i <= 15,
            payload@.len() == 16,
            w0@.len() == 8,
            aux@.len() == 7,
            forall|j: int| 0 <= j < i && j < 8 ==> #[trigger] w0@[j] == payload@[j],
            forall|j: int| 8 <= j < i ==> #[trigger] aux@[j - 8] == payload@[j],
        decreases 15 - i,
    {
        if i < 8 {
            w0[i] = payload[i];
        } else {
            aux[i - 8] = payload[i];
        }
        i = i + 1;
    }
    edge.set_imm_bytes(w0);
    edge.set_aux_bytes(aux);
    edge.set_tag(im.as_u8());
    proof {
        let p = edge.w0_spec() + edge.aux_spec();
        assert(p =~= payload@.take(15));
        assert forall|k: int| 0 <= k < count implies #[trigger] packed_key(p, kb as int, k) == keys@[k] as nat
            % crate::types::pow256(kb as nat) by {
            assert(k * kb + kb <= count * kb) by (nonlinear_arith)
                requires
                    k + 1 <= count,
            ;
            assert(0 <= k * kb) by (nonlinear_arith)
                requires
                    0 <= k,
            ;
            assert(p.subrange(k * kb, k * kb + kb) =~= payload@.subrange(k * kb, k * kb + kb));
            assert(packed_key(p, kb as int, k) == packed_key(payload@, kb as int, k));
        }
    }
}

/// Packs `keys` at a width of `kb` bytes into the front of `out`.
pub(crate) fn fill_packed_width(out: &mut [u8], kb: u8, keys: &[u64])
    requires
        1 <= kb <= 7,
        keys@.len() * kb <= old(out)@.len(),
    ensures
        final(out)@.len() == old(out)@.len(),
        forall|i: int|
            0 <= i < keys@.len() ==> #[trigger] packed_key(final(out)@, kb as int, i) == keys@[i] as nat
                % crate::types::pow256(kb as nat),
        forall|j: int| keys@.len() * kb <= j < old(out)@.len() ==> #[trigger] final(out)@[j] == old(out)@[j],
{
    match kb {
        1 => fill_packed::<1>(out, keys),
        2 => fill_packed::<2>(out, keys),
        3 => fill_packed::<3>(out, keys),
        4 => fill_packed::<4>(out, keys),
        5 => fill_packed::<5>(out, keys),
        6 => fill_packed::<6>(out, keys),
        _ => fill_packed::<7>(out, keys),
    }
}

/// What is packed reads back: a linear leaf or an immediate built from
/// keys that fit in `kb` bytes yields exactly those keys, slot by slot.
pub proof fn law_packed_roundtrip(leaf: Seq<u8>, edge: Edge, kb: u8, keys: Seq<u64>)
    requires
        1 <= kb <= 7,
        forall|i: int| 0 <= i < keys.len() ==> (#[trigger] keys[i]) < crate::types::pow256(kb as nat),
    ensures
        leaf_encodes(leaf, kb, keys) ==> forall|i: int|
            0 <= i < keys.len() ==> #[trigger] packed_key(leaf, kb as int, i) == keys[i] as nat,
        immed_encodes(edge, kb, keys) ==> forall|i: int|
            0 <= i < keys.len() ==> #[trigger] packed_key(edge.w0_spec() + edge.aux_spec(), kb as int, i)
                == keys[i] as nat,
{
    assert forall|i: int| 0 <= i < keys.len() implies keys[i] as nat % crate::types::pow256(kb as nat)
        == keys[i] as nat by {
        vstd::arithmetic::div_mod::lemma_small_mod(keys[i] as nat, crate::types::pow256(kb as nat));
    }
}

/// A fixed-capacity buffer of up to 32 keys.
pub struct StackKeys32 {
    buf: [u64; 32],
    len: usize,
}

impl View for StackKeys32 {
    type V = Seq<u64>;

    /// The keys pushed so far.
    closed spec fn view(&self) -> Seq<u64> {
        self.buf@.take(self.len as int)
    }
}

impl StackKeys32 {
    /// The length never exceeds the capacity.
    pub closed spec fn wf(&self) -> bool {
        self.len <= 32
    }

    /// An empty buffer.
    pub fn new() -> (b: Self)
        ensures
            b.wf(),
            b@ == Seq::<u64>::empty(),
    {
        let b = StackKeys32 { buf: [0u64; 32], len: 0 };
        proof {
            assert(b@ =~= Seq::<u64>::empty());
        }
        b
    }

    /// Appends `k`.
    pub fn push(&mut self, k: u64)
        requires
            old(self).wf(),
            old(self)@.len() < 32,
        ensures
            final(self).wf(),
            final(self)@ == old(self)@.push(k),
    {
        self.buf[self.len] = k;
        self.len = self.len + 1;
        proof {
            assert(self@ =~= old(self)@.push(k));
        }
    }

    /// The keys pushed so far.
    pub fn as_slice(&self) -> (s: &[u64])
        requires
            self.wf(),
        ensures
            s@ == self@,
    {
        vstd::slice::slice_subrange(self.buf.as_slice(), 0, self.len)
    }
}

/// An `i64` reinterpreted as a `u64` adds `2^64` when negative.
proof fn lemma_i64_as_u64(x: i64)
    by (bit_vector)
    ensures
        x >= 0 ==> (x as u64) as int == x as int,
        x < 0 ==> (x as u64) as int == x as int + 0x1_0000_0000_0000_0000int,
{
}

/// Bumps the subtree `pop0` of an edge at `level` by `delta`, modulo the
/// field's width (level 8 has no pop0 field; the tree owner tracks it).
pub fn bump_pop0(edge: &mut Edge, level: u8, delta: i64)
    requires
        1 <= level,
        level <= 7 ==> old(edge).pop0_spec(level) + delta <= i64::MAX,
    ensures
        level <= 7 ==> final(edge).pop0_spec(level) == (old(edge).pop0_spec(level) + delta) % (
        crate::types::pow256(level as nat) as int),
        level <= 7 ==> final(edge).aux_spec().skip(level as int) == old(edge).aux_spec().skip(level as int),
        level > 7 ==> *final(edge) == *old(edge),
        final(edge).w0_spec() == old(edge).w0_spec(),
        final(edge).tag_spec() == old(edge).tag_spec(),
{
    if level <= 7 {
        let p = edge.pop0(level);
        proof {
            edge.lemma_pop0_bound(level);
            lemma_pow256_values();
            lemma_pow256_mono(level as nat, 7);
            assert(p < 0x100_0000_0000_0000);
        }
        let p = p as i64;
        let sum = p + delta;
        proof {
            lemma_i64_as_u64(sum);
            let m = crate::types::pow256(level as nat) as int;
            if sum < 0 {
                let q = crate::types::pow256((8 - level) as nat) as int;
                assert(m * q == 0x1_0000_0000_0000_0000int) by {
                    lemma_pow256_values();
                    if level == 1 {
                    } else if level == 2 {
                    } else if level == 3 {
                    } else if level == 4 {
                    } else if level == 5 {
                    } else if level == 6 {
                    } else {
                    }
                }
                vstd::arithmetic::div_mod::lemma_mod_multiples_vanish(q, sum as int, m);
            }
        }
        edge.set_pop0(level, sum as u64);
    }
}

/// Edge `b` is edge `a` with its `pop0` at `level` moved by `delta`
/// (modulo the field's width); at level 8 there is no field to move.
pub open spec fn bumped_edge(a: Edge, b: Edge, level: u8, delta: int) -> bool {
    &&& level <= 7 ==> b.pop0_spec(level) == (a.pop0_spec(level) + delta) % (crate::types::pow256(level as nat) as int)
    &&& level <= 7 ==> b.aux_spec().skip(level as int) == a.aux_spec().skip(level as int)
    &&& level > 7 ==> b == a
    &&& b.w0_spec() == a.w0_spec()
    &&& b.tag_spec() == a.tag_spec()
}

/// The ancestors `1..depth` of a cached path are distinct edges of a table
/// of `table_len` edges, each at a level of at least 1.
pub open spec fn path_ok(table_len: int, edges: Seq<usize>, levels: Seq<u8>, depth: int) -> bool {
    &&& 0 <= depth <= 8
    &&& edges.len() == 8
    &&& levels.len() == 8
    &&& forall|i: int| 1 <= i < depth ==> #[trigger] edges[i] < table_len && 1 <= levels[i]
    &&& forall|i: int, j: int| 1 <= i < j < depth ==> #[trigger] edges[i] != #[trigger] edges[j]
}

/// `new` is the table `old` with the `pop0` of every ancestor `1..depth`
/// of the path moved by `delta`, and every other edge untouched.
pub open spec fn path_bumped(
    old: Seq<Edge>,
    new: Seq<Edge>,
    edges: Seq<usize>,
    levels: Seq<u8>,
    depth: int,
    delta: int,
) -> bool {
    &&& new.len() == old.len()
    &&& forall|i: int|
        1 <= i < depth ==> bumped_edge(old[edges[i] as int], new[#[trigger] edges[i] as int], levels[i], delta)
    &&& forall|h: int|
        0 <= h < old.len() && (forall|i: int| 1 <= i < depth ==> #[trigger] edges[i] != h) ==> new[h] == old[h]
}

/// Largest population delta a path flush carries.
pub open spec fn max_pending() -> int {
    i64::MAX - 0x100_0000_0000_0000
}

/// Moves the `pop0` of the ancestors `1..depth` of a path by `delta`.
pub(crate) fn bump_path(table: &mut Vec<Edge>, edges: &[usize; 8], levels: &[u8; 8], depth: usize, delta: i64)
    requires
        path_ok(old(table)@.len() as int, edges@, levels@, depth as int),
        0 <= delta <= max_pending(),
    ensures
        path_bumped(old(table)@, final(table)@, edges@, levels@, depth as int, delta as int),
{
    let mut i: usize = 1;
    if depth == 0 {
        return;
    }
    while i < depth
        invariant
            1 <= i <= depth <= 8,
            path_ok(old(table)@.len() as int, edges@, levels@, depth as int),
            0 <= delta <= max_pending(),
            path_bumped(old(table)@, table@, edges@, levels@, i as int, delta as int),
        decreases depth - i,
    {
        let h = edges[i];
        let ghost pre = table@;
        proof {
            assert forall|k: int| 1 <= k < i implies #[trigger] edges@[k] != h by {
                assert(edges@[k] != edges@[i as int]);
            }
            assert(table@[h as int] == old(table)@[h as int]);
        }
        let mut e = table[h];
        proof {
            let l = levels@[i as int];
            if l <= 7 {
                e.lemma_pop0_bound(l);
                lemma_pow256_values();
                lemma_pow256_mono(l as nat, 7);
            }
        }
        bump_pop0(&mut e, levels[i], delta);
        table.set(h, e);
        proof {
            assert forall|k: int| 1 <= k < i + 1 implies bumped_edge(
                old(table)@[edges@[k] as int],
                table@[#[trigger] edges@[k] as int],
                levels@[k],
                delta as int,
            ) by {
                if k < i {
                    assert(edges@[k] != edges@[i as int]);
                    assert(table@[edges@[k] as int] == pre[edges@[k] as int]);
                }
            }
            assert forall|g: int|
                0 <= g < old(table)@.len() && (forall|k: int| 1 <= k < i + 1 ==> #[trigger] edges@[k] != g) implies table@[g]
                == old(table)@[g] by {
                assert(edges@[i as int] != g);
            }
        }
        i = i + 1;
    }
}

/// The cached descent path of a sequential insert: handles of the edges
/// from the root toward the active leaf, with their levels.
pub struct InsertPath {
    /// Key prefix the cached path covers (`u64::MAX` when none).
    pub prefix: u64,
    /// Edge handles by depth.
    pub edges: [usize; 8],
    /// Slot level of each recorded edge.
    pub levels: [u8; 8],
    /// Number of recorded edges.
    pub depth: usize,
    /// Handle of the active bitmap leaf, if any.
    pub leaf: Option<usize>,
    /// Handle of the active one-byte linear leaf, if any.
    pub leaf1: Option<usize>,
    /// Population of the terminal node.
    pub terminal_pop: u16,
    /// Inserts not yet added to the ancestors' populations.
    pub pending_pop: usize,
}

impl InsertPath {
    /// No cached path.
    pub fn empty() -> (p: InsertPath)
        ensures
            p.prefix == u64::MAX,
            p.depth == 0,
            p.leaf is None,
            p.leaf1 is None,
            p.terminal_pop == 0,
            p.pending_pop == 0,
            p.edges@ == seq![0usize; 8],
            p.levels@ == seq![0u8; 8],
    {
        let p = InsertPath {
            prefix: u64::MAX,
            edges: [0usize; 8],
            levels: [0u8; 8],
            depth: 0,
            leaf: None,
            leaf1: None,
            terminal_pop: 0,
            pending_pop: 0,
        };
        proof {
            assert(p.edges@ =~= seq![0usize; 8]);
            assert(p.levels@ =~= seq![0u8; 8]);
        }
        p
    }

    /// Appends an ancestor below the recorded root while there is room; a
    /// path with no root recorded is left as it is.
    pub fn record_ancestor(&mut self, edge: usize, level: u8)
        ensures
            old(self).depth > 0 && old(self).depth < 8 ==> {
                &&& final(self).edges@ == old(self).edges@.update(old(self).depth as int, edge)
                &&& final(self).levels@ == old(self).levels@.update(old(self).depth as int, level)
                &&& final(self).depth == old(self).depth + 1
                &&& final(self).prefix == old(self).prefix
                &&& final(self).leaf == old(self).leaf
                &&& final(self).leaf1 == old(self).leaf1
                &&& final(self).terminal_pop == old(self).terminal_pop
                &&& final(self).pending_pop == old(self).pending_pop
            },
            !(old(self).depth > 0 && old(self).depth < 8) ==> *final(self) == *old(self),
    {
        if self.depth > 0 && self.depth < 8 {
            self.edges[self.depth] = edge;
            self.levels[self.depth] = level;
            self.depth = self.depth + 1;
        }
    }

    /// Adds the pending inserts to the population of every recorded
    /// ancestor below the root and zeroes the count.
    pub fn flush(&mut self, table: &mut Vec<Edge>)
        requires
            path_ok(old(table)@.len() as int, old(self).edges@, old(self).levels@, old(self).depth as int),
            old(self).pending_pop <= max_pending(),
        ensures
            old(self).pending_pop > 0 ==> path_bumped(
                old(table)@,
                final(table)@,
                old(self).edges@,
                old(self).levels@,
                old(self).depth as int,
                old(self).pending_pop as int,
            ),
            old(self).pending_pop == 0 ==> final(table)@ == old(table)@,
            *final(self) == (Self { pending_pop: 0, ..*old(self) }),
    {
        if self.pending_pop > 0 {
            let delta = self.pending_pop as i64;
            self.pending_pop = 0;
            bump_path(table, &self.edges, &self.levels, self.depth, delta);
        }
    }

    /// Forgets the cached path, flushing pending inserts first.
    pub fn clear(&mut self, table: &mut Vec<Edge>)
        requires
            path_ok(old(table)@.len() as int, old(self).edges@, old(self).levels@, old(self).depth as int),
            old(self).pending_pop <= max_pending(),
        ensures
            old(self).depth != 0 && old(self).pending_pop > 0 ==> path_bumped(
                old(table)@,
                final(table)@,
                old(self).edges@,
                old(self).levels@,
                old(self).depth as int,
                old(self).pending_pop as int,
            ),
            old(self).depth == 0 || old(self).pending_pop == 0 ==> final(table)@ == old(table)@,
            old(self).depth != 0 ==> *final(self) == (Self {
                prefix: u64::MAX,
                depth: 0,
                leaf: None,
                leaf1: None,
                terminal_pop: 0,
                pending_pop: 0,
                ..*old(self)
            }),
            old(self).depth == 0 ==> *final(self) == *old(self),
    {
        if self.depth != 0 {
            if self.pending_pop > 0 {
                self.flush(table);
            }
            self.prefix = u64::MAX;
            self.depth = 0;
            self.leaf = None;
            self.leaf1 = None;
            self.terminal_pop = 0;
        }
    }
}

} // verus!
