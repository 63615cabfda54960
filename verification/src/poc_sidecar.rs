//! Decoupled metadata sidecars beside the ordered map and set.
//!
//! * [`SidecarBlobMap`]: a blob map whose index stores, per key, a dense
//!   [`RecordId`] handle; the payload's arena offset and `K` full 32-bit
//!   metadata columns live in parallel arrays indexed by that handle.
//! * [`InvertedIndex`]: one [`ExpanseSet`] posting list per attribute value,
//!   answering multi-attribute equality by set intersection, with a
//!   timestamp column kept both exactly and in coarse buckets.
//! * A 56-bit wide arena locator packed beside an 8-bit tag.

use vstd::prelude::*;
use crate::blobmap::{ArenaError, BlobArena, DEFAULT_CHUNK_SIZE, blob_footprint};
use crate::map::ExpanseMap;
use crate::set::{ExpanseSet, key_set};
use crate::sorted::strictly_sorted;
use crate::types::Key;
use std::collections::BTreeMap;
use core::ops::RangeInclusive;

verus! {

broadcast use vstd::std_specs::btree::group_btree_axioms;

/// Dense record handle stored in the value word of a [`SidecarBlobMap`].
pub type RecordId = u32;

/// Bit width of the wide arena locator.
pub const WIDE_LOCATOR_BITS: u32 = 56;

/// Mask for a [`WIDE_LOCATOR_BITS`]-bit locator.
pub const WIDE_LOCATOR_MASK: u64 = 0x00FF_FFFF_FFFF_FFFF;

/// Global-offset envelope of a 56-bit locator addressing 16-byte units
/// (`2^56 * 16 = 2^60` bytes).
pub const WIDE_LOCATOR_CEILING: u128 = 0x1000_0000_0000_0000;

/// The packed word for an aligned, in-range offset and a tag:
/// `[offset / 16 (56 bits) | tag (8 bits)]`.
pub open spec fn wide_locator_word(global_offset: u128, tag: u8) -> int {
    (global_offset / 16) * 256 + tag
}

/// Packs a 16-byte-aligned `global_offset` below [`WIDE_LOCATOR_CEILING`]
/// with an 8-bit tag; `None` for an unaligned or out-of-range offset.
pub fn pack_wide_locator(global_offset: u128, tag: u8) -> (r: Option<u64>)
    ensures
        r == if global_offset % 16 != 0 || global_offset >= WIDE_LOCATOR_CEILING {
            None::<u64>
        } else {
            Some(wide_locator_word(global_offset, tag) as u64)
        },
        r matches Some(w) ==> w as int == wide_locator_word(global_offset, tag),
{
    if global_offset % 16 != 0 || global_offset >= WIDE_LOCATOR_CEILING {
        return None;
    }
    let locator = (global_offset / 16) as u64;
    let t = tag as u64;
    assert(locator < 0x0100_0000_0000_0000);
    let w = (locator << 8u64) | t;
    assert(w == locator * 256 + t) by (bit_vector)
        requires
            locator < 0x0100_0000_0000_0000,
            t < 256,
            w == (locator << 8u64) | t,
    ;
    Some(w)
}

/// Recovers `(global_offset, tag)` from a packed word.
pub fn unpack_wide_locator(raw: u64) -> (r: (u128, u8))
    ensures
        r.0 == (raw as int / 256) * 16,
        r.1 == raw as int % 256,
{
    let tag = (raw & 0xFF) as u8;
    let locator = (raw >> 8u64) & WIDE_LOCATOR_MASK;
    assert(raw & 0xFF == raw % 256) by (bit_vector);
    assert((raw >> 8u64) & 0x00FF_FFFF_FFFF_FFFF == raw / 256) by (bit_vector);
    ((locator as u128) * 16, tag)
}

/// Unpacking a packed locator gives back the offset and the tag; packing
/// an unpacked word gives back the word.
pub proof fn law_wide_locator_roundtrip(global_offset: u128, tag: u8, raw: u64)
    ensures
        global_offset % 16 == 0 && global_offset < WIDE_LOCATOR_CEILING ==> {
            let w = wide_locator_word(global_offset, tag);
            &&& 0 <= w <= u64::MAX
            &&& (w / 256) * 16 == global_offset
            &&& w % 256 == tag
        },
        ({
            let off = (raw as int / 256) * 16;
            &&& 0 <= off < WIDE_LOCATOR_CEILING
            &&& off % 16 == 0
            &&& wide_locator_word(off as u128, (raw as int % 256) as u8) == raw
        }),
{
    if global_offset % 16 == 0 && global_offset < WIDE_LOCATOR_CEILING {
        let q = global_offset / 16;
        assert(global_offset == q * 16);
        assert(q < 0x0100_0000_0000_0000);
        let w = q * 256 + tag;
        assert(w / 256 == q) by (nonlinear_arith)
            requires
                w == q * 256 + tag,
                0 <= tag < 256,
                q >= 0,
        ;
        assert(w % 256 == tag) by (nonlinear_arith)
            requires
                w == q * 256 + tag,
                0 <= tag < 256,
                q >= 0,
        ;
    }
    let q = raw as int / 256;
    let off = q * 16;
    assert(off / 16 == q);
    assert(off % 16 == 0);
    assert(q * 256 + raw as int % 256 == raw);
}

// ---------------------------------------------------------------------------
// Inverted index
// ---------------------------------------------------------------------------

/// The posting lists of a column, by attribute value.
pub open spec fn col_view(col: Map<u32, ExpanseSet>) -> Map<u32, Set<u64>> {
    Map::new(|v: u32| col.contains_key(v), |v: u32| key_set(col[v]@))
}

/// Every posting list of a column is a well-formed set.
pub open spec fn col_wf(col: Map<u32, ExpanseSet>) -> bool {
    &&& col.dom().finite()
    &&& forall|v: u32| #[trigger] col.contains_key(v) ==> col[v].wf()
}

/// The posting list of value `v` (empty when absent).
pub open spec fn posting(c: Map<u32, Set<u64>>, v: u32) -> Set<u64> {
    if c.contains_key(v) {
        c[v]
    } else {
        Set::empty()
    }
}

/// Column `c` after posting `key` under value `v`.
pub open spec fn add_posting(c: Map<u32, Set<u64>>, v: u32, key: u64) -> Map<u32, Set<u64>> {
    c.insert(v, posting(c, v).insert(key))
}

/// The sum of the list lengths over the values `d`.
pub open spec fn total_over(c: Map<u32, Set<u64>>, d: Set<u32>) -> nat {
    d.fold(0nat, |acc: nat, v: u32| acc + c[v].len())
}

/// Total postings of a column, summed over all its lists.
pub open spec fn postings_total(c: Map<u32, Set<u64>>) -> nat {
    total_over(c, c.dom())
}

/// The keys in the union of the lists whose values lie in `[lo, hi]`.
pub open spec fn union_in(c: Map<u32, Set<u64>>, lo: u32, hi: u32) -> Set<u64> {
    Set::new(|k: u64| exists|v: u32| lo <= v <= hi && #[trigger] c.contains_key(v) && c[v].contains(k))
}

proof fn lemma_sum_commutative(c: Map<u32, Set<u64>>)
    ensures
        vstd::set::fold::is_fun_commutative(|acc: nat, v: u32| acc + c[v].len()),
{
    let f = |acc: nat, v: u32| acc + c[v].len();
    assert forall|b: nat, x: u32, y: u32| #[trigger] f(f(b, x), y) == f(f(b, y), x) by {}
}

/// Adding one value to the summed domain adds its list length.
proof fn lemma_total_insert(c: Map<u32, Set<u64>>, d: Set<u32>, x: u32)
    requires
        d.finite(),
        !d.contains(x),
    ensures
        total_over(c, d.insert(x)) == total_over(c, d) + c[x].len(),
{
    lemma_sum_commutative(c);
    vstd::set::fold::lemma_fold_insert(d, 0nat, |acc: nat, v: u32| acc + c[v].len(), x);
}

/// The sum over the empty domain is zero.
proof fn lemma_total_empty(c: Map<u32, Set<u64>>)
    ensures
        total_over(c, Set::empty()) == 0,
{
    vstd::set::fold::lemma_fold_empty(0nat, |acc: nat, v: u32| acc + c[v].len());
}

/// Two columns that agree on the lists of `d` have the same sum over `d`.
proof fn lemma_total_ext(c1: Map<u32, Set<u64>>, c2: Map<u32, Set<u64>>, d: Set<u32>)
    requires
        d.finite(),
        forall|v: u32| d.contains(v) ==> c1[v].len() == c2[v].len(),
    ensures
        total_over(c1, d) == total_over(c2, d),
    decreases d.len(),
{
    if d.len() == 0 {
        assert(d =~= Set::empty());
        lemma_total_empty(c1);
        lemma_total_empty(c2);
    } else {
        let x = d.choose();
        let r = d.remove(x);
        lemma_total_ext(c1, c2, r);
        assert(r.insert(x) =~= d);
        lemma_total_insert(c1, r, x);
        lemma_total_insert(c2, r, x);
    }
}

/// The sum over a subset is no larger.
proof fn lemma_total_mono(c: Map<u32, Set<u64>>, s: Set<u32>, t: Set<u32>)
    requires
        t.finite(),
        s.subset_of(t),
    ensures
        total_over(c, s) <= total_over(c, t),
    decreases t.len(),
{
    if s =~= t {
    } else {
        let x = choose|x: u32| t.contains(x) && !s.contains(x);
        let r = t.remove(x);
        assert(r.insert(x) =~= t);
        lemma_total_insert(c, r, x);
        lemma_total_mono(c, s, r);
    }
}

/// Posting a key grows a column's total by at most one.
proof fn lemma_add_posting_total(c: Map<u32, Set<u64>>, v: u32, key: u64)
    requires
        c.dom().finite(),
        forall|w: u32| #[trigger] c.contains_key(w) ==> c[w].finite(),
    ensures
        postings_total(add_posting(c, v, key)) <= postings_total(c) + 1,
        add_posting(c, v, key).dom().finite(),
        forall|w: u32| #[trigger] add_posting(c, v, key).contains_key(w) ==> add_posting(c, v, key)[w].finite(),
{
    let c2 = add_posting(c, v, key);
    let p = posting(c, v);
    assert(p.finite());
    if p.contains(key) {
        assert(p.insert(key) =~= p);
    }
    assert(p.insert(key).len() <= p.len() + 1);
    let r = c.dom().remove(v);
    assert(c2.dom() =~= r.insert(v));
    lemma_total_ext(c, c2, r);
    lemma_total_insert(c2, r, v);
    if c.contains_key(v) {
        assert(c.dom() =~= r.insert(v));
        lemma_total_insert(c, r, v);
    } else {
        assert(c.dom() =~= r);
    }
}

/// Cardinality / memory characterization of one inverted-index column.
#[derive(Debug, Clone, Copy, PartialEq, Eq, Default)]
pub struct ColumnStats {
    /// Number of distinct attribute values (posting lists).
    pub posting_lists: usize,
    /// Total postings summed across all lists.
    pub total_postings: u64,
    /// Heap bytes across all posting-list sets (saturating).
    pub mem_bytes: usize,
}

/// Adds `key` to the posting list of `v` in `col`.
fn col_add(col: &mut BTreeMap<u32, ExpanseSet>, v: u32, key: u64)
    requires
        col_wf(old(col)@),
    ensures
        col_wf(final(col)@),
        col_view(final(col)@) == add_posting(col_view(old(col)@), v, key),
{
    let ghost c0 = col_view(old(col)@);
    let mut s = match col.remove(&v) {
        Some(s) => s,
        None => ExpanseSet::new(),
    };
    proof {
        if old(col)@.contains_key(v) {
            assert(key_set(s@) == c0[v]);
        } else {
            assert(key_set(s@) =~= Set::<u64>::empty());
        }
        assert(key_set(s@) == posting(c0, v));
    }
    s.insert(key);
    col.insert(v, s);
    proof {
        assert forall|w: u32| #[trigger] col@.contains_key(w) implies col@[w].wf() by {
            if w != v {
                assert(old(col)@.contains_key(w));
            }
        }
        assert(col_view(col@) =~= add_posting(col_view(old(col)@), v, key));
    }
}

/// The characterization of a column.
fn column_stats(col: &BTreeMap<u32, ExpanseSet>) -> (st: ColumnStats)
    requires
        col_wf(col@),
        postings_total(col_view(col@)) <= u64::MAX,
    ensures
        st.posting_lists == col@.dom().len(),
        st.total_postings == postings_total(col_view(col@)),
        st.mem_bytes == if 8 * postings_total(col_view(col@)) <= usize::MAX {
            8 * postings_total(col_view(col@))
        } else {
            usize::MAX as nat
        },
{
    let ghost c = col_view(col@);
    let mut total: u64 = 0;
    let mut mem: usize = 0;
    let ghost mut seen: Set<u32> = Set::empty();
    proof {
        lemma_total_empty(c);
    }
    for kv in it: col.iter()
        invariant
            col_wf(col@),
            c == col_view(col@),
            postings_total(c) <= u64::MAX,
            it.seq().no_duplicates(),
            forall|i: int| 0 <= i < it.seq().len() ==> col@.contains_key(*#[trigger] it.seq()[i].0)
                && col@[*it.seq()[i].0] == *it.seq()[i].1,
            forall|v: u32| #[trigger] col@.contains_key(v) ==> it.seq().contains((&v, &col@[v])),
            seen.finite(),
            seen.subset_of(c.dom()),
            forall|v: u32| #[trigger] seen.contains(v) <==> exists|j: int| 0 <= j < it.index() && *it.seq()[j].0 == v,
            forall|v: u32| #[trigger] c.dom().contains(v) && !seen.contains(v) ==> exists|j: int|
                it.index() <= j < it.seq().len() && *it.seq()[j].0 == v,
            total == total_over(c, seen),
            mem == if 8 * total_over(c, seen) <= usize::MAX {
                8 * total_over(c, seen)
            } else {
                usize::MAX as nat
            },
    {
        let (v, s) = kv;
        let ghost idx = it.index();
        assert(kv == it.seq()[idx]);
        let ghost vv = *v;
        proof {
            assert(!seen.contains(vv)) by {
                if seen.contains(vv) {
                    let j = choose|j: int| 0 <= j < idx && *it.seq()[j].0 == vv;
                    assert(it.seq()[j] == it.seq()[idx]);
                }
            }
            assert(c.dom() =~= col@.dom());
            lemma_total_insert(c, seen, vv);
            lemma_total_mono(c, seen.insert(vv), c.dom());
            assert(c[vv] == key_set(s@));
            s.lemma_wf();
        }
        total = total + s.len();
        let m = s.mem_used();
        mem = mem.saturating_add(m);
        proof {
            seen = seen.insert(vv);
            assert forall|w: u32| #[trigger] seen.contains(w) <==> exists|j: int| 0 <= j < idx + 1 && *it.seq()[j].0 == w by {
                if w == vv {
                    assert(*it.seq()[idx].0 == w);
                }
            }
            assert forall|w: u32| #[trigger] c.dom().contains(w) && !seen.contains(w) implies exists|j: int|
                idx + 1 <= j < it.seq().len() && *it.seq()[j].0 == w by {
                let j = choose|j: int| idx <= j < it.seq().len() && *it.seq()[j].0 == w;
                assert(j != idx);
            }
        }
    }
    proof {
        assert(seen =~= c.dom());
    }
    ColumnStats { posting_lists: col.len(), total_postings: total, mem_bytes: mem }
}

/// The lists of a well-formed column are finite sets.
proof fn lemma_col_finite(col: Map<u32, ExpanseSet>)
    requires
        col_wf(col),
    ensures
        col_view(col).dom().finite(),
        col_view(col).dom() == col.dom(),
        forall|w: u32| #[trigger] col_view(col).contains_key(w) ==> col_view(col)[w].finite(),
{
    assert(col_view(col).dom() =~= col.dom());
    assert forall|w: u32| #[trigger] col_view(col).contains_key(w) implies col_view(col)[w].finite() by {
        col[w].lemma_wf();
    }
}

/// Inserts every key of `src` into `out`.
fn insert_all(out: &mut ExpanseSet, src: &ExpanseSet)
    requires
        old(out).wf(),
        src.wf(),
    ensures
        final(out).wf(),
        key_set(final(out)@) == key_set(old(out)@).union(key_set(src@)),
{
    let mut it = src.iter();
    loop
        invariant
            it.wf(),
            it.keys() == src@,
            0 <= it.pos() <= src@.len(),
            out.wf(),
            forall|x: u64| #[trigger] key_set(out@).contains(x) <==> (key_set(old(out)@).contains(x)
                || exists|j: int| 0 <= j < it.pos() && src@[j] == x),
        ensures
            out.wf(),
            key_set(out@) == key_set(old(out)@).union(key_set(src@)),
        decreases src@.len() - it.pos(),
    {
        let ghost p = it.pos();
        match it.next() {
            Some(k) => {
                out.insert(k);
                proof {
                    assert forall|x: u64| #[trigger] key_set(out@).contains(x) <==> (key_set(old(out)@).contains(x)
                        || exists|j: int| 0 <= j < p + 1 && src@[j] == x) by {
                        if x == k {
                            assert(src@[p] == x);
                        }
                    }
                }
            },
            None => {
                proof {
                    assert(key_set(out@) =~= key_set(old(out)@).union(key_set(src@)));
                }
                break;
            },
        }
    }
}

/// The keys of `src` admitted by the residual timestamp filter: all of them
/// when `check` is off, else those whose timestamp lies in `[lo, hi]`.
fn insert_checked<T: Fn(Key) -> u32>(
    out: &mut ExpanseSet,
    src: &ExpanseSet,
    check: bool,
    lo: u32,
    hi: u32,
    ts_of: &T,
)
    requires
        old(out).wf(),
        src.wf(),
        forall|k: u64| call_requires(*ts_of, (k,)),
    ensures
        final(out).wf(),
        key_set(old(out)@).subset_of(key_set(final(out)@)),
        forall|x: u64| #[trigger] key_set(final(out)@).contains(x) && !key_set(old(out)@).contains(x) ==> key_set(
            src@,
        ).contains(x) && (check ==> exists|t: u32| call_ensures(*ts_of, (x,), t) && lo <= t <= hi),
        forall|x: u64| #[trigger] key_set(src@).contains(x) && !check ==> key_set(final(out)@).contains(x),
        forall|x: u64| #[trigger] key_set(src@).contains(x) && (forall|t: u32| call_ensures(*ts_of, (x,), t) ==> lo <= t <= hi)
            ==> key_set(final(out)@).contains(x),
{
    let ghost o = key_set(out@);
    let mut it = src.iter();
    loop
        invariant
            it.wf(),
            it.keys() == src@,
            0 <= it.pos() <= src@.len(),
            out.wf(),
            o == key_set(old(out)@),
            forall|k: u64| call_requires(*ts_of, (k,)),
            o.subset_of(key_set(out@)),
            forall|x: u64| #[trigger] key_set(out@).contains(x) && !o.contains(x) ==> key_set(src@).contains(x)
                && (check ==> exists|t: u32| call_ensures(*ts_of, (x,), t) && lo <= t <= hi),
            forall|j: int| 0 <= j < it.pos() && !check ==> key_set(out@).contains(#[trigger] src@[j]),
            forall|j: int| 0 <= j < it.pos() && (forall|t: u32| call_ensures(*ts_of, (src@[j],), t) ==> lo <= t <= hi)
                ==> key_set(out@).contains(#[trigger] src@[j]),
        ensures
            out.wf(),
            o.subset_of(key_set(out@)),
            forall|x: u64| #[trigger] key_set(out@).contains(x) && !o.contains(x) ==> key_set(src@).contains(x)
                && (check ==> exists|t: u32| call_ensures(*ts_of, (x,), t) && lo <= t <= hi),
            forall|j: int| 0 <= j < src@.len() && !check ==> key_set(out@).contains(#[trigger] src@[j]),
            forall|j: int| 0 <= j < src@.len() && (forall|t: u32| call_ensures(*ts_of, (src@[j],), t) ==> lo <= t <= hi)
                ==> key_set(out@).contains(#[trigger] src@[j]),
        decreases src@.len() - it.pos(),
    {
        let ghost p = it.pos();
        match it.next() {
            Some(k) => {
                assert(k == src@[p]);
                if check {
                    let t = ts_of(k);
                    if t < lo || t > hi {
                        continue;
                    }
                }
                out.insert(k);
            },
            None => {
                break;
            },
        }
    }
}

/// A two-column inverted index (`tenant`, `status`) plus a timestamp
/// column kept exactly and in buckets of width `2^bucket_shift`.
pub struct InvertedIndex {
    tenant: BTreeMap<u32, ExpanseSet>,
    status: BTreeMap<u32, ExpanseSet>,
    ts_exact: BTreeMap<u32, ExpanseSet>,
    ts_bucketed: BTreeMap<u32, ExpanseSet>,
    bucket_shift: u32,
    indexed: ExpanseSet,
    calls: u64,
}

impl InvertedIndex {
    /// The `tenant` column.
    pub closed spec fn tenant_col(&self) -> Map<u32, Set<u64>> {
        col_view(self.tenant@)
    }

    /// The `status` column.
    pub closed spec fn status_col(&self) -> Map<u32, Set<u64>> {
        col_view(self.status@)
    }

    /// The exact-timestamp column.
    pub closed spec fn ts_exact_col(&self) -> Map<u32, Set<u64>> {
        col_view(self.ts_exact@)
    }

    /// The bucketed-timestamp column.
    pub closed spec fn ts_bucketed_col(&self) -> Map<u32, Set<u64>> {
        col_view(self.ts_bucketed@)
    }

    /// The distinct keys indexed so far.
    pub closed spec fn indexed_keys(&self) -> Set<u64> {
        key_set(self.indexed@)
    }

    /// Number of distinct keys indexed.
    pub closed spec fn keys_spec(&self) -> nat {
        self.indexed@.len()
    }

    /// Number of `insert` calls made.
    pub closed spec fn calls_spec(&self) -> nat {
        self.calls as nat
    }

    /// The bucket shift.
    pub closed spec fn shift_spec(&self) -> u32 {
        self.bucket_shift
    }

    /// Each column's lists are well-formed sets; no column holds more
    /// postings than `insert` calls were made; the indexed keys form a
    /// well-formed set.
    pub closed spec fn wf(&self) -> bool {
        &&& self.indexed.wf()
        &&& col_wf(self.tenant@)
        &&& col_wf(self.status@)
        &&& col_wf(self.ts_exact@)
        &&& col_wf(self.ts_bucketed@)
        &&& postings_total(col_view(self.tenant@)) <= self.calls
        &&& postings_total(col_view(self.status@)) <= self.calls
        &&& postings_total(col_view(self.ts_exact@)) <= self.calls
        &&& postings_total(col_view(self.ts_bucketed@)) <= self.calls
    }

    /// An empty index with timestamp buckets of width `2^bucket_shift`.
    pub fn new(bucket_shift: u32) -> (r: InvertedIndex)
        ensures
            r.wf(),
            r.tenant_col() == Map::<u32, Set<u64>>::empty(),
            r.status_col() == Map::<u32, Set<u64>>::empty(),
            r.ts_exact_col() == Map::<u32, Set<u64>>::empty(),
            r.ts_bucketed_col() == Map::<u32, Set<u64>>::empty(),
            r.shift_spec() == bucket_shift,
            r.keys_spec() == 0,
            r.indexed_keys() == Set::<u64>::empty(),
            r.calls_spec() == 0,
    {
        let r = InvertedIndex {
            tenant: BTreeMap::new(),
            status: BTreeMap::new(),
            ts_exact: BTreeMap::new(),
            ts_bucketed: BTreeMap::new(),
            bucket_shift,
            indexed: ExpanseSet::new(),
            calls: 0,
        };
        proof {
            assert(col_view(r.tenant@) =~= Map::<u32, Set<u64>>::empty());
            assert(col_view(r.status@) =~= Map::<u32, Set<u64>>::empty());
            assert(col_view(r.ts_exact@) =~= Map::<u32, Set<u64>>::empty());
            assert(col_view(r.ts_bucketed@) =~= Map::<u32, Set<u64>>::empty());
            lemma_total_empty(Map::<u32, Set<u64>>::empty());
            assert(key_set(r.indexed@) =~= Set::<u64>::empty());
            assert(Map::<u32, Set<u64>>::empty().dom() =~= Set::<u32>::empty());
        }
        r
    }

    /// Timestamp bucket shift (bucket width is `2^shift`).
    pub fn bucket_shift(&self) -> (r: u32)
        ensures
            r == self.shift_spec(),
    {
        self.bucket_shift
    }

    /// Number of indexed keys: the distinct keys inserted so far.
    pub fn keys(&self) -> (r: u64)
        requires
            self.wf(),
        ensures
            r == self.keys_spec(),
            r == self.indexed_keys().len(),
    {
        proof {
            self.indexed.lemma_wf();
        }
        self.indexed.len()
    }

    /// Indexes `key` under `tenant`, `status`, `ts`, and `ts`'s bucket.
    pub fn insert(&mut self, key: Key, tenant: u32, status: u32, ts: u32)
        requires
            old(self).wf(),
            old(self).shift_spec() < 32,
            old(self).calls_spec() < u64::MAX,
        ensures
            final(self).wf(),
            final(self).tenant_col() == add_posting(old(self).tenant_col(), tenant, key),
            final(self).status_col() == add_posting(old(self).status_col(), status, key),
            final(self).ts_exact_col() == add_posting(old(self).ts_exact_col(), ts, key),
            final(self).ts_bucketed_col() == add_posting(
                old(self).ts_bucketed_col(),
                ts >> old(self).shift_spec(),
                key,
            ),
            final(self).indexed_keys() == old(self).indexed_keys().insert(key),
            final(self).keys_spec() == old(self).keys_spec() + if old(self).indexed_keys().contains(key) {
                0int
            } else {
                1int
            },
            final(self).calls_spec() == old(self).calls_spec() + 1,
            final(self).shift_spec() == old(self).shift_spec(),
    {
        proof {
            lemma_col_finite(self.tenant@);
            lemma_col_finite(self.status@);
            lemma_col_finite(self.ts_exact@);
            lemma_col_finite(self.ts_bucketed@);
            lemma_add_posting_total(col_view(self.tenant@), tenant, key);
            lemma_add_posting_total(col_view(self.status@), status, key);
            lemma_add_posting_total(col_view(self.ts_exact@), ts, key);
            lemma_add_posting_total(col_view(self.ts_bucketed@), ts >> self.bucket_shift, key);
        }
        col_add(&mut self.tenant, tenant, key);
        col_add(&mut self.status, status, key);
        col_add(&mut self.ts_exact, ts, key);
        let b = ts >> self.bucket_shift;
        col_add(&mut self.ts_bucketed, b, key);
        self.indexed.insert(key);
        self.calls = self.calls + 1;
    }

    /// The keys with `tenant = t AND status = s`, by set intersection.
    pub fn query_tenant_status(&self, t: u32, s: u32) -> (r: ExpanseSet)
        requires
            self.wf(),
        ensures
            r.wf(),
            key_set(r@) == posting(self.tenant_col(), t).intersect(posting(self.status_col(), s)),
    {
        match (self.tenant.get(&t), self.status.get(&s)) {
            (Some(a), Some(b)) => a.intersection(b),
            _ => {
                let r = ExpanseSet::new();
                proof {
                    assert(key_set(r@) =~= posting(self.tenant_col(), t).intersect(
                        posting(self.status_col(), s),
                    ));
                }
                r
            },
        }
    }

    /// Counts `tenant = t AND status = s` without materializing the set.
    pub fn count_tenant_status(&self, t: u32, s: u32) -> (r: u64)
        requires
            self.wf(),
        ensures
            r == posting(self.tenant_col(), t).intersect(posting(self.status_col(), s)).len(),
    {
        match (self.tenant.get(&t), self.status.get(&s)) {
            (Some(a), Some(b)) => a.intersection_len(b),
            _ => {
                proof {
                    assert(posting(self.tenant_col(), t).intersect(posting(self.status_col(), s))
                        =~= Set::<u64>::empty());
                }
                0
            },
        }
    }

    /// Exact-timestamp range query: the union of every exact list whose
    /// timestamp lies in `[lo, hi]`.
    pub fn query_ts_range_exact(&self, lo: u32, hi: u32) -> (r: ExpanseSet)
        requires
            self.wf(),
        ensures
            r.wf(),
            key_set(r@) == union_in(self.ts_exact_col(), lo, hi),
    {
        let ghost c = col_view(self.ts_exact@);
        let mut out = ExpanseSet::new();
        proof {
            assert(key_set(out@) =~= Set::<u64>::empty());
        }
        for kv in it: self.ts_exact.iter()
            invariant
                col_wf(self.ts_exact@),
                c == col_view(self.ts_exact@),
                out.wf(),
                forall|i: int| 0 <= i < it.seq().len() ==> self.ts_exact@.contains_key(*#[trigger] it.seq()[i].0)
                    && self.ts_exact@[*it.seq()[i].0] == *it.seq()[i].1,
                forall|v: u32| #[trigger] self.ts_exact@.contains_key(v) ==> it.seq().contains((&v, &self.ts_exact@[v])),
                key_set(out@).subset_of(union_in(c, lo, hi)),
                forall|k: u64| #[trigger] union_in(c, lo, hi).contains(k) && !key_set(out@).contains(k) ==>
                    exists|j: int| it.index() <= j < it.seq().len() && lo <= *it.seq()[j].0 <= hi
                        && key_set(it.seq()[j].1@).contains(k),
        {
            let (v, set) = kv;
            let ghost idx = it.index();
            assert(kv == it.seq()[idx]);
            let ghost before = key_set(out@);
            if lo <= *v && *v <= hi {
                insert_all(&mut out, set);
            }
            proof {
                assert forall|k: u64| #[trigger] key_set(out@).contains(k) implies union_in(c, lo, hi).contains(k) by {
                    if !before.contains(k) {
                        assert(c.contains_key(*v) && c[*v].contains(k));
                    }
                }
                assert forall|k: u64| #[trigger] union_in(c, lo, hi).contains(k) && !key_set(out@).contains(k) implies
                    exists|j: int| idx + 1 <= j < it.seq().len() && lo <= *it.seq()[j].0 <= hi
                        && key_set(it.seq()[j].1@).contains(k) by {
                    let j = choose|j: int| idx <= j < it.seq().len() && lo <= *it.seq()[j].0 <= hi
                        && key_set(it.seq()[j].1@).contains(k);
                    assert(j != idx);
                }
            }
        }
        proof {
            assert forall|k: u64| union_in(c, lo, hi).contains(k) implies #[trigger] key_set(out@).contains(k) by {
                let v = choose|v: u32| lo <= v <= hi && #[trigger] c.contains_key(v) && c[v].contains(k);
                assert(self.ts_exact@.contains_key(v));
            }
            assert(key_set(out@) =~= union_in(c, lo, hi));
        }
        out
    }

    /// Bucketed-timestamp range query: unions the buckets covering
    /// `[lo, hi]`, filtering the keys of the two boundary buckets by their
    /// exact timestamp `ts_of(key)`; interior buckets need no filter.
    pub fn query_ts_range_bucketed<T: Fn(Key) -> u32>(&self, lo: u32, hi: u32, ts_of: T) -> (r: ExpanseSet)
        requires
            self.wf(),
            self.shift_spec() < 32,
            forall|k: u64| call_requires(ts_of, (k,)),
        ensures
            r.wf(),
            ({
                let c = self.ts_bucketed_col();
                let lo_b = lo >> self.shift_spec();
                let hi_b = hi >> self.shift_spec();
                &&& forall|k: u64| #[trigger] key_set(r@).contains(k) ==> exists|b: u32|
                    lo_b <= b <= hi_b && #[trigger] c.contains_key(b) && c[b].contains(k) && (b == lo_b || b == hi_b
                        ==> exists|t: u32| call_ensures(ts_of, (k,), t) && lo <= t <= hi)
                &&& forall|k: u64, b: u32| lo_b < b < hi_b && #[trigger] c.contains_key(b) && #[trigger] c[b].contains(k)
                    ==> key_set(r@).contains(k)
                &&& forall|k: u64, b: u32| lo_b <= b <= hi_b && #[trigger] c.contains_key(b) && #[trigger] c[b].contains(k)
                    && (forall|t: u32| call_ensures(ts_of, (k,), t) ==> lo <= t <= hi) ==> key_set(r@).contains(k)
            }),
    {
        let lo_b = lo >> self.bucket_shift;
        let hi_b = hi >> self.bucket_shift;
        let ghost c = col_view(self.ts_bucketed@);
        let mut out = ExpanseSet::new();
        proof {
            assert(key_set(out@) =~= Set::<u64>::empty());
        }
        for kv in it: self.ts_bucketed.iter()
            invariant
                col_wf(self.ts_bucketed@),
                c == col_view(self.ts_bucketed@),
                lo_b == lo >> self.bucket_shift,
                hi_b == hi >> self.bucket_shift,
                forall|k: u64| call_requires(ts_of, (k,)),
                out.wf(),
                forall|i: int| 0 <= i < it.seq().len() ==> self.ts_bucketed@.contains_key(*#[trigger] it.seq()[i].0)
                    && self.ts_bucketed@[*it.seq()[i].0] == *it.seq()[i].1,
                forall|v: u32| #[trigger] self.ts_bucketed@.contains_key(v) ==> it.seq().contains((&v, &self.ts_bucketed@[v])),
                forall|k: u64| #[trigger] key_set(out@).contains(k) ==> exists|b: u32|
                    lo_b <= b <= hi_b && #[trigger] c.contains_key(b) && c[b].contains(k) && (b == lo_b || b == hi_b
                        ==> exists|t: u32| call_ensures(ts_of, (k,), t) && lo <= t <= hi),
                forall|k: u64, b: u32| lo_b <= b <= hi_b && #[trigger] c.contains_key(b) && #[trigger] c[b].contains(k)
                    && (b == lo_b || b == hi_b ==> forall|t: u32| call_ensures(ts_of, (k,), t) ==> lo <= t <= hi)
                    && !key_set(out@).contains(k) ==> exists|j: int| it.index() <= j < it.seq().len()
                        && *it.seq()[j].0 == b,
        {
            let (v, set) = kv;
            let ghost idx = it.index();
            assert(kv == it.seq()[idx]);
            let ghost before = key_set(out@);
            let bucket = *v;
            if lo_b <= bucket && bucket <= hi_b {
                let boundary = bucket == lo_b || bucket == hi_b;
                insert_checked(&mut out, set, boundary, lo, hi, &ts_of);
            }
            proof {
                assert(c.contains_key(bucket) && c[bucket] == key_set(set@));
                assert forall|k: u64| #[trigger] key_set(out@).contains(k) implies exists|b: u32|
                    lo_b <= b <= hi_b && #[trigger] c.contains_key(b) && c[b].contains(k) && (b == lo_b || b == hi_b
                        ==> exists|t: u32| call_ensures(ts_of, (k,), t) && lo <= t <= hi) by {
                    if !before.contains(k) {
                        assert(c.contains_key(bucket) && c[bucket].contains(k));
                    }
                }
                assert forall|k: u64, b: u32| lo_b <= b <= hi_b && #[trigger] c.contains_key(b) && #[trigger] c[b].contains(k)
                    && (b == lo_b || b == hi_b ==> forall|t: u32| call_ensures(ts_of, (k,), t) ==> lo <= t <= hi)
                    && !key_set(out@).contains(k) implies exists|j: int| idx + 1 <= j < it.seq().len()
                        && *it.seq()[j].0 == b by {
                    assert(!before.contains(k));
                    let j = choose|j: int| idx <= j < it.seq().len() && *it.seq()[j].0 == b;
                    if j == idx {
                        assert(b == bucket);
                        assert(key_set(set@).contains(k));
                    }
                }
            }
        }
        proof {
            assert forall|k: u64, b: u32| lo_b <= b <= hi_b && #[trigger] c.contains_key(b) && #[trigger] c[b].contains(k)
                && (forall|t: u32| call_ensures(ts_of, (k,), t) ==> lo <= t <= hi) implies key_set(out@).contains(k) by {
                assert(self.ts_bucketed@.contains_key(b));
            }
            assert forall|k: u64, b: u32| lo_b < b < hi_b && #[trigger] c.contains_key(b) && #[trigger] c[b].contains(k)
                implies key_set(out@).contains(k) by {
                assert(self.ts_bucketed@.contains_key(b));
            }
            assert(c == self.ts_bucketed_col());
            assert(forall|k: u64| #[trigger] key_set(out@).contains(k) ==> exists|b: u32|
                    lo_b <= b <= hi_b && #[trigger] c.contains_key(b) && c[b].contains(k) && (b == lo_b || b == hi_b
                        ==> exists|t: u32| call_ensures(ts_of, (k,), t) && lo <= t <= hi));
        }
        out
    }

    /// Characterizes the `tenant` column.
    pub fn tenant_stats(&self) -> (st: ColumnStats)
        requires
            self.wf(),
        ensures
            st.posting_lists == self.tenant_col().dom().len(),
            st.total_postings == postings_total(self.tenant_col()),
            st.mem_bytes == if 8 * postings_total(self.tenant_col()) <= usize::MAX {
                8 * postings_total(self.tenant_col())
            } else {
                usize::MAX as nat
            },
    {
        proof {
            lemma_col_finite(self.tenant@);
        }
        column_stats(&self.tenant)
    }

    /// Characterizes the `status` column.
    pub fn status_stats(&self) -> (st: ColumnStats)
        requires
            self.wf(),
        ensures
            st.posting_lists == self.status_col().dom().len(),
            st.total_postings == postings_total(self.status_col()),
            st.mem_bytes == if 8 * postings_total(self.status_col()) <= usize::MAX {
                8 * postings_total(self.status_col())
            } else {
                usize::MAX as nat
            },
    {
        proof {
            lemma_col_finite(self.status@);
        }
        column_stats(&self.status)
    }

    /// Characterizes the exact-timestamp column.
    pub fn ts_exact_stats(&self) -> (st: ColumnStats)
        requires
            self.wf(),
        ensures
            st.posting_lists == self.ts_exact_col().dom().len(),
            st.total_postings == postings_total(self.ts_exact_col()),
            st.mem_bytes == if 8 * postings_total(self.ts_exact_col()) <= usize::MAX {
                8 * postings_total(self.ts_exact_col())
            } else {
                usize::MAX as nat
            },
    {
        proof {
            lemma_col_finite(self.ts_exact@);
        }
        column_stats(&self.ts_exact)
    }

    /// Characterizes the bucketed-timestamp column.
    pub fn ts_bucketed_stats(&self) -> (st: ColumnStats)
        requires
            self.wf(),
        ensures
            st.posting_lists == self.ts_bucketed_col().dom().len(),
            st.total_postings == postings_total(self.ts_bucketed_col()),
            st.mem_bytes == if 8 * postings_total(self.ts_bucketed_col()) <= usize::MAX {
                8 * postings_total(self.ts_bucketed_col())
            } else {
                usize::MAX as nat
            },
    {
        proof {
            lemma_col_finite(self.ts_bucketed@);
        }
        column_stats(&self.ts_bucketed)
    }
}

// ---------------------------------------------------------------------------
// Scalar metadata sidecar
// ---------------------------------------------------------------------------

/// Bytes charged to record `r`: its payload plus the 8-byte header when live.
pub open spec fn rec_charge(offsets: Seq<u64>, live: Seq<bool>, blobs: Map<u64, Seq<u8>>, r: int) -> nat {
    if live[r] {
        (8 + blobs[offsets[r]].len()) as nat
    } else {
        0
    }
}

/// Bytes charged to the records below `n`.
pub open spec fn live_bytes(offsets: Seq<u64>, live: Seq<bool>, blobs: Map<u64, Seq<u8>>, n: int) -> nat
    decreases n,
{
    if n <= 0 {
        0
    } else {
        live_bytes(offsets, live, blobs, n - 1) + rec_charge(offsets, live, blobs, n - 1)
    }
}

/// Number of live records below `n`.
pub open spec fn live_records(live: Seq<bool>, n: int) -> nat
    decreases n,
{
    if n <= 0 {
        0
    } else {
        live_records(live, n - 1) + if live[n - 1] {
            1nat
        } else {
            0nat
        }
    }
}

/// Charges that agree below `n` sum alike; one that differs at `r` moves
/// the sum by the difference.
proof fn lemma_live_bytes_update(
    o1: Seq<u64>,
    l1: Seq<bool>,
    b1: Map<u64, Seq<u8>>,
    o2: Seq<u64>,
    l2: Seq<bool>,
    b2: Map<u64, Seq<u8>>,
    n: int,
    r: int,
)
    requires
        forall|i: int| 0 <= i < n && i != r ==> rec_charge(o1, l1, b1, i) == rec_charge(o2, l2, b2, i),
    ensures
        0 <= r < n ==> live_bytes(o2, l2, b2, n) + rec_charge(o1, l1, b1, r) == live_bytes(o1, l1, b1, n)
            + rec_charge(o2, l2, b2, r),
        !(0 <= r < n) ==> live_bytes(o2, l2, b2, n) == live_bytes(o1, l1, b1, n),
    decreases n,
{
    if n > 0 {
        lemma_live_bytes_update(o1, l1, b1, o2, l2, b2, n - 1, r);
    }
}

/// Liveness that differs only at `r` moves the live count by the difference.
proof fn lemma_live_records_update(l1: Seq<bool>, l2: Seq<bool>, n: int, r: int)
    requires
        forall|i: int| 0 <= i < n && i != r ==> l1[i] == l2[i],
    ensures
        0 <= r < n ==> live_records(l2, n) + (if l1[r] { 1int } else { 0int }) == live_records(l1, n) + (if l2[r] {
            1int
        } else {
            0int
        }),
        !(0 <= r < n) ==> live_records(l2, n) == live_records(l1, n),
    decreases n,
{
    if n > 0 {
        lemma_live_records_update(l1, l2, n - 1, r);
    }
}

/// A live record's charge is part of the sum.
proof fn lemma_live_bytes_ge(o: Seq<u64>, l: Seq<bool>, b: Map<u64, Seq<u8>>, n: int, r: int)
    requires
        0 <= r < n,
    ensures
        live_bytes(o, l, b, n) >= rec_charge(o, l, b, r),
    decreases n,
{
    if r < n - 1 {
        lemma_live_bytes_ge(o, l, b, n - 1, r);
    }
}

/// The number of live records is at most the number of records.
proof fn lemma_live_records_le(l: Seq<bool>, n: int)
    requires
        0 <= n,
    ensures
        live_records(l, n) <= n,
    decreases n,
{
    if n > 0 {
        lemma_live_records_le(l, n - 1);
    }
}

/// `x` capped at `usize::MAX`.
pub open spec fn sat_usize(x: int) -> int {
    if x <= usize::MAX {
        x
    } else {
        usize::MAX as int
    }
}

/// Saturating product.
fn sat_mul(a: usize, b: usize) -> (r: usize)
    ensures
        r == sat_usize(a * b),
{
    match a.checked_mul(b) {
        Some(x) => x,
        None => usize::MAX,
    }
}

/// The capacity of a vector, which is never below its length.
#[verifier::external_body]
fn vec_capacity<T>(v: &Vec<T>) -> (c: usize)
    ensures
        c >= v@.len(),
{
    v.capacity()
}

/// A blob map with a decoupled scalar metadata sidecar: the index maps each
/// key to a dense [`RecordId`]; `offsets`, `meta` and `live_flag`, indexed
/// by that handle, hold the payload's arena offset, its `K` 32-bit metadata
/// columns, and whether the handle is in use. Dead handles are recycled.
pub struct SidecarBlobMap<const K: usize> {
    index: ExpanseMap,
    arena: BlobArena,
    offsets: Vec<u64>,
    meta: Vec<[u32; K]>,
    live_flag: Vec<bool>,
    free: Vec<RecordId>,
    live_payload_bytes: usize,
    live_count: u64,
}

impl<const K: usize> View for SidecarBlobMap<K> {
    type V = Map<u64, (Seq<u8>, [u32; K])>;

    /// Each key's payload and metadata columns.
    closed spec fn view(&self) -> Map<u64, (Seq<u8>, [u32; K])> {
        Map::new(
            |k: u64| self.index@.contains_key(k),
            |k: u64|
                (
                    self.arena.blobs()[self.offsets@[self.index@[k] as int]],
                    self.meta@[self.index@[k] as int],
                ),
        )
    }
}

impl<const K: usize> SidecarBlobMap<K> {
    /// Live payload plus header bytes.
    pub closed spec fn payload_bytes(&self) -> nat {
        self.live_payload_bytes as nat
    }

    /// Allocated record slots (live plus recycled-dead).
    pub closed spec fn slots(&self) -> nat {
        self.offsets@.len()
    }

    /// Dead record slots waiting to be recycled.
    pub closed spec fn free_slots(&self) -> nat {
        self.free@.len()
    }

    /// The arena's chunk size.
    pub closed spec fn chunk_size_spec(&self) -> nat {
        self.arena.chunk_size_spec()
    }

    /// The backing arena.
    pub closed spec fn arena_spec(&self) -> BlobArena {
        self.arena
    }

    /// Handles index parallel arrays of one length; each key owns a distinct
    /// live handle; free handles are distinct and dead; every live handle's
    /// payload is in the arena; the counters match the arrays.
    pub closed spec fn wf(&self) -> bool {
        let n = self.offsets@.len();
        &&& self.index.wf()
        &&& self.arena.wf()
        &&& self.meta@.len() == n
        &&& self.live_flag@.len() == n
        &&& n <= u32::MAX + 1
        &&& forall|k: u64| #[trigger] self.index@.contains_key(k) ==> self.index@[k] < n && self.live_flag@[self.index@[k] as int]
        &&& forall|k1: u64, k2: u64| #[trigger] self.index@.contains_key(k1) && #[trigger] self.index@.contains_key(k2)
            && self.index@[k1] == self.index@[k2] ==> k1 == k2
        &&& forall|r: int| 0 <= r < n && #[trigger] self.live_flag@[r] ==> self.arena.blobs().contains_key(self.offsets@[r])
        &&& forall|i: int| 0 <= i < self.free@.len() ==> #[trigger] self.free@[i] < n && !self.live_flag@[self.free@[i] as int]
        &&& self.free@.no_duplicates()
        &&& self.live_count == self.index@.dom().len()
        &&& self.live_count == live_records(self.live_flag@, n as int)
        &&& self.free@.len() + self.live_count == n
        &&& self.live_payload_bytes == live_bytes(self.offsets@, self.live_flag@, self.arena.blobs(), n as int)
    }

    /// Creates an empty map with the default arena chunk size.
    pub fn new() -> (m: Self)
        ensures
            m.wf(),
            m@ == Map::<u64, (Seq<u8>, [u32; K])>::empty(),
            m.chunk_size_spec() == DEFAULT_CHUNK_SIZE,
            m.payload_bytes() == 0,
            m.slots() == 0,
    {
        Self::with_chunk_size(DEFAULT_CHUNK_SIZE)
    }

    /// Creates an empty map whose arena uses `chunk_size`-byte chunks (at
    /// least 1).
    pub fn with_chunk_size(chunk_size: usize) -> (m: Self)
        ensures
            m.wf(),
            m@ == Map::<u64, (Seq<u8>, [u32; K])>::empty(),
            m.chunk_size_spec() == if chunk_size == 0 { 1 } else { chunk_size as nat },
            m.payload_bytes() == 0,
            m.slots() == 0,
    {
        let m = SidecarBlobMap {
            index: ExpanseMap::new(),
            arena: BlobArena::new(chunk_size),
            offsets: Vec::new(),
            meta: Vec::new(),
            live_flag: Vec::new(),
            free: Vec::new(),
            live_payload_bytes: 0,
            live_count: 0,
        };
        proof {
            m.index.lemma_key_seq();
            assert(m@ =~= Map::<u64, (Seq<u8>, [u32; K])>::empty());
        }
        m
    }

    proof fn lemma_view_dom(&self)
        requires
            self.wf(),
        ensures
            self@.dom() == self.index@.dom(),
            self@.dom().finite(),
            self@.dom().len() == self.live_count,
    {
        self.index.lemma_key_seq();
        assert(self@.dom() =~= self.index@.dom());
    }

    /// The live keys of a well-formed map form a finite set, one per entry
    /// counted by [`Self::len`].
    pub proof fn lemma_view_finite(&self)
        requires
            self.wf(),
        ensures
            self@.dom().finite(),
            self.free_slots() + self@.dom().len() == self.slots(),
    {
        self.lemma_view_dom();
    }

    /// Number of live entries.
    pub fn len(&self) -> (n: u64)
        requires
            self.wf(),
        ensures
            n == self@.dom().len(),
    {
        proof {
            self.lemma_view_dom();
        }
        self.live_count
    }

    /// True when the map holds no entries.
    pub fn is_empty(&self) -> (r: bool)
        requires
            self.wf(),
        ensures
            r == (self@.dom().len() == 0),
    {
        proof {
            self.lemma_view_dom();
        }
        self.live_count == 0
    }

    /// Returns `true` if `key` is present.
    pub fn contains_key(&self, key: Key) -> (r: bool)
        requires
            self.wf(),
        ensures
            r == self@.contains_key(key),
    {
        self.index.contains_key(key)
    }

    /// Bytes the sidecar arrays occupy per record slot: an 8-byte offset,
    /// `K` 4-byte columns and a 1-byte live flag.
    pub fn sidecar_bytes_per_record() -> (r: usize)
        requires
            9 + 4 * K <= usize::MAX,
        ensures
            r == 8 + 4 * K + 1,
    {
        8 + 4 * K + 1
    }

    /// Live payload plus header bytes currently reachable.
    pub fn live_payload_bytes(&self) -> (r: usize)
        ensures
            r == self.payload_bytes(),
    {
        self.live_payload_bytes
    }

    /// Number of allocated record slots (live plus not-yet-recycled dead).
    pub fn record_slots(&self) -> (r: usize)
        ensures
            r == self.slots(),
    {
        self.offsets.len()
    }

    /// The backing arena.
    pub fn arena(&self) -> (r: &BlobArena)
        ensures
            *r == self.arena_spec(),
    {
        &self.arena
    }

    /// The payload and metadata columns of `key`.
    pub fn get(&self, key: Key) -> (r: Option<(Vec<u8>, &[u32; K])>)
        requires
            self.wf(),
        ensures
            r is Some <==> self@.contains_key(key),
            r matches Some(e) ==> e.0@ == self@[key].0 && *e.1 == self@[key].1,
    {
        match self.index.get(key) {
            Some(raw) => {
                let rid = raw as usize;
                match self.arena.get_blob_slice(self.offsets[rid]) {
                    Some(payload) => Some((payload, &self.meta[rid])),
                    None => None,
                }
            },
            None => None,
        }
    }

    /// The metadata columns of `key`, without touching the payload.
    pub fn meta_of(&self, key: Key) -> (r: Option<&[u32; K]>)
        requires
            self.wf(),
        ensures
            r is Some <==> self@.contains_key(key),
            r matches Some(c) ==> *c == self@[key].1,
    {
        match self.index.get(key) {
            Some(raw) => Some(&self.meta[raw as usize]),
            None => None,
        }
    }

    /// Inserts or overwrites `key` with `data` and its `K` metadata
    /// columns. An overwrite keeps the key's record handle; a new key takes
    /// a recycled handle when one is free, else a new slot. Fails when the
    /// arena cannot store the payload (too large for a chunk, or out of
    /// addressable space) or when no handle is left; the entries are then
    /// unchanged.
    pub fn insert(&mut self, key: Key, data: &[u8], cols: [u32; K]) -> (r: Result<(), ArenaError>)
        requires
            old(self).wf(),
            8 + data@.len() <= usize::MAX,
            old(self)@.contains_key(key) ==> old(self).payload_bytes() - (8 + old(self)@[key].0.len()) + 8
                + data@.len() <= usize::MAX,
            !old(self)@.contains_key(key) ==> old(self).payload_bytes() + 8 + data@.len() <= usize::MAX,
        ensures
            final(self).wf(),
            final(self).chunk_size_spec() == old(self).chunk_size_spec(),
            match r {
                Ok(()) => {
                    &&& final(self)@ == old(self)@.insert(key, (data@, cols))
                    &&& final(self).payload_bytes() == old(self).payload_bytes() - (if old(self)@.contains_key(
                        key,
                    ) {
                        8 + old(self)@[key].0.len()
                    } else {
                        0
                    }) + 8 + data@.len()
                    &&& final(self).slots() == old(self).slots() + if !old(self)@.contains_key(key)
                        && old(self).free_slots() == 0 {
                        1int
                    } else {
                        0int
                    }
                    &&& final(self).free_slots() == old(self).free_slots() - if !old(self)@.contains_key(key)
                        && old(self).free_slots() > 0 {
                        1int
                    } else {
                        0int
                    }
                    &&& final(self)@.dom().len() == old(self)@.dom().len() + if old(self)@.contains_key(key) {
                        0int
                    } else {
                        1int
                    }
                },
                Err(e) => {
                    &&& final(self)@ == old(self)@
                    &&& final(self).payload_bytes() == old(self).payload_bytes()
                    &&& final(self).slots() == old(self).slots()
                    &&& final(self).free_slots() == old(self).free_slots()
                    &&& (e == ArenaError::PayloadTooLarge <==> blob_footprint(data@.len())
                        > old(self).chunk_size_spec())
                },
            },
    {
        let needed = 8 + data.len();
        let ghost n = self.offsets@.len() as int;
        let ghost ob = self.arena.blobs();
        proof {
            self.index.lemma_key_seq();
            old(self).lemma_view_dom();
        }
        match self.index.get(key) {
            Some(raw) => {
                let rid = raw as usize;
                proof {
                    lemma_live_bytes_ge(self.offsets@, self.live_flag@, ob, n, rid as int);
                }
                let old_len = match self.arena.get_blob_slice(self.offsets[rid]) {
                    Some(p) => 8 + p.len(),
                    None => 0,
                };
                let off = match self.arena.alloc_blob(data) {
                    Ok(o) => o,
                    Err(e) => {
                        proof {
                            assert(self@ =~= old(self)@);
                        }
                        return Err(e);
                    },
                };
                self.offsets.set(rid, off);
                self.meta.set(rid, cols);
                proof {
                    let nb = self.arena.blobs();
                    assert forall|r: int| 0 <= r < n && r != rid implies rec_charge(old(self).offsets@, self.live_flag@, ob, r)
                        == rec_charge(self.offsets@, self.live_flag@, nb, r) by {
                        if self.live_flag@[r] {
                            assert(ob.contains_key(old(self).offsets@[r]));
                        }
                    }
                    lemma_live_bytes_update(old(self).offsets@, self.live_flag@, ob, self.offsets@, self.live_flag@, nb, n, rid as int);
                }
                self.live_payload_bytes = self.live_payload_bytes - old_len + needed;
                proof {
                    let nb = self.arena.blobs();
                    assert forall|r: int| 0 <= r < n && #[trigger] self.live_flag@[r] implies nb.contains_key(self.offsets@[r]) by {
                        if r != rid {
                            assert(ob.contains_key(old(self).offsets@[r]));
                        }
                    }
                    assert forall|k: u64| #[trigger] self@.contains_key(k) implies self@[k] == old(self)@.insert(key, (data@, cols))[k] by {
                        if k != key {
                            assert(self.index@[k] != self.index@[key]);
                            assert(ob.contains_key(old(self).offsets@[self.index@[k] as int]));
                        }
                    }
                    assert(self@ =~= old(self)@.insert(key, (data@, cols)));
                    self.lemma_view_dom();
                }
                Ok(())
            },
            None => {
                let off = match self.arena.alloc_blob(data) {
                    Ok(o) => o,
                    Err(e) => {
                        proof {
                            assert(self@ =~= old(self)@);
                        }
                        return Err(e);
                    },
                };
                proof {
                    let nb = self.arena.blobs();
                    assert forall|r: int| 0 <= r < n && #[trigger] self.live_flag@[r] implies nb.contains_key(self.offsets@[r])
                        && nb[self.offsets@[r]] == ob[self.offsets@[r]] by {}
                    assert forall|r: int| 0 <= r < n implies rec_charge(self.offsets@, self.live_flag@, ob, r)
                        == rec_charge(self.offsets@, self.live_flag@, nb, r) by {}
                    lemma_live_bytes_update(self.offsets@, self.live_flag@, ob, self.offsets@, self.live_flag@, nb, n, -1);
                    assert(self@ =~= old(self)@);
                }
                let ghost mid = *self;
                let ghost nb = self.arena.blobs();
                let rid: RecordId = match self.free.pop() {
                    Some(rid) => {
                        let r = rid as usize;
                        proof {
                            assert(mid.free@[mid.free@.len() - 1] == rid);
                            assert(!mid.live_flag@[r as int]);
                        }
                        self.offsets.set(r, off);
                        self.meta.set(r, cols);
                        self.live_flag.set(r, true);
                        proof {
                            assert forall|i: int| 0 <= i < n && i != r implies rec_charge(mid.offsets@, mid.live_flag@, nb, i)
                                == rec_charge(self.offsets@, self.live_flag@, nb, i) by {}
                            lemma_live_bytes_update(mid.offsets@, mid.live_flag@, nb, self.offsets@, self.live_flag@, nb, n, r as int);
                            lemma_live_records_update(mid.live_flag@, self.live_flag@, n, r as int);
                            assert forall|i: int| 0 <= i < self.free@.len() implies #[trigger] self.free@[i] < n
                                && !self.live_flag@[self.free@[i] as int] by {
                                assert(self.free@[i] == mid.free@[i]);
                                assert(mid.free@[i] != mid.free@[mid.free@.len() - 1]);
                            }
                        }
                        rid
                    },
                    None => {
                        if self.offsets.len() > 0xFFFF_FFFF {
                            proof {
                                self.arena.lemma_blob_fits(off);
                                assert(self@ =~= old(self)@);
                            }
                            return Err(ArenaError::CapacityExceeded);
                        }
                        let rid = self.offsets.len() as RecordId;
                        self.offsets.push(off);
                        self.meta.push(cols);
                        self.live_flag.push(true);
                        proof {
                            assert forall|i: int| 0 <= i < n implies rec_charge(mid.offsets@, mid.live_flag@, nb, i)
                                == rec_charge(self.offsets@, self.live_flag@, nb, i) by {}
                            lemma_live_bytes_update(mid.offsets@, mid.live_flag@, nb, self.offsets@, self.live_flag@, nb, n, -1);
                            lemma_live_records_update(mid.live_flag@, self.live_flag@, n, -1);
                        }
                        rid
                    },
                };
                self.index.insert(key, rid as u64);
                self.live_payload_bytes = self.live_payload_bytes + needed;
                self.live_count = self.live_count + 1;
                proof {
                    self.index.lemma_key_seq();
                    let n2 = self.offsets@.len() as int;
                    assert(self.live_flag@[rid as int]);
                    assert forall|k: u64| #[trigger] self.index@.contains_key(k) implies self.index@[k] < n2
                        && self.live_flag@[self.index@[k] as int] by {
                        if k != key {
                            assert(mid.index@.contains_key(k));
                            assert(mid.live_flag@[mid.index@[k] as int]);
                            assert(mid.index@[k] != rid);
                        }
                    }
                    assert forall|k1: u64, k2: u64| #[trigger] self.index@.contains_key(k1) && #[trigger] self.index@.contains_key(k2)
                        && self.index@[k1] == self.index@[k2] implies k1 == k2 by {
                        if k1 != key {
                            assert(mid.live_flag@[mid.index@[k1] as int]);
                        }
                        if k2 != key {
                            assert(mid.live_flag@[mid.index@[k2] as int]);
                        }
                    }
                    assert forall|r: int| 0 <= r < n2 && #[trigger] self.live_flag@[r] implies self.arena.blobs().contains_key(self.offsets@[r]) by {
                        if r != rid {
                            assert(mid.live_flag@[r]);
                        }
                    }
                    assert forall|k: u64| #[trigger] self@.contains_key(k) implies self@[k] == old(self)@.insert(key, (data@, cols))[k] by {
                        if k != key {
                            assert(mid.live_flag@[mid.index@[k] as int]);
                            assert(mid.index@[k] != rid);
                        }
                    }
                    assert(self@ =~= old(self)@.insert(key, (data@, cols)));
                    assert(self.index@.dom() =~= mid.index@.dom().insert(key));
                    self.lemma_view_dom();
                }
                Ok(())
            },
        }
    }

    /// Removes `key`, returning `true` if it was present. Its payload is
    /// reclaimed at the next [`compact`](Self::compact); its handle is
    /// recycled.
    pub fn remove(&mut self, key: Key) -> (r: bool)
        requires
            old(self).wf(),
        ensures
            final(self).wf(),
            r == old(self)@.contains_key(key),
            final(self)@ == old(self)@.remove(key),
            final(self).payload_bytes() == old(self).payload_bytes() - if r {
                8 + old(self)@[key].0.len()
            } else {
                0
            },
            final(self).slots() == old(self).slots(),
            final(self).free_slots() == old(self).free_slots() + if r {
                1int
            } else {
                0int
            },
            final(self)@.dom().len() == old(self)@.dom().len() - if r {
                1int
            } else {
                0int
            },
            final(self).chunk_size_spec() == old(self).chunk_size_spec(),
    {
        let ghost n = self.offsets@.len() as int;
        let ghost ob = self.arena.blobs();
        proof {
            self.index.lemma_key_seq();
            old(self).lemma_view_dom();
        }
        match self.index.remove(key) {
            Some(raw) => {
                let rid = raw as usize;
                if self.live_flag[rid] {
                    proof {
                        lemma_live_bytes_ge(self.offsets@, self.live_flag@, ob, n, rid as int);
                    }
                    let dead = match self.arena.get_blob_slice(self.offsets[rid]) {
                        Some(p) => 8 + p.len(),
                        None => 0,
                    };
                    self.live_payload_bytes = self.live_payload_bytes.saturating_sub(dead);
                    let ghost before = self.live_flag@;
                    self.live_flag.set(rid, false);
                    proof {
                        assert forall|i: int| 0 <= i < n && i != rid implies rec_charge(self.offsets@, before, ob, i)
                            == rec_charge(self.offsets@, self.live_flag@, ob, i) by {}
                        lemma_live_bytes_update(self.offsets@, before, ob, self.offsets@, self.live_flag@, ob, n, rid as int);
                        lemma_live_records_update(before, self.live_flag@, n, rid as int);
                        assert(!self.free@.contains(rid as u32)) by {
                            if self.free@.contains(rid as u32) {
                                let i = choose|i: int| 0 <= i < self.free@.len() && self.free@[i] == rid as u32;
                                assert(!before[self.free@[i] as int]);
                            }
                        }
                    }
                    self.free.push(rid as RecordId);
                    self.live_count = self.live_count - 1;
                }
                proof {
                    self.index.lemma_key_seq();
                    assert(self.index@.dom() =~= old(self).index@.dom().remove(key));
                    assert forall|k: u64| #[trigger] self.index@.contains_key(k) implies self.index@[k] < n
                        && self.live_flag@[self.index@[k] as int] by {
                        assert(old(self).index@[k] != old(self).index@[key]);
                    }
                    assert forall|r: int| 0 <= r < n && #[trigger] self.live_flag@[r] implies self.arena.blobs().contains_key(self.offsets@[r]) by {
                        assert(old(self).live_flag@[r]);
                    }
                    assert(self@ =~= old(self)@.remove(key));
                    self.lemma_view_dom();
                }
                true
            },
            None => {
                proof {
                    assert(self@ =~= old(self)@.remove(key));
                }
                false
            },
        }
    }

    /// Key-ordered range scan with the predicate evaluated on the metadata
    /// columns before any payload is read: for every key in `range`, in
    /// ascending order, `predicate` sees the key and its columns; on a match
    /// the payload is read and handed to `callback` with them. The scan
    /// stops after the first `callback` that returns `false`.
    pub fn scan_filtered<P: FnMut(Key, &[u32; K]) -> bool, F: FnMut(Key, &[u8], &[u32; K]) -> bool>(
        &self,
        range: RangeInclusive<Key>,
        mut predicate: P,
        mut callback: F,
    )
        requires
            self.wf(),
            forall|p: P, k: u64, c: [u32; K]| call_requires(p, (k, &c)),
            forall|f: F, k: u64, d: &[u8], c: [u32; K]| call_requires(f, (k, d, &c)),
    {
        let lo = *range.start();
        let hi = *range.end();
        let entries = self.index.range_entries(lo, hi);
        let mut i: usize = 0;
        while i < entries.len()
            invariant
                self.wf(),
                forall|p: P, k: u64, c: [u32; K]| call_requires(p, (k, &c)),
                forall|f: F, k: u64, d: &[u8], c: [u32; K]| call_requires(f, (k, d, &c)),
                0 <= i <= entries@.len(),
                forall|t: int| 0 <= t < entries@.len() ==> lo <= #[trigger] entries@[t].0 <= hi && self.index@.contains_key(entries@[t].0)
                    && self.index@[entries@[t].0] == entries@[t].1,
            decreases entries@.len() - i,
        {
            let (k, raw) = entries[i];
            let rid = raw as usize;
            let cols = &self.meta[rid];
            if predicate(k, cols) {
                match self.arena.get_blob_slice(self.offsets[rid]) {
                    Some(p) => {
                        if !callback(k, p.as_slice(), cols) {
                            break;
                        }
                    },
                    None => {},
                }
            }
            i = i + 1;
        }
    }

    /// The entries a scan with `predicate` hands on: those with keys in
    /// `range` for which `predicate(key, cols)` holds, in ascending key
    /// order, each with its payload and columns.
    pub fn scan_matches<P: Fn(Key, &[u32; K]) -> bool>(
        &self,
        range: RangeInclusive<Key>,
        predicate: P,
    ) -> (r: Vec<(Key, Vec<u8>, [u32; K])>)
        requires
            self.wf(),
            forall|k: u64, c: [u32; K]| call_requires(predicate, (k, &c)),
        ensures
            forall|i: int, j: int| 0 <= i < j < r@.len() ==> r@[i].0 < r@[j].0,
            forall|i: int| 0 <= i < r@.len() ==> {
                let e = #[trigger] r@[i];
                &&& range@.start <= e.0 <= range@.end
                &&& self@.contains_key(e.0)
                &&& e.1@ == self@[e.0].0
                &&& e.2 == self@[e.0].1
                &&& call_ensures(predicate, (e.0, &e.2), true)
            },
            forall|k: u64| range@.start <= k <= range@.end && #[trigger] self@.contains_key(k) && !(exists|i: int|
                0 <= i < r@.len() && r@[i].0 == k) ==> call_ensures(predicate, (k, &self@[k].1), false),
    {
        let lo = *range.start();
        let hi = *range.end();
        let entries = self.index.range_entries(lo, hi);
        let mut out: Vec<(Key, Vec<u8>, [u32; K])> = Vec::new();
        let mut i: usize = 0;
        while i < entries.len()
            invariant
                self.wf(),
                forall|k: u64, c: [u32; K]| call_requires(predicate, (k, &c)),
                0 <= i <= entries@.len(),
                strictly_sorted(entries@.map_values(|e: (u64, u64)| e.0)),
                forall|t: int| 0 <= t < entries@.len() ==> lo <= #[trigger] entries@[t].0 <= hi && self.index@.contains_key(entries@[t].0)
                    && self.index@[entries@[t].0] == entries@[t].1,
                forall|a: int, b: int| 0 <= a < b < out@.len() ==> out@[a].0 < out@[b].0,
                forall|t: int| 0 <= t < out@.len() ==> exists|j: int| 0 <= j < i && entries@[j].0 == #[trigger] out@[t].0,
                forall|t: int| 0 <= t < out@.len() ==> {
                    let e = #[trigger] out@[t];
                    &&& lo <= e.0 <= hi
                    &&& self@.contains_key(e.0)
                    &&& e.1@ == self@[e.0].0
                    &&& e.2 == self@[e.0].1
                    &&& call_ensures(predicate, (e.0, &e.2), true)
                },
                forall|j: int| 0 <= j < i ==> (exists|t: int| 0 <= t < out@.len() && out@[t].0 == #[trigger] entries@[j].0)
                    || call_ensures(predicate, (entries@[j].0, &self@[entries@[j].0].1), false),
            decreases entries@.len() - i,
        {
            let (k, raw) = entries[i];
            let rid = raw as usize;
            let cols = &self.meta[rid];
            let ghost before = out@;
            proof {
                assert(self@.contains_key(k));
                assert(self@[k].1 == *cols);
            }
            if predicate(k, cols) {
                match self.arena.get_blob_slice(self.offsets[rid]) {
                    Some(p) => {
                        proof {
                            assert forall|t: int| 0 <= t < before.len() implies before[t].0 < k by {
                                let j = choose|j: int| 0 <= j < i && entries@[j].0 == before[t].0;
                                assert(entries@.map_values(|e: (u64, u64)| e.0)[j] == entries@[j].0);
                                assert(entries@.map_values(|e: (u64, u64)| e.0)[i as int] == entries@[i as int].0);
                            }
                        }
                        out.push((k, p, *cols));
                    },
                    None => {},
                }
            }
            proof {
                assert forall|t: int| 0 <= t < out@.len() implies exists|j: int| 0 <= j < i + 1 && entries@[j].0 == #[trigger] out@[t].0 by {
                    if t < before.len() {
                        assert(out@[t] == before[t]);
                    } else {
                        assert(entries@[i as int].0 == out@[t].0);
                    }
                }
                assert forall|j: int| 0 <= j < i + 1 implies (exists|t: int| 0 <= t < out@.len() && out@[t].0 == #[trigger] entries@[j].0)
                    || call_ensures(predicate, (entries@[j].0, &self@[entries@[j].0].1), false) by {
                    if j < i {
                        if exists|t: int| 0 <= t < before.len() && before[t].0 == entries@[j].0 {
                            let t = choose|t: int| 0 <= t < before.len() && before[t].0 == entries@[j].0;
                            assert(out@[t] == before[t]);
                        }
                    } else if out@.len() > before.len() {
                        assert(out@[before.len() as int].0 == entries@[j].0);
                    }
                }
            }
            i = i + 1;
        }
        proof {
            assert forall|k: u64| range@.start <= k <= range@.end && #[trigger] self@.contains_key(k) && !(exists|i: int|
                0 <= i < out@.len() && out@[i].0 == k) implies call_ensures(predicate, (k, &self@[k].1), false) by {
                assert(self.index@.contains_key(k));
                let t = choose|t: int| 0 <= t < entries@.len() && #[trigger] entries@[t].0 == k;
                assert(entries@[t].0 == k);
            }
        }
        out
    }

    /// Relocates every live payload into a fresh arena, rewriting only the
    /// offsets; the index and the handles are untouched. All-or-nothing: on
    /// failure the map is unchanged. Returns the number of records moved.
    pub fn compact(&mut self) -> (r: Result<usize, ArenaError>)
        requires
            old(self).wf(),
        ensures
            final(self).wf(),
            final(self)@ == old(self)@,
            final(self).payload_bytes() == old(self).payload_bytes(),
            final(self).slots() == old(self).slots(),
            final(self).chunk_size_spec() == old(self).chunk_size_spec(),
            match r {
                Ok(moved) => moved == old(self)@.dom().len(),
                Err(e) => e == ArenaError::CapacityExceeded && *final(self) == *old(self),
            },
    {
        let n = self.offsets.len();
        let ghost ob = self.arena.blobs();
        proof {
            self.arena.lemma_blob_fits(0);
        }
        let mut new_arena = BlobArena::new(self.arena.chunk_size());
        let mut new_offsets: Vec<u64> = Vec::new();
        let mut moved: usize = 0;
        let mut rid: usize = 0;
        while rid < n
            invariant
                self.wf(),
                *self == *old(self),
                n == self.offsets@.len(),
                ob == self.arena.blobs(),
                0 <= rid <= n,
                new_arena.wf(),
                new_arena.chunk_size_spec() == self.arena.chunk_size_spec(),
                new_offsets@.len() == rid,
                forall|r: int| 0 <= r < rid && #[trigger] self.live_flag@[r] ==> new_arena.blobs().contains_key(new_offsets@[r])
                    && new_arena.blobs()[new_offsets@[r]] == ob[self.offsets@[r]],
                moved == live_records(self.live_flag@, rid as int),
            decreases n - rid,
        {
            proof {
                lemma_live_records_le(self.live_flag@, rid as int);
            }
            if self.live_flag[rid] {
                let payload = match self.arena.get_blob_slice(self.offsets[rid]) {
                    Some(p) => p,
                    None => Vec::new(),
                };
                let ghost nb0 = new_arena.blobs();
                proof {
                    self.arena.lemma_blob_fits(self.offsets@[rid as int]);
                }
                let off = match new_arena.alloc_blob(payload.as_slice()) {
                    Ok(o) => o,
                    Err(e) => {
                        return Err(e);
                    },
                };
                new_offsets.push(off);
                moved = moved + 1;
                proof {
                    assert forall|r: int| 0 <= r < rid + 1 && #[trigger] self.live_flag@[r] implies new_arena.blobs().contains_key(new_offsets@[r])
                        && new_arena.blobs()[new_offsets@[r]] == ob[self.offsets@[r]] by {
                        if r < rid {
                            assert(nb0.contains_key(new_offsets@[r]));
                        }
                    }
                }
            } else {
                new_offsets.push(self.offsets[rid]);
            }
            rid = rid + 1;
        }
        let ghost o_offsets = self.offsets@;
        self.arena = new_arena;
        self.offsets = new_offsets;
        proof {
            let nb = self.arena.blobs();
            assert forall|r: int| 0 <= r < n implies rec_charge(o_offsets, self.live_flag@, ob, r)
                == rec_charge(self.offsets@, self.live_flag@, nb, r) by {}
            lemma_live_bytes_update(o_offsets, self.live_flag@, ob, self.offsets@, self.live_flag@, nb, n as int, -1);
            assert forall|k: u64| #[trigger] self@.contains_key(k) implies self@[k] == old(self)@[k] by {
                assert(self.live_flag@[self.index@[k] as int]);
            }
            assert(self@ =~= old(self)@);
            old(self).lemma_view_dom();
        }
        Ok(moved)
    }

    /// Total heap bytes: index, arena and the sidecar arrays (saturating).
    /// The arrays are charged by their allocated capacity.
    pub fn mem_used(&self) -> (b: usize)
        requires
            self.wf(),
        ensures
            b >= sat_usize(8 * self.slots() as int),
            b >= sat_usize(self.slots() as int),
            b >= sat_usize(4 * self.free_slots() as int),
            b >= sat_usize((self.arena_spec().chunk_count() * self.chunk_size_spec()) as int),
    {
        let per_meta = sat_mul(K, 4);
        let a = self.index.mem_used().saturating_add(self.arena.mem_used());
        let b = sat_mul(vec_capacity(&self.offsets), 8);
        let c = sat_mul(vec_capacity(&self.meta), per_meta);
        let d = vec_capacity(&self.live_flag);
        let e = sat_mul(vec_capacity(&self.free), 4);
        a.saturating_add(b).saturating_add(c).saturating_add(d).saturating_add(e)
    }
}

impl<const K: usize> Default for SidecarBlobMap<K> {
    fn default() -> (m: Self)
        ensures
            m.wf(),
            m@ == Map::<u64, (Seq<u8>, [u32; K])>::empty(),
    {
        Self::new()
    }
}

} // verus!
