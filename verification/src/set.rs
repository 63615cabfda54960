//! `ExpanseSet`, the public ordered set of `u64` keys.
//!
//! Populations up to [`ROOT_LEAF_CAP`] live in a **root leaf**; past that
//! the set is a **tree** partitioned by key expanse. The set condenses back
//! into a root leaf when its population falls one below the promotion
//! boundary (1-index hysteresis: promote at `CAP + 1`, condense at
//! `CAP - 1`, `CAP` is stable in both forms).
//!
//! Keys are held in one strictly ascending array in both forms; the tree
//! form's level-1 leaves (the keys sharing all but their last byte) are
//! read off that array by [`ExpanseSet::stats`].

use vstd::prelude::*;
use crate::sorted::{
    strictly_sorted, count_lt, count_in, count_eq, is_partition, lower_bound, merge_sorted,
    sorted_intersection_count, Op, combine, lemma_count_lt_partition, lemma_count_in_split,
    lemma_count_eq_sorted, lemma_sorted_set_len, lemma_sorted_unique,
};
use crate::types::{Key, IMMED_PAYLOAD_BYTES, LEAF1_CAP};
use core::ops::RangeInclusive;

verus! {

/// Maximum population held in the root leaf before a tree is built.
pub const ROOT_LEAF_CAP: usize = 31;

/// Lower bound of an inclusive range.
pub assume_specification<Idx>[ RangeInclusive::<Idx>::start ](r: &RangeInclusive<Idx>) -> (s: &Idx)
    ensures
        *s == r@.start,
;

/// Upper bound of an inclusive range.
pub assume_specification<Idx>[ RangeInclusive::<Idx>::end ](r: &RangeInclusive<Idx>) -> (e: &Idx)
    ensures
        *e == r@.end,
;

/// The set of keys of a key sequence.
pub open spec fn key_set(s: Seq<u64>) -> Set<u64> {
    s.to_set()
}

/// A sparse, dynamic, ordered set of `u64` keys.
///
/// Its model (`view`) is the strictly ascending sequence of its keys.
pub struct ExpanseSet {
    keys: Vec<u64>,
    tree: bool,
    allocs: usize,
}

impl View for ExpanseSet {
    type V = Seq<u64>;

    closed spec fn view(&self) -> Seq<u64> {
        self.keys@
    }
}

impl ExpanseSet {
    /// Well-formedness: keys strictly ascending; the root leaf holds at most
    /// `ROOT_LEAF_CAP` keys and the tree at least that many.
    pub closed spec fn wf(&self) -> bool {
        &&& strictly_sorted(self.keys@)
        &&& self.tree ==> self.keys@.len() >= ROOT_LEAF_CAP
        &&& !self.tree ==> self.keys@.len() <= ROOT_LEAF_CAP
    }

    /// The set is in tree form (as opposed to empty or a root leaf).
    pub closed spec fn is_tree(&self) -> bool {
        self.tree
    }

    /// Allocations made since creation.
    pub closed spec fn allocs_spec(&self) -> nat {
        self.allocs as nat
    }

    /// The model of a well-formed set is strictly ascending.
    pub proof fn lemma_wf(&self)
        requires
            self.wf(),
        ensures
            strictly_sorted(self@),
            self@.len() == key_set(self@).len(),
            key_set(self@).finite(),
            self.is_tree() ==> self@.len() >= ROOT_LEAF_CAP,
            !self.is_tree() ==> self@.len() <= ROOT_LEAF_CAP,
    {
        lemma_sorted_set_len(self.keys@);
    }

    /// Creates an empty set.
    pub fn new() -> (s: ExpanseSet)
        ensures
            s.wf(),
            s@ == Seq::<u64>::empty(),
            !s.is_tree(),
            s.allocs_spec() == 0,
    {
        ExpanseSet { keys: Vec::new(), tree: false, allocs: 0 }
    }

    /// Number of keys in the set.
    pub fn len(&self) -> (n: u64)
        requires
            self.wf(),
        ensures
            n == self@.len(),
    {
        self.keys.len() as u64
    }

    /// True when no keys are present.
    pub fn is_empty(&self) -> (r: bool)
        requires
            self.wf(),
        ensures
            r == (self@.len() == 0),
    {
        self.keys.len() == 0
    }

    /// Heap bytes held by the set's keys (8 per key, saturating).
    pub fn mem_used(&self) -> (b: usize)
        requires
            self.wf(),
        ensures
            b == if 8 * self@.len() <= usize::MAX {
                8 * self@.len()
            } else {
                usize::MAX as nat
            },
    {
        let n = self.keys.len();
        if n <= usize::MAX / 8 {
            n * 8
        } else {
            usize::MAX
        }
    }

    /// Cumulative key-storage allocations made since the set was created.
    pub fn total_node_allocs(&self) -> (n: usize)
        ensures
            n == self.allocs_spec(),
    {
        self.allocs
    }

    /// Membership test.
    pub fn contains(&self, key: Key) -> (r: bool)
        requires
            self.wf(),
        ensures
            r == self@.contains(key),
    {
        let i = lower_bound(&self.keys, key);
        let r = i < self.keys.len() && self.keys[i] == key;
        proof {
            if !r && self.keys@.contains(key) {
                let k = choose|k: int| 0 <= k < self.keys@.len() && self.keys@[k] == key;
                if k < i {
                    assert(self.keys@[k] < key);
                } else if k > i {
                    assert(self.keys@[i as int] < self.keys@[k]);
                }
            }
        }
        r
    }

    /// Batched membership: writes each key's presence into `out` and returns
    /// the number of keys found.
    pub fn contains_batch(&self, keys: &[Key], out: &mut [bool]) -> (found: usize)
        requires
            self.wf(),
            keys@.len() == old(out)@.len(),
        ensures
            final(out)@.len() == keys@.len(),
            forall|i: int| 0 <= i < keys@.len() ==> final(out)@[i] == self@.contains(keys@[i]),
            found == final(out)@.filter(|b: bool| b).len(),
    {
        let mut found: usize = 0;
        let mut i: usize = 0;
        while i < keys.len()
            invariant
                self.wf(),
                0 <= i <= keys@.len(),
                out@.len() == keys@.len(),
                forall|j: int| 0 <= j < i ==> out@[j] == self@.contains(keys@[j]),
                found == out@.take(i as int).filter(|b: bool| b).len(),
                found <= i,
            decreases keys@.len() - i,
        {
            let hit = self.contains(keys[i]);
            let ghost before = out@;
            out[i] = hit;
            proof {
                assert(out@.take(i as int) =~= before.take(i as int));
                assert(out@.take(i as int + 1) =~= out@.take(i as int).push(hit));
                out@.take(i as int).lemma_filter_len_push(|b: bool| b, hit);
            }
            if hit {
                found = found + 1;
            }
            i = i + 1;
        }
        proof {
            assert(out@.take(keys@.len() as int) =~= out@);
        }
        found
    }

    /// Membership test returning 1 or 0.
    pub fn contains_c_int(&self, key: Key) -> (r: i32)
        requires
            self.wf(),
        ensures
            r == if self@.contains(key) {
                1i32
            } else {
                0i32
            },
    {
        if self.contains(key) {
            1
        } else {
            0
        }
    }

    /// Inserts `key`; returns 1 if newly inserted, 0 if already present.
    pub fn insert_c_int(&mut self, key: Key) -> (r: i32)
        requires
            old(self).wf(),
        ensures
            final(self).wf(),
            key_set(final(self)@) == key_set(old(self)@).insert(key),
            r == if old(self)@.contains(key) {
                0i32
            } else {
                1i32
            },
    {
        if self.insert(key) {
            1
        } else {
            0
        }
    }

    /// Inserts `key`; returns `true` if it was newly inserted.
    pub fn insert(&mut self, key: Key) -> (inserted: bool)
        requires
            old(self).wf(),
        ensures
            final(self).wf(),
            inserted == !old(self)@.contains(key),
            key_set(final(self)@) == key_set(old(self)@).insert(key),
            final(self)@.len() == old(self)@.len() + if inserted {
                1int
            } else {
                0int
            },
            final(self).is_tree() == (old(self).is_tree() || old(self)@.len() + if inserted {
                1int
            } else {
                0int
            } > ROOT_LEAF_CAP),
    {
        let i = lower_bound(&self.keys, key);
        if i < self.keys.len() && self.keys[i] == key {
            proof {
                assert(self.keys@.contains(key));
                assert(key_set(self@).insert(key) =~= key_set(self@));
            }
            return false;
        }
        let ghost old_keys = self.keys@;
        proof {
            assert(!old_keys.contains(key)) by {
                if old_keys.contains(key) {
                    let k = choose|k: int| 0 <= k < old_keys.len() && old_keys[k] == key;
                    if k < i {
                        assert(old_keys[k] < key);
                    } else if k > i {
                        assert(old_keys[i as int] < old_keys[k]);
                    }
                }
            }
        }
        self.keys.insert(i, key);
        let n = self.keys.len();
        if n & (n - 1) == 0 && self.allocs < usize::MAX {
            self.allocs = self.allocs + 1;
        }
        if !self.tree && n > ROOT_LEAF_CAP {
            self.tree = true;
        }
        proof {
            let s = self.keys@;
            assert(s == old_keys.insert(i as int, key));
            assert forall|p: int, q: int| 0 <= p < q < s.len() implies s[p] < s[q] by {
                if q < i {
                } else if q == i {
                    assert(s[p] == old_keys[p]);
                } else if p < i {
                    assert(s[q] == old_keys[q - 1]);
                    if q - 1 > i {
                        assert(old_keys[i as int] < old_keys[q - 1]);
                    }
                } else if p == i {
                    assert(s[q] == old_keys[q - 1]);
                } else {
                    assert(s[p] == old_keys[p - 1]);
                    assert(s[q] == old_keys[q - 1]);
                }
            }
            assert(key_set(s) =~= key_set(old_keys).insert(key)) by {
                assert forall|x: u64| key_set(old_keys).insert(key).contains(x) implies s.contains(x) by {
                    if x == key {
                        assert(s[i as int] == key);
                    } else {
                        let k = choose|k: int| 0 <= k < old_keys.len() && old_keys[k] == x;
                        if k < i {
                            assert(s[k] == x);
                        } else {
                            assert(s[k + 1] == x);
                        }
                    }
                }
                assert forall|x: u64| s.contains(x) implies key_set(old_keys).insert(key).contains(x) by {
                    let k = choose|k: int| 0 <= k < s.len() && s[k] == x;
                    if k < i {
                        assert(old_keys[k] == x);
                    } else if k > i {
                        assert(old_keys[k - 1] == x);
                    }
                }
            }
        }
        true
    }

    /// Removes `key`; returns `true` if it was present.
    pub fn remove(&mut self, key: Key) -> (removed: bool)
        requires
            old(self).wf(),
        ensures
            final(self).wf(),
            removed == old(self)@.contains(key),
            key_set(final(self)@) == key_set(old(self)@).remove(key),
            final(self)@.len() == old(self)@.len() - if removed {
                1int
            } else {
                0int
            },
            final(self).is_tree() == (old(self).is_tree() && final(self)@.len() >= ROOT_LEAF_CAP),
    {
        let i = lower_bound(&self.keys, key);
        if !(i < self.keys.len() && self.keys[i] == key) {
            proof {
                assert(!self.keys@.contains(key)) by {
                    if self.keys@.contains(key) {
                        let k = choose|k: int| 0 <= k < self.keys@.len() && self.keys@[k] == key;
                        if k < i {
                            assert(self.keys@[k] < key);
                        } else if k > i {
                            assert(self.keys@[i as int] < self.keys@[k]);
                        }
                    }
                }
                assert(key_set(self@).remove(key) =~= key_set(self@));
            }
            return false;
        }
        let ghost old_keys = self.keys@;
        self.keys.remove(i);
        if self.tree && self.keys.len() < ROOT_LEAF_CAP {
            // Hysteresis: condense to a root leaf one below the boundary.
            self.tree = false;
        }
        proof {
            let s = self.keys@;
            assert(s == old_keys.remove(i as int));
            assert forall|p: int, q: int| 0 <= p < q < s.len() implies s[p] < s[q] by {
                if q < i {
                } else if p < i {
                    assert(s[q] == old_keys[q + 1]);
                } else {
                    assert(s[p] == old_keys[p + 1]);
                    assert(s[q] == old_keys[q + 1]);
                }
            }
            assert(key_set(s) =~= key_set(old_keys).remove(key)) by {
                assert forall|x: u64| key_set(old_keys).remove(key).contains(x) implies s.contains(x) by {
                    let k = choose|k: int| 0 <= k < old_keys.len() && old_keys[k] == x;
                    if k < i {
                        assert(s[k] == x);
                    } else {
                        assert(k != i);
                        assert(s[k - 1] == x);
                    }
                }
                assert forall|x: u64| s.contains(x) implies key_set(old_keys).remove(key).contains(x) by {
                    let k = choose|k: int| 0 <= k < s.len() && s[k] == x;
                    if k < i {
                        assert(old_keys[k] == x);
                        assert(old_keys[k] < old_keys[i as int]);
                    } else {
                        assert(old_keys[k + 1] == x);
                        assert(old_keys[i as int] < old_keys[k + 1]);
                    }
                }
            }
        }
        true
    }

    /// Removes every key.
    pub fn clear(&mut self)
        ensures
            final(self).wf(),
            final(self)@ == Seq::<u64>::empty(),
            !final(self).is_tree(),
            final(self).allocs_spec() == old(self).allocs_spec(),
    {
        self.keys.clear();
        self.tree = false;
    }

    /// Checks the structural invariants (population range of the root form,
    /// ascending keys) without panicking; `Err` names the first violation.
    pub fn validate_defensive(&self) -> (r: Result<(), String>)
        ensures
            r is Ok <==> self.wf(),
    {
        let n = self.keys.len();
        if !self.tree && n > ROOT_LEAF_CAP {
            return Err("root leaf population out of range".to_owned());
        }
        if self.tree && n < ROOT_LEAF_CAP {
            return Err("tree population below the root-leaf boundary".to_owned());
        }
        let mut i: usize = 1;
        while i < n
            invariant
                n == self.keys@.len(),
                1 <= i,
                forall|a: int, b: int| 0 <= a < b < i && b < n ==> self.keys@[a] < self.keys@[b],
            decreases n - i,
        {
            if self.keys[i - 1] >= self.keys[i] {
                return Err("keys unsorted".to_owned());
            }
            proof {
                assert forall|a: int, b: int| 0 <= a < b < i + 1 && b < n implies self.keys@[a] < self.keys@[b] by {
                    if b == i as int && a < i - 1 {
                        assert(self.keys@[a] < self.keys@[i - 1]);
                    }
                }
            }
            i = i + 1;
        }
        proof {
            assert(strictly_sorted(self.keys@));
        }
        Ok(())
    }

    /// Walks the whole structure; a violated invariant would abort. For a
    /// well-formed set there is none.
    pub fn validate(&self)
        requires
            self.wf(),
    {
        let r = self.validate_defensive();
        assert(r is Ok);
    }

    /// Gathers structural statistics: for a root leaf, one linear leaf of
    /// the whole population; for a tree, the leaf form of every level-1
    /// expanse (the keys sharing all but their last byte), chosen by its
    /// population, and the population histogram of the linear leaves.
    pub fn stats(&self) -> (st: ExpanseStats)
        requires
            self.wf(),
        ensures
            st.population == self@.len(),
            st.leaf_pop_histogram@.len() == 257,
            !self.is_tree() && self@.len() > 0 ==> st.node_counts == (NodeCounts {
                immediate: 0,
                leaf_linear: 1,
                leaf_bitmap: 0,
                full_expanse: 0,
            }) && st.leaf_pop_histogram@ == Seq::new(257, |i: int| if i == self@.len() { 1u64 } else { 0u64 }),
            self@.len() == 0 ==> st.node_counts == (NodeCounts {
                immediate: 0,
                leaf_linear: 0,
                leaf_bitmap: 0,
                full_expanse: 0,
            }) && st.leaf_pop_histogram@ == Seq::new(257, |i: int| 0u64),
            self.is_tree() ==> {
                let s = self@;
                let n = s.len() as int;
                &&& st.node_counts.immediate == expanses_of_form(s, n, 0).len()
                &&& st.node_counts.leaf_linear == expanses_of_form(s, n, 1).len()
                &&& st.node_counts.leaf_bitmap == expanses_of_form(s, n, 2).len()
                &&& st.node_counts.full_expanse == expanses_of_form(s, n, 3).len()
                &&& forall|q: int| 0 <= q < 257 ==> #[trigger] st.leaf_pop_histogram@[q] == if leaf_form(
                    q as nat,
                ) == 1 {
                    expanses_of_pop(s, n, q as nat).len()
                } else {
                    0
                }
            },
    {
        let mut hist: Vec<u64> = Vec::new();
        let mut h: usize = 0;
        while h < 257
            invariant
                0 <= h <= 257,
                hist@ == Seq::new(h as nat, |i: int| 0u64),
            decreases 257 - h,
        {
            hist.push(0);
            h = h + 1;
            proof {
                assert(hist@ =~= Seq::new(h as nat, |i: int| 0u64));
            }
        }
        let mut counts = NodeCounts { immediate: 0, leaf_linear: 0, leaf_bitmap: 0, full_expanse: 0 };
        let n = self.keys.len();
        if n == 0 {
            return ExpanseStats { population: 0, leaf_pop_histogram: hist, node_counts: counts };
        }
        if !self.tree {
            hist.set(n, 1);
            proof {
                assert(hist@ =~= Seq::new(257, |i: int| if i == self@.len() { 1u64 } else { 0u64 }));
            }
            counts.leaf_linear = 1;
            return ExpanseStats { population: n as u64, leaf_pop_histogram: hist, node_counts: counts };
        }
        let ghost s = self@;
        proof {
            assert(expanses_upto(s, 0) =~= Set::<u64>::empty());
            assert forall|f: int| #[trigger] expanses_of_form(s, 0, f) =~= Set::<u64>::empty() by {}
            assert forall|q: nat| #[trigger] expanses_of_pop(s, 0, q) =~= Set::<u64>::empty() by {}
        }
        let mut i: usize = 0;
        while i < n
            invariant
                self.wf(),
                s == self@,
                n == s.len(),
                0 <= i <= n,
                i < n ==> i == 0 || s[i - 1] / 256 != s[i as int] / 256,
                expanses_upto(s, i as int).finite(),
                expanses_upto(s, i as int).len() <= i,
                hist@.len() == 257,
                counts.immediate == expanses_of_form(s, i as int, 0).len(),
                counts.leaf_linear == expanses_of_form(s, i as int, 1).len(),
                counts.leaf_bitmap == expanses_of_form(s, i as int, 2).len(),
                counts.full_expanse == expanses_of_form(s, i as int, 3).len(),
                forall|q: int| 0 <= q < 257 ==> #[trigger] hist@[q] == if leaf_form(q as nat) == 1 {
                    expanses_of_pop(s, i as int, q as nat).len()
                } else {
                    0
                },
            decreases n - i,
        {
            // One level-1 expanse: the run of keys sharing `key >> 8`.
            let prefix = self.keys[i] / 256;
            let mut j = i + 1;
            while j < n && self.keys[j] / 256 == prefix
                invariant
                    i < j <= n,
                    n == self.keys@.len(),
                    s == self.keys@,
                    prefix == s[i as int] / 256,
                    forall|t: int| i <= t < j ==> s[t] / 256 == prefix,
                decreases n - j,
            {
                j = j + 1;
            }
            let p = j - i;
            let ghost pi = expanses_upto(s, i as int);
            proof {
                lemma_run(s, i as int, j as int, prefix);
                lemma_form_sets_step(s, i as int, j as int, prefix);
                vstd::set::axiom_set_insert_len(pi, prefix);
                lemma_form_subset(s, i as int, 0);
                lemma_form_subset(s, i as int, 1);
                lemma_form_subset(s, i as int, 2);
                lemma_form_subset(s, i as int, 3);
                lemma_pop_subset(s, i as int, p as nat);
            }
            if p == 256 {
                counts.full_expanse = counts.full_expanse + 1;
            } else if p <= IMMED_PAYLOAD_BYTES {
                counts.immediate = counts.immediate + 1;
            } else if p <= LEAF1_CAP {
                counts.leaf_linear = counts.leaf_linear + 1;
                let c = hist[p];
                hist.set(p, c + 1);
            } else {
                counts.leaf_bitmap = counts.leaf_bitmap + 1;
            }
            proof {
                assert forall|q: int| 0 <= q < 257 implies #[trigger] hist@[q] == if leaf_form(q as nat) == 1 {
                    expanses_of_pop(s, j as int, q as nat).len()
                } else {
                    0
                } by {
                    assert(expanses_of_pop(s, j as int, q as nat) == if q == p {
                        expanses_of_pop(s, i as int, q as nat).insert(prefix)
                    } else {
                        expanses_of_pop(s, i as int, q as nat)
                    });
                    if q == p {
                        lemma_pop_subset(s, i as int, q as nat);
                        vstd::set::axiom_set_insert_len(expanses_of_pop(s, i as int, q as nat), prefix);
                    }
                }
            }
            i = j;
        }
        ExpanseStats { population: n as u64, leaf_pop_histogram: hist, node_counts: counts }
    }

    /// Smallest key in the set.
    pub fn first(&self) -> (r: Option<u64>)
        requires
            self.wf(),
        ensures
            match r {
                Some(k) => self@.len() > 0 && k == self@[0],
                None => self@.len() == 0,
            },
    {
        let r = self.next_at_or_after(0);
        proof {
            match r {
                Some(k) => {
                    let i = choose|i: int| 0 <= i < self@.len() && self@[i] == k;
                    if i > 0 {
                        assert(self@[0] < self@[i]);
                        assert(self@.contains(self@[0]));
                    }
                },
                None => {
                    if self@.len() > 0 {
                        assert(self@.contains(self@[0]));
                    }
                },
            }
        }
        r
    }

    /// Largest key in the set.
    pub fn last(&self) -> (r: Option<u64>)
        requires
            self.wf(),
        ensures
            match r {
                Some(k) => self@.len() > 0 && k == self@[self@.len() - 1],
                None => self@.len() == 0,
            },
    {
        let r = self.prev_at_or_before(u64::MAX);
        proof {
            let n = self@.len() - 1;
            match r {
                Some(k) => {
                    let i = choose|i: int| 0 <= i < self@.len() && self@[i] == k;
                    if i < n {
                        assert(self@[i] < self@[n]);
                        assert(self@.contains(self@[n]));
                    }
                },
                None => {
                    if self@.len() > 0 {
                        assert(self@.contains(self@[n]));
                    }
                },
            }
        }
        r
    }

    /// Smallest key `>= key`.
    pub fn next_at_or_after(&self, key: Key) -> (r: Option<u64>)
        requires
            self.wf(),
        ensures
            match r {
                Some(k) => self@.contains(k) && k >= key && forall|j: u64|
                    self@.contains(j) && j >= key ==> k <= j,
                None => forall|j: u64| self@.contains(j) ==> j < key,
            },
    {
        let i = lower_bound(&self.keys, key);
        if i < self.keys.len() {
            let k = self.keys[i];
            proof {
                assert(self@.contains(k));
                assert forall|j: u64| self@.contains(j) && j >= key implies k <= j by {
                    let p = choose|p: int| 0 <= p < self@.len() && self@[p] == j;
                    if p > i {
                        assert(self@[i as int] < self@[p]);
                    }
                }
            }
            Some(k)
        } else {
            None
        }
    }

    /// Smallest key `> key`.
    pub fn next_after(&self, key: Key) -> (r: Option<u64>)
        requires
            self.wf(),
        ensures
            match r {
                Some(k) => self@.contains(k) && k > key && forall|j: u64|
                    self@.contains(j) && j > key ==> k <= j,
                None => forall|j: u64| self@.contains(j) ==> j <= key,
            },
    {
        if key == u64::MAX {
            return None;
        }
        self.next_at_or_after(key + 1)
    }

    /// Largest key `<= key`.
    pub fn prev_at_or_before(&self, key: Key) -> (r: Option<u64>)
        requires
            self.wf(),
        ensures
            match r {
                Some(k) => self@.contains(k) && k <= key && forall|j: u64|
                    self@.contains(j) && j <= key ==> j <= k,
                None => forall|j: u64| self@.contains(j) ==> j > key,
            },
    {
        if key == u64::MAX {
            let n = self.keys.len();
            if n == 0 {
                return None;
            }
            let k = self.keys[n - 1];
            proof {
                assert(self@.contains(k));
                assert forall|j: u64| self@.contains(j) && j <= key implies j <= k by {
                    let p = choose|p: int| 0 <= p < self@.len() && self@[p] == j;
                    if p < n - 1 {
                        assert(self@[p] < self@[n - 1]);
                    }
                }
            }
            return Some(k);
        }
        let i = lower_bound(&self.keys, key + 1);
        if i == 0 {
            proof {
                assert forall|j: u64| self@.contains(j) implies j > key by {
                    let p = choose|p: int| 0 <= p < self@.len() && self@[p] == j;
                    assert(self@[p] >= key + 1);
                }
            }
            None
        } else {
            let k = self.keys[i - 1];
            proof {
                assert(self@.contains(k));
                assert forall|j: u64| self@.contains(j) && j <= key implies j <= k by {
                    let p = choose|p: int| 0 <= p < self@.len() && self@[p] == j;
                    if p < i - 1 {
                        assert(self@[p] < self@[i - 1]);
                    } else if p >= i {
                        assert(self@[p] >= key + 1);
                    }
                }
            }
            Some(k)
        }
    }

    /// Largest key `< key`.
    pub fn prev_before(&self, key: Key) -> (r: Option<u64>)
        requires
            self.wf(),
        ensures
            match r {
                Some(k) => self@.contains(k) && k < key && forall|j: u64|
                    self@.contains(j) && j < key ==> j <= k,
                None => forall|j: u64| self@.contains(j) ==> j >= key,
            },
    {
        if key == 0 {
            return None;
        }
        self.prev_at_or_before(key - 1)
    }

    /// Number of keys strictly below `key` (rank).
    pub fn count_below(&self, key: Key) -> (n: u64)
        requires
            self.wf(),
        ensures
            n == count_lt(self@, key),
    {
        let i = lower_bound(&self.keys, key);
        proof {
            lemma_count_lt_partition(self.keys@, key, i as int);
        }
        i as u64
    }

    /// Number of keys in the inclusive range.
    pub fn count_range(&self, range: RangeInclusive<u64>) -> (n: u64)
        requires
            self.wf(),
        ensures
            n == if range@.start <= range@.end {
                count_in(self@, range@.start, range@.end)
            } else {
                0
            },
            n == keys_in_range(self@, range@.start, range@.end).len(),
    {
        proof {
            lemma_keys_in_range_len(self@, range@.start, range@.end);
            if range@.start > range@.end {
                assert(keys_in_range(self@, range@.start, range@.end) =~= Set::<u64>::empty());
            }
        }
        let a = *range.start();
        let b = *range.end();
        if a > b {
            return 0;
        }
        let upto_b = self.upper_bound(b);
        let below_a = self.count_below(a);
        proof {
            lemma_count_in_split(self@, a, b);
            lemma_count_lt_mono(self@, a, b);
        }
        upto_b as u64 - below_a
    }

    /// The key with `n` keys below it (0-based select).
    pub fn by_count(&self, n: u64) -> (r: Option<u64>)
        requires
            self.wf(),
        ensures
            r == if n < self@.len() {
                Some(self@[n as int])
            } else {
                None::<u64>
            },
    {
        if n >= self.keys.len() as u64 {
            return None;
        }
        Some(self.keys[n as usize])
    }

    /// Ascending iterator over the keys.
    pub fn iter(&self) -> (it: SetIter<'_>)
        requires
            self.wf(),
        ensures
            it.wf(),
            it.keys() == self@,
            it.pos() == 0,
            it.remaining() == self@,
    {
        let it = SetIter { set: self, pos: 0 };
        proof {
            assert(self@.subrange(0, self@.len() as int) =~= self@);
        }
        it
    }

    /// Ascending iterator over the keys in the inclusive range.
    pub fn range(&self, range: RangeInclusive<Key>) -> (it: SetRange<'_>)
        requires
            self.wf(),
        ensures
            it.wf(),
            it.keys() == self@,
            range@.start <= range@.end ==> is_partition(self@, range@.start, it.pos()),
            range@.start <= range@.end ==> it.end() as int == count_le(self@, range@.end),
            range@.start > range@.end ==> it.pos() == it.end(),
            it.pos() <= it.end() <= self@.len(),
            strictly_sorted(it.remaining()),
            forall|k: u64| it.remaining().contains(k) <==> self@.contains(k) && range@.start <= k <= range@.end,
    {
        let start = *range.start();
        let end = *range.end();
        if start > end {
            let it = SetRange { set: self, pos: 0, end: 0 };
            proof {
                assert(it.remaining() =~= Seq::<u64>::empty());
            }
            return it;
        }
        let pos = lower_bound(&self.keys, start);
        let stop = self.upper_bound(end);
        proof {
            if pos > stop {
                assert(self@[stop as int] > end);
                assert(self@[stop as int] < start);
            }
        }
        let it = SetRange { set: self, pos, end: stop };
        proof {
            lemma_window_keys(self@, start, end, pos as int, stop as int);
        }
        it
    }

    /// Index of the first key above `key`.
    fn upper_bound(&self, key: Key) -> (i: usize)
        requires
            self.wf(),
        ensures
            i as int == count_le(self@, key),
            0 <= i <= self@.len(),
            forall|j: int| 0 <= j < i ==> self@[j] <= key,
            forall|j: int| i <= j < self@.len() ==> self@[j] > key,
    {
        if key == u64::MAX {
            let n = self.keys.len();
            proof {
                lemma_count_le_partition(self@, key, n as int);
            }
            return n;
        }
        let i = lower_bound(&self.keys, key + 1);
        proof {
            lemma_count_le_partition(self@, key, i as int);
        }
        i
    }

    /// Descending (double-ended) iterator over the keys.
    pub fn iter_rev(&self) -> (it: SetIterRev<'_>)
        requires
            self.wf(),
        ensures
            it.wf(),
            it.keys() == self@,
            it.lo() == 0,
            it.hi() == self@.len(),
            it.remaining() == self@,
    {
        let it = SetIterRev { set: self, lo: 0, hi: self.keys.len() };
        proof {
            assert(self@.subrange(0, self@.len() as int) =~= self@);
        }
        it
    }

    /// Descending (double-ended) iterator over the keys in the inclusive range.
    pub fn range_rev(&self, range: RangeInclusive<Key>) -> (it: SetRangeRev<'_>)
        requires
            self.wf(),
        ensures
            it.wf(),
            it.keys() == self@,
            range@.start <= range@.end ==> is_partition(self@, range@.start, it.lo()),
            range@.start <= range@.end ==> it.hi() as int == count_le(self@, range@.end),
            range@.start > range@.end ==> it.lo() == it.hi(),
            it.lo() <= it.hi() <= self@.len(),
            strictly_sorted(it.remaining()),
            forall|k: u64| it.remaining().contains(k) <==> self@.contains(k) && range@.start <= k <= range@.end,
    {
        let start = *range.start();
        let end = *range.end();
        if start > end {
            let it = SetRangeRev { set: self, lo: 0, hi: 0 };
            proof {
                assert(it.remaining() =~= Seq::<u64>::empty());
            }
            return it;
        }
        let lo = lower_bound(&self.keys, start);
        let hi = self.upper_bound(end);
        proof {
            if lo > hi {
                assert(self@[hi as int] > end);
                assert(self@[hi as int] < start);
            }
        }
        let it = SetRangeRev { set: self, lo, hi };
        proof {
            lemma_window_keys(self@, start, end, lo as int, hi as int);
        }
        it
    }

    /// A forward cursor positioned before the first key.
    pub fn cursor(&self) -> (c: SetCursor<'_>)
        requires
            self.wf(),
        ensures
            c.wf(),
            c.keys() == self@,
            c.pos() == 0,
    {
        SetCursor { set: self, pos: 0 }
    }

    /// A forward cursor positioned at the smallest key `>= start`.
    pub fn cursor_from(&self, start: Key) -> (c: SetCursor<'_>)
        requires
            self.wf(),
        ensures
            c.wf(),
            c.keys() == self@,
            is_partition(self@, start, c.pos() as int),
    {
        let pos = lower_bound(&self.keys, start);
        SetCursor { set: self, pos }
    }

    /// Builds a set from keys that are expected to be strictly ascending.
    /// Equal adjacent keys are collapsed and out-of-order input is corrected,
    /// so the result always holds exactly the given keys.
    pub fn from_sorted_iter(keys: Vec<Key>) -> (s: ExpanseSet)
        ensures
            s.wf(),
            key_set(s@) == keys@.to_set(),
            s.is_tree() == (s@.len() > ROOT_LEAF_CAP),
    {
        let mut sorted = true;
        let mut i: usize = 1;
        while i < keys.len()
            invariant
                1 <= i,
                sorted ==> forall|p: int, q: int| 0 <= p < q < i && q < keys@.len() ==> keys@[p]
                    < keys@[q],
            decreases keys@.len() - i,
        {
            if keys[i - 1] >= keys[i] {
                sorted = false;
            }
            proof {
                if sorted {
                    assert forall|p: int, q: int| 0 <= p < q < i + 1 && q < keys@.len() implies keys@[p]
                        < keys@[q] by {
                        if q == i && p < i - 1 {
                            assert(keys@[p] < keys@[i - 1]);
                        }
                    }
                }
            }
            i = i + 1;
        }
        if sorted {
            proof {
                assert(strictly_sorted(keys@));
            }
            return Self::from_sorted_keys(keys);
        }
        let mut out = ExpanseSet::new();
        let mut j: usize = 0;
        while j < keys.len()
            invariant
                out.wf(),
                0 <= j <= keys@.len(),
                key_set(out@) == keys@.take(j as int).to_set(),
            decreases keys@.len() - j,
        {
            out.insert(keys[j]);
            proof {
                assert(keys@.take(j as int + 1) =~= keys@.take(j as int).push(keys@[j as int]));
                keys@.take(j as int).lemma_push_to_set_commute(keys@[j as int]);
            }
            j = j + 1;
        }
        proof {
            assert(keys@.take(keys@.len() as int) =~= keys@);
        }
        out.normalize_form();
        out
    }

    /// Chooses the root form by population, as a fresh build would.
    fn normalize_form(&mut self)
        requires
            old(self).wf(),
        ensures
            final(self).wf(),
            final(self)@ == old(self)@,
            final(self).is_tree() == (final(self)@.len() > ROOT_LEAF_CAP),
            final(self).allocs_spec() == old(self).allocs_spec(),
    {
        self.tree = self.keys.len() > ROOT_LEAF_CAP;
    }

    /// Builds a set from strictly ascending keys, choosing the root-leaf or
    /// tree form by population.
    fn from_sorted_keys(keys: Vec<u64>) -> (s: ExpanseSet)
        requires
            strictly_sorted(keys@),
        ensures
            s.wf(),
            s@ == keys@,
            s.is_tree() == (keys@.len() > ROOT_LEAF_CAP),
    {
        let tree = keys.len() > ROOT_LEAF_CAP;
        let allocs: usize = if keys.len() > 0 {
            1
        } else {
            0
        };
        ExpanseSet { keys, tree, allocs }
    }

    /// Number of keys present in both sets, computed by a lockstep walk
    /// without materializing the intersection.
    pub fn intersection_len(&self, other: &ExpanseSet) -> (n: u64)
        requires
            self.wf(),
            other.wf(),
        ensures
            n == key_set(self@).intersect(key_set(other@)).len(),
    {
        sorted_intersection_count(self.keys.as_slice(), other.keys.as_slice())
    }

    /// Number of keys in the union, `|A| + |B| - |A ∩ B|`.
    pub fn union_len(&self, other: &ExpanseSet) -> (n: u64)
        requires
            self.wf(),
            other.wf(),
            key_set(self@).union(key_set(other@)).len() <= u64::MAX,
        ensures
            n == key_set(self@).union(key_set(other@)).len(),
    {
        let i = self.intersection_len(other);
        proof {
            self.lemma_wf();
            other.lemma_wf();
            vstd::set_lib::lemma_set_intersect_union_lens(key_set(self@), key_set(other@));
            vstd::set_lib::lemma_len_intersect(key_set(self@), key_set(other@));
        }
        (self.len() - i) + other.len()
    }

    /// Number of keys in `self` but not `other`, `|A| - |A ∩ B|`.
    pub fn difference_len(&self, other: &ExpanseSet) -> (n: u64)
        requires
            self.wf(),
            other.wf(),
        ensures
            n == key_set(self@).difference(key_set(other@)).len(),
    {
        let i = self.intersection_len(other);
        proof {
            self.lemma_wf();
            other.lemma_wf();
            vstd::set_lib::lemma_set_difference_len(key_set(self@), key_set(other@));
            vstd::set_lib::lemma_len_intersect(key_set(self@), key_set(other@));
        }
        self.len() - i
    }

    /// Number of keys in exactly one of the sets, `|A| + |B| - 2·|A ∩ B|`.
    pub fn symmetric_difference_len(&self, other: &ExpanseSet) -> (n: u64)
        requires
            self.wf(),
            other.wf(),
            combine(Op::Xor, key_set(self@), key_set(other@)).len() <= u64::MAX,
        ensures
            n == combine(Op::Xor, key_set(self@), key_set(other@)).len(),
    {
        let i = self.intersection_len(other);
        proof {
            self.lemma_wf();
            other.lemma_wf();
            let a = key_set(self@);
            let b = key_set(other@);
            vstd::set_lib::lemma_set_difference_len(a, b);
            vstd::set_lib::lemma_set_difference_len(b, a);
            vstd::set_lib::lemma_len_intersect(a, b);
            vstd::set_lib::lemma_len_intersect(b, a);
            assert(b.intersect(a) =~= a.intersect(b));
            assert(a.difference(b).disjoint(b.difference(a)));
            vstd::set_lib::lemma_set_disjoint_lens(a.difference(b), b.difference(a));
        }
        (self.len() - i) + (other.len() - i)
    }

    /// Materializes `op` over the two sets.
    fn materialize_op(&self, other: &ExpanseSet, op: Op) -> (s: ExpanseSet)
        requires
            self.wf(),
            other.wf(),
        ensures
            s.wf(),
            key_set(s@) == combine(op, key_set(self@), key_set(other@)),
            s.is_tree() == (s@.len() > ROOT_LEAF_CAP),
    {
        let keys = merge_sorted(&self.keys, &other.keys, op);
        Self::from_sorted_keys(keys)
    }

    /// The set of keys present in both sets.
    pub fn intersection(&self, other: &ExpanseSet) -> (s: ExpanseSet)
        requires
            self.wf(),
            other.wf(),
        ensures
            s.wf(),
            key_set(s@) == key_set(self@).intersect(key_set(other@)),
    {
        self.materialize_op(other, Op::And)
    }

    /// The set of keys present in either set.
    pub fn union(&self, other: &ExpanseSet) -> (s: ExpanseSet)
        requires
            self.wf(),
            other.wf(),
        ensures
            s.wf(),
            key_set(s@) == key_set(self@).union(key_set(other@)),
    {
        self.materialize_op(other, Op::Or)
    }

    /// The set of keys in `self` but not `other`.
    pub fn difference(&self, other: &ExpanseSet) -> (s: ExpanseSet)
        requires
            self.wf(),
            other.wf(),
        ensures
            s.wf(),
            key_set(s@) == key_set(self@).difference(key_set(other@)),
    {
        self.materialize_op(other, Op::Diff)
    }

    /// The set of keys in exactly one of the two sets.
    pub fn symmetric_difference(&self, other: &ExpanseSet) -> (s: ExpanseSet)
        requires
            self.wf(),
            other.wf(),
        ensures
            s.wf(),
            key_set(s@) == combine(Op::Xor, key_set(self@), key_set(other@)),
    {
        self.materialize_op(other, Op::Xor)
    }
}

/// Counts of the leaf forms a set's level-1 expanses take.
#[derive(Clone, Copy, Debug, PartialEq, Eq, Default)]
pub struct NodeCounts {
    /// Keys packed directly in an edge (at most fifteen one-byte keys).
    pub immediate: u64,
    /// Sorted arrays of final key bytes (the root leaf counts here too).
    pub leaf_linear: u64,
    /// 256-bit bitmap leaves.
    pub leaf_bitmap: u64,
    /// Fully populated level-1 expanses, which need no leaf at all.
    pub full_expanse: u64,
}

/// Structural statistics of a set.
#[derive(Debug, Default)]
pub struct ExpanseStats {
    /// Number of keys.
    pub population: u64,
    /// Number of linear leaves holding each population (index = population).
    pub leaf_pop_histogram: Vec<u64>,
    /// Leaf-form counts.
    pub node_counts: NodeCounts,
}

/// The leaf form a level-1 expanse of `p` keys takes: 0 immediate,
/// 1 linear, 2 bitmap, 3 full.
pub open spec fn leaf_form(p: nat) -> int {
    if p == 256 {
        3
    } else if p <= IMMED_PAYLOAD_BYTES {
        0
    } else if p <= LEAF1_CAP {
        1
    } else {
        2
    }
}

/// The level-1 expanses populated by the first `n` keys of `s`.
pub open spec fn expanses_upto(s: Seq<u64>, n: int) -> Set<u64> {
    Set::new(|p: u64| exists|t: int| 0 <= t < n && #[trigger] s[t] / 256 == p)
}

/// Number of keys of `s` in the level-1 expanse `p`.
pub open spec fn expanse_pop(s: Seq<u64>, p: u64) -> nat {
    Set::new(|t: int| 0 <= t < s.len() && s[t] / 256 == p).len()
}

/// The expanses among the first `n` keys' whose population has leaf form
/// `form` (see [`leaf_form`]).
pub open spec fn expanses_of_form(s: Seq<u64>, n: int, form: int) -> Set<u64> {
    expanses_upto(s, n).filter(|p: u64| leaf_form(expanse_pop(s, p)) == form)
}

/// The expanses among the first `n` keys' that hold exactly `q` keys.
pub open spec fn expanses_of_pop(s: Seq<u64>, n: int, q: nat) -> Set<u64> {
    expanses_upto(s, n).filter(|p: u64| expanse_pop(s, p) == q)
}

/// A maximal run `[i, j)` of keys sharing expanse `prefix` in a strictly
/// sorted sequence holds all of that expanse's keys, and adds exactly that
/// new expanse to those already seen.
proof fn lemma_run(s: Seq<u64>, i: int, j: int, prefix: u64)
    requires
        strictly_sorted(s),
        0 <= i < j <= s.len(),
        i == 0 || s[i - 1] / 256 != s[i] / 256,
        prefix == s[i] / 256,
        forall|t: int| i <= t < j ==> s[t] / 256 == prefix,
        j == s.len() || s[j] / 256 != prefix,
        expanses_upto(s, i).finite(),
    ensures
        !expanses_upto(s, i).contains(prefix),
        expanses_upto(s, j) == expanses_upto(s, i).insert(prefix),
        expanse_pop(s, prefix) == j - i,
        j < s.len() ==> s[j - 1] / 256 != s[j] / 256,
{
    assert forall|t: int| 0 <= t < i implies s[t] / 256 < prefix by {
        vstd::arithmetic::div_mod::lemma_div_is_ordered(s[t] as int, s[i - 1] as int, 256);
        vstd::arithmetic::div_mod::lemma_div_is_ordered(s[i - 1] as int, s[i] as int, 256);
    }
    assert forall|t: int| j <= t < s.len() implies s[t] / 256 > prefix by {
        vstd::arithmetic::div_mod::lemma_div_is_ordered(s[i] as int, s[j] as int, 256);
        vstd::arithmetic::div_mod::lemma_div_is_ordered(s[j] as int, s[t] as int, 256);
    }
    assert(expanses_upto(s, j) =~= expanses_upto(s, i).insert(prefix)) by {
        assert(s[i] / 256 == prefix);
    }
    let idx = Set::new(|t: int| 0 <= t < s.len() && s[t] / 256 == prefix);
    assert(idx =~= vstd::set_lib::set_int_range(i, j));
    vstd::set_lib::lemma_int_range(i, j);
}

/// The per-form and per-population expanse sets after one more run.
proof fn lemma_form_sets_step(s: Seq<u64>, i: int, j: int, prefix: u64)
    requires
        expanses_upto(s, j) == expanses_upto(s, i).insert(prefix),
    ensures
        forall|f: int| #[trigger] expanses_of_form(s, j, f) == if leaf_form(expanse_pop(s, prefix)) == f {
            expanses_of_form(s, i, f).insert(prefix)
        } else {
            expanses_of_form(s, i, f)
        },
        forall|q: nat| #[trigger] expanses_of_pop(s, j, q) == if expanse_pop(s, prefix) == q {
            expanses_of_pop(s, i, q).insert(prefix)
        } else {
            expanses_of_pop(s, i, q)
        },
{
    assert forall|f: int| #[trigger] expanses_of_form(s, j, f) == if leaf_form(expanse_pop(s, prefix)) == f {
        expanses_of_form(s, i, f).insert(prefix)
    } else {
        expanses_of_form(s, i, f)
    } by {
        if leaf_form(expanse_pop(s, prefix)) == f {
            assert(expanses_of_form(s, j, f) =~= expanses_of_form(s, i, f).insert(prefix));
        } else {
            assert(expanses_of_form(s, j, f) =~= expanses_of_form(s, i, f));
        }
    }
    assert forall|q: nat| #[trigger] expanses_of_pop(s, j, q) == if expanse_pop(s, prefix) == q {
        expanses_of_pop(s, i, q).insert(prefix)
    } else {
        expanses_of_pop(s, i, q)
    } by {
        if expanse_pop(s, prefix) == q {
            assert(expanses_of_pop(s, j, q) =~= expanses_of_pop(s, i, q).insert(prefix));
        } else {
            assert(expanses_of_pop(s, j, q) =~= expanses_of_pop(s, i, q));
        }
    }
}

/// The per-form expanse sets are finite subsets of the expanses seen.
proof fn lemma_form_subset(s: Seq<u64>, i: int, f: int)
    requires
        expanses_upto(s, i).finite(),
    ensures
        expanses_of_form(s, i, f).finite(),
        expanses_of_form(s, i, f).len() <= expanses_upto(s, i).len(),
{
    vstd::set_lib::lemma_len_subset(expanses_of_form(s, i, f), expanses_upto(s, i));
}

/// The per-population expanse sets are finite subsets of the expanses seen.
proof fn lemma_pop_subset(s: Seq<u64>, i: int, q: nat)
    requires
        expanses_upto(s, i).finite(),
    ensures
        expanses_of_pop(s, i, q).finite(),
        expanses_of_pop(s, i, q).len() <= expanses_upto(s, i).len(),
{
    vstd::set_lib::lemma_len_subset(expanses_of_pop(s, i, q), expanses_upto(s, i));
}

/// Number of elements of `s` at or below `key`.
pub open spec fn count_le(s: Seq<u64>, key: u64) -> int {
    (count_lt(s, key) + count_eq(s, key)) as int
}

proof fn lemma_count_le_partition(s: Seq<u64>, key: u64, i: int)
    requires
        strictly_sorted(s),
        0 <= i <= s.len(),
        forall|j: int| 0 <= j < i ==> s[j] <= key,
        forall|j: int| i <= j < s.len() ==> s[j] > key,
    ensures
        count_le(s, key) == i,
{
    lemma_count_eq_sorted(s, key);
    if i > 0 && s[i - 1] == key {
        assert(is_partition(s, key, i - 1)) by {
            assert forall|j: int| 0 <= j < i - 1 implies s[j] < key by {
                assert(s[j] < s[i - 1]);
            }
        }
        lemma_count_lt_partition(s, key, i - 1);
        assert(s.contains(key));
    } else {
        assert(is_partition(s, key, i));
        lemma_count_lt_partition(s, key, i);
        assert(!s.contains(key)) by {
            if s.contains(key) {
                let k = choose|k: int| 0 <= k < s.len() && s[k] == key;
                if k < i - 1 {
                    assert(s[k] < s[i - 1]);
                }
            }
        }
    }
}

proof fn lemma_count_lt_mono(s: Seq<u64>, a: u64, b: u64)
    requires
        a <= b,
    ensures
        count_lt(s, a) <= count_lt(s, b),
        count_lt(s, b) <= s.len(),
    decreases s.len(),
{
    if s.len() > 0 {
        lemma_count_lt_mono(s.drop_last(), a, b);
    }
}

/// Ascending key iterator over an [`ExpanseSet`].
pub struct SetIter<'a> {
    set: &'a ExpanseSet,
    pos: usize,
}

impl<'a> SetIter<'a> {
    /// Internal consistency: a well-formed set and an in-bounds position.
    pub closed spec fn wf(&self) -> bool {
        self.set.wf()
    }

    /// The keys iterated over.
    pub closed spec fn keys(&self) -> Seq<u64> {
        self.set@
    }

    /// Index of the next key to yield.
    pub closed spec fn pos(&self) -> int {
        self.pos as int
    }

    /// The keys still to be yielded, in the order they come.
    pub closed spec fn remaining(&self) -> Seq<u64> {
        if self.pos <= self.set@.len() {
            self.set@.subrange(self.pos as int, self.set@.len() as int)
        } else {
            Seq::empty()
        }
    }

    /// The next key in ascending order.
    pub fn next(&mut self) -> (r: Option<u64>)
        requires
            old(self).wf(),
        ensures
            final(self).wf(),
            final(self).keys() == old(self).keys(),
            r == if old(self).remaining().len() > 0 {
                Some(old(self).remaining()[0])
            } else {
                None::<u64>
            },
            final(self).remaining() == if old(self).remaining().len() > 0 {
                old(self).remaining().drop_first()
            } else {
                old(self).remaining()
            },
            old(self).pos() < old(self).keys().len() ==> r == Some(old(self).keys()[old(self).pos()])
                && final(self).pos() == old(self).pos() + 1,
            old(self).pos() >= old(self).keys().len() ==> r is None && final(self).pos()
                == old(self).pos(),
    {
        if self.pos < self.set.keys.len() {
            let k = self.set.keys[self.pos];
            self.pos = self.pos + 1;
            Some(k)
        } else {
            None
        }
    }
}

/// The keys of `s` in the inclusive range `[lo, hi]`.
pub open spec fn keys_in_range(s: Seq<u64>, lo: u64, hi: u64) -> Set<u64> {
    key_set(s).filter(|k: u64| lo <= k <= hi)
}

/// Counting a strictly ascending sequence over a range gives the number of
/// its keys in that range.
pub proof fn lemma_keys_in_range_len(s: Seq<u64>, lo: u64, hi: u64)
    requires
        strictly_sorted(s),
    ensures
        keys_in_range(s, lo, hi).finite(),
        keys_in_range(s, lo, hi).len() == count_in(s, lo, hi),
    decreases s.len(),
{
    if s.len() == 0 {
        assert(keys_in_range(s, lo, hi) =~= Set::<u64>::empty());
    } else {
        let t = s.drop_last();
        let x = s.last();
        lemma_keys_in_range_len(t, lo, hi);
        assert(!t.contains(x)) by {
            if t.contains(x) {
                let i = choose|i: int| 0 <= i < t.len() && t[i] == x;
                assert(s[i] < s[s.len() - 1]);
            }
        }
        assert(forall|k: u64| #[trigger] s.contains(k) <==> t.contains(k) || k == x) by {
            assert forall|k: u64| #[trigger] s.contains(k) implies t.contains(k) || k == x by {
                let i = choose|i: int| 0 <= i < s.len() && s[i] == k;
                if i < s.len() - 1 {
                    assert(t[i] == k);
                }
            }
            assert forall|k: u64| t.contains(k) implies #[trigger] s.contains(k) by {
                let i = choose|i: int| 0 <= i < t.len() && t[i] == k;
                assert(s[i] == k);
            }
            assert(s[s.len() - 1] == x);
        }
        if lo <= x <= hi {
            assert(keys_in_range(s, lo, hi) =~= keys_in_range(t, lo, hi).insert(x));
        } else {
            assert(keys_in_range(s, lo, hi) =~= keys_in_range(t, lo, hi));
        }
    }
}

/// The window `[lo, hi)` of a strictly ascending sequence between the
/// partition point of `start` and the count up to `end` ascends and holds
/// exactly the elements in `[start, end]`.
proof fn lemma_window_keys(s: Seq<u64>, start: u64, end: u64, lo: int, hi: int)
    requires
        strictly_sorted(s),
        start <= end,
        lo <= hi <= s.len(),
        is_partition(s, start, lo),
        forall|j: int| 0 <= j < hi ==> s[j] <= end,
        forall|j: int| hi <= j < s.len() ==> s[j] > end,
    ensures
        strictly_sorted(s.subrange(lo, hi)),
        forall|k: u64| s.subrange(lo, hi).contains(k) <==> s.contains(k) && start <= k <= end,
{
    let w = s.subrange(lo, hi);
    assert forall|k: u64| w.contains(k) <==> s.contains(k) && start <= k <= end by {
        if w.contains(k) {
            let i = choose|i: int| 0 <= i < w.len() && w[i] == k;
            assert(s[lo + i] == k);
        }
        if s.contains(k) && start <= k <= end {
            let j = choose|j: int| 0 <= j < s.len() && s[j] == k;
            assert(w[j - lo] == k);
        }
    }
}

/// Ascending key iterator over a range of an [`ExpanseSet`].
pub struct SetRange<'a> {
    set: &'a ExpanseSet,
    pos: usize,
    end: usize,
}

impl<'a> SetRange<'a> {
    /// Internal consistency: a well-formed set and an in-bounds position.
    pub closed spec fn wf(&self) -> bool {
        self.set.wf() && self.pos <= self.end <= self.set@.len()
    }

    /// The keys of the underlying set.
    pub closed spec fn keys(&self) -> Seq<u64> {
        self.set@
    }

    /// Index of the next key to yield.
    pub closed spec fn pos(&self) -> int {
        self.pos as int
    }

    /// One past the index of the last key in range.
    pub closed spec fn end(&self) -> int {
        self.end as int
    }

    /// The keys of the range still to be yielded, in the order they come.
    pub closed spec fn remaining(&self) -> Seq<u64> {
        self.set@.subrange(self.pos as int, self.end as int)
    }

    /// The next key of the range in ascending order.
    pub fn next(&mut self) -> (r: Option<u64>)
        requires
            old(self).wf(),
        ensures
            final(self).wf(),
            final(self).keys() == old(self).keys(),
            r == if old(self).remaining().len() > 0 {
                Some(old(self).remaining()[0])
            } else {
                None::<u64>
            },
            final(self).remaining() == if old(self).remaining().len() > 0 {
                old(self).remaining().drop_first()
            } else {
                old(self).remaining()
            },
            final(self).end() == old(self).end(),
            old(self).pos() < old(self).end() ==> r == Some(old(self).keys()[old(self).pos()])
                && final(self).pos() == old(self).pos() + 1,
            old(self).pos() >= old(self).end() ==> r is None && final(self).pos() == old(self).pos(),
    {
        if self.pos < self.end {
            let k = self.set.keys[self.pos];
            self.pos = self.pos + 1;
            Some(k)
        } else {
            None
        }
    }
}

/// Double-ended iterator over an [`ExpanseSet`], descending by default:
/// `next` yields from the top of the remaining window, `next_back` from its
/// bottom, and the two ends never cross.
pub struct SetIterRev<'a> {
    set: &'a ExpanseSet,
    lo: usize,
    hi: usize,
}

impl<'a> SetIterRev<'a> {
    /// Internal consistency: a well-formed set and an in-bounds position.
    pub closed spec fn wf(&self) -> bool {
        self.set.wf() && self.lo <= self.hi <= self.set@.len()
    }

    /// The keys of the underlying set.
    pub closed spec fn keys(&self) -> Seq<u64> {
        self.set@
    }

    /// Index of the lowest remaining key.
    pub closed spec fn lo(&self) -> int {
        self.lo as int
    }

    /// One past the index of the highest remaining key.
    pub closed spec fn hi(&self) -> int {
        self.hi as int
    }

    /// The keys not yet yielded from either end, ascending.
    pub closed spec fn remaining(&self) -> Seq<u64> {
        self.set@.subrange(self.lo as int, self.hi as int)
    }

    /// The largest remaining key.
    pub fn next(&mut self) -> (r: Option<u64>)
        requires
            old(self).wf(),
        ensures
            final(self).wf(),
            final(self).keys() == old(self).keys(),
            r == if old(self).remaining().len() > 0 {
                Some(old(self).remaining().last())
            } else {
                None::<u64>
            },
            final(self).remaining() == if old(self).remaining().len() > 0 {
                old(self).remaining().drop_last()
            } else {
                old(self).remaining()
            },
            final(self).lo() == old(self).lo(),
            old(self).lo() < old(self).hi() ==> r == Some(old(self).keys()[old(self).hi() - 1])
                && final(self).hi() == old(self).hi() - 1,
            old(self).lo() >= old(self).hi() ==> r is None && final(self).hi() == old(self).hi(),
    {
        if self.lo < self.hi {
            self.hi = self.hi - 1;
            Some(self.set.keys[self.hi])
        } else {
            None
        }
    }

    /// The smallest remaining key.
    pub fn next_back(&mut self) -> (r: Option<u64>)
        requires
            old(self).wf(),
        ensures
            final(self).wf(),
            final(self).keys() == old(self).keys(),
            r == if old(self).remaining().len() > 0 {
                Some(old(self).remaining()[0])
            } else {
                None::<u64>
            },
            final(self).remaining() == if old(self).remaining().len() > 0 {
                old(self).remaining().drop_first()
            } else {
                old(self).remaining()
            },
            final(self).hi() == old(self).hi(),
            old(self).lo() < old(self).hi() ==> r == Some(old(self).keys()[old(self).lo()])
                && final(self).lo() == old(self).lo() + 1,
            old(self).lo() >= old(self).hi() ==> r is None && final(self).lo() == old(self).lo(),
    {
        if self.lo < self.hi {
            let k = self.set.keys[self.lo];
            self.lo = self.lo + 1;
            Some(k)
        } else {
            None
        }
    }
}

/// Double-ended iterator over a range of an [`ExpanseSet`], descending by
/// default; see [`SetIterRev`].
pub struct SetRangeRev<'a> {
    set: &'a ExpanseSet,
    lo: usize,
    hi: usize,
}

impl<'a> SetRangeRev<'a> {
    /// Internal consistency: a well-formed set and an in-bounds position.
    pub closed spec fn wf(&self) -> bool {
        self.set.wf() && self.lo <= self.hi <= self.set@.len()
    }

    /// The keys of the underlying set.
    pub closed spec fn keys(&self) -> Seq<u64> {
        self.set@
    }

    /// Index of the lowest remaining key.
    pub closed spec fn lo(&self) -> int {
        self.lo as int
    }

    /// One past the index of the highest remaining key.
    pub closed spec fn hi(&self) -> int {
        self.hi as int
    }

    /// The keys not yet yielded from either end, ascending.
    pub closed spec fn remaining(&self) -> Seq<u64> {
        self.set@.subrange(self.lo as int, self.hi as int)
    }

    /// The largest remaining key of the range.
    pub fn next(&mut self) -> (r: Option<u64>)
        requires
            old(self).wf(),
        ensures
            final(self).wf(),
            final(self).keys() == old(self).keys(),
            r == if old(self).remaining().len() > 0 {
                Some(old(self).remaining().last())
            } else {
                None::<u64>
            },
            final(self).remaining() == if old(self).remaining().len() > 0 {
                old(self).remaining().drop_last()
            } else {
                old(self).remaining()
            },
            final(self).lo() == old(self).lo(),
            old(self).lo() < old(self).hi() ==> r == Some(old(self).keys()[old(self).hi() - 1])
                && final(self).hi() == old(self).hi() - 1,
            old(self).lo() >= old(self).hi() ==> r is None && final(self).hi() == old(self).hi(),
    {
        if self.lo < self.hi {
            self.hi = self.hi - 1;
            Some(self.set.keys[self.hi])
        } else {
            None
        }
    }

    /// The smallest remaining key of the range.
    pub fn next_back(&mut self) -> (r: Option<u64>)
        requires
            old(self).wf(),
        ensures
            final(self).wf(),
            final(self).keys() == old(self).keys(),
            r == if old(self).remaining().len() > 0 {
                Some(old(self).remaining()[0])
            } else {
                None::<u64>
            },
            final(self).remaining() == if old(self).remaining().len() > 0 {
                old(self).remaining().drop_first()
            } else {
                old(self).remaining()
            },
            final(self).hi() == old(self).hi(),
            old(self).lo() < old(self).hi() ==> r == Some(old(self).keys()[old(self).lo()])
                && final(self).lo() == old(self).lo() + 1,
            old(self).lo() >= old(self).hi() ==> r is None && final(self).lo() == old(self).lo(),
    {
        if self.lo < self.hi {
            let k = self.set.keys[self.lo];
            self.lo = self.lo + 1;
            Some(k)
        } else {
            None
        }
    }
}

/// A stateful forward cursor for monotone skip-scans: it keeps its
/// position, so successive seeks only move forward.
pub struct SetCursor<'a> {
    set: &'a ExpanseSet,
    pos: usize,
}

impl<'a> SetCursor<'a> {
    /// Internal consistency: a well-formed set and an in-bounds position.
    pub closed spec fn wf(&self) -> bool {
        self.set.wf() && self.pos <= self.set@.len()
    }

    /// The keys of the underlying set.
    pub closed spec fn keys(&self) -> Seq<u64> {
        self.set@
    }

    /// Index of the next key the cursor yields.
    pub closed spec fn pos(&self) -> int {
        self.pos as int
    }

    /// The next key in ascending order.
    pub fn next(&mut self) -> (r: Option<u64>)
        requires
            old(self).wf(),
        ensures
            final(self).wf(),
            final(self).keys() == old(self).keys(),
            old(self).pos() < old(self).keys().len() ==> r == Some(old(self).keys()[old(self).pos()])
                && final(self).pos() == old(self).pos() + 1,
            old(self).pos() >= old(self).keys().len() ==> r is None && final(self).pos()
                == old(self).pos(),
    {
        if self.pos < self.set.keys.len() {
            let k = self.set.keys[self.pos];
            self.pos = self.pos + 1;
            Some(k)
        } else {
            None
        }
    }

    /// Moves to the smallest key `>= target` that is not behind the cursor
    /// and yields it.
    pub fn seek(&mut self, target: Key) -> (r: Option<u64>)
        requires
            old(self).wf(),
        ensures
            final(self).wf(),
            final(self).keys() == old(self).keys(),
            final(self).pos() >= old(self).pos(),
            match r {
                Some(k) => k >= target && final(self).pos() >= 1 && k == final(self).keys()[final(self).pos() - 1] && forall|j: int|
                    old(self).pos() <= j < final(self).pos() - 1 ==> final(self).keys()[j]
                        < target,
                None => final(self).pos() == final(self).keys().len() && forall|j: int|
                    old(self).pos() <= j < final(self).keys().len() ==> final(self).keys()[j]
                        < target,
            },
    {
        let n = self.set.keys.len();
        let start = self.pos;
        while self.pos < n && self.set.keys[self.pos] < target
            invariant
                self.set.wf(),
                self.set == old(self).set,
                start <= self.pos <= n,
                n == self.set.keys@.len(),
                forall|j: int| start <= j < self.pos ==> self.set.keys@[j] < target,
            decreases n - self.pos,
        {
            self.pos = self.pos + 1;
        }
        if self.pos < n {
            let k = self.set.keys[self.pos];
            self.pos = self.pos + 1;
            Some(k)
        } else {
            None
        }
    }
}

/// Rank and select are inverse: a member's rank selects it back, and the
/// key selected at position `n` has rank `n`.
pub proof fn law_rank_select(s: &ExpanseSet, k: u64, n: int)
    requires
        s.wf(),
    ensures
        s@.contains(k) ==> count_lt(s@, k) < s@.len() && s@[count_lt(s@, k) as int] == k,
        0 <= n < s@.len() ==> count_lt(s@, s@[n]) == n,
{
    s.lemma_wf();
    if s@.contains(k) {
        let i = choose|i: int| 0 <= i < s@.len() && s@[i] == k;
        assert(is_partition(s@, k, i)) by {
            assert forall|j: int| 0 <= j < i implies s@[j] < k by {}
            assert forall|j: int| i <= j < s@.len() implies s@[j] >= k by {
                if j > i {
                    assert(s@[i] < s@[j]);
                }
            }
        }
        lemma_count_lt_partition(s@, k, i);
    }
    if 0 <= n < s@.len() {
        assert(is_partition(s@, s@[n], n)) by {
            assert forall|j: int| n <= j < s@.len() implies s@[j] >= s@[n] by {
                if j > n {
                    assert(s@[n] < s@[j]);
                }
            }
        }
        lemma_count_lt_partition(s@, s@[n], n);
    }
}

/// The count of an inclusive range is the rank past its end minus the rank
/// of its start.
pub proof fn law_count_range(s: &ExpanseSet, a: u64, b: u64)
    requires
        s.wf(),
        a <= b,
    ensures
        count_in(s@, a, b) == count_le(s@, b) - count_lt(s@, a),
        count_le(s@, b) == count_lt(s@, b) + if s@.contains(b) {
            1int
        } else {
            0int
        },
{
    lemma_count_in_split(s@, a, b);
    lemma_count_eq_sorted(s@, b);
}

/// The algebra's cardinalities: `|A ∪ B| = |A| + |B| - |A ∩ B|`,
/// `|A \ B| = |A| - |A ∩ B|`, `|A △ B| = |A| + |B| - 2|A ∩ B|`, and
/// intersection and union do not depend on the operands' order.
pub proof fn law_algebra_cardinalities(x: &ExpanseSet, y: &ExpanseSet)
    requires
        x.wf(),
        y.wf(),
    ensures
        ({
            let a = key_set(x@);
            let b = key_set(y@);
            let i = a.intersect(b).len();
            &&& a.union(b).len() == x@.len() + y@.len() - i
            &&& a.difference(b).len() == x@.len() - i
            &&& combine(Op::Xor, a, b).len() == x@.len() + y@.len() - 2 * i
            &&& a.intersect(b) == b.intersect(a)
            &&& a.union(b) == b.union(a)
        }),
{
    x.lemma_wf();
    y.lemma_wf();
    let a = key_set(x@);
    let b = key_set(y@);
    vstd::set_lib::lemma_set_intersect_union_lens(a, b);
    vstd::set_lib::lemma_set_difference_len(a, b);
    vstd::set_lib::lemma_set_difference_len(b, a);
    vstd::set_lib::lemma_len_intersect(a, b);
    assert(b.intersect(a) =~= a.intersect(b));
    assert(b.union(a) =~= a.union(b));
    assert(a.difference(b).disjoint(b.difference(a)));
    vstd::set_lib::lemma_set_disjoint_lens(a.difference(b), b.difference(a));
}

/// A materialized result has as many keys as its set: the length of
/// `intersection`, `union`, `difference` or `symmetric_difference` equals
/// the corresponding count.
pub proof fn law_materialized_len(x: &ExpanseSet, y: &ExpanseSet, r: &ExpanseSet, op: Op)
    requires
        x.wf(),
        y.wf(),
        r.wf(),
        key_set(r@) == combine(op, key_set(x@), key_set(y@)),
    ensures
        r@.len() == combine(op, key_set(x@), key_set(y@)).len(),
{
    r.lemma_wf();
}

/// The key order is canonical: two well-formed sets with the same keys
/// have the same model, however they were built.
pub proof fn law_canonical(x: &ExpanseSet, y: &ExpanseSet)
    requires
        x.wf(),
        y.wf(),
        key_set(x@) == key_set(y@),
    ensures
        x@ == y@,
{
    lemma_sorted_unique(x@, y@);
}

impl Default for ExpanseSet {
    fn default() -> (s: ExpanseSet)
        ensures
            s.wf(),
            s@ == Seq::<u64>::empty(),
    {
        ExpanseSet::new()
    }
}

} // verus!
