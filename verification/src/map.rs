//! `ExpanseMap`, an ordered map from `u64` keys to `u64` values.

use vstd::prelude::*;
use crate::sorted::{strictly_sorted, is_partition, lower_bound};
use crate::types::Key;

verus! {

/// The position of `k` in the key sequence `s` (meaningful when present).
pub open spec fn pos_of(s: Seq<u64>, k: u64) -> int {
    choose|i: int| 0 <= i < s.len() && s[i] == k
}

/// In a strictly sorted sequence a present key sits at exactly one position.
pub proof fn lemma_pos_of(s: Seq<u64>, k: u64, i: int)
    requires
        strictly_sorted(s),
        0 <= i < s.len(),
        s[i] == k,
    ensures
        pos_of(s, k) == i,
{
    let j = pos_of(s, k);
    assert(0 <= j < s.len() && s[j] == k);
    if j < i {
        assert(s[j] < s[i]);
    } else if j > i {
        assert(s[i] < s[j]);
    }
}

/// An ordered map from `u64` keys to `u64` values.
pub struct ExpanseMap {
    keys: Vec<u64>,
    vals: Vec<u64>,
}

impl View for ExpanseMap {
    type V = Map<u64, u64>;

    closed spec fn view(&self) -> Map<u64, u64> {
        Map::new(|k: u64| self.keys@.contains(k), |k: u64| self.vals@[pos_of(self.keys@, k)])
    }
}

impl ExpanseMap {
    /// Keys strictly ascending, one value per key.
    pub closed spec fn wf(&self) -> bool {
        strictly_sorted(self.keys@) && self.keys@.len() == self.vals@.len()
    }

    /// The keys in ascending order.
    pub closed spec fn key_seq(&self) -> Seq<u64> {
        self.keys@
    }

    /// The ascending key sequence holds exactly the map's keys.
    pub proof fn lemma_key_seq(&self)
        requires
            self.wf(),
        ensures
            strictly_sorted(self.key_seq()),
            forall|k: u64| self@.contains_key(k) <==> self.key_seq().contains(k),
            self@.dom().finite(),
            self@.dom().len() == self.key_seq().len(),
    {
        crate::sorted::lemma_sorted_set_len(self.keys@);
        assert(self@.dom() =~= self.keys@.to_set());
    }

    /// An empty map.
    pub fn new() -> (m: ExpanseMap)
        ensures
            m.wf(),
            m@ == Map::<u64, u64>::empty(),
    {
        let m = ExpanseMap { keys: Vec::new(), vals: Vec::new() };
        proof {
            assert(m@ =~= Map::<u64, u64>::empty());
        }
        m
    }

    /// Number of entries.
    pub fn len(&self) -> (n: usize)
        requires
            self.wf(),
        ensures
            n == self@.dom().len(),
    {
        proof {
            self.lemma_key_seq();
        }
        self.keys.len()
    }

    /// Bytes held by the entries (16 per entry, saturating).
    pub fn mem_used(&self) -> (b: usize)
        requires
            self.wf(),
        ensures
            b == if 16 * self@.dom().len() <= usize::MAX {
                16 * self@.dom().len()
            } else {
                usize::MAX as nat
            },
    {
        proof {
            self.lemma_key_seq();
        }
        let n = self.keys.len();
        if n <= usize::MAX / 16 {
            n * 16
        } else {
            usize::MAX
        }
    }

    fn find(&self, key: Key) -> (r: (usize, bool))
        requires
            self.wf(),
        ensures
            is_partition(self.keys@, key, r.0 as int),
            r.1 == self.keys@.contains(key),
            r.1 ==> r.0 < self.keys@.len() && self.keys@[r.0 as int] == key,
    {
        let i = lower_bound(&self.keys, key);
        let found = i < self.keys.len() && self.keys[i] == key;
        proof {
            if !found && self.keys@.contains(key) {
                let k = choose|k: int| 0 <= k < self.keys@.len() && self.keys@[k] == key;
                if k < i {
                    assert(self.keys@[k] < key);
                } else if k > i {
                    assert(self.keys@[i as int] < self.keys@[k]);
                }
            }
        }
        (i, found)
    }

    /// Returns `true` if `key` is present.
    pub fn contains_key(&self, key: Key) -> (r: bool)
        requires
            self.wf(),
        ensures
            r == self@.contains_key(key),
    {
        self.find(key).1
    }

    /// The value of `key`, if present.
    pub fn get(&self, key: Key) -> (r: Option<u64>)
        requires
            self.wf(),
        ensures
            r == if self@.contains_key(key) {
                Some(self@[key])
            } else {
                None::<u64>
            },
    {
        let (i, found) = self.find(key);
        if found {
            proof {
                lemma_pos_of(self.keys@, key, i as int);
            }
            Some(self.vals[i])
        } else {
            None
        }
    }

    /// Inserts or overwrites `key`; returns the previous value, if any.
    pub fn insert(&mut self, key: Key, value: u64) -> (r: Option<u64>)
        requires
            old(self).wf(),
        ensures
            final(self).wf(),
            final(self)@ == old(self)@.insert(key, value),
            r == if old(self)@.contains_key(key) {
                Some(old(self)@[key])
            } else {
                None::<u64>
            },
    {
        let (i, found) = self.find(key);
        let ghost ok = self.keys@;
        let ghost ov = self.vals@;
        if found {
            proof {
                lemma_pos_of(ok, key, i as int);
            }
            let prev = self.vals[i];
            self.vals.set(i, value);
            proof {
                assert forall|k: u64| ok.contains(k) implies self.vals@[pos_of(ok, k)] == (if k == key {
                    value
                } else {
                    ov[pos_of(ok, k)]
                }) by {
                    let p = choose|p: int| 0 <= p < ok.len() && ok[p] == k;
                    lemma_pos_of(ok, k, p);
                }
                assert(self@ =~= old(self)@.insert(key, value));
            }
            return Some(prev);
        }
        self.keys.insert(i, key);
        self.vals.insert(i, value);
        proof {
            let s = self.keys@;
            assert forall|p: int, q: int| 0 <= p < q < s.len() implies s[p] < s[q] by {
                if q < i {
                } else if q == i {
                    assert(s[p] == ok[p]);
                } else if p < i {
                    assert(s[q] == ok[q - 1]);
                    if q - 1 > i {
                        assert(ok[i as int] < ok[q - 1]);
                    }
                } else if p == i {
                    assert(s[q] == ok[q - 1]);
                } else {
                    assert(s[p] == ok[p - 1]);
                    assert(s[q] == ok[q - 1]);
                }
            }
            assert forall|k: u64| #[trigger] s.contains(k) == (k == key || ok.contains(k)) by {
                if s.contains(k) {
                    let p = choose|p: int| 0 <= p < s.len() && s[p] == k;
                    if p < i {
                        assert(ok[p] == k);
                    } else if p > i {
                        assert(ok[p - 1] == k);
                    }
                }
                if k == key {
                    assert(s[i as int] == key);
                } else if ok.contains(k) {
                    let p = choose|p: int| 0 <= p < ok.len() && ok[p] == k;
                    if p < i {
                        assert(s[p] == k);
                    } else {
                        assert(s[p + 1] == k);
                    }
                }
            }
            assert forall|k: u64| s.contains(k) implies self.vals@[pos_of(s, k)] == (if k == key {
                value
            } else {
                ov[pos_of(ok, k)]
            }) by {
                let p = choose|p: int| 0 <= p < s.len() && s[p] == k;
                lemma_pos_of(s, k, p);
                if p < i {
                    lemma_pos_of(ok, k, p);
                } else if p > i {
                    lemma_pos_of(ok, k, p - 1);
                }
            }
            assert(self@ =~= old(self)@.insert(key, value));
        }
        None
    }

    /// Removes `key`; returns its value, if it was present.
    pub fn remove(&mut self, key: Key) -> (r: Option<u64>)
        requires
            old(self).wf(),
        ensures
            final(self).wf(),
            final(self)@ == old(self)@.remove(key),
            r == if old(self)@.contains_key(key) {
                Some(old(self)@[key])
            } else {
                None::<u64>
            },
    {
        let (i, found) = self.find(key);
        if !found {
            proof {
                assert(self@ =~= old(self)@.remove(key));
            }
            return None;
        }
        let ghost ok = self.keys@;
        let ghost ov = self.vals@;
        proof {
            lemma_pos_of(ok, key, i as int);
        }
        self.keys.remove(i);
        let v = self.vals.remove(i);
        proof {
            let s = self.keys@;
            assert forall|p: int, q: int| 0 <= p < q < s.len() implies s[p] < s[q] by {
                if q < i {
                } else if p < i {
                    assert(s[q] == ok[q + 1]);
                } else {
                    assert(s[p] == ok[p + 1]);
                    assert(s[q] == ok[q + 1]);
                }
            }
            assert forall|k: u64| #[trigger] s.contains(k) == (k != key && ok.contains(k)) by {
                if s.contains(k) {
                    let p = choose|p: int| 0 <= p < s.len() && s[p] == k;
                    if p < i {
                        assert(ok[p] == k);
                        assert(ok[p] < ok[i as int]);
                    } else {
                        assert(ok[p + 1] == k);
                        assert(ok[i as int] < ok[p + 1]);
                    }
                }
                if k != key && ok.contains(k) {
                    let p = choose|p: int| 0 <= p < ok.len() && ok[p] == k;
                    if p < i {
                        assert(s[p] == k);
                    } else {
                        assert(p != i);
                        assert(s[p - 1] == k);
                    }
                }
            }
            assert forall|k: u64| s.contains(k) implies self.vals@[pos_of(s, k)] == ov[pos_of(ok, k)] by {
                let p = choose|p: int| 0 <= p < s.len() && s[p] == k;
                lemma_pos_of(s, k, p);
                if p < i {
                    lemma_pos_of(ok, k, p);
                } else {
                    lemma_pos_of(ok, k, p + 1);
                }
            }
            assert(self@ =~= old(self)@.remove(key));
        }
        Some(v)
    }

    /// The entries with keys in `[lo, hi]`, in ascending key order.
    pub fn range_entries(&self, lo: Key, hi: Key) -> (r: Vec<(u64, u64)>)
        requires
            self.wf(),
        ensures
            strictly_sorted(r@.map_values(|e: (u64, u64)| e.0)),
            forall|t: int| 0 <= t < r@.len() ==> lo <= #[trigger] r@[t].0 <= hi && self@.contains_key(r@[t].0)
                && self@[r@[t].0] == r@[t].1,
            forall|k: u64| lo <= k <= hi && self@.contains_key(k) ==> exists|t: int| 0 <= t < r@.len() && #[trigger] r@[t].0 == k,
    {
        let mut out: Vec<(u64, u64)> = Vec::new();
        if lo > hi {
            return out;
        }
        let start = lower_bound(&self.keys, lo);
        let mut i = start;
        let n = self.keys.len();
        while i < n && self.keys[i] <= hi
            invariant
                self.wf(),
                n == self.keys@.len(),
                start <= i <= n,
                is_partition(self.keys@, lo, start as int),
                out@.len() == i - start,
                forall|t: int| 0 <= t < out@.len() ==> #[trigger] out@[t] == (self.keys@[start + t], self.vals@[start + t]),
                forall|t: int| start <= t < i ==> self.keys@[t] <= hi,
            decreases n - i,
        {
            out.push((self.keys[i], self.vals[i]));
            i = i + 1;
        }
        proof {
            let ks = out@.map_values(|e: (u64, u64)| e.0);
            assert forall|p: int, q: int| 0 <= p < q < ks.len() implies ks[p] < ks[q] by {
                assert(self.keys@[start + p] < self.keys@[start + q]);
            }
            assert forall|t: int| 0 <= t < out@.len() implies lo <= #[trigger] out@[t].0 <= hi && self@.contains_key(out@[t].0)
                && self@[out@[t].0] == out@[t].1 by {
                lemma_pos_of(self.keys@, self.keys@[start + t], start + t);
                assert(self.keys@.contains(self.keys@[start + t]));
            }
            assert forall|k: u64| lo <= k <= hi && self@.contains_key(k) implies exists|t: int| 0 <= t < out@.len() && #[trigger] out@[t].0 == k by {
                let p = choose|p: int| 0 <= p < self.keys@.len() && self.keys@[p] == k;
                if p < start {
                    assert(self.keys@[p] < lo);
                }
                if p >= i {
                    if i < n {
                        assert(self.keys@[i as int] > hi);
                        if p > i {
                            assert(self.keys@[i as int] < self.keys@[p]);
                        }
                    }
                }
                assert(out@[p - start].0 == k);
            }
        }
        out
    }
}

} // verus!
