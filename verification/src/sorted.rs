//! Strictly ascending key sequences: the mathematical model of an ordered
//! key set, the partition-point search, and the ordered merge behind the
//! set algebra.

use vstd::prelude::*;

verus! {

/// Every element is strictly below every later one.
pub open spec fn strictly_sorted(s: Seq<u64>) -> bool {
    forall|i: int, j: int| 0 <= i < j < s.len() ==> s[i] < s[j]
}

/// Number of elements of `s` strictly below `key`.
pub open spec fn count_lt(s: Seq<u64>, key: u64) -> nat
    decreases s.len(),
{
    if s.len() == 0 {
        0
    } else {
        count_lt(s.drop_last(), key) + if s.last() < key {
            1nat
        } else {
            0nat
        }
    }
}

/// Number of elements of `s` in the inclusive interval `[lo, hi]`.
pub open spec fn count_in(s: Seq<u64>, lo: u64, hi: u64) -> nat
    decreases s.len(),
{
    if s.len() == 0 {
        0
    } else {
        count_in(s.drop_last(), lo, hi) + if lo <= s.last() && s.last() <= hi {
            1nat
        } else {
            0nat
        }
    }
}

/// `i` is the partition point of `s` at `key`: everything before it is
/// below `key`, everything from it on is at least `key`.
pub open spec fn is_partition(s: Seq<u64>, key: u64, i: int) -> bool {
    &&& 0 <= i <= s.len()
    &&& forall|j: int| 0 <= j < i ==> s[j] < key
    &&& forall|j: int| i <= j < s.len() ==> s[j] >= key
}

/// The partition point counts the elements below `key`.
pub proof fn lemma_count_lt_partition(s: Seq<u64>, key: u64, i: int)
    requires
        is_partition(s, key, i),
    ensures
        count_lt(s, key) == i,
    decreases s.len(),
{
    if s.len() > 0 {
        let t = s.drop_last();
        if i == s.len() {
            assert(is_partition(t, key, i - 1));
            lemma_count_lt_partition(t, key, i - 1);
        } else {
            assert(is_partition(t, key, i));
            lemma_count_lt_partition(t, key, i);
        }
    }
}

/// Elements in `[lo, hi]` are those below `hi`, plus the occurrences of
/// `hi`, minus those below `lo`.
pub proof fn lemma_count_in_split(s: Seq<u64>, lo: u64, hi: u64)
    requires
        lo <= hi,
    ensures
        count_in(s, lo, hi) + count_lt(s, lo) == count_lt(s, hi) + count_eq(s, hi),
    decreases s.len(),
{
    if s.len() > 0 {
        lemma_count_in_split(s.drop_last(), lo, hi);
    }
}

/// Number of occurrences of `x` in `s`.
pub open spec fn count_eq(s: Seq<u64>, x: u64) -> nat
    decreases s.len(),
{
    if s.len() == 0 {
        0
    } else {
        count_eq(s.drop_last(), x) + if s.last() == x {
            1nat
        } else {
            0nat
        }
    }
}

/// An absent element occurs zero times.
pub proof fn lemma_count_eq_absent(s: Seq<u64>, x: u64)
    ensures
        !s.contains(x) ==> count_eq(s, x) == 0,
    decreases s.len(),
{
    if s.len() > 0 {
        let t = s.drop_last();
        if !s.contains(x) {
            if t.contains(x) {
                let k = choose|k: int| 0 <= k < t.len() && t[k] == x;
                assert(s[k] == x);
            }
            assert(s.last() != x) by {
                if s.last() == x {
                    assert(s[s.len() - 1] == x);
                }
            }
        }
        lemma_count_eq_absent(t, x);
    }
}

/// In a strictly sorted sequence every element occurs at most once.
pub proof fn lemma_count_eq_sorted(s: Seq<u64>, x: u64)
    requires
        strictly_sorted(s),
    ensures
        count_eq(s, x) == if s.contains(x) {
            1nat
        } else {
            0nat
        },
    decreases s.len(),
{
    lemma_count_eq_absent(s, x);
    if s.len() > 0 {
        let t = s.drop_last();
        lemma_count_eq_sorted(t, x);
        if s.last() == x {
            assert(!t.contains(x)) by {
                if t.contains(x) {
                    let k = choose|k: int| 0 <= k < t.len() && t[k] == x;
                    assert(s[k] < s[s.len() - 1]);
                }
            }
            assert(s[s.len() - 1] == x);
        } else if s.contains(x) {
            let k = choose|k: int| 0 <= k < s.len() && s[k] == x;
            assert(t[k] == x);
        }
    }
}

/// A strictly sorted sequence has no duplicates, so its set has its length.
pub proof fn lemma_sorted_set_len(s: Seq<u64>)
    requires
        strictly_sorted(s),
    ensures
        s.no_duplicates(),
        s.to_set().len() == s.len(),
        s.to_set().finite(),
{
    assert(s.no_duplicates()) by {
        assert forall|i: int, j: int| 0 <= i < s.len() && 0 <= j < s.len() && i != j implies s[i]
            != s[j] by {
            if i < j {
                assert(s[i] < s[j]);
            } else {
                assert(s[j] < s[i]);
            }
        }
    }
    s.unique_seq_to_set();
    vstd::seq_lib::seq_to_set_is_finite(s);
}

/// Two strictly sorted sequences with the same elements are equal.
pub proof fn lemma_sorted_unique(a: Seq<u64>, b: Seq<u64>)
    requires
        strictly_sorted(a),
        strictly_sorted(b),
        a.to_set() == b.to_set(),
    ensures
        a == b,
    decreases a.len(),
{
    lemma_sorted_set_len(a);
    lemma_sorted_set_len(b);
    assert(a.len() == b.len());
    if a.len() > 0 {
        let n = a.len() - 1;
        // The last element of each is the maximum of the common set.
        assert(a.to_set().contains(b[n]));
        assert(b.to_set().contains(a[n]));
        assert(a.contains(b[n]));
        assert(b.contains(a[n]));
        let ka = choose|k: int| 0 <= k < a.len() && a[k] == b[n];
        let kb = choose|k: int| 0 <= k < b.len() && b[k] == a[n];
        assert(a[n] >= b[n]) by {
            if ka < n {
                assert(a[ka] < a[n]);
            }
        }
        assert(b[n] >= a[n]) by {
            if kb < n {
                assert(b[kb] < b[n]);
            }
        }
        let ta = a.drop_last();
        let tb = b.drop_last();
        assert(ta.to_set() =~= tb.to_set()) by {
            assert forall|x: u64| ta.to_set().contains(x) implies tb.to_set().contains(x) by {
                let k = choose|k: int| 0 <= k < ta.len() && ta[k] == x;
                assert(a.contains(x));
                assert(a.to_set().contains(x));
                assert(b.contains(x));
                let k2 = choose|k2: int| 0 <= k2 < b.len() && b[k2] == x;
                assert(x < a[n]);
                if k2 == n {
                    assert(false);
                }
                assert(tb[k2] == x);
            }
            assert forall|x: u64| tb.to_set().contains(x) implies ta.to_set().contains(x) by {
                let k = choose|k: int| 0 <= k < tb.len() && tb[k] == x;
                assert(b.contains(x));
                assert(b.to_set().contains(x));
                assert(a.contains(x));
                let k2 = choose|k2: int| 0 <= k2 < a.len() && a[k2] == x;
                assert(x < b[n]);
                if k2 == n {
                    assert(false);
                }
                assert(ta[k2] == x);
            }
        }
        lemma_sorted_unique(ta, tb);
        assert(a =~= ta.push(a[n]));
        assert(b =~= tb.push(b[n]));
    }
}

/// The partition point of a strictly sorted vector at `key`.
pub fn lower_bound(v: &Vec<u64>, key: u64) -> (i: usize)
    requires
        strictly_sorted(v@),
    ensures
        is_partition(v@, key, i as int),
{
    let mut lo: usize = 0;
    let mut hi: usize = v.len();
    while lo < hi
        invariant
            0 <= lo <= hi <= v@.len(),
            strictly_sorted(v@),
            forall|j: int| 0 <= j < lo ==> v@[j] < key,
            forall|j: int| hi <= j < v@.len() ==> v@[j] >= key,
        decreases hi - lo,
    {
        let mid = lo + (hi - lo) / 2;
        if v[mid] < key {
            lo = mid + 1;
        } else {
            hi = mid;
        }
    }
    lo
}

/// Which side of a two-set combination keeps an element.
#[derive(Clone, Copy, Debug, PartialEq, Eq, Structural)]
pub enum Op {
    /// Intersection: in both.
    And,
    /// Union: in either.
    Or,
    /// Difference: in the first only.
    Diff,
    /// Symmetric difference: in exactly one.
    Xor,
}

/// Whether an element present in the first / second operand survives `op`.
pub open spec fn keeps(op: Op, in_a: bool, in_b: bool) -> bool {
    match op {
        Op::And => in_a && in_b,
        Op::Or => in_a || in_b,
        Op::Diff => in_a && !in_b,
        Op::Xor => in_a != in_b,
    }
}

/// The set that `op` makes of two sets.
pub open spec fn combine(op: Op, a: Set<u64>, b: Set<u64>) -> Set<u64> {
    match op {
        Op::And => a.intersect(b),
        Op::Or => a.union(b),
        Op::Diff => a.difference(b),
        Op::Xor => a.difference(b).union(b.difference(a)),
    }
}

fn keep(op: Op, in_a: bool, in_b: bool) -> (r: bool)
    ensures
        r == keeps(op, in_a, in_b),
{
    match op {
        Op::And => in_a && in_b,
        Op::Or => in_a || in_b,
        Op::Diff => in_a && !in_b,
        Op::Xor => in_a != in_b,
    }
}

/// The invariant of the ordered merge after consuming `i` elements of `a`
/// and `j` of `b`, with `out` the survivors so far.
pub open spec fn merge_inv(a: Seq<u64>, b: Seq<u64>, op: Op, i: int, j: int, out: Seq<u64>) -> bool {
    &&& strictly_sorted(a)
    &&& strictly_sorted(b)
    &&& 0 <= i <= a.len()
    &&& 0 <= j <= b.len()
    &&& strictly_sorted(out)
    &&& forall|k: int, l: int| 0 <= k < i && j <= l < b.len() ==> a[k] < b[l]
    &&& forall|k: int, l: int| 0 <= l < j && i <= k < a.len() ==> b[l] < a[k]
    &&& forall|x: u64|
        out.contains(x) <==> ((a.take(i).contains(x) || b.take(j).contains(x)) && keeps(
            op,
            a.contains(x),
            b.contains(x),
        ))
    &&& forall|t: int, k: int| 0 <= t < out.len() && i <= k < a.len() ==> out[t] < a[k]
    &&& forall|t: int, l: int| 0 <= t < out.len() && j <= l < b.len() ==> out[t] < b[l]
}

proof fn lemma_not_in_sorted_below(s: Seq<u64>, x: u64, from: int)
    requires
        strictly_sorted(s),
        0 <= from <= s.len(),
        forall|k: int| 0 <= k < from ==> s[k] < x,
        from < s.len() ==> x < s[from],
    ensures
        !s.contains(x),
{
    if s.contains(x) {
        let k = choose|k: int| 0 <= k < s.len() && s[k] == x;
        if k >= from {
            assert(s[from] <= s[k]) by {
                if k > from {
                    assert(s[from] < s[k]);
                }
            }
        }
    }
}

/// One merge step consumes `x` (from `a`, from `b`, or from both).
proof fn lemma_merge_step(
    a: Seq<u64>,
    b: Seq<u64>,
    op: Op,
    i: int,
    j: int,
    out: Seq<u64>,
    ni: int,
    nj: int,
    x: u64,
)
    requires
        merge_inv(a, b, op, i, j, out),
        (ni == i + 1 && i < a.len() && a[i] == x) || (ni == i && (i == a.len() || x < a[i])),
        (nj == j + 1 && j < b.len() && b[j] == x) || (nj == j && (j == b.len() || x < b[j])),
        ni + nj > i + j,
    ensures
        a.contains(x) == (ni == i + 1),
        b.contains(x) == (nj == j + 1),
        merge_inv(
            a,
            b,
            op,
            ni,
            nj,
            if keeps(op, ni == i + 1, nj == j + 1) {
                out.push(x)
            } else {
                out
            },
        ),
{
    // Membership of x in each operand.
    if ni == i + 1 {
        assert(a[i] == x);
        assert(a.contains(x));
    } else {
        assert forall|k: int| 0 <= k < i implies a[k] < x by {
            if nj == j + 1 {
                assert(a[k] < b[j]);
            } else {
                // x comes from b, which it must since ni + nj > i + j
                assert(false);
            }
        }
        lemma_not_in_sorted_below(a, x, i);
    }
    if nj == j + 1 {
        assert(b[j] == x);
        assert(b.contains(x));
    } else {
        assert forall|l: int| 0 <= l < j implies b[l] < x by {
            assert(ni == i + 1);
            assert(b[l] < a[i]);
        }
        lemma_not_in_sorted_below(b, x, j);
    }
    let in_a = ni == i + 1;
    let in_b = nj == j + 1;
    let nout = if keeps(op, in_a, in_b) {
        out.push(x)
    } else {
        out
    };
    // out stays below the next unconsumed elements.
    assert forall|t: int, k: int| 0 <= t < nout.len() && ni <= k < a.len() implies nout[t] < a[k] by {
        if t < out.len() {
            assert(out[t] < a[k]);
        } else {
            if in_a {
                assert(a[i] < a[k]);
            } else {
                assert(x < a[i]);
                if k > i {
                    assert(a[i] < a[k]);
                }
            }
        }
    }
    assert forall|t: int, l: int| 0 <= t < nout.len() && nj <= l < b.len() implies nout[t] < b[l] by {
        if t < out.len() {
            assert(out[t] < b[l]);
        } else {
            if in_b {
                assert(b[j] < b[l]);
            } else {
                assert(x < b[j]);
                if l > j {
                    assert(b[j] < b[l]);
                }
            }
        }
    }
    // Sortedness of the output.
    assert forall|p: int, q: int| 0 <= p < q < nout.len() implies nout[p] < nout[q] by {
        if q < out.len() {
        } else {
            if in_a {
                assert(out[p] < a[i]);
            } else {
                assert(out[p] < b[j]);
            }
        }
    }
    // Cross ordering of the consumed prefixes.
    assert forall|k: int, l: int| 0 <= k < ni && nj <= l < b.len() implies a[k] < b[l] by {
        if k < i {
            if l >= j {
                assert(a[k] < b[l]);
            }
        } else {
            assert(k == i && in_a);
            if in_b {
                assert(b[j] < b[l]);
            } else {
                assert(x < b[j]);
                if l > j {
                    assert(b[j] < b[l]);
                }
            }
        }
    }
    assert forall|k: int, l: int| 0 <= l < nj && ni <= k < a.len() implies b[l] < a[k] by {
        if l < j {
            if k >= i {
                assert(b[l] < a[k]);
            }
        } else {
            assert(l == j && in_b);
            if in_a {
                assert(a[i] < a[k]);
            } else {
                assert(x < a[i]);
                if k > i {
                    assert(a[i] < a[k]);
                }
            }
        }
    }
    // Membership bookkeeping.
    assert forall|y: u64|
        nout.contains(y) <==> ((a.take(ni).contains(y) || b.take(nj).contains(y)) && keeps(
            op,
            a.contains(y),
            b.contains(y),
        )) by {
        if y == x {
            if in_a {
                assert(a.take(ni)[i] == x);
            }
            if in_b {
                assert(b.take(nj)[j] == x);
            }
            if keeps(op, in_a, in_b) {
                assert(nout[nout.len() - 1] == x);
            } else {
                if out.contains(x) {
                    let t = choose|t: int| 0 <= t < out.len() && out[t] == x;
                    if in_a {
                        assert(out[t] < a[ni] || ni == a.len());
                        assert(out[t] < x) by {
                            assert(a.take(i).contains(x) || b.take(j).contains(x));
                            if a.take(i).contains(x) {
                                let k = choose|k: int| 0 <= k < i && a.take(i)[k] == x;
                                assert(a[k] < a[i]);
                            } else {
                                let l = choose|l: int| 0 <= l < j && b.take(j)[l] == x;
                                assert(b[l] < a[i]);
                            }
                        }
                    } else {
                        assert(in_b);
                        assert(a.take(i).contains(x) || b.take(j).contains(x));
                        if a.take(i).contains(x) {
                            let k = choose|k: int| 0 <= k < i && a.take(i)[k] == x;
                            assert(a[k] < b[j]);
                        } else {
                            let l = choose|l: int| 0 <= l < j && b.take(j)[l] == x;
                            assert(b[l] < b[j]);
                        }
                    }
                }
            }
        } else {
            if a.take(ni).contains(y) {
                let k = choose|k: int| 0 <= k < ni && a.take(ni)[k] == y;
                assert(k < i);
                assert(a.take(i)[k] == y);
            }
            if b.take(nj).contains(y) {
                let l = choose|l: int| 0 <= l < nj && b.take(nj)[l] == y;
                assert(l < j);
                assert(b.take(j)[l] == y);
            }
            if a.take(i).contains(y) {
                let k = choose|k: int| 0 <= k < i && a.take(i)[k] == y;
                assert(a.take(ni)[k] == y);
            }
            if b.take(j).contains(y) {
                let l = choose|l: int| 0 <= l < j && b.take(j)[l] == y;
                assert(b.take(nj)[l] == y);
            }
            if nout.contains(y) {
                let t = choose|t: int| 0 <= t < nout.len() && nout[t] == y;
                assert(t < out.len());
                assert(out.contains(y));
            }
            if out.contains(y) {
                let t = choose|t: int| 0 <= t < out.len() && out[t] == y;
                assert(nout[t] == y);
            }
        }
    }
}

/// Merges two strictly ascending sequences under `op`: the result is
/// strictly ascending and holds exactly the elements `op` keeps.
pub fn merge_sorted(a: &Vec<u64>, b: &Vec<u64>, op: Op) -> (out: Vec<u64>)
    requires
        strictly_sorted(a@),
        strictly_sorted(b@),
    ensures
        strictly_sorted(out@),
        out@.to_set() == combine(op, a@.to_set(), b@.to_set()),
{
    let mut out: Vec<u64> = Vec::new();
    let mut i: usize = 0;
    let mut j: usize = 0;
    proof {
        assert(a@.take(0) =~= Seq::<u64>::empty());
        assert(b@.take(0) =~= Seq::<u64>::empty());
    }
    while i < a.len() || j < b.len()
        invariant
            merge_inv(a@, b@, op, i as int, j as int, out@),
        decreases a@.len() + b@.len() - i - j,
    {
        let ghost oi = i as int;
        let ghost oj = j as int;
        let ghost oout = out@;
        let x: u64;
        let in_a: bool;
        let in_b: bool;
        if i < a.len() && (j == b.len() || a[i] < b[j]) {
            x = a[i];
            in_a = true;
            in_b = false;
        } else if j < b.len() && (i == a.len() || b[j] < a[i]) {
            x = b[j];
            in_a = false;
            in_b = true;
        } else {
            x = a[i];
            in_a = true;
            in_b = true;
        }
        let ni: usize = if in_a {
            i + 1
        } else {
            i
        };
        let nj: usize = if in_b {
            j + 1
        } else {
            j
        };
        proof {
            lemma_merge_step(a@, b@, op, oi, oj, oout, ni as int, nj as int, x);
        }
        if keep(op, in_a, in_b) {
            out.push(x);
        }
        i = ni;
        j = nj;
    }
    proof {
        assert(a@.take(a@.len() as int) =~= a@);
        assert(b@.take(b@.len() as int) =~= b@);
        assert(out@.to_set() =~= combine(op, a@.to_set(), b@.to_set()));
    }
    out
}

/// Counts the elements common to two strictly ascending sequences by a
/// lockstep walk, without building the intersection.
pub fn sorted_intersection_count(a: &[u64], b: &[u64]) -> (n: u64)
    requires
        strictly_sorted(a@),
        strictly_sorted(b@),
    ensures
        n as nat == a@.to_set().intersect(b@.to_set()).len(),
{
    let ghost mut out: Seq<u64> = Seq::empty();
    let mut n: u64 = 0;
    let mut i: usize = 0;
    let mut j: usize = 0;
    proof {
        assert(a@.take(0) =~= Seq::<u64>::empty());
        assert(b@.take(0) =~= Seq::<u64>::empty());
    }
    while i < a.len() && j < b.len()
        invariant
            merge_inv(a@, b@, Op::And, i as int, j as int, out),
            n as nat == out.len(),
            n <= i,
            i <= a@.len(),
        decreases a@.len() + b@.len() - i - j,
    {
        if a[i] < b[j] {
            proof {
                lemma_merge_step(a@, b@, Op::And, i as int, j as int, out, i + 1, j as int, a@[i as int]);
            }
            i = i + 1;
        } else if b[j] < a[i] {
            proof {
                lemma_merge_step(a@, b@, Op::And, i as int, j as int, out, i as int, j + 1, b@[j as int]);
            }
            j = j + 1;
        } else {
            proof {
                lemma_merge_step(a@, b@, Op::And, i as int, j as int, out, i + 1, j + 1, a@[i as int]);
                out = out.push(a@[i as int]);
            }
            n = n + 1;
            i = i + 1;
            j = j + 1;
        }
    }
    proof {
        // The rest of either operand has no partner left in the other.
        assert forall|x: u64| out.contains(x) <==> a@.to_set().intersect(b@.to_set()).contains(x) by {
            if a@.contains(x) && b@.contains(x) {
                let k = choose|k: int| 0 <= k < a@.len() && a@[k] == x;
                let l = choose|l: int| 0 <= l < b@.len() && b@[l] == x;
                if k >= i {
                    // j == b.len(): every b element is below a[i] <= a[k]
                    if j == b@.len() {
                        assert(b@[l] < a@[k]);
                    } else {
                        assert(i == a@.len());
                    }
                } else if l >= j {
                    assert(a@[k] < b@[l]);
                } else {
                    assert(a@.take(i as int)[k] == x);
                }
            }
        }
        assert(out.to_set() =~= a@.to_set().intersect(b@.to_set()));
        lemma_sorted_set_len(out);
    }
    n
}

} // verus!
