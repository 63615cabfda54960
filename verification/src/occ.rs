//! The optimistic concurrency protocol: the 64-bit tree-level seqlock and
//! the 32-bit per-node lock word, the lock sets and node locks a writer
//! takes along a path, the writer gate that quiescence closes, and the
//! epoch collector that defers frees until no reader can see them.
//!
//! Both follow one rule: even = stable, odd = mutation in progress. A node
//! word additionally carries the [`OBSOLETE`] flag once its node has been
//! replaced; an obsolete word stays odd forever, so every later sample,
//! validation or lock attempt on it fails and the reader restarts.
//!
//! Each operation is one step of the protocol on the words' values; the
//! memory ordering that makes a step visible to other threads, and the
//! sharing of the words between threads, are the caller's concern.

use vstd::prelude::*;

verus! {

/// A 64-bit seqlock word: even = stable, odd = mutation in progress.
#[derive(Debug, Default)]
pub struct SeqVersion {
    v: u64,
}

impl View for SeqVersion {
    type V = u64;

    closed spec fn view(&self) -> u64 {
        self.v
    }
}

impl SeqVersion {
    /// A fresh, stable version.
    pub fn new() -> (s: SeqVersion)
        ensures
            s@ == 0,
    {
        SeqVersion { v: 0 }
    }

    /// Writer: marks a mutation in progress (even → odd).
    pub fn begin(&mut self)
        requires
            old(self)@ % 2 == 0,
        ensures
            final(self)@ == old(self)@ + 1,
    {
        self.v = self.v + 1;
    }

    /// Writer: marks the mutation complete (odd → even).
    pub fn end(&mut self)
        requires
            old(self)@ % 2 == 1,
            old(self)@ < u64::MAX,
        ensures
            final(self)@ == old(self)@ + 1,
    {
        self.v = self.v + 1;
    }

    /// Attempts to take the word as a write lock (even → odd): `Ok(even)`
    /// on success, `Err(current)` if it is held.
    pub fn try_lock(&mut self) -> (r: Result<u64, u64>)
        ensures
            old(self)@ % 2 == 0 ==> r == Ok::<u64, u64>(old(self)@) && final(self)@ == old(self)@ + 1,
            old(self)@ % 2 == 1 ==> r == Err::<u64, u64>(old(self)@) && final(self)@ == old(self)@,
    {
        let cur = self.v;
        if cur % 2 != 0 {
            return Err(cur);
        }
        self.v = cur + 1;
        Ok(cur)
    }

    /// Releases the write lock: advances to `old_v + 2` if `modified`, else
    /// restores `old_v` so readers need not retry.
    pub fn unlock(&mut self, old_v: u64, modified: bool)
        requires
            old(self)@ % 2 == 1,
        ensures
            final(self)@ == if modified {
                crate::occ_stats::wadd(old_v, 2)
            } else {
                old_v
            },
    {
        self.v = if modified {
            old_v.wrapping_add(2)
        } else {
            old_v
        };
    }

    /// Reader: samples a stable version; a caller on the writer's own
    /// thread must sample outside an open bracket.
    pub fn sample(&self) -> (r: u64)
        requires
            self@ % 2 == 0,
        ensures
            r == self@,
    {
        self.v
    }

    /// Reader: true when no mutation began since `snapshot` was taken.
    pub fn validate(&self, snapshot: u64) -> (r: bool)
        ensures
            r == (self@ == snapshot),
    {
        self.v == snapshot
    }
}

/// Version-word flag of a node that has been replaced or removed.
pub const OBSOLETE: u32 = 0x8000_0000;

/// The obsolete flag is set in `v`.
pub open spec fn is_obsolete(v: u32) -> bool {
    v & OBSOLETE != 0
}

/// `v` is free to lock: even and not obsolete.
pub open spec fn lockable(v: u32) -> bool {
    v % 2 == 0 && !is_obsolete(v)
}

proof fn lemma_obsolete_bits(cur: u32)
    ensures
        (OBSOLETE | cur | 1) % 2 == 1,
        is_obsolete(OBSOLETE | cur | 1),
        (OBSOLETE | cur) % 2 == cur % 2,
        is_obsolete(OBSOLETE | cur),
        cur % 2 == 1 ==> (OBSOLETE | cur) % 2 == 1,
{
    assert((0x8000_0000u32 | cur | 1) % 2 == 1) by (bit_vector);
    assert((0x8000_0000u32 | cur | 1) & 0x8000_0000u32 != 0) by (bit_vector);
    assert((0x8000_0000u32 | cur) % 2 == cur % 2) by (bit_vector);
    assert((0x8000_0000u32 | cur) & 0x8000_0000u32 != 0) by (bit_vector);
}

/// Writer: marks a node about to become unreachable as obsolete (stays odd).
pub fn version_obsolete(v: &mut u32)
    requires
        lockable(*old(v)),
    ensures
        *final(v) == OBSOLETE | *old(v) | 1,
        is_obsolete(*final(v)),
        *final(v) % 2 == 1,
{
    proof {
        lemma_obsolete_bits(*v);
    }
    *v = OBSOLETE | *v | 1;
}

/// Writer: marks a node mutation in progress (even → odd).
pub fn version_begin(v: &mut u32)
    requires
        *old(v) % 2 == 0,
    ensures
        *final(v) == *old(v) + 1,
{
    *v = *v + 1;
}

/// Writer: marks the node mutation complete (odd → even), wrapping at `2^32`.
pub fn version_end(v: &mut u32)
    requires
        *old(v) % 2 == 1,
    ensures
        *final(v) == crate::occ32::next_version(*old(v)),
{
    if *v == u32::MAX {
        *v = 0;
    } else {
        *v = *v + 1;
    }
}

/// Attempts to lock a node word: `Ok(even)` when it was even and not
/// obsolete (the word becomes odd), `Err(current)` otherwise.
pub fn version_try_lock(v: &mut u32) -> (r: Result<u32, u32>)
    ensures
        lockable(*old(v)) ==> r == Ok::<u32, u32>(*old(v)) && *final(v) == *old(v) + 1,
        !lockable(*old(v)) ==> r == Err::<u32, u32>(*old(v)) && *final(v) == *old(v),
{
    let cur = *v;
    if cur % 2 != 0 || (cur & OBSOLETE) != 0 {
        return Err(cur);
    }
    *v = cur + 1;
    Ok(cur)
}

/// Attempts to lock a node word at the snapshot `expected` taken during the
/// descent: succeeds only if the word still equals that even, non-obsolete
/// snapshot.
pub fn version_try_lock_expect(v: &mut u32, expected: u32) -> (r: Result<u32, u32>)
    ensures
        !lockable(expected) ==> r == Err::<u32, u32>(expected) && *final(v) == *old(v),
        lockable(expected) && *old(v) == expected ==> r == Ok::<u32, u32>(expected) && *final(v)
            == expected + 1,
        lockable(expected) && *old(v) != expected ==> r == Err::<u32, u32>(*old(v)) && *final(v)
            == *old(v),
{
    if expected % 2 != 0 || (expected & OBSOLETE) != 0 {
        return Err(expected);
    }
    let cur = *v;
    if cur != expected {
        return Err(cur);
    }
    *v = expected + 1;
    Ok(expected)
}

/// Marks a locked node obsolete; the flag survives the unlock.
pub fn version_obsolete_locked(v: &mut u32)
    requires
        *old(v) % 2 == 1,
    ensures
        *final(v) == OBSOLETE | *old(v),
        is_obsolete(*final(v)),
        *final(v) % 2 == 1,
{
    proof {
        lemma_obsolete_bits(*v);
    }
    *v = OBSOLETE | *v;
}

/// Releases a node lock: an obsolete word stays as it is; otherwise the word
/// advances to `old_v + 2` if `modified`, or returns to `old_v`.
pub fn version_unlock(v: &mut u32, old_v: u32, modified: bool)
    requires
        *old(v) % 2 == 1,
    ensures
        is_obsolete(*old(v)) ==> *final(v) == *old(v),
        !is_obsolete(*old(v)) ==> *final(v) == if modified {
            crate::occ32::wrap_add2(old_v)
        } else {
            old_v
        },
{
    let cur = *v;
    if cur & OBSOLETE != 0 {
        return;
    }
    *v = if modified {
        old_v.wrapping_add(2)
    } else {
        old_v
    };
}

/// A lock taken and released with `modified` moves a word from its even
/// snapshot by exactly two, so the snapshot no longer validates; released
/// unmodified, the word is back at its snapshot.
pub proof fn law_lock_unlock(snapshot: u32, modified: bool)
    requires
        lockable(snapshot),
    ensures
        !is_obsolete((snapshot + 1) as u32),
        modified ==> crate::occ32::wrap_add2(snapshot) != snapshot,
        modified ==> crate::occ32::wrap_add2(snapshot) % 2 == 0,
{
    assert(((snapshot + 1) as u32) & 0x8000_0000u32 == 0) by (bit_vector)
        requires
            snapshot & 0x8000_0000u32 == 0,
            snapshot % 2 == 0,
    ;
}

/// Once a word is obsolete, no lock attempt succeeds and no unlock clears it.
pub proof fn law_obsolete_is_sticky(v: u32)
    requires
        is_obsolete(v),
    ensures
        !lockable(v),
{
}

// ---------------------------------------------------------------------------
// Engine boundaries: brackets that act only when the tree is shared
// ---------------------------------------------------------------------------

/// Opens a node's bracket when `OCC`: word `i` of the node version words
/// goes even → odd. A tree that is not shared leaves it alone.
pub fn version_begin_if_ptr<const OCC: bool>(cells: &mut Vec<u32>, i: usize)
    requires
        i < old(cells)@.len(),
        OCC ==> old(cells)@[i as int] % 2 == 0,
    ensures
        final(cells)@ == if OCC {
            old(cells)@.update(i as int, (old(cells)@[i as int] + 1) as u32)
        } else {
            old(cells)@
        },
{
    if OCC {
        let mut w = cells[i];
        version_begin(&mut w);
        cells.set(i, w);
    }
}

/// Closes the bracket opened by [`version_begin_if_ptr`]: odd → even,
/// wrapping at `2^32`.
pub fn version_end_if_ptr<const OCC: bool>(cells: &mut Vec<u32>, i: usize)
    requires
        i < old(cells)@.len(),
        OCC ==> old(cells)@[i as int] % 2 == 1,
    ensures
        final(cells)@ == if OCC {
            old(cells)@.update(i as int, crate::occ32::next_version(old(cells)@[i as int]))
        } else {
            old(cells)@
        },
{
    if OCC {
        let mut w = cells[i];
        version_end(&mut w);
        cells.set(i, w);
    }
}

/// Opens the tree-level bracket for a root-state write, when `OCC` and
/// when the engine rather than its wrapper covers root state.
pub fn tree_begin_if<const OCC: bool>(covers_root: bool, tree: &mut SeqVersion)
    requires
        OCC && covers_root ==> old(tree)@ % 2 == 0,
    ensures
        final(tree)@ == if OCC && covers_root {
            (old(tree)@ + 1) as u64
        } else {
            old(tree)@
        },
{
    if OCC && covers_root {
        tree.begin();
    }
}

/// Closes the tree-level bracket opened by [`tree_begin_if`].
pub fn tree_end_if<const OCC: bool>(covers_root: bool, tree: &mut SeqVersion)
    requires
        OCC && covers_root ==> old(tree)@ % 2 == 1 && old(tree)@ < u64::MAX,
    ensures
        final(tree)@ == if OCC && covers_root {
            (old(tree)@ + 1) as u64
        } else {
            old(tree)@
        },
{
    if OCC && covers_root {
        tree.end();
    }
}

/// Marks node word `i` obsolete when `OCC`.
pub fn version_obsolete_if<const OCC: bool>(cells: &mut Vec<u32>, i: usize)
    requires
        i < old(cells)@.len(),
        OCC ==> lockable(old(cells)@[i as int]),
    ensures
        final(cells)@ == if OCC {
            old(cells)@.update(i as int, OBSOLETE | old(cells)@[i as int] | 1)
        } else {
            old(cells)@
        },
{
    if OCC {
        let mut w = cells[i];
        version_obsolete(&mut w);
        cells.set(i, w);
    }
}

/// Tries to lock node word `i` when `OCC`; a tree that is not shared
/// always succeeds with version 0 and touches nothing.
pub fn version_try_lock_if_ptr<const OCC: bool>(cells: &mut Vec<u32>, i: usize) -> (r: Result<u32, u32>)
    requires
        i < old(cells)@.len(),
    ensures
        !OCC ==> r == Ok::<u32, u32>(0) && final(cells)@ == old(cells)@,
        OCC && lockable(old(cells)@[i as int]) ==> r == Ok::<u32, u32>(old(cells)@[i as int]) && final(cells)@
            == old(cells)@.update(i as int, (old(cells)@[i as int] + 1) as u32),
        OCC && !lockable(old(cells)@[i as int]) ==> r == Err::<u32, u32>(old(cells)@[i as int]) && final(cells)@
            == old(cells)@,
{
    if OCC {
        let mut w = cells[i];
        let r = version_try_lock(&mut w);
        cells.set(i, w);
        proof {
            if !lockable(old(cells)@[i as int]) {
                assert(cells@ =~= old(cells)@);
            }
        }
        r
    } else {
        Ok(0)
    }
}

/// Releases node word `i` when `OCC`, as [`version_unlock`] does.
pub fn version_unlock_if_ptr<const OCC: bool>(cells: &mut Vec<u32>, i: usize, old_v: u32, modified: bool)
    requires
        i < old(cells)@.len(),
        OCC ==> old(cells)@[i as int] % 2 == 1,
    ensures
        final(cells)@ == if OCC {
            old(cells)@.update(
                i as int,
                node_release(old(cells)@[i as int], old_v, modified, is_obsolete(old(cells)@[i as int])),
            )
        } else {
            old(cells)@
        },
{
    if OCC {
        let mut w = cells[i];
        version_unlock(&mut w, old_v, modified);
        cells.set(i, w);
    }
}

/// Which version word brackets a store: the tree-level word for root
/// state, or the word of the branch node whose allocation holds the stored
/// address, by its index among the node version words.
#[derive(Clone, Copy, Debug, PartialEq, Eq, Structural)]
pub enum Cover {
    /// The tree-level word.
    Tree,
    /// A branch node's word.
    Node(usize),
}

impl Cover {
    /// The node word this cover names lies among `n` words.
    pub open spec fn fits(self, n: nat) -> bool {
        match self {
            Cover::Tree => true,
            Cover::Node(i) => i < n,
        }
    }

    /// Opens the bracket when `OCC`. In the nested mode the frame's stores
    /// are already under the word its parent opened around the descent,
    /// so nothing happens there.
    pub fn begin_if<const OCC: bool, const NESTED: bool>(
        self,
        covers_root: bool,
        tree: &mut SeqVersion,
        cells: &mut Vec<u32>,
    )
        requires
            self.fits(old(cells)@.len()),
            OCC && !NESTED && self == Cover::Tree && covers_root ==> old(tree)@ % 2 == 0,
            OCC && !NESTED ==> (self matches Cover::Node(i) ==> old(cells)@[i as int] % 2 == 0),
        ensures
            NESTED ==> final(tree)@ == old(tree)@ && final(cells)@ == old(cells)@,
            !NESTED ==> match self {
                Cover::Tree => final(cells)@ == old(cells)@ && final(tree)@ == if OCC && covers_root {
                    (old(tree)@ + 1) as u64
                } else {
                    old(tree)@
                },
                Cover::Node(i) => final(tree)@ == old(tree)@ && final(cells)@ == if OCC {
                    old(cells)@.update(i as int, (old(cells)@[i as int] + 1) as u32)
                } else {
                    old(cells)@
                },
            },
    {
        if NESTED {
            return;
        }
        match self {
            Cover::Tree => tree_begin_if::<OCC>(covers_root, tree),
            Cover::Node(i) => version_begin_if_ptr::<OCC>(cells, i),
        }
    }

    /// Closes the bracket when `OCC` (nothing in the nested mode, as
    /// [`Self::begin_if`]).
    pub fn end_if<const OCC: bool, const NESTED: bool>(
        self,
        covers_root: bool,
        tree: &mut SeqVersion,
        cells: &mut Vec<u32>,
    )
        requires
            self.fits(old(cells)@.len()),
            OCC && !NESTED && self == Cover::Tree && covers_root ==> old(tree)@ % 2 == 1 && old(tree)@ < u64::MAX,
            OCC && !NESTED ==> (self matches Cover::Node(i) ==> old(cells)@[i as int] % 2 == 1),
        ensures
            NESTED ==> final(tree)@ == old(tree)@ && final(cells)@ == old(cells)@,
            !NESTED ==> match self {
                Cover::Tree => final(cells)@ == old(cells)@ && final(tree)@ == if OCC && covers_root {
                    (old(tree)@ + 1) as u64
                } else {
                    old(tree)@
                },
                Cover::Node(i) => final(tree)@ == old(tree)@ && final(cells)@ == if OCC {
                    old(cells)@.update(i as int, crate::occ32::next_version(old(cells)@[i as int]))
                } else {
                    old(cells)@
                },
            },
    {
        if NESTED {
            return;
        }
        match self {
            Cover::Tree => tree_end_if::<OCC>(covers_root, tree),
            Cover::Node(i) => version_end_if_ptr::<OCC>(cells, i),
        }
    }

    /// Nested mode only: opens this node's word before the descent into a
    /// child and holds it until [`Self::nest_end`]. Nothing happens on the
    /// tree cover (the wrapper holds that word) or in the brief mode.
    pub fn nest_begin<const OCC: bool, const NESTED: bool>(self, cells: &mut Vec<u32>)
        requires
            self.fits(old(cells)@.len()),
            OCC && NESTED ==> (self matches Cover::Node(i) ==> old(cells)@[i as int] % 2 == 0),
        ensures
            final(cells)@ == match self {
                Cover::Node(i) => if OCC && NESTED {
                    old(cells)@.update(i as int, (old(cells)@[i as int] + 1) as u32)
                } else {
                    old(cells)@
                },
                Cover::Tree => old(cells)@,
            },
    {
        if OCC && NESTED {
            match self {
                Cover::Node(i) => version_begin_if_ptr::<true>(cells, i),
                Cover::Tree => {},
            }
        }
    }

    /// Closes the word opened by [`Self::nest_begin`].
    pub fn nest_end<const OCC: bool, const NESTED: bool>(self, cells: &mut Vec<u32>)
        requires
            self.fits(old(cells)@.len()),
            OCC && NESTED ==> (self matches Cover::Node(i) ==> old(cells)@[i as int] % 2 == 1),
        ensures
            final(cells)@ == match self {
                Cover::Node(i) => if OCC && NESTED {
                    old(cells)@.update(i as int, crate::occ32::next_version(old(cells)@[i as int]))
                } else {
                    old(cells)@
                },
                Cover::Tree => old(cells)@,
            },
    {
        if OCC && NESTED {
            match self {
                Cover::Node(i) => version_end_if_ptr::<true>(cells, i),
                Cover::Tree => {},
            }
        }
    }
}

// ---------------------------------------------------------------------------
// Lock sets along a root-to-leaf path
// ---------------------------------------------------------------------------

/// One lock held by a [`LockSet`].
#[derive(Clone, Copy, Debug, PartialEq, Eq, Structural)]
pub enum LockedTarget {
    /// The tree-level word: its version when acquired, and whether the
    /// holder modified what it guards.
    Tree(u64, bool),
    /// A node word, by its index in the caller's table of node words: its
    /// version when acquired, modified, and marked obsolete.
    Node(usize, u32, bool, bool),
}

/// Most locks one path holds at a time.
pub const LOCK_SET_CAP: usize = 4;

/// The version a held node word is released to: an obsolete word keeps
/// its value; otherwise `old_v + 2` if modified, else `old_v`.
pub open spec fn node_release(cur: u32, old_v: u32, modified: bool, obsolete: bool) -> u32 {
    if obsolete {
        cur
    } else if modified {
        crate::occ32::wrap_add2(old_v)
    } else {
        old_v
    }
}

/// The version the tree word is released to.
pub open spec fn tree_release(old_v: u64, modified: bool) -> u64 {
    if modified {
        crate::occ_stats::wadd(old_v, 2)
    } else {
        old_v
    }
}

/// Entry `i` of `h` holds node word `c`.
pub open spec fn holds_cell(h: Seq<LockedTarget>, i: int, c: int) -> bool {
    match h[i] {
        LockedTarget::Node(cc, _, _, _) => cc == c,
        LockedTarget::Tree(_, _) => false,
    }
}

/// Entry `i` of `h` holds the tree word.
pub open spec fn holds_tree(h: Seq<LockedTarget>, i: int) -> bool {
    h[i] is Tree
}

/// Releasing every lock of `h` took the words from `tree0`, `cells0` to
/// `tree1`, `cells1`: each held word is at its release version, every
/// other word is untouched.
pub open spec fn released(h: Seq<LockedTarget>, tree0: u64, cells0: Seq<u32>, tree1: u64, cells1: Seq<u32>) -> bool {
    &&& cells1.len() == cells0.len()
    &&& forall|i: int|
        0 <= i < h.len() ==> match #[trigger] h[i] {
            LockedTarget::Node(c, v, m, o) => cells1[c as int] == node_release(cells0[c as int], v, m, o),
            LockedTarget::Tree(v, m) => tree1 == tree_release(v, m),
        }
    &&& forall|c: int|
        0 <= c < cells0.len() && (forall|i: int| 0 <= i < h.len() ==> !#[trigger] holds_cell(h, i, c)) ==> cells1[c]
            == cells0[c]
    &&& (forall|i: int| 0 <= i < h.len() ==> !#[trigger] holds_tree(h, i)) ==> tree1 == tree0
}

/// A bounded set of locks acquired top-down along one root-to-leaf path.
/// A failed acquisition releases everything held, unmodified, in reverse
/// order; releasing advances a modified word by two, restores an
/// unmodified one, and leaves an obsolete one obsolete.
pub struct LockSet {
    entries: Vec<LockedTarget>,
}

impl View for LockSet {
    type V = Seq<LockedTarget>;

    /// The held locks, in acquisition order.
    closed spec fn view(&self) -> Seq<LockedTarget> {
        self.entries@
    }
}

impl LockSet {
    /// The set's locks are held on `tree` and `cells`: each held word is
    /// locked at its recorded version (or marked obsolete), no word is held
    /// twice, and there are at most [`LOCK_SET_CAP`] locks.
    pub open spec fn holds(&self, tree: u64, cells: Seq<u32>) -> bool {
        let h = self@;
        &&& h.len() <= LOCK_SET_CAP
        &&& forall|i: int|
            0 <= i < h.len() ==> match #[trigger] h[i] {
                LockedTarget::Tree(v, _) => v % 2 == 0 && tree == v + 1,
                LockedTarget::Node(c, v, _, o) => c < cells.len() && lockable(v) && if o {
                    is_obsolete(cells[c as int]) && cells[c as int] % 2 == 1
                } else {
                    cells[c as int] == v + 1
                },
            }
        &&& forall|i: int, j: int|
            0 <= i < j < h.len() ==> !(#[trigger] holds_tree(h, i) && #[trigger] holds_tree(h, j))
        &&& forall|i: int, j: int, c: int|
            0 <= i < j < h.len() ==> !(#[trigger] holds_cell(h, i, c) && #[trigger] holds_cell(h, j, c))
    }

    /// An empty lock set.
    pub fn new() -> (s: LockSet)
        ensures
            s@ == Seq::<LockedTarget>::empty(),
    {
        LockSet { entries: Vec::new() }
    }

    /// Number of locks held.
    pub fn len(&self) -> (n: usize)
        ensures
            n == self@.len(),
    {
        self.entries.len()
    }

    /// Whether no lock is held.
    pub fn is_empty(&self) -> (b: bool)
        ensures
            b == (self@.len() == 0),
    {
        self.entries.len() == 0
    }

    /// Releases every held lock, last acquired first.
    pub fn unlock_all(&mut self, tree: &mut SeqVersion, cells: &mut Vec<u32>)
        requires
            old(self).holds(old(tree)@, old(cells)@),
        ensures
            final(self)@.len() == 0,
            released(old(self)@, old(tree)@, old(cells)@, final(tree)@, final(cells)@),
    {
        let ghost h = self@;
        let ghost t0 = tree@;
        let ghost c0 = cells@;
        while self.entries.len() > 0
            invariant
                old(self).holds(t0, c0),
                h == old(self)@,
                h.len() <= LOCK_SET_CAP,
                self.entries@ == h.take(self.entries@.len() as int),
                self.entries@.len() <= h.len(),
                cells@.len() == c0.len(),
                forall|i: int|
                    #![trigger h[i]]
                    self.entries@.len() <= i < h.len() ==> match h[i] {
                        LockedTarget::Node(c, v, m, o) => cells@[c as int] == node_release(c0[c as int], v, m, o),
                        LockedTarget::Tree(v, m) => tree@ == tree_release(v, m),
                    },
                forall|c: int|
                    0 <= c < c0.len() && (forall|i: int|
                        self.entries@.len() <= i < h.len() ==> !#[trigger] holds_cell(h, i, c)) ==> cells@[c]
                        == c0[c],
                (forall|i: int| self.entries@.len() <= i < h.len() ==> !#[trigger] holds_tree(h, i)) ==> tree@ == t0,
            decreases self.entries@.len(),
        {
            let k = self.entries.len() - 1;
            let t = self.entries.pop().unwrap();
            proof {
                assert(t == h[k as int]);
                assert(self.entries@ == h.take(k as int));
            }
            match t {
                LockedTarget::Tree(v, m) => {
                    proof {
                        assert(holds_tree(h, k as int));
                        assert forall|i: int| k < i < h.len() implies !#[trigger] holds_tree(h, i) by {
                            assert(holds_tree(h, k as int));
                        }
                        assert(tree@ == t0);
                    }
                    tree.unlock(v, m);
                    proof {
                        assert forall|i: int| k <= i < h.len() implies match #[trigger] h[i] {
                            LockedTarget::Node(c, v, m, o) => cells@[c as int] == node_release(c0[c as int], v, m, o),
                            LockedTarget::Tree(v, m) => tree@ == tree_release(v, m),
                        } by {
                            if i > k && h[i] is Tree {
                                assert(holds_tree(h, k as int) && holds_tree(h, i));
                            }
                        }
                        assert(holds_tree(h, k as int));
                    }
                },
                LockedTarget::Node(c, v, m, o) => {
                    proof {
                        assert(holds_cell(h, k as int, c as int));
                        assert(forall|i: int| k < i < h.len() ==> !(holds_cell(h, k as int, c as int) && holds_cell(h, i, c as int)));
                        assert(cells@[c as int] == c0[c as int]);
                    }
                    let mut w = cells[c];
                    if o {
                        proof {
                            assert(is_obsolete(w));
                            assert((0x8000_0000u32 | w) == w) by (bit_vector)
                                requires
                                    w & 0x8000_0000u32 != 0,
                            ;
                        }
                        version_obsolete_locked(&mut w);
                    } else {
                        proof {
                            law_lock_unlock(v, m);
                        }
                        version_unlock(&mut w, v, m);
                    }
                    cells.set(c, w);
                    proof {
                        assert forall|i: int| k <= i < h.len() implies match #[trigger] h[i] {
                            LockedTarget::Node(c, v, m, o) => cells@[c as int] == node_release(c0[c as int], v, m, o),
                            LockedTarget::Tree(v, m) => tree@ == tree_release(v, m),
                        } by {
                            if i > k {
                                if holds_cell(h, i, c as int) {
                                    assert(holds_cell(h, k as int, c as int) && holds_cell(h, i, c as int));
                                }
                            }
                        }
                        assert forall|cc: int|
                            0 <= cc < c0.len() && (forall|i: int|
                                k <= i < h.len() ==> !#[trigger] holds_cell(h, i, cc)) implies cells@[cc] == c0[cc] by {
                            assert(!holds_cell(h, k as int, cc));
                        }
                        if forall|i: int| k <= i < h.len() ==> !#[trigger] holds_tree(h, i) {
                            assert(forall|i: int| k + 1 <= i < h.len() ==> !#[trigger] holds_tree(h, i));
                        }
                    }
                },
            }
        }
    }

    /// Locks the tree word and records it. If the word is held, releases
    /// every lock of the set, unmodified, and returns the word's value.
    pub fn try_lock_tree(&mut self, tree: &mut SeqVersion, cells: &mut Vec<u32>) -> (r: Result<usize, u64>)
        requires
            old(self).holds(old(tree)@, old(cells)@),
            old(self)@.len() < LOCK_SET_CAP,
        ensures
            old(tree)@ % 2 == 0 ==> {
                &&& r == Ok::<usize, u64>(old(self)@.len() as usize)
                &&& final(self)@ == old(self)@.push(LockedTarget::Tree(old(tree)@, false))
                &&& final(tree)@ == old(tree)@ + 1
                &&& final(cells)@ == old(cells)@
                &&& final(self).holds(final(tree)@, final(cells)@)
            },
            old(tree)@ % 2 == 1 ==> {
                &&& r == Err::<usize, u64>(old(tree)@)
                &&& final(self)@.len() == 0
                &&& released(old(self)@, old(tree)@, old(cells)@, final(tree)@, final(cells)@)
            },
    {
        match tree.try_lock() {
            Ok(v) => {
                let idx = self.entries.len();
                self.entries.push(LockedTarget::Tree(v, false));
                proof {
                    let h = self@;
                    assert forall|i: int, j: int| 0 <= i < j < h.len() implies !(#[trigger] holds_tree(h, i)
                        && #[trigger] holds_tree(h, j)) by {
                        if j == h.len() - 1 && holds_tree(h, i) {
                            assert(old(self)@[i] == h[i]);
                        }
                    }
                    assert forall|i: int, j: int, c: int| 0 <= i < j < h.len() implies !(#[trigger] holds_cell(h, i, c)
                        && #[trigger] holds_cell(h, j, c)) by {
                        assert(old(self)@.len() == idx);
                        if j < idx {
                            assert(old(self)@[i] == h[i] && old(self)@[j] == h[j]);
                            assert(holds_cell(old(self)@, i, c) == holds_cell(h, i, c));
                            assert(holds_cell(old(self)@, j, c) == holds_cell(h, j, c));
                        }
                    }
                    assert forall|i: int| 0 <= i < h.len() implies match #[trigger] h[i] {
                        LockedTarget::Tree(v, _) => v % 2 == 0 && tree@ == v + 1,
                        LockedTarget::Node(c, v, _, o) => c < cells@.len() && lockable(v) && if o {
                            is_obsolete(cells@[c as int]) && cells@[c as int] % 2 == 1
                        } else {
                            cells@[c as int] == v + 1
                        },
                    } by {
                        if i < idx {
                            assert(h[i] == old(self)@[i]);
                            if h[i] is Tree {
                                assert(tree@ % 2 == 0);
                            }
                        }
                    }
                }
                Ok(idx)
            },
            Err(cur) => {
                self.unlock_all(tree, cells);
                Err(cur)
            },
        }
    }
    /// Locks node word `cell` and records it. If the word is held or
    /// obsolete, releases every lock of the set, unmodified, and returns the
    /// word's value.
    pub fn try_lock_node(&mut self, tree: &mut SeqVersion, cells: &mut Vec<u32>, cell: usize) -> (r: Result<
        usize,
        u32,
    >)
        requires
            old(self).holds(old(tree)@, old(cells)@),
            old(self)@.len() < LOCK_SET_CAP,
            cell < old(cells)@.len(),
        ensures
            lockable(old(cells)@[cell as int]) ==> {
                &&& r == Ok::<usize, u32>(old(self)@.len() as usize)
                &&& final(self)@ == old(self)@.push(LockedTarget::Node(cell, old(cells)@[cell as int], false, false))
                &&& final(cells)@ == old(cells)@.update(cell as int, (old(cells)@[cell as int] + 1) as u32)
                &&& final(tree)@ == old(tree)@
                &&& final(self).holds(final(tree)@, final(cells)@)
            },
            !lockable(old(cells)@[cell as int]) ==> {
                &&& r == Err::<usize, u32>(old(cells)@[cell as int])
                &&& final(self)@.len() == 0
                &&& released(old(self)@, old(tree)@, old(cells)@, final(tree)@, final(cells)@)
            },
    {
        let mut w = cells[cell];
        match version_try_lock(&mut w) {
            Ok(v) => {
                cells.set(cell, w);
                let idx = self.entries.len();
                self.entries.push(LockedTarget::Node(cell, v, false, false));
                proof {
                    let h = self@;
                    let ho = old(self)@;
                    assert forall|i: int, j: int| 0 <= i < j < h.len() implies !(#[trigger] holds_tree(h, i)
                        && #[trigger] holds_tree(h, j)) by {
                        if j < idx {
                            assert(ho[i] == h[i] && ho[j] == h[j]);
                            assert(holds_tree(ho, i) == holds_tree(h, i));
                            assert(holds_tree(ho, j) == holds_tree(h, j));
                        }
                    }
                    assert forall|i: int, j: int, c: int| 0 <= i < j < h.len() implies !(#[trigger] holds_cell(h, i, c)
                        && #[trigger] holds_cell(h, j, c)) by {
                        assert(ho.len() == idx);
                        assert(ho[i] == h[i]);
                        assert(holds_cell(ho, i, c) == holds_cell(h, i, c));
                        if j < idx {
                            assert(ho[j] == h[j]);
                            assert(holds_cell(ho, j, c) == holds_cell(h, j, c));
                        } else if holds_cell(h, i, c) && holds_cell(h, j, c) {
                            assert(c == cell);
                            assert(ho[i] == h[i]);
                            assert(lockable(old(cells)@[cell as int]));
                        }
                    }
                    assert forall|i: int| 0 <= i < h.len() implies match #[trigger] h[i] {
                        LockedTarget::Tree(v, _) => v % 2 == 0 && tree@ == v + 1,
                        LockedTarget::Node(c, v, _, o) => c < cells@.len() && lockable(v) && if o {
                            is_obsolete(cells@[c as int]) && cells@[c as int] % 2 == 1
                        } else {
                            cells@[c as int] == v + 1
                        },
                    } by {
                        if i < idx {
                            assert(h[i] == ho[i]);
                            if holds_cell(h, i, cell as int) {
                                assert(lockable(old(cells)@[cell as int]));
                            }
                        }
                    }
                }
                Ok(idx)
            },
            Err(cur) => {
                self.unlock_all(tree, cells);
                Err(cur)
            },
        }
    }

    /// Marks lock `idx` as modified: its word advances on release.
    pub fn mark_modified(&mut self, idx: usize)
        requires
            idx < old(self)@.len(),
        ensures
            final(self)@ == old(self)@.update(
                idx as int,
                match old(self)@[idx as int] {
                    LockedTarget::Tree(v, _) => LockedTarget::Tree(v, true),
                    LockedTarget::Node(c, v, _, o) => LockedTarget::Node(c, v, true, o),
                },
            ),
            forall|t: u64, cells: Seq<u32>| old(self).holds(t, cells) ==> #[trigger] final(self).holds(t, cells),
    {
        let e = self.entries[idx];
        let n = match e {
            LockedTarget::Tree(v, _) => LockedTarget::Tree(v, true),
            LockedTarget::Node(c, v, _, o) => LockedTarget::Node(c, v, true, o),
        };
        self.entries.set(idx, n);
        proof {
            assert forall|t: u64, cells: Seq<u32>| old(self).holds(t, cells) implies #[trigger] self.holds(t, cells) by {
                let h = self@;
                let ho = old(self)@;
                assert forall|i: int| 0 <= i < h.len() implies holds_tree(h, i) == holds_tree(ho, i)
                    && forall|c: int| holds_cell(h, i, c) == holds_cell(ho, i, c) by {}
                assert forall|i: int, j: int| 0 <= i < j < h.len() implies !(#[trigger] holds_tree(h, i)
                    && #[trigger] holds_tree(h, j)) by {
                    assert(holds_tree(h, i) == holds_tree(ho, i));
                    assert(holds_tree(h, j) == holds_tree(ho, j));
                }
                assert forall|i: int, j: int, c: int| 0 <= i < j < h.len() implies !(#[trigger] holds_cell(h, i, c)
                    && #[trigger] holds_cell(h, j, c)) by {
                    assert(holds_cell(h, i, c) == holds_cell(ho, i, c));
                    assert(holds_cell(h, j, c) == holds_cell(ho, j, c));
                }
            }
        }
    }

    /// Marks node lock `idx` obsolete: its word gets the [`OBSOLETE`] flag
    /// now, and keeps it on release.
    pub fn mark_obsolete(&mut self, idx: usize, cells: &mut Vec<u32>)
        requires
            idx < old(self)@.len(),
            old(self)@[idx as int] is Node,
            old(self)@[idx as int]->Node_0 < old(cells)@.len(),
            old(cells)@[old(self)@[idx as int]->Node_0 as int] % 2 == 1,
        ensures
            ({
                let (c, v) = (old(self)@[idx as int]->Node_0, old(self)@[idx as int]->Node_1);
                &&& final(self)@ == old(self)@.update(idx as int, LockedTarget::Node(c, v, true, true))
                &&& final(cells)@ == old(cells)@.update(c as int, OBSOLETE | old(cells)@[c as int])
            }),
            forall|t: u64| #[trigger] old(self).holds(t, old(cells)@) ==> final(self).holds(t, final(cells)@),
    {
        let e = self.entries[idx];
        match e {
            LockedTarget::Node(c, v, _, _) => {
                let mut w = cells[c];
                version_obsolete_locked(&mut w);
                cells.set(c, w);
                self.entries.set(idx, LockedTarget::Node(c, v, true, true));
                proof {
                    assert forall|t: u64| #[trigger] old(self).holds(t, old(cells)@) implies self.holds(t, cells@) by {
                        let h = self@;
                        let ho = old(self)@;
                        assert forall|i: int| 0 <= i < h.len() implies match #[trigger] h[i] {
                            LockedTarget::Tree(v, _) => v % 2 == 0 && t == v + 1,
                            LockedTarget::Node(c, v, _, o) => c < cells@.len() && lockable(v) && if o {
                                is_obsolete(cells@[c as int]) && cells@[c as int] % 2 == 1
                            } else {
                                cells@[c as int] == v + 1
                            },
                        } by {
                            assert(ho[i] == h[i] || i == idx);
                            if i != idx && holds_cell(h, i, c as int) {
                                assert(holds_cell(ho, i, c as int) && holds_cell(ho, idx as int, c as int));
                                if i < idx {
                                    assert(!(holds_cell(ho, i, c as int) && holds_cell(ho, idx as int, c as int)));
                                } else {
                                    assert(!(holds_cell(ho, idx as int, c as int) && holds_cell(ho, i, c as int)));
                                }
                            }
                        }
                        assert forall|i: int, j: int| 0 <= i < j < h.len() implies !(#[trigger] holds_tree(h, i)
                            && #[trigger] holds_tree(h, j)) by {
                            assert(holds_tree(h, i) == holds_tree(ho, i));
                            assert(holds_tree(h, j) == holds_tree(ho, j));
                        }
                        assert forall|i: int, j: int, cc: int| 0 <= i < j < h.len() implies !(#[trigger] holds_cell(
                            h,
                            i,
                            cc,
                        ) && #[trigger] holds_cell(h, j, cc)) by {
                            assert(holds_cell(h, i, cc) == holds_cell(ho, i, cc));
                            assert(holds_cell(h, j, cc) == holds_cell(ho, j, cc));
                        }
                    }
                }
            },
            LockedTarget::Tree(_, _) => {},
        }
    }
}

/// Aborting releases a path's locks without a trace: when no lock of the
/// set was marked modified or obsolete, releasing them puts every held
/// word back at the version it had when it was acquired, and touches no
/// other word.
pub proof fn law_abort_restores(s: LockSet, tree0: u64, cells0: Seq<u32>, tree1: u64, cells1: Seq<u32>)
    requires
        s.holds(tree0, cells0),
        forall|i: int|
            0 <= i < s@.len() ==> match #[trigger] s@[i] {
                LockedTarget::Tree(_, m) => !m,
                LockedTarget::Node(_, _, m, o) => !m && !o,
            },
        released(s@, tree0, cells0, tree1, cells1),
    ensures
        forall|i: int|
            0 <= i < s@.len() ==> match #[trigger] s@[i] {
                LockedTarget::Tree(v, _) => tree1 == v && tree0 == v + 1,
                LockedTarget::Node(c, v, _, _) => cells1[c as int] == v && cells0[c as int] == v + 1,
            },
        forall|c: int|
            0 <= c < cells0.len() && (forall|i: int| 0 <= i < s@.len() ==> !#[trigger] holds_cell(s@, i, c))
                ==> cells1[c] == cells0[c],
{
}

/// One node's write lock, by the node word's index in the caller's table.
/// New locks count as modified; [`NodeLock::abort_unmodified`] undoes that.
#[derive(Debug)]
pub struct NodeLock {
    cell: usize,
    old_v: u32,
    modified: bool,
    obsolete: bool,
}

impl NodeLock {
    /// The locked word's index.
    pub closed spec fn cell_spec(&self) -> usize {
        self.cell
    }

    /// The word's version when it was locked.
    pub closed spec fn old_spec(&self) -> u32 {
        self.old_v
    }

    /// Whether the lock is marked modified.
    pub closed spec fn modified_spec(&self) -> bool {
        self.modified
    }

    /// Whether the node is marked obsolete.
    pub closed spec fn obsolete_spec(&self) -> bool {
        self.obsolete
    }

    /// Locks node word `cell`: a lock marked modified on success, the
    /// word's current value if it is held or obsolete.
    pub fn try_lock(cells: &mut Vec<u32>, cell: usize) -> (r: Result<NodeLock, u32>)
        requires
            cell < old(cells)@.len(),
        ensures
            lockable(old(cells)@[cell as int]) ==> r is Ok && final(cells)@ == old(cells)@.update(
                cell as int,
                (old(cells)@[cell as int] + 1) as u32,
            ),
            r matches Ok(l) ==> l.cell_spec() == cell && l.old_spec() == old(cells)@[cell as int] && l.modified_spec()
                && !l.obsolete_spec(),
            !lockable(old(cells)@[cell as int]) ==> r == Err::<NodeLock, u32>(old(cells)@[cell as int])
                && final(cells)@ == old(cells)@,
    {
        let mut w = cells[cell];
        match version_try_lock(&mut w) {
            Ok(v) => {
                cells.set(cell, w);
                Ok(NodeLock { cell, old_v: v, modified: true, obsolete: false })
            },
            Err(cur) => Err(cur),
        }
    }

    /// A lock for a word already locked at `old_v`.
    pub fn from_locked(cell: usize, old_v: u32) -> (l: NodeLock)
        ensures
            l.cell_spec() == cell,
            l.old_spec() == old_v,
            l.modified_spec(),
            !l.obsolete_spec(),
    {
        NodeLock { cell, old_v, modified: true, obsolete: false }
    }

    /// Marks the node modified under this lock.
    pub fn mark_modified(&mut self)
        ensures
            final(self).modified_spec(),
            final(self).cell_spec() == old(self).cell_spec(),
            final(self).old_spec() == old(self).old_spec(),
            final(self).obsolete_spec() == old(self).obsolete_spec(),
    {
        self.modified = true;
    }

    /// Declares the node unmodified: its word returns to the old version.
    pub fn abort_unmodified(&mut self)
        ensures
            !final(self).modified_spec(),
            final(self).cell_spec() == old(self).cell_spec(),
            final(self).old_spec() == old(self).old_spec(),
            final(self).obsolete_spec() == old(self).obsolete_spec(),
    {
        self.modified = false;
    }

    /// Marks the node obsolete: its word gets the flag now and keeps it.
    pub fn mark_obsolete(&mut self, cells: &mut Vec<u32>)
        requires
            old(self).cell_spec() < old(cells)@.len(),
            old(cells)@[old(self).cell_spec() as int] % 2 == 1,
        ensures
            final(self).obsolete_spec(),
            final(self).cell_spec() == old(self).cell_spec(),
            final(self).old_spec() == old(self).old_spec(),
            final(self).modified_spec() == old(self).modified_spec(),
            final(cells)@ == old(cells)@.update(
                old(self).cell_spec() as int,
                OBSOLETE | old(cells)@[old(self).cell_spec() as int],
            ),
    {
        self.obsolete = true;
        let mut w = cells[self.cell];
        version_obsolete_locked(&mut w);
        cells.set(self.cell, w);
    }

    /// Whether the node was marked modified.
    pub fn is_modified(&self) -> (b: bool)
        ensures
            b == self.modified_spec(),
    {
        self.modified
    }

    /// Whether the node was marked obsolete.
    pub fn is_obsolete(&self) -> (b: bool)
        ensures
            b == self.obsolete_spec(),
    {
        self.obsolete
    }

    /// The version when the lock was taken.
    pub fn old_version(&self) -> (v: u32)
        ensures
            v == self.old_spec(),
    {
        self.old_v
    }

    /// The locked word's index.
    pub fn cell(&self) -> (c: usize)
        ensures
            c == self.cell_spec(),
    {
        self.cell
    }

    /// Releases the lock: an obsolete node keeps its flag; otherwise the
    /// word advances to `old + 2` if modified, or returns to `old`.
    pub fn release(self, cells: &mut Vec<u32>)
        requires
            self.cell_spec() < old(cells)@.len(),
            old(cells)@[self.cell_spec() as int] % 2 == 1,
        ensures
            final(cells)@ == old(cells)@.update(
                self.cell_spec() as int,
                if self.obsolete_spec() || is_obsolete(old(cells)@[self.cell_spec() as int]) {
                    OBSOLETE | old(cells)@[self.cell_spec() as int]
                } else {
                    node_release(old(cells)@[self.cell_spec() as int], self.old_spec(), self.modified_spec(), false)
                },
            ),
    {
        let mut w = cells[self.cell];
        proof {
            assert(is_obsolete(w) ==> (0x8000_0000u32 | w) == w) by (bit_vector);
        }
        if self.obsolete {
            version_obsolete_locked(&mut w);
        } else {
            version_unlock(&mut w, self.old_v, self.modified);
        }
        cells.set(self.cell, w);
    }
}

/// Writer admission for quiescence: writers count themselves into an
/// in-flight word while admission is open; a coordinator closes admission
/// and waits for the words to drain before taking the tree exclusively.
#[derive(Debug)]
pub struct WriterGate {
    closed: bool,
    id: u64,
}

/// An admitted writer; exiting withdraws it from its in-flight word.
#[derive(Debug)]
pub struct WriterGuard {
    slot_id: usize,
}

impl WriterGate {
    /// Whether admission is closed.
    pub closed spec fn closed_spec(&self) -> bool {
        self.closed
    }

    /// The identifier this admission barrier carries.
    pub closed spec fn id_spec(&self) -> u64 {
        self.id
    }

    /// An open gate with identifier `id`.
    pub fn new(id: u64) -> (g: WriterGate)
        ensures
            !g.closed_spec(),
            g.id_spec() == id,
    {
        WriterGate { closed: false, id }
    }

    /// The identifier this admission barrier carries.
    pub fn id(&self) -> (i: u64)
        ensures
            i == self.id_spec(),
    {
        self.id
    }

    /// Whether quiescence is in progress.
    pub fn is_closed(&self) -> (b: bool)
        ensures
            b == self.closed_spec(),
    {
        self.closed
    }

    /// Closes admission: no writer is admitted until it reopens.
    pub fn close(&mut self)
        ensures
            final(self).closed_spec(),
            final(self).id_spec() == old(self).id_spec(),
    {
        self.closed = true;
    }

    /// Reopens admission.
    pub fn open(&mut self)
        ensures
            !final(self).closed_spec(),
            final(self).id_spec() == old(self).id_spec(),
    {
        self.closed = false;
    }

    /// Admits a writer on the in-flight word `in_flight`: refused, with the
    /// word untouched, while admission is closed; otherwise the word counts
    /// one more writer (wrapping) until the guard exits.
    pub fn enter_writer(&self, in_flight: &mut usize, slot_id: usize) -> (g: Option<WriterGuard>)
        ensures
            self.closed_spec() ==> g is None && *final(in_flight) == *old(in_flight),
            !self.closed_spec() ==> (g matches Some(w) && w.slot_id_spec() == slot_id) && *final(in_flight)
                == counted_in(*old(in_flight)),
    {
        if self.is_closed() {
            return None;
        }
        *in_flight = in_flight.wrapping_add(1);
        if self.is_closed() {
            *in_flight = in_flight.wrapping_sub(1);
            None
        } else {
            Some(WriterGuard { slot_id })
        }
    }

    /// Withdraws a writer from `in_flight` (wrapping).
    pub fn exit_writer(&self, in_flight: &mut usize)
        ensures
            *final(in_flight) == counted_out(*old(in_flight)),
    {
        *in_flight = in_flight.wrapping_sub(1);
    }
}

/// An in-flight word after one more writer enters.
pub open spec fn counted_in(n: usize) -> usize {
    if n == usize::MAX {
        0
    } else {
        (n + 1) as usize
    }
}

/// An in-flight word after one writer exits.
pub open spec fn counted_out(n: usize) -> usize {
    if n == 0 {
        usize::MAX
    } else {
        (n - 1) as usize
    }
}

impl WriterGuard {
    /// The writer slot this guard was admitted on.
    pub closed spec fn slot_id_spec(&self) -> usize {
        self.slot_id
    }

    /// The writer slot this guard was admitted on.
    pub fn slot_id(&self) -> (s: usize)
        ensures
            s == self.slot_id_spec(),
    {
        self.slot_id
    }

    /// Ends the writer's operation: withdraws it from `in_flight`.
    pub fn exit(self, gate: &WriterGate, in_flight: &mut usize)
        ensures
            *final(in_flight) == counted_out(*old(in_flight)),
    {
        gate.exit_writer(in_flight);
    }
}

/// A shared in-flight word stays nonzero while any admitted writer is
/// inside: after `k` admissions and fewer than `k` exits from zero, the
/// word is the number still inside.
pub proof fn law_in_flight_counts(entered: nat, exited: nat)
    requires
        exited <= entered,
        entered < usize::MAX,
    ensures
        count_after(entered, exited) == entered - exited,
        exited < entered ==> count_after(entered, exited) != 0,
    decreases entered + exited,
{
    if exited > 0 {
        law_in_flight_counts(entered, (exited - 1) as nat);
    } else if entered > 0 {
        law_in_flight_counts((entered - 1) as nat, 0);
    }
}

/// The in-flight word from zero after `entered` admissions and then
/// `exited` exits.
pub open spec fn count_after(entered: nat, exited: nat) -> usize
    decreases entered + exited,
{
    if exited > 0 {
        counted_out(count_after(entered, (exited - 1) as nat))
    } else if entered > 0 {
        counted_in(count_after((entered - 1) as nat, 0))
    } else {
        0
    }
}

// ---------------------------------------------------------------------------
// Epoch-based reclamation
// ---------------------------------------------------------------------------

/// Number of garbage bins: the current epoch's, the previous epoch's, and
/// the one drained at the last advance.
pub const BINS: usize = 3;

/// The slot value of a registered reader that is not pinned.
pub const INACTIVE: usize = usize::MAX;

/// One retired allocation: an opaque handle with its size and alignment.
#[derive(Clone, Copy, Debug, PartialEq, Eq, Structural)]
pub struct Garbage {
    /// Identifies the allocation to whoever frees it.
    pub handle: u64,
    /// Size in bytes.
    pub bytes: usize,
    /// Alignment the allocation was made with.
    pub align: usize,
}

/// Total bytes of a list of retired allocations.
pub open spec fn garbage_bytes(s: Seq<Garbage>) -> nat
    decreases s.len(),
{
    if s.len() == 0 {
        0
    } else {
        garbage_bytes(s.drop_last()) + s.last().bytes as nat
    }
}

/// `x` reduced modulo the width of `usize`.
pub open spec fn wrap_usize(x: int) -> int {
    x % (usize::MAX as int + 1)
}

/// A wrapping add of a wrapped total tracks the total.
proof fn lemma_wrap_add(r: usize, b: usize, t: int)
    requires
        t >= 0,
        r == wrap_usize(t),
    ensures
        r.wrapping_add(b) == wrap_usize(t + b),
{
    let m = usize::MAX as int + 1;
    vstd::arithmetic::div_mod::lemma_add_mod_noop(t, b as int, m);
    vstd::arithmetic::div_mod::lemma_small_mod(b as nat, m as nat);
    if r + b < m {
        vstd::arithmetic::div_mod::lemma_small_mod((r + b) as nat, m as nat);
    } else {
        vstd::arithmetic::div_mod::lemma_fundamental_div_mod_converse(r + b, m, 1, r + b - m);
    }
}

/// A wrapping subtract of wrapped totals tracks the difference.
proof fn lemma_wrap_sub(r: usize, f: usize, t: int, u: int)
    requires
        0 <= u <= t,
        r == wrap_usize(t),
        f == wrap_usize(u),
    ensures
        r.wrapping_sub(f) == wrap_usize(t - u),
{
    let m = usize::MAX as int + 1;
    vstd::arithmetic::div_mod::lemma_sub_mod_noop(t, u, m);
    if r >= f {
        vstd::arithmetic::div_mod::lemma_small_mod((r - f) as nat, m as nat);
    } else {
        vstd::arithmetic::div_mod::lemma_fundamental_div_mod_converse(r - f, m, -1, r - f + m);
    }
}

/// Epoch-based reclamation state for one tree: readers pin the current
/// epoch around each walk; a retired allocation waits in the bin of the
/// epoch it was retired in and is handed back for freeing only at the
/// second advance after, which no reader pinned at or before its epoch
/// can let happen.
pub struct Collector {
    epoch: usize,
    slots: Vec<usize>,
    bin0: Vec<Garbage>,
    bin1: Vec<Garbage>,
    bin2: Vec<Garbage>,
    retained: usize,
}

/// A registered reader of a [`Collector`].
#[derive(Clone, Copy, Debug)]
pub struct Reader {
    /// The reader's slot in the collector.
    pub id: usize,
}

/// An active pin of a [`Reader`].
#[derive(Debug)]
pub struct Pin {
    /// The pinned reader's slot.
    pub id: usize,
}

impl Collector {
    /// The current epoch.
    pub closed spec fn epoch_spec(&self) -> nat {
        self.epoch as nat
    }

    /// Reader slots: the epoch each is pinned at, or [`INACTIVE`].
    pub closed spec fn slots_spec(&self) -> Seq<usize> {
        self.slots@
    }

    /// The garbage in bin `b`.
    pub closed spec fn bin(&self, b: int) -> Seq<Garbage> {
        if b == 0 {
            self.bin0@
        } else if b == 1 {
            self.bin1@
        } else if b == 2 {
            self.bin2@
        } else {
            Seq::empty()
        }
    }

    /// Bytes recorded as retained (wrapping).
    pub closed spec fn retained_spec(&self) -> nat {
        self.retained as nat
    }

    /// Total bytes of everything queued in the bins.
    pub open spec fn queued_bytes(&self) -> nat {
        garbage_bytes(self.bin(0)) + garbage_bytes(self.bin(1)) + garbage_bytes(self.bin(2))
    }

    /// The epoch whose retirements bin `b` holds: the current epoch's bin,
    /// then the previous epoch's; the third bin is empty.
    pub open spec fn bin_epoch(&self, b: int) -> int {
        if b == self.epoch_spec() % 3 {
            self.epoch_spec() as int
        } else if b == (self.epoch_spec() + 2) % 3 {
            self.epoch_spec() - 1
        } else {
            (self.epoch_spec() + 1) as int
        }
    }

    /// Whether an advance may happen now: every pinned reader is at the
    /// current epoch.
    pub open spec fn can_advance(&self) -> bool {
        forall|r: int| 0 <= r < self.slots_spec().len() ==> #[trigger] self.slots_spec()[r] == INACTIVE
            || self.slots_spec()[r] == self.epoch_spec()
    }

    /// Every pinned reader is at the current epoch or one behind; bins hold
    /// the retirements of the current and the previous epoch only; the
    /// retained count is the bins' total, modulo the word.
    pub open spec fn wf(&self) -> bool {
        let e = self.epoch_spec();
        &&& e < usize::MAX
        &&& self.bin(((e + 1) % 3) as int).len() == 0
        &&& e == 0 ==> self.bin(2).len() == 0
        &&& forall|r: int| 0 <= r < self.slots_spec().len() ==> #[trigger] self.slots_spec()[r] == INACTIVE || (
        self.slots_spec()[r] <= e && self.slots_spec()[r] + 1 >= e)
        &&& self.retained_spec() == wrap_usize(self.queued_bytes() as int)
    }

    /// A fresh collector at epoch 0 with no readers and no garbage.
    pub fn new() -> (c: Collector)
        ensures
            c.wf(),
            c.epoch_spec() == 0,
            c.slots_spec() == Seq::<usize>::empty(),
            forall|b: int| #[trigger] c.bin(b).len() == 0,
            c.retained_spec() == 0,
    {
        let c = Collector { epoch: 0, slots: Vec::new(), bin0: Vec::new(), bin1: Vec::new(), bin2: Vec::new(), retained: 0 };
        proof {
            lemma_wrap_zero();
            assert(garbage_bytes(Seq::<Garbage>::empty()) == 0);
            assert(c.bin(0) =~= Seq::<Garbage>::empty());
            assert(c.bin(1) =~= Seq::<Garbage>::empty());
            assert(c.bin(2) =~= Seq::<Garbage>::empty());
        }
        c
    }

    /// The current epoch.
    pub fn epoch(&self) -> (e: usize)
        ensures
            e == self.epoch_spec(),
    {
        self.epoch
    }

    /// Total bytes waiting in the bins (wrapping).
    pub fn retained_bytes(&self) -> (r: usize)
        ensures
            r == self.retained_spec(),
            self.wf() ==> r == wrap_usize(self.queued_bytes() as int),
    {
        self.retained
    }

    /// Registers a reader, unpinned.
    pub fn register(&mut self) -> (r: Reader)
        requires
            old(self).wf(),
        ensures
            final(self).wf(),
            r.id == old(self).slots_spec().len(),
            final(self).slots_spec() == old(self).slots_spec().push(INACTIVE),
            final(self).epoch_spec() == old(self).epoch_spec(),
            forall|b: int| #[trigger] final(self).bin(b) == old(self).bin(b),
            final(self).retained_spec() == old(self).retained_spec(),
    {
        let id = self.slots.len();
        self.slots.push(INACTIVE);
        proof {
            assert forall|r: int| 0 <= r < self.slots_spec().len() implies #[trigger] self.slots_spec()[r] == INACTIVE || (
            self.slots_spec()[r] <= self.epoch_spec() && self.slots_spec()[r] + 1 >= self.epoch_spec()) by {
                if r < id {
                    assert(self.slots_spec()[r] == old(self).slots_spec()[r]);
                }
            }
        }
        Reader { id }
    }

    /// Deregisters a reader: a departed reader never stalls an advance.
    pub fn deregister(&mut self, r: Reader)
        requires
            old(self).wf(),
            r.id < old(self).slots_spec().len(),
        ensures
            final(self).wf(),
            final(self).slots_spec() == old(self).slots_spec().update(r.id as int, INACTIVE),
            final(self).epoch_spec() == old(self).epoch_spec(),
            forall|b: int| #[trigger] final(self).bin(b) == old(self).bin(b),
            final(self).retained_spec() == old(self).retained_spec(),
    {
        self.slots.set(r.id, INACTIVE);
    }

    /// Queues an allocation for deferred freeing in the current epoch's bin.
    pub fn retire(&mut self, g: Garbage)
        requires
            old(self).wf(),
        ensures
            final(self).wf(),
            final(self).bin((old(self).epoch_spec() % 3) as int) == old(self).bin(
                (old(self).epoch_spec() % 3) as int,
            ).push(g),
            forall|b: int| b != old(self).epoch_spec() % 3 ==> #[trigger] final(self).bin(b) == old(self).bin(b),
            final(self).epoch_spec() == old(self).epoch_spec(),
            final(self).slots_spec() == old(self).slots_spec(),
            final(self).queued_bytes() == old(self).queued_bytes() + g.bytes,
    {
        let k = self.epoch % BINS;
        let ghost o0 = self.bin0@;
        let ghost o1 = self.bin1@;
        let ghost o2 = self.bin2@;
        if k == 0 {
            self.bin0.push(g);
            proof {
                assert(self.bin0@.drop_last() == o0);
            }
        } else if k == 1 {
            self.bin1.push(g);
            proof {
                assert(self.bin1@.drop_last() == o1);
            }
        } else {
            self.bin2.push(g);
            proof {
                assert(self.bin2@.drop_last() == o2);
            }
        }
        proof {
            let t = garbage_bytes(o0) + garbage_bytes(o1) + garbage_bytes(o2);
            lemma_wrap_add(self.retained, g.bytes, t as int);
            lemma_garbage_bytes_push(o0, g);
            lemma_garbage_bytes_push(o1, g);
            lemma_garbage_bytes_push(o2, g);
            assert(garbage_bytes(self.bin(0)) + garbage_bytes(self.bin(1)) + garbage_bytes(self.bin(2)) == t + g.bytes);
        }
        self.retained = self.retained.wrapping_add(g.bytes);
        proof {
            lemma_slots_carry(*old(self), *self);
        }
    }

    /// Takes every item of bin `b`, leaving it empty.
    fn take_bin(&mut self, b: usize) -> (out: Vec<Garbage>)
        requires
            b < 3,
        ensures
            out@ == old(self).bin(b as int),
            final(self).bin(b as int).len() == 0,
            forall|c: int| c != b ==> #[trigger] final(self).bin(c) == old(self).bin(c),
            final(self).epoch == old(self).epoch,
            final(self).slots == old(self).slots,
            final(self).retained == old(self).retained,
    {
        let mut out: Vec<Garbage> = Vec::new();
        if b == 0 {
            std::mem::swap(&mut out, &mut self.bin0);
        } else if b == 1 {
            std::mem::swap(&mut out, &mut self.bin1);
        } else {
            std::mem::swap(&mut out, &mut self.bin2);
        }
        out
    }

    /// True when every pinned reader is at epoch `e`.
    fn all_caught_up(&self, e: usize) -> (ok: bool)
        ensures
            ok == forall|r: int| 0 <= r < self.slots_spec().len() ==> #[trigger] self.slots_spec()[r] == INACTIVE
                || self.slots_spec()[r] == e,
    {
        let mut i: usize = 0;
        while i < self.slots.len()
            invariant
                0 <= i <= self.slots@.len(),
                forall|r: int| 0 <= r < i ==> #[trigger] self.slots@[r] == INACTIVE || self.slots@[r] == e,
            decreases self.slots@.len() - i,
        {
            let s = self.slots[i];
            if s != INACTIVE && s != e {
                assert(self.slots_spec()[i as int] == s);
                return false;
            }
            i = i + 1;
        }
        true
    }

    /// Attempts one epoch advance. It succeeds when every pinned reader is
    /// at the current epoch; the bin of the epoch before the current one is
    /// then emptied and its allocations are returned for freeing. Otherwise
    /// nothing changes and nothing is returned.
    pub fn try_advance(&mut self) -> (freed: Vec<Garbage>)
        requires
            old(self).wf(),
            old(self).epoch_spec() + 2 < usize::MAX,
        ensures
            final(self).wf(),
            ({
                let e = old(self).epoch_spec();
                let ok = old(self).can_advance();
                &&& ok ==> {
                    &&& final(self).epoch_spec() == e + 1
                    &&& freed@ == old(self).bin(((e + 2) % 3) as int)
                    &&& final(self).bin(((e + 2) % 3) as int).len() == 0
                    &&& forall|b: int| b != (e + 2) % 3 ==> #[trigger] final(self).bin(b) == old(self).bin(b)
                    &&& final(self).slots_spec() == old(self).slots_spec()
                    &&& final(self).queued_bytes() == old(self).queued_bytes() - garbage_bytes(freed@)
                }
                &&& !ok ==> freed@.len() == 0 && *final(self) == *old(self)
            }),
    {
        let e = self.epoch;
        if !self.all_caught_up(e) {
            return Vec::new();
        }
        let stale = (e + BINS - 1) % BINS;
        let ghost t = self.queued_bytes();
        let freed = self.take_bin(stale);
        let mut freed_bytes: usize = 0;
        let mut j: usize = 0;
        proof {
            assert(freed@.take(0) == Seq::<Garbage>::empty());
            assert(garbage_bytes(Seq::<Garbage>::empty()) == 0);
        }
        while j < freed.len()
            invariant
                0 <= j <= freed@.len(),
                freed_bytes == wrap_usize(garbage_bytes(freed@.take(j as int)) as int),
            decreases freed@.len() - j,
        {
            proof {
                assert(freed@.take(j + 1).drop_last() == freed@.take(j as int));
                lemma_wrap_add(freed_bytes, freed@[j as int].bytes, garbage_bytes(freed@.take(j as int)) as int);
            }
            freed_bytes = freed_bytes.wrapping_add(freed[j].bytes);
            j = j + 1;
        }
        proof {
            assert(freed@.take(freed@.len() as int) == freed@);
            let u = garbage_bytes(freed@) as int;
            assert(garbage_bytes(self.bin(stale as int)) == 0) by {
                assert(self.bin(stale as int) =~= Seq::<Garbage>::empty());
            }
            if stale == 0 {
                assert(self.bin(1) == old(self).bin(1));
                assert(self.bin(2) == old(self).bin(2));
            } else if stale == 1 {
                assert(self.bin(0) == old(self).bin(0));
                assert(self.bin(2) == old(self).bin(2));
            } else {
                assert(self.bin(0) == old(self).bin(0));
                assert(self.bin(1) == old(self).bin(1));
            }
            assert(self.queued_bytes() == t - u);
            lemma_wrap_sub(self.retained, freed_bytes, t as int, u);
            assert(stale as int == (old(self).epoch_spec() + 2) % 3);
        }
        self.retained = self.retained.wrapping_sub(freed_bytes);
        self.epoch = e + 1;
        proof {
            assert(self.slots@ == old(self).slots@);
            assert(self.epoch_spec() == old(self).epoch_spec() + 1);
            assert(self.bin(((self.epoch_spec() + 1) % 3) as int).len() == 0);
            assert forall|r: int| 0 <= r < self.slots_spec().len() implies #[trigger] self.slots_spec()[r] == INACTIVE || (
            self.slots_spec()[r] <= self.epoch_spec() && self.slots_spec()[r] + 1 >= self.epoch_spec()) by {
                assert(old(self).slots_spec()[r] == INACTIVE || old(self).slots_spec()[r] == old(self).epoch_spec());
            }
        }
        freed
    }

    /// Hands back everything still queued, leaving every bin empty. Sound
    /// only once no reader can be pinned.
    pub fn drain(&mut self) -> (all: Vec<Garbage>)
        requires
            old(self).wf(),
        ensures
            final(self).wf(),
            all@ == old(self).bin(0) + old(self).bin(1) + old(self).bin(2),
            forall|b: int| #[trigger] final(self).bin(b).len() == 0,
            final(self).epoch_spec() == old(self).epoch_spec(),
            final(self).slots_spec() == old(self).slots_spec(),
            garbage_bytes(all@) == old(self).queued_bytes(),
            final(self).queued_bytes() == 0,
            final(self).retained_spec() == 0,
    {
        let mut all = self.take_bin(0);
        let mut b1 = self.take_bin(1);
        let mut b2 = self.take_bin(2);
        all.append(&mut b1);
        all.append(&mut b2);
        proof {
            lemma_garbage_bytes_concat(old(self).bin(0), old(self).bin(1));
            lemma_garbage_bytes_concat(old(self).bin(0) + old(self).bin(1), old(self).bin(2));
        }
        proof {
            lemma_wrap_zero();
            assert(garbage_bytes(Seq::<Garbage>::empty()) == 0);
            assert(self.bin(0) =~= Seq::<Garbage>::empty());
            assert(self.bin(1) =~= Seq::<Garbage>::empty());
            assert(self.bin(2) =~= Seq::<Garbage>::empty());
        }
        self.retained = 0;
        proof {
            lemma_slots_carry(*old(self), *self);
        }
        all
    }
}

/// The pinned-slot clause of `wf` depends only on the slots and the epoch.
proof fn lemma_slots_carry(a: Collector, b: Collector)
    requires
        a.wf(),
        b.slots_spec() == a.slots_spec(),
        b.epoch_spec() == a.epoch_spec(),
    ensures
        forall|r: int| 0 <= r < b.slots_spec().len() ==> #[trigger] b.slots_spec()[r] == INACTIVE || (
        b.slots_spec()[r] <= b.epoch_spec() && b.slots_spec()[r] + 1 >= b.epoch_spec()),
{
    assert forall|r: int| 0 <= r < b.slots_spec().len() implies #[trigger] b.slots_spec()[r] == INACTIVE || (
    b.slots_spec()[r] <= b.epoch_spec() && b.slots_spec()[r] + 1 >= b.epoch_spec()) by {
        assert(b.slots_spec()[r] == a.slots_spec()[r]);
    }
}

/// Nothing queued wraps to nothing retained.
proof fn lemma_wrap_zero()
    ensures
        wrap_usize(0) == 0,
{
    vstd::arithmetic::div_mod::lemma_small_mod(0, (usize::MAX as int + 1) as nat);
}

/// Appending an allocation adds its bytes.
pub proof fn lemma_garbage_bytes_push(s: Seq<Garbage>, g: Garbage)
    ensures
        garbage_bytes(s.push(g)) == garbage_bytes(s) + g.bytes,
{
    assert(s.push(g).drop_last() == s);
}

/// Bytes of a concatenation add up.
pub proof fn lemma_garbage_bytes_concat(a: Seq<Garbage>, b: Seq<Garbage>)
    ensures
        garbage_bytes(a + b) == garbage_bytes(a) + garbage_bytes(b),
    decreases b.len(),
{
    if b.len() == 0 {
        assert(a + b == a);
    } else {
        assert((a + b).drop_last() == a + b.drop_last());
        lemma_garbage_bytes_concat(a, b.drop_last());
    }
}

impl Reader {
    /// Pins the current epoch: nothing retired from here on is handed back
    /// for freeing until the pin is released.
    pub fn pin(&self, c: &mut Collector) -> (p: Pin)
        requires
            old(c).wf(),
            self.id < old(c).slots_spec().len(),
        ensures
            final(c).wf(),
            p.id == self.id,
            final(c).slots_spec() == old(c).slots_spec().update(self.id as int, old(c).epoch_spec() as usize),
            final(c).epoch_spec() == old(c).epoch_spec(),
            forall|b: int| #[trigger] final(c).bin(b) == old(c).bin(b),
            final(c).retained_spec() == old(c).retained_spec(),
    {
        let e = c.epoch;
        c.slots.set(self.id, e);
        Pin { id: self.id }
    }
}

impl Pin {
    /// Releases the pin.
    pub fn unpin(self, c: &mut Collector)
        requires
            old(c).wf(),
            self.id < old(c).slots_spec().len(),
        ensures
            final(c).wf(),
            final(c).slots_spec() == old(c).slots_spec().update(self.id as int, INACTIVE),
            final(c).epoch_spec() == old(c).epoch_spec(),
            forall|b: int| #[trigger] final(c).bin(b) == old(c).bin(b),
            final(c).retained_spec() == old(c).retained_spec(),
    {
        c.slots.set(self.id, INACTIVE);
    }
}

/// The grace period: while a reader stays pinned, an advance never hands
/// back a bin whose allocations were retired at or after the reader's pin.
/// Such a bin is the stale one only if it holds the previous epoch, and a
/// reader pinned at or before the previous epoch refuses the advance.
pub proof fn law_grace_period(c: Collector, r: int, b: int)
    requires
        c.wf(),
        0 <= r < c.slots_spec().len(),
        c.slots_spec()[r] != INACTIVE,
        0 <= b < 3,
        c.bin_epoch(b) >= c.slots_spec()[r],
    ensures
        c.can_advance() ==> b != (c.epoch_spec() + 2) % 3,
{
    if c.can_advance() && b == (c.epoch_spec() + 2) % 3 {
        assert(c.slots_spec()[r] == INACTIVE || c.slots_spec()[r] == c.epoch_spec());
    }
}

} // verus!
