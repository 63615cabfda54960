//! Counting instrumentation for the optimistic read/write protocol.
//!
//! The counters count **events, not time** — optimistic walk attempts,
//! writer-lock fallbacks, epoch-advance outcomes — so their ratios are
//! immune to host load. They live in per-thread shards (one slot per
//! thread, summed by [`snapshot`]) so that bumping them is not itself a
//! contention source; the two gauges ([`Stat::RetainedGarbageBytes`],
//! [`Stat::RetainedGarbageHwm`]) stay in one global slot, because a
//! high-water mark of a sum is not the sum of per-shard high-water marks.
//!
//! All counter state is one [`Counters`] value; a thread's shard is chosen
//! by the slot it was assigned with [`Counters::register`].

use vstd::prelude::*;

verus! {

/// A counted event of the protocol. Index [`snapshot`] by [`Stat::index`].
#[derive(Clone, Copy, Debug, PartialEq, Eq, Structural)]
#[non_exhaustive]
pub enum Stat {
    /// Public optimistic read calls entered.
    ReadOps,
    /// Optimistic walk attempts (at least one per read op; more is a restart).
    ReadAttempts,
    /// Read ops that exhausted the retry budget and took the writer lock.
    ReadFallbacks,
    /// Mutations run through the shared writer path.
    WriteOps,
    /// Epoch-advance attempts.
    AdvanceCalls,
    /// Epoch-advance attempts that advanced the epoch.
    AdvanceOk,
    /// Spin iterations waiting for a writer's tree-level bracket to close.
    SampleSpins,
    /// Bytes currently held in collector garbage bins (a gauge).
    RetainedGarbageBytes,
    /// Peak bytes held in collector garbage bins (a gauge).
    RetainedGarbageHwm,
    /// Read calls that took the writer lock, by any route.
    LockedReads,
    /// Writer-lock acquisitions by a thread other than the previous holder.
    Handoffs,
    /// Blocks handed to the collector for deferred reclamation.
    Retired,
    /// Blocks actually freed by the collector.
    FreedRaw,
    /// Cycle-counter ticks spent waiting on an open bracket.
    SampleSpinCycles,
    /// Branch nodes replaced or removed within a mutation.
    BranchReplacements,
    /// Mutations in which two or more branch nodes were replaced.
    DeepCascades,
    /// Mutations that changed the owner's root state.
    RootRewrites,
    /// Lock restarts during multi-writer mutations.
    LockRestarts,
    /// Spins waiting to acquire per-node version locks.
    LockSpins,
    /// Cycle-counter ticks spent holding per-node version locks.
    LockHoldCycles,
    /// Mutations falling back to the serialized root-covered lock.
    LockFallbacks,
    /// Logical insert operations attempted.
    Inserts,
    /// Fallbacks for a linear leaf crossing a capacity class.
    FallbackCapExpansion,
    /// Fallbacks for an immediate-slot transition.
    FallbackImmediateConversion,
    /// Fallbacks for a branch structural mutation.
    FallbackBranchSplit,
    /// Fallbacks for a root-state transition.
    FallbackRootGrowth,
    /// Fallbacks taken for contention rather than structure.
    FallbackContention,
    /// Fallbacks for an edge tag the optimistic path does not decode.
    FallbackUnknownTag,
    /// Ancestor population re-descents entered.
    PopRedescends,
    /// Re-descents that exhausted their attempt budget.
    PopRedescendAbandoned,
    /// Retrying writers aborting because the writer gate closed.
    ContentionGateClosed,
    /// Retrying writers exhausting their retry budget.
    ContentionRetryExhausted,
    /// Arriving writers finding the writer gate closed.
    GateBlockedEntries,
    /// Cycle-counter ticks spent waiting at a closed writer gate.
    GateWaitCycles,
    /// Writer quiescence invocations.
    QuiesceCalls,
    /// Cycle-counter ticks spent draining in-flight writers.
    QuiesceDrainCycles,
    /// Branch mutations due to a missing bitmap subarray or null child.
    BranchSplitSubarray,
    /// Branch mutations due to linear branch overflow.
    BranchSplitLinear,
    /// Branch mutations due to an edge prefix mismatch.
    BranchSplitPrefix,
    /// Branch mutations on remove paths.
    BranchSplitRemove,
}

/// Number of distinct counters.
pub const NUM_STATS: usize = 40;

/// Number of per-thread shards.
pub const SHARDS: usize = 64;

/// The stable position of each counter.
pub open spec fn stat_index(s: Stat) -> int {
    match s {
        Stat::ReadOps => 0,
        Stat::ReadAttempts => 1,
        Stat::ReadFallbacks => 2,
        Stat::WriteOps => 3,
        Stat::AdvanceCalls => 4,
        Stat::AdvanceOk => 5,
        Stat::SampleSpins => 6,
        Stat::RetainedGarbageBytes => 7,
        Stat::RetainedGarbageHwm => 8,
        Stat::LockedReads => 9,
        Stat::Handoffs => 10,
        Stat::Retired => 11,
        Stat::FreedRaw => 12,
        Stat::SampleSpinCycles => 13,
        Stat::BranchReplacements => 14,
        Stat::DeepCascades => 15,
        Stat::RootRewrites => 16,
        Stat::LockRestarts => 17,
        Stat::LockSpins => 18,
        Stat::LockHoldCycles => 19,
        Stat::LockFallbacks => 20,
        Stat::Inserts => 21,
        Stat::FallbackCapExpansion => 22,
        Stat::FallbackImmediateConversion => 23,
        Stat::FallbackBranchSplit => 24,
        Stat::FallbackRootGrowth => 25,
        Stat::FallbackContention => 26,
        Stat::FallbackUnknownTag => 27,
        Stat::PopRedescends => 28,
        Stat::PopRedescendAbandoned => 29,
        Stat::ContentionGateClosed => 30,
        Stat::ContentionRetryExhausted => 31,
        Stat::GateBlockedEntries => 32,
        Stat::GateWaitCycles => 33,
        Stat::QuiesceCalls => 34,
        Stat::QuiesceDrainCycles => 35,
        Stat::BranchSplitSubarray => 36,
        Stat::BranchSplitLinear => 37,
        Stat::BranchSplitPrefix => 38,
        Stat::BranchSplitRemove => 39,
    }
}

impl Stat {
    /// The counter's stable position in a [`snapshot`].
    pub fn index(self) -> (i: usize)
        ensures
            i == stat_index(self),
            i < NUM_STATS,
    {
        match self {
            Stat::ReadOps => 0,
            Stat::ReadAttempts => 1,
            Stat::ReadFallbacks => 2,
            Stat::WriteOps => 3,
            Stat::AdvanceCalls => 4,
            Stat::AdvanceOk => 5,
            Stat::SampleSpins => 6,
            Stat::RetainedGarbageBytes => 7,
            Stat::RetainedGarbageHwm => 8,
            Stat::LockedReads => 9,
            Stat::Handoffs => 10,
            Stat::Retired => 11,
            Stat::FreedRaw => 12,
            Stat::SampleSpinCycles => 13,
            Stat::BranchReplacements => 14,
            Stat::DeepCascades => 15,
            Stat::RootRewrites => 16,
            Stat::LockRestarts => 17,
            Stat::LockSpins => 18,
            Stat::LockHoldCycles => 19,
            Stat::LockFallbacks => 20,
            Stat::Inserts => 21,
            Stat::FallbackCapExpansion => 22,
            Stat::FallbackImmediateConversion => 23,
            Stat::FallbackBranchSplit => 24,
            Stat::FallbackRootGrowth => 25,
            Stat::FallbackContention => 26,
            Stat::FallbackUnknownTag => 27,
            Stat::PopRedescends => 28,
            Stat::PopRedescendAbandoned => 29,
            Stat::ContentionGateClosed => 30,
            Stat::ContentionRetryExhausted => 31,
            Stat::GateBlockedEntries => 32,
            Stat::GateWaitCycles => 33,
            Stat::QuiesceCalls => 34,
            Stat::QuiesceDrainCycles => 35,
            Stat::BranchSplitSubarray => 36,
            Stat::BranchSplitLinear => 37,
            Stat::BranchSplitPrefix => 38,
            Stat::BranchSplitRemove => 39,
        }
    }
}

/// Human-readable counter names, indexed by [`Stat::index`].
pub const NAMES: [&'static str; NUM_STATS] = [
    "read_ops",
    "read_attempts",
    "read_fallbacks",
    "write_ops",
    "advance_calls",
    "advance_ok",
    "sample_spins",
    "retained_bytes",
    "retained_hwm",
    "locked_reads",
    "handoffs",
    "retired",
    "freed_raw",
    "sample_spin_cycles",
    "branch_replacements",
    "deep_cascades",
    "root_rewrites",
    "lock_restarts",
    "lock_spins",
    "lock_hold_cycles",
    "lock_fallbacks",
    "inserts",
    "fallback_cap_expansion",
    "fallback_immediate_conversion",
    "fallback_branch_split",
    "fallback_root_growth",
    "fallback_contention",
    "fallback_unknown_tag",
    "pop_redescends",
    "pop_redescend_abandoned",
    "contention_gate_closed",
    "contention_retry_exhausted",
    "gate_blocked_entries",
    "gate_wait_cycles",
    "quiesce_calls",
    "quiesce_drain_cycles",
    "branch_split_subarray",
    "branch_split_linear",
    "branch_split_prefix",
    "branch_split_remove"
];

/// The human-readable name of the counter at position `i`.
pub fn name(i: usize) -> (r: &'static str)
    requires
        i < NUM_STATS,
    ensures
        r == NAMES[i as int],
{
    match i {
            0 => "read_ops",
            1 => "read_attempts",
            2 => "read_fallbacks",
            3 => "write_ops",
            4 => "advance_calls",
            5 => "advance_ok",
            6 => "sample_spins",
            7 => "retained_bytes",
            8 => "retained_hwm",
            9 => "locked_reads",
            10 => "handoffs",
            11 => "retired",
            12 => "freed_raw",
            13 => "sample_spin_cycles",
            14 => "branch_replacements",
            15 => "deep_cascades",
            16 => "root_rewrites",
            17 => "lock_restarts",
            18 => "lock_spins",
            19 => "lock_hold_cycles",
            20 => "lock_fallbacks",
            21 => "inserts",
            22 => "fallback_cap_expansion",
            23 => "fallback_immediate_conversion",
            24 => "fallback_branch_split",
            25 => "fallback_root_growth",
            26 => "fallback_contention",
            27 => "fallback_unknown_tag",
            28 => "pop_redescends",
            29 => "pop_redescend_abandoned",
            30 => "contention_gate_closed",
            31 => "contention_retry_exhausted",
            32 => "gate_blocked_entries",
            33 => "gate_wait_cycles",
            34 => "quiesce_calls",
            35 => "quiesce_drain_cycles",
            36 => "branch_split_subarray",
            37 => "branch_split_linear",
            38 => "branch_split_prefix",
            _ => "branch_split_remove",
    }
}

/// Counters that are gauges (add / subtract / high-water), kept global.
pub open spec fn is_gauge_spec(i: int) -> bool {
    i == 7 || i == 8
}

/// True for the two gauges, which live in the global slot.
pub fn is_gauge(i: usize) -> (r: bool)
    ensures
        r == is_gauge_spec(i as int),
{
    i == 7 || i == 8
}

/// `x + y` modulo `2^64`.
pub open spec fn wadd(x: u64, y: u64) -> u64 {
    if x + y > u64::MAX {
        (x + y - 0x1_0000_0000_0000_0000) as u64
    } else {
        (x + y) as u64
    }
}

/// One thread's counters.
#[derive(Clone, Copy, Debug)]
pub struct Shard {
    /// Event counts, indexed by [`Stat::index`].
    pub counters: [u64; NUM_STATS],
    /// Branch replacements seen by the thread's current mutation.
    pub op_replacements: u32,
}

impl Shard {
    /// A zeroed shard.
    pub fn new() -> (s: Shard)
        ensures
            forall|i: int| 0 <= i < NUM_STATS ==> #[trigger] s.counters@[i] == 0,
            s.op_replacements == 0,
    {
        Shard { counters: [0u64; NUM_STATS], op_replacements: 0 }
    }
}

/// The wrapping sum of counter `i` over the first `n` shards.
pub open spec fn shard_sum(shards: Seq<Shard>, i: int, n: int) -> u64
    decreases n,
{
    if n <= 0 {
        0
    } else {
        wadd(shard_sum(shards, i, n - 1), shards[n - 1].counters@[i])
    }
}

/// All counter state: the per-thread shards, the global gauge slot, and the
/// round-robin slot assignment.
pub struct Counters {
    shards: [Shard; SHARDS],
    global: [u64; NUM_STATS],
    next_slot: usize,
}

impl Counters {
    /// The shards.
    pub closed spec fn shards_spec(&self) -> Seq<Shard> {
        self.shards@
    }

    /// The global gauge slot.
    pub closed spec fn global_spec(&self) -> Seq<u64> {
        self.global@
    }

    /// The next slot the round-robin assignment hands out.
    pub closed spec fn next_slot_spec(&self) -> nat {
        self.next_slot as nat
    }

    /// Counter state with every counter zero.
    pub fn new() -> (c: Counters)
        ensures
            c.shards_spec().len() == SHARDS,
            forall|s: int, i: int| 0 <= s < SHARDS && 0 <= i < NUM_STATS ==> #[trigger] c.shards_spec()[s].counters@[i] == 0,
            forall|s: int| 0 <= s < SHARDS ==> #[trigger] c.shards_spec()[s].op_replacements == 0,
            forall|i: int| 0 <= i < NUM_STATS ==> #[trigger] c.global_spec()[i] == 0,
            c.global_spec().len() == NUM_STATS,
            c.next_slot_spec() == 0,
    {
        let z = Shard::new();
        Counters { shards: [z; SHARDS], global: [0u64; NUM_STATS], next_slot: 0 }
    }

    /// Assigns the calling thread a shard slot, round-robin.
    pub fn register(&mut self) -> (slot: usize)
        ensures
            slot == old(self).next_slot_spec() % (SHARDS as nat),
            slot < SHARDS,
            final(self).next_slot_spec() == (old(self).next_slot_spec() + 1) % (SHARDS as nat),
            final(self).shards_spec() == old(self).shards_spec(),
            final(self).global_spec() == old(self).global_spec(),
    {
        let slot = self.next_slot % SHARDS;
        self.next_slot = (slot + 1) % SHARDS;
        proof {
            vstd::arithmetic::div_mod::lemma_add_mod_noop(self.next_slot as int, 1, SHARDS as int);
            assert((old(self).next_slot as int % 64) % 64 == old(self).next_slot as int % 64) by {
                vstd::arithmetic::div_mod::lemma_mod_twice(old(self).next_slot as int, 64);
            }
        }
        slot
    }
}

/// `new` is `old` with counter `i` of shard `k` advanced (wrapping) by `n`.
pub open spec fn bumped(old: Seq<Shard>, new: Seq<Shard>, k: int, i: int, n: u64) -> bool {
    &&& new.len() == old.len()
    &&& new[k].counters@ == old[k].counters@.update(i, wadd(old[k].counters@[i], n))
    &&& new[k].op_replacements == old[k].op_replacements
    &&& forall|s: int| 0 <= s < old.len() && s != k ==> #[trigger] new[s] == old[s]
}

/// The shard of thread slot `slot`.
pub fn shard(c: &Counters, slot: usize) -> (s: &Shard)
    ensures
        *s == c.shards_spec()[(slot % SHARDS) as int],
{
    &c.shards[slot % SHARDS]
}

/// Records one occurrence of `s` in thread slot `slot`.
pub fn bump(c: &mut Counters, slot: usize, s: Stat)
    ensures
        bumped(old(c).shards_spec(), final(c).shards_spec(), (slot % SHARDS) as int, stat_index(s), 1),
        final(c).global_spec() == old(c).global_spec(),
        final(c).next_slot_spec() == old(c).next_slot_spec(),
{
    bump_by(c, slot, s, 1);
}

/// Records `n` occurrences of `s` in thread slot `slot`.
pub fn bump_by(c: &mut Counters, slot: usize, s: Stat, n: u64)
    ensures
        bumped(old(c).shards_spec(), final(c).shards_spec(), (slot % SHARDS) as int, stat_index(s), n),
        final(c).global_spec() == old(c).global_spec(),
        final(c).next_slot_spec() == old(c).next_slot_spec(),
{
    let k = slot % SHARDS;
    let i = s.index();
    let mut sh = c.shards[k];
    sh.counters[i] = sh.counters[i].wrapping_add(n);
    c.shards[k] = sh;
    proof {
        assert(c.shards@ =~= old(c).shards@.update(k as int, sh));
    }
}

/// Records `bytes` of newly retired garbage and raises the high-water mark.
pub fn record_retire(c: &mut Counters, bytes: usize)
    ensures
        final(c).global_spec()[7] == wadd(old(c).global_spec()[7], bytes as u64),
        final(c).global_spec()[8] == if old(c).global_spec()[8] >= sat_add(
            old(c).global_spec()[7],
            bytes as u64,
        ) {
            old(c).global_spec()[8]
        } else {
            sat_add(old(c).global_spec()[7], bytes as u64)
        },
        forall|i: int| 0 <= i < NUM_STATS && i != 7 && i != 8 ==> #[trigger] final(c).global_spec()[i]
            == old(c).global_spec()[i],
        final(c).global_spec().len() == NUM_STATS,
        final(c).shards_spec() == old(c).shards_spec(),
        final(c).next_slot_spec() == old(c).next_slot_spec(),
{
    let prev = c.global[7];
    c.global[7] = prev.wrapping_add(bytes as u64);
    let cur = prev.saturating_add(bytes as u64);
    if c.global[8] < cur {
        c.global[8] = cur;
    }
}

/// `x + y` clamped to `u64::MAX`.
pub open spec fn sat_add(x: u64, y: u64) -> u64 {
    if x + y > u64::MAX {
        u64::MAX
    } else {
        (x + y) as u64
    }
}

/// Records `bytes` of reclaimed garbage (clamped at zero).
pub fn record_reclaim(c: &mut Counters, bytes: usize)
    ensures
        final(c).global_spec()[7] == if old(c).global_spec()[7] >= bytes as u64 {
            (old(c).global_spec()[7] - bytes as u64) as u64
        } else {
            0
        },
        forall|i: int| 0 <= i < NUM_STATS && i != 7 ==> #[trigger] final(c).global_spec()[i]
            == old(c).global_spec()[i],
        final(c).global_spec().len() == NUM_STATS,
        final(c).shards_spec() == old(c).shards_spec(),
        final(c).next_slot_spec() == old(c).next_slot_spec(),
{
    c.global[7] = c.global[7].saturating_sub(bytes as u64);
}

/// Current retained garbage bytes.
pub fn retained_bytes(c: &Counters) -> (r: u64)
    ensures
        r == c.global_spec()[7],
{
    c.global[7]
}

/// Peak retained garbage bytes recorded.
pub fn retained_hwm(c: &Counters) -> (r: u64)
    ensures
        r == c.global_spec()[8],
{
    c.global[8]
}

/// Reads every counter: a gauge from the global slot, every other counter
/// summed (wrapping) across the thread shards.
pub fn snapshot(c: &Counters) -> (r: [u64; NUM_STATS])
    ensures
        forall|i: int|
            0 <= i < NUM_STATS ==> #[trigger] r@[i] == if is_gauge_spec(i) {
                c.global_spec()[i]
            } else {
                shard_sum(c.shards_spec(), i, SHARDS as int)
            },
{
    let mut r = [0u64; NUM_STATS];
    let mut i: usize = 0;
    while i < NUM_STATS
        invariant
            0 <= i <= NUM_STATS,
            forall|j: int|
                0 <= j < i ==> #[trigger] r@[j] == if is_gauge_spec(j) {
                    c.global_spec()[j]
                } else {
                    shard_sum(c.shards_spec(), j, SHARDS as int)
                },
        decreases NUM_STATS - i,
    {
        if is_gauge(i) {
            r[i] = c.global[i];
        } else {
            let mut sum: u64 = 0;
            let mut k: usize = 0;
            while k < SHARDS
                invariant
                    0 <= k <= SHARDS,
                    i < NUM_STATS,
                    sum == shard_sum(c.shards_spec(), i as int, k as int),
                decreases SHARDS - k,
            {
                sum = sum.wrapping_add(c.shards[k].counters[i]);
                k = k + 1;
            }
            r[i] = sum;
        }
        i = i + 1;
    }
    r
}

/// Zeroes every counter.
pub fn reset(c: &mut Counters)
    ensures
        forall|s: int, i: int| 0 <= s < SHARDS && 0 <= i < NUM_STATS ==> #[trigger] final(c).shards_spec()[s].counters@[i] == 0,
        forall|i: int| 0 <= i < NUM_STATS ==> #[trigger] final(c).global_spec()[i] == 0,
        final(c).next_slot_spec() == old(c).next_slot_spec(),
{
    let mut k: usize = 0;
    while k < SHARDS
        invariant
            0 <= k <= SHARDS,
            forall|s: int, i: int| 0 <= s < k && 0 <= i < NUM_STATS ==> #[trigger] c.shards@[s].counters@[i] == 0,
            c.next_slot == old(c).next_slot,
        decreases SHARDS - k,
    {
        let mut sh = c.shards[k];
        sh.counters = [0u64; NUM_STATS];
        c.shards[k] = sh;
        k = k + 1;
    }
    c.global = [0u64; NUM_STATS];
}

/// True when the counters are live.
pub fn enabled() -> (r: bool)
    ensures
        r,
{
    true
}

/// `b` differs from `a` in shard `k` at most.
pub open spec fn only_shard_changed(a: Counters, b: Counters, k: int) -> bool {
    &&& b.shards_spec().len() == a.shards_spec().len()
    &&& forall|s: int| 0 <= s < SHARDS && s != k ==> #[trigger] b.shards_spec()[s] == a.shards_spec()[s]
    &&& b.global_spec() == a.global_spec()
    &&& b.next_slot_spec() == a.next_slot_spec()
}

/// `b` is `a` after [`op_begin`] on `slot`.
pub open spec fn begin_step(a: Counters, b: Counters, slot: usize) -> bool {
    let k = (slot % SHARDS) as int;
    &&& b.shards_spec()[k].op_replacements == 0
    &&& b.shards_spec()[k].counters == a.shards_spec()[k].counters
    &&& only_shard_changed(a, b, k)
}

/// `b` is `a` after [`note_branch_replacement`] on `slot`.
pub open spec fn note_step(a: Counters, b: Counters, slot: usize) -> bool {
    let k = (slot % SHARDS) as int;
    let r = a.shards_spec()[k].op_replacements;
    &&& b.shards_spec()[k].op_replacements == if r == u32::MAX {
        u32::MAX
    } else {
        (r + 1) as u32
    }
    &&& b.shards_spec()[k].counters@ == a.shards_spec()[k].counters@.update(
        14,
        wadd(a.shards_spec()[k].counters@[14], 1),
    )
    &&& only_shard_changed(a, b, k)
}

/// `b` is `a` after [`op_end`] on `slot`.
pub open spec fn end_step(a: Counters, b: Counters, slot: usize) -> bool {
    let k = (slot % SHARDS) as int;
    &&& b.shards_spec()[k].counters@ == if a.shards_spec()[k].op_replacements >= 2 {
        a.shards_spec()[k].counters@.update(15, wadd(a.shards_spec()[k].counters@[15], 1))
    } else {
        a.shards_spec()[k].counters@
    }
    &&& b.shards_spec()[k].op_replacements == a.shards_spec()[k].op_replacements
    &&& only_shard_changed(a, b, k)
}

/// Marks the start of one mutation on thread slot `slot`.
pub fn op_begin(c: &mut Counters, slot: usize)
    ensures
        begin_step(*old(c), *final(c), slot),
{
    let k = slot % SHARDS;
    let mut sh = c.shards[k];
    sh.op_replacements = 0;
    c.shards[k] = sh;
}

/// Records that the current mutation replaced or removed a branch node.
pub fn note_branch_replacement(c: &mut Counters, slot: usize)
    ensures
        note_step(*old(c), *final(c), slot),
{
    bump(c, slot, Stat::BranchReplacements);
    let k = slot % SHARDS;
    let mut sh = c.shards[k];
    sh.op_replacements = sh.op_replacements.saturating_add(1);
    c.shards[k] = sh;
}

/// Records that the current mutation rewrote the owner's root state.
pub fn note_root_rewrite(c: &mut Counters, slot: usize)
    ensures
        final(c).shards_spec()[(slot % SHARDS) as int].counters@ == old(c).shards_spec()[(slot
            % SHARDS) as int].counters@.update(
            16,
            wadd(old(c).shards_spec()[(slot % SHARDS) as int].counters@[16], 1),
        ),
        final(c).shards_spec()[(slot % SHARDS) as int].op_replacements == old(c).shards_spec()[(
        slot % SHARDS) as int].op_replacements,
        only_shard_changed(*old(c), *final(c), (slot % SHARDS) as int),
{
    bump(c, slot, Stat::RootRewrites);
}

/// Closes the scope opened by [`op_begin`]: a mutation that replaced two or
/// more branch nodes counts as a deep cascade.
pub fn op_end(c: &mut Counters, slot: usize)
    ensures
        end_step(*old(c), *final(c), slot),
{
    let k = slot % SHARDS;
    if c.shards[k].op_replacements >= 2 {
        bump(c, slot, Stat::DeepCascades);
    }
}

/// The counters of slot `slot` after `op_begin` then `i` branch
/// replacements.
proof fn lemma_notes(cs: Seq<Counters>, slot: usize, i: nat)
    requires
        i + 2 <= cs.len(),
        i < u32::MAX,
        begin_step(cs[0], cs[1], slot),
        forall|j: int| 1 <= j <= i ==> #[trigger] note_step(cs[j], cs[j + 1], slot),
    ensures
        ({
            let k = (slot % SHARDS) as int;
            &&& cs[i as int + 1].shards_spec()[k].op_replacements == i
            &&& cs[i as int + 1].shards_spec()[k].counters@[14] == (cs[0].shards_spec()[k].counters@[14] + i) % 0x1_0000_0000_0000_0000
            &&& cs[i as int + 1].shards_spec()[k].counters@[15] == cs[0].shards_spec()[k].counters@[15]
            &&& forall|s: int| 0 <= s < SHARDS && s != k ==> #[trigger] cs[i as int + 1].shards_spec()[s] == cs[0].shards_spec()[s]
            &&& cs[i as int + 1].global_spec() == cs[0].global_spec()
        }),
    decreases i,
{
    let k = (slot % SHARDS) as int;
    if i > 0 {
        lemma_notes(cs, slot, (i - 1) as nat);
        assert(note_step(cs[i as int], cs[i as int + 1], slot));
        let x = cs[0].shards_spec()[k].counters@[14] as int;
        let prev = (x + i - 1) % 0x1_0000_0000_0000_0000;
        assert(wadd(prev as u64, 1) == (x + i) % 0x1_0000_0000_0000_0000) by {
            vstd::arithmetic::div_mod::lemma_add_mod_noop(x + i - 1, 1, 0x1_0000_0000_0000_0000);
        }
    } else {
        assert(cs[0].shards_spec()[k].counters@[14] as int % 0x1_0000_0000_0000_0000 == cs[0].shards_spec()[k].counters@[14]);
    }
}

/// A mutation scope (`op_begin`, `n` branch replacements, `op_end`) counts
/// one deep cascade exactly when it replaced two or more branches, and adds
/// `n` (wrapping) to the replacement counter; other shards and the gauges
/// are untouched.
pub proof fn law_deep_cascade(cs: Seq<Counters>, slot: usize, n: nat)
    requires
        cs.len() == n + 3,
        n < u32::MAX,
        begin_step(cs[0], cs[1], slot),
        forall|j: int| 1 <= j <= n ==> #[trigger] note_step(cs[j], cs[j + 1], slot),
        end_step(cs[n as int + 1], cs[n as int + 2], slot),
    ensures
        ({
            let k = (slot % SHARDS) as int;
            let first = cs[0].shards_spec()[k].counters@;
            let last = cs[n as int + 2].shards_spec()[k].counters@;
            &&& last[15] == if n >= 2 {
                wadd(first[15], 1)
            } else {
                first[15]
            }
            &&& last[14] == (first[14] + n) % 0x1_0000_0000_0000_0000
            &&& forall|s: int| 0 <= s < SHARDS && s != k ==> #[trigger] cs[n as int + 2].shards_spec()[s] == cs[0].shards_spec()[s]
            &&& cs[n as int + 2].global_spec() == cs[0].global_spec()
        }),
{
    lemma_notes(cs, slot, n);
}

} // verus!
