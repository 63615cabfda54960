use expanse::occ_stats::{
    bump, bump_by, enabled, is_gauge, name, note_branch_replacement, note_root_rewrite, op_begin,
    op_end, record_reclaim, record_retire, reset, retained_bytes, retained_hwm, shard, snapshot,
    Counters, Stat, NAMES, NUM_STATS, SHARDS,
};

#[test]
fn names_cover_every_stat() {
    assert_eq!(NAMES.len(), NUM_STATS);
    assert_eq!(Stat::BranchSplitRemove.index() + 1, NUM_STATS);
    assert_eq!(NAMES[Stat::SampleSpinCycles.index()], "sample_spin_cycles");
    assert_eq!(NAMES[Stat::DeepCascades.index()], "deep_cascades");
    assert_eq!(NAMES[Stat::LockRestarts.index()], "lock_restarts");
    assert_eq!(NAMES[Stat::LockSpins.index()], "lock_spins");
    assert_eq!(NAMES[Stat::LockHoldCycles.index()], "lock_hold_cycles");
    assert_eq!(NAMES[Stat::LockFallbacks.index()], "lock_fallbacks");
    assert_eq!(NAMES[Stat::Inserts.index()], "inserts");
    assert_eq!(
        NAMES[Stat::FallbackCapExpansion.index()],
        "fallback_cap_expansion"
    );
    assert_eq!(
        NAMES[Stat::FallbackRootGrowth.index()],
        "fallback_root_growth"
    );
    assert_eq!(
        NAMES[Stat::ContentionGateClosed.index()],
        "contention_gate_closed"
    );
    assert_eq!(
        NAMES[Stat::ContentionRetryExhausted.index()],
        "contention_retry_exhausted"
    );
    assert_eq!(
        NAMES[Stat::GateBlockedEntries.index()],
        "gate_blocked_entries"
    );
    assert_eq!(NAMES[Stat::GateWaitCycles.index()], "gate_wait_cycles");
    assert_eq!(NAMES[Stat::QuiesceCalls.index()], "quiesce_calls");
    assert_eq!(
        NAMES[Stat::QuiesceDrainCycles.index()],
        "quiesce_drain_cycles"
    );
    assert_eq!(
        NAMES[Stat::BranchSplitSubarray.index()],
        "branch_split_subarray"
    );
    assert_eq!(
        NAMES[Stat::BranchSplitLinear.index()],
        "branch_split_linear"
    );
    assert_eq!(
        NAMES[Stat::BranchSplitPrefix.index()],
        "branch_split_prefix"
    );
    assert_eq!(
        NAMES[Stat::BranchSplitRemove.index()],
        "branch_split_remove"
    );
}

#[test]
fn existing_discriminants_are_stable() {
    assert_eq!(Stat::ReadOps.index(), 0);
    assert_eq!(Stat::WriteOps.index(), 3);
    assert_eq!(Stat::BranchReplacements.index(), 14);
    assert_eq!(Stat::LockFallbacks.index(), 20);
    assert_eq!(Stat::Inserts.index(), 21);
    assert_eq!(Stat::FallbackCapExpansion.index(), 22);
    assert_eq!(Stat::FallbackImmediateConversion.index(), 23);
    assert_eq!(Stat::FallbackBranchSplit.index(), 24);
    assert_eq!(Stat::FallbackRootGrowth.index(), 25);
    assert_eq!(Stat::FallbackContention.index(), 26);
    assert_eq!(Stat::FallbackUnknownTag.index(), 27);
    assert_eq!(Stat::PopRedescends.index(), 28);
    assert_eq!(Stat::PopRedescendAbandoned.index(), 29);
    assert_eq!(Stat::ContentionGateClosed.index(), 30);
    assert_eq!(Stat::ContentionRetryExhausted.index(), 31);
    assert_eq!(Stat::GateBlockedEntries.index(), 32);
    assert_eq!(Stat::GateWaitCycles.index(), 33);
    assert_eq!(Stat::QuiesceCalls.index(), 34);
    assert_eq!(Stat::QuiesceDrainCycles.index(), 35);
    assert_eq!(Stat::BranchSplitSubarray.index(), 36);
    assert_eq!(Stat::BranchSplitLinear.index(), 37);
    assert_eq!(Stat::BranchSplitPrefix.index(), 38);
    assert_eq!(Stat::BranchSplitRemove.index(), 39);
}

#[test]
fn shards_sum_across_threads() {
    let mut c = Counters::new();
    let before = snapshot(&c)[Stat::ReadOps.index()];
    for _ in 0..4 {
        let slot = c.register();
        for _ in 0..1000 {
            bump(&mut c, slot, Stat::ReadOps);
        }
    }
    assert!(snapshot(&c)[Stat::ReadOps.index()] >= before + 4000);
    assert_eq!(snapshot(&c)[Stat::ReadOps.index()], 4000);
}

#[test]
fn deep_cascade_needs_two_replacements() {
    let mut c = Counters::new();
    let slot = c.register();
    let base = snapshot(&c);
    op_begin(&mut c, slot);
    note_branch_replacement(&mut c, slot);
    op_end(&mut c, slot);
    let one = snapshot(&c);
    assert_eq!(
        one[Stat::DeepCascades.index()],
        base[Stat::DeepCascades.index()],
        "one replacement is not a cascade"
    );
    op_begin(&mut c, slot);
    note_branch_replacement(&mut c, slot);
    note_branch_replacement(&mut c, slot);
    op_end(&mut c, slot);
    let two = snapshot(&c);
    assert_eq!(
        two[Stat::DeepCascades.index()],
        base[Stat::DeepCascades.index()] + 1
    );
    assert_eq!(
        two[Stat::BranchReplacements.index()],
        base[Stat::BranchReplacements.index()] + 3
    );
}

#[test]
fn gauges_track_retained_garbage_and_its_peak() {
    let mut c = Counters::new();
    record_retire(&mut c, 64);
    record_retire(&mut c, 128);
    assert_eq!(retained_bytes(&c), 192);
    record_reclaim(&mut c, 100);
    assert_eq!(retained_bytes(&c), 92);
    assert_eq!(retained_hwm(&c), 192);
    record_reclaim(&mut c, 1000);
    assert_eq!(retained_bytes(&c), 0, "reclaim clamps at zero");
    let snap = snapshot(&c);
    assert_eq!(snap[Stat::RetainedGarbageHwm.index()], 192);
    assert!(is_gauge(Stat::RetainedGarbageBytes.index()));
    assert!(!is_gauge(Stat::ReadOps.index()));
}

#[test]
fn bump_by_wraps_and_reset_clears() {
    let mut c = Counters::new();
    let slot = c.register();
    bump_by(&mut c, slot, Stat::Retired, u64::MAX);
    bump_by(&mut c, slot, Stat::Retired, 2);
    assert_eq!(shard(&c, slot).counters[Stat::Retired.index()], 1);
    note_root_rewrite(&mut c, slot);
    assert_eq!(snapshot(&c)[Stat::RootRewrites.index()], 1);
    reset(&mut c);
    assert!(snapshot(&c).iter().all(|&v| v == 0));
}

#[test]
fn slots_are_assigned_round_robin() {
    let mut c = Counters::new();
    let first = c.register();
    assert_eq!(first, 0);
    for i in 1..SHARDS {
        assert_eq!(c.register(), i);
    }
    assert_eq!(c.register(), 0);
    assert!(enabled());
    assert_eq!(name(Stat::ReadOps.index()), "read_ops");
}
