use expanse::occ::{
    tree_begin_if, tree_end_if, version_begin_if_ptr, version_end_if_ptr, version_obsolete_if,
    version_try_lock_if_ptr, version_unlock_if_ptr, Cover,
    version_begin, version_end, version_obsolete, version_obsolete_locked, version_try_lock,
    version_try_lock_expect, version_unlock, Collector, Garbage, LockSet, NodeLock, SeqVersion, WriterGate, OBSOLETE,
};
use expanse::occ32::{node_validate, node_version_begin, node_version_end, try_node_sample, SeqVersion32};

#[test]
fn seq_version_protocol() {
    let mut v = SeqVersion::new();
    let s = v.sample();
    assert!(v.validate(s));
    v.begin();
    assert!(!v.validate(s));
    v.end();
    let s2 = v.sample();
    assert_ne!(s, s2);
    assert!(v.validate(s2));
}

#[test]
fn version_try_lock_expect_semantics() {
    let mut cell = 4u32;

    // 1. Success on matching even version: locks cell (4 -> 5)
    assert_eq!(version_try_lock_expect(&mut cell, 4), Ok(4));
    assert_eq!(cell, 5);

    // Unlock back to 6 (modified)
    version_unlock(&mut cell, 4, true);
    assert_eq!(cell, 6);

    // 2. Failure on stale snapshot (expected 4, but current is 6)
    assert_eq!(version_try_lock_expect(&mut cell, 4), Err(6));
    // Cell remains unlocked and unmodified
    assert_eq!(cell, 6);

    // 3. Failure on odd snapshot (expected 5)
    assert_eq!(version_try_lock_expect(&mut cell, 5), Err(5));

    // 4. Failure on obsolete snapshot
    assert_eq!(
        version_try_lock_expect(&mut cell, 6 | OBSOLETE),
        Err(6 | OBSOLETE)
    );
}

#[test]
fn version_try_lock_expect_discriminates_stale_advancement() {
    let mut cell = 4u32;
    let snapshot = 4;

    // Simulate concurrent modification: node advances 4 -> 5 -> 6
    cell = 6;

    // Plain try_lock succeeds despite the stale snapshot because 6 is even.
    let old_behavior_lock = version_try_lock(&mut cell);
    assert!(
        old_behavior_lock.is_ok(),
        "plain try_lock cannot detect stale snapshot"
    );
    version_unlock(&mut cell, 6, false); // restore to 6

    // Anchored to the snapshot 4, the lock must fail with Err(6).
    let anchored_lock = version_try_lock_expect(&mut cell, snapshot);
    assert_eq!(
        anchored_lock,
        Err(6),
        "version_try_lock_expect MUST reject lock on stale snapshot"
    );
}

#[test]
fn node_lock_and_unlock_modified() {
    let mut cell = 1234u32;
    let old = version_try_lock(&mut cell).expect("lock acquired");
    assert_eq!(old, 1234);
    assert_eq!(cell, 1235);
    assert_eq!(version_try_lock(&mut cell), Err(1235));
    version_unlock(&mut cell, old, true);
    assert_eq!(cell, 1236);
}

#[test]
fn node_lock_and_unlock_unmodified() {
    let mut cell = 5678u32;
    let old = version_try_lock(&mut cell).expect("lock acquired");
    assert_eq!(cell, 5679);
    version_unlock(&mut cell, old, false);
    assert_eq!(cell, 5678);
}

#[test]
fn node_lock_and_unlock_obsolete() {
    let mut cell = 1234u32;
    let _old = version_try_lock(&mut cell).expect("lock acquired");
    version_obsolete_locked(&mut cell);
    assert_eq!(cell, 1235 | OBSOLETE);
    version_unlock(&mut cell, 1234, true);
    assert_eq!(cell, 1235 | OBSOLETE, "the obsolete flag survives the unlock");
    assert_eq!(version_try_lock(&mut cell), Err(1235 | OBSOLETE));
}

#[test]
fn obsolete_unlocked_word_refuses_locks() {
    let mut cell = 8u32;
    version_obsolete(&mut cell);
    assert_eq!(cell, 9 | OBSOLETE);
    assert_eq!(version_try_lock(&mut cell), Err(9 | OBSOLETE));
}

#[test]
fn node_bracket_wraps_at_the_top() {
    let mut cell = u32::MAX - 1;
    version_begin(&mut cell);
    assert_eq!(cell, u32::MAX);
    version_end(&mut cell);
    assert_eq!(cell, 0);
}

#[test]
fn try_sample_reports_open_bracket_instead_of_spinning() {
    let mut seq = SeqVersion32::new();
    assert_eq!(seq.try_sample(), Some(0));

    seq.begin();
    assert_eq!(
        seq.try_sample(),
        None,
        "an open bracket must yield None, never a spin"
    );

    seq.end();
    assert_eq!(seq.try_sample(), Some(2));
}

#[test]
fn try_node_sample_reports_open_bracket() {
    let mut version = 0u32;
    assert_eq!(try_node_sample(&version), Some(0));
    node_version_begin(&mut version);
    assert_eq!(try_node_sample(&version), None, "open bracket must yield None");
    node_version_end(&mut version);
    assert_eq!(try_node_sample(&version), Some(2));
}

#[test]
fn test_seq_version32_transitions() {
    let mut seq = SeqVersion32::new();
    let s0 = seq.sample();
    assert_eq!(s0, 0);
    assert!(seq.validate(s0));

    seq.begin();
    // Validation fails during mutation
    assert!(!seq.validate(s0));

    seq.end();
    let s1 = seq.sample();
    assert_eq!(s1, 2);
    assert!(seq.validate(s1));
    assert!(!seq.validate(s0));
}

#[test]
fn test_node_version_raw_transitions() {
    let mut version = 0u32;

    let s0 = try_node_sample(&version).expect("stable");
    assert_eq!(s0, 0);
    assert!(node_validate(&version, s0));

    node_version_begin(&mut version);
    assert_eq!(version, 1);
    assert!(!node_validate(&version, s0));

    node_version_end(&mut version);
    assert_eq!(version, 2);
    let s1 = try_node_sample(&version).expect("stable");
    assert_eq!(s1, 2);
    assert!(node_validate(&version, s1));
    assert!(!node_validate(&version, s0));
}

fn block(handle: u64, bytes: usize) -> Garbage {
    Garbage { handle, bytes, align: 16 }
}

#[test]
fn epochs_defer_frees_until_readers_leave() {
    let mut c = Collector::new();
    let reader = c.register();
    let pin = reader.pin(&mut c);
    c.retire(block(1, 64));
    // A reader pinned at the current epoch permits one advance.
    let freed = c.try_advance();
    assert!(freed.is_empty());
    assert_eq!(c.epoch(), 1);
    // Refused: the lagging pin stalls this one.
    let freed = c.try_advance();
    assert!(freed.is_empty());
    assert_eq!(c.epoch(), 1);
    pin.unpin(&mut c);
    // Advances and hands back the block retired above.
    let freed = c.try_advance();
    assert_eq!(freed, vec![block(1, 64)]);
    assert_eq!(c.epoch(), 2);
    // Advances over an empty bin.
    let freed = c.try_advance();
    assert!(freed.is_empty());
    assert_eq!(c.epoch(), 3);
    c.deregister(reader);
    assert!(c.drain().is_empty());
}

#[test]
fn departed_reader_does_not_stall() {
    let mut c = Collector::new();
    let r1 = c.register();
    let _pin_forever = r1.pin(&mut c);
    let epoch_before = c.epoch();
    c.try_advance();
    assert_eq!(c.epoch(), epoch_before + 1);
    c.try_advance();
    assert_eq!(c.epoch(), epoch_before + 1);
    _pin_forever.unpin(&mut c);
    c.deregister(r1);
    c.try_advance();
    assert_eq!(c.epoch(), epoch_before + 2);
}

#[test]
fn collector_retained_bytes_accounting() {
    let mut c = Collector::new();
    assert_eq!(c.retained_bytes(), 0);

    let reader = c.register();
    let pin = reader.pin(&mut c);

    c.retire(block(1, 64));
    c.retire(block(2, 128));
    assert_eq!(c.retained_bytes(), 192);

    c.try_advance();
    assert_eq!(c.retained_bytes(), 192);

    c.retire(block(3, 256));
    assert_eq!(c.retained_bytes(), 448);
    c.try_advance();
    assert_eq!(c.retained_bytes(), 448);

    pin.unpin(&mut c);
    c.try_advance();
    assert_eq!(c.retained_bytes(), 256);
    c.try_advance();
    assert_eq!(c.retained_bytes(), 0);

    c.deregister(reader);
    c.drain();
}

#[test]
fn drain_returns_every_queued_block() {
    let mut c = Collector::new();
    c.retire(block(1, 8));
    c.try_advance();
    c.retire(block(2, 24));
    assert_eq!(c.retained_bytes(), 32);
    let all = c.drain();
    assert_eq!(all, vec![block(1, 8), block(2, 24)]);
    assert_eq!(c.retained_bytes(), 0);
}

#[test]
fn writer_gate_protocol() {
    let mut gate = WriterGate::new(1);
    let mut in_flight: usize = 0;
    assert!(!gate.is_closed());

    let guard = gate.enter_writer(&mut in_flight, 0);
    assert!(guard.is_some());
    assert_eq!(in_flight, 1);
    guard.unwrap().exit(&gate, &mut in_flight);
    assert_eq!(in_flight, 0);

    gate.close();
    assert!(gate.is_closed());
    assert!(gate.enter_writer(&mut in_flight, 0).is_none());
    assert_eq!(in_flight, 0);

    gate.open();
    assert!(!gate.is_closed());
    let guard = gate.enter_writer(&mut in_flight, 0);
    assert!(guard.is_some());
    assert_eq!(in_flight, 1);
    guard.unwrap().exit(&gate, &mut in_flight);
    assert_eq!(in_flight, 0);
}

#[test]
fn writer_gate_shared_slot_stays_in_flight_until_last_exit() {
    let mut gate = WriterGate::new(2);
    let mut in_flight: usize = 0;

    let a = gate.enter_writer(&mut in_flight, 7).expect("gate is open");
    let b = gate.enter_writer(&mut in_flight, 7).expect("gate is open");
    assert_eq!(a.slot_id(), 7);
    a.exit(&gate, &mut in_flight);
    assert_ne!(in_flight, 0, "the first exit drained a slot another writer still holds");
    b.exit(&gate, &mut in_flight);
    assert_eq!(in_flight, 0);

    let c = gate.enter_writer(&mut in_flight, 7).expect("gate is open");
    gate.close();
    assert!(gate.enter_writer(&mut in_flight, 7).is_none());
    assert_ne!(in_flight, 0, "a back-out from the closed gate drained a slot another writer still holds");
    c.exit(&gate, &mut in_flight);
    assert_eq!(in_flight, 0);
}

#[test]
fn lock_set_normal_and_abort_protocol() {
    let mut v_tree = SeqVersion::new();
    // Node words v1 and v2.
    let mut cells: Vec<u32> = vec![0, 0];

    // 1. Normal acquisition and modified release
    {
        let mut ls = LockSet::new();
        let t_idx = ls.try_lock_tree(&mut v_tree, &mut cells).expect("lock tree");
        let n1_idx = ls.try_lock_node(&mut v_tree, &mut cells, 0).expect("lock v1");
        let _n2_idx = ls.try_lock_node(&mut v_tree, &mut cells, 1).expect("lock v2");

        ls.mark_modified(t_idx);
        ls.mark_modified(n1_idx);
        assert_eq!(ls.len(), 3);
        ls.unlock_all(&mut v_tree, &mut cells);
    }
    assert!(v_tree.validate(2));
    assert_eq!(cells[0], 2);
    assert_eq!(cells[1], 0);

    // 2. Abort on a failed acquisition drops earlier locks unmodified
    {
        let mut ls = LockSet::new();
        let _t_idx = ls.try_lock_tree(&mut v_tree, &mut cells).expect("lock tree");
        let _n1_idx = ls.try_lock_node(&mut v_tree, &mut cells, 0).expect("lock v1");

        let _ext = version_try_lock(&mut cells[1]).expect("external lock");

        assert!(ls.try_lock_node(&mut v_tree, &mut cells, 1).is_err());
        assert_eq!(ls.len(), 0);

        version_unlock(&mut cells[1], 0, false);
    }
    assert!(v_tree.validate(2));
    assert_eq!(cells[0], 2);
}

#[test]
fn lock_set_obsolete_node_keeps_its_flag() {
    let mut v_tree = SeqVersion::new();
    let mut cells: Vec<u32> = vec![4, 6];
    let mut ls = LockSet::new();
    let a = ls.try_lock_node(&mut v_tree, &mut cells, 0).expect("lock a");
    let b = ls.try_lock_node(&mut v_tree, &mut cells, 1).expect("lock b");
    assert!(ls.try_lock_node(&mut v_tree, &mut cells, 1) == Err(7));
    assert!(ls.is_empty());
    assert_eq!(cells, vec![4, 6]);
    let a = ls.try_lock_node(&mut v_tree, &mut cells, 0).expect("lock a");
    let b2 = ls.try_lock_node(&mut v_tree, &mut cells, 1).expect("lock b");
    assert_eq!((a, b, b2), (0, 1, 1));
    ls.mark_obsolete(a, &mut cells);
    assert_eq!(cells[0], OBSOLETE | 5);
    ls.unlock_all(&mut v_tree, &mut cells);
    assert_eq!(cells, vec![OBSOLETE | 5, 6]);
    assert!(v_tree.validate(0));
}

#[test]
fn node_lock_release_paths() {
    let mut cells: Vec<u32> = vec![10, 12, 14];
    let l = NodeLock::try_lock(&mut cells, 0).expect("lock");
    assert_eq!(cells[0], 11);
    assert!(l.is_modified());
    assert_eq!(l.old_version(), 10);
    assert!(NodeLock::try_lock(&mut cells, 0).is_err());
    l.release(&mut cells);
    assert_eq!(cells[0], 12);

    let mut l = NodeLock::try_lock(&mut cells, 1).expect("lock");
    l.abort_unmodified();
    l.release(&mut cells);
    assert_eq!(cells[1], 12);

    let mut l = NodeLock::try_lock(&mut cells, 2).expect("lock");
    l.mark_obsolete(&mut cells);
    assert!(l.is_obsolete());
    l.release(&mut cells);
    assert_eq!(cells[2], OBSOLETE | 15);
    assert_eq!(NodeLock::try_lock(&mut cells, 2).err(), Some(OBSOLETE | 15));
}

#[test]
fn engine_brackets_act_only_on_shared_trees() {
    let mut cells = vec![4u32, 10, 20];
    version_begin_if_ptr::<false>(&mut cells, 1);
    assert_eq!(cells, vec![4, 10, 20]);
    version_begin_if_ptr::<true>(&mut cells, 1);
    assert_eq!(cells, vec![4, 11, 20]);
    version_end_if_ptr::<true>(&mut cells, 1);
    assert_eq!(cells, vec![4, 12, 20]);

    assert_eq!(version_try_lock_if_ptr::<false>(&mut cells, 2), Ok(0));
    assert_eq!(cells[2], 20);
    assert_eq!(version_try_lock_if_ptr::<true>(&mut cells, 2), Ok(20));
    assert_eq!(cells[2], 21);
    assert_eq!(version_try_lock_if_ptr::<true>(&mut cells, 2), Err(21));
    version_unlock_if_ptr::<true>(&mut cells, 2, 20, true);
    assert_eq!(cells[2], 22);

    version_obsolete_if::<true>(&mut cells, 0);
    assert_eq!(cells[0], OBSOLETE | 5);
    assert_eq!(version_try_lock_if_ptr::<true>(&mut cells, 0), Err(OBSOLETE | 5));

    let mut tree = SeqVersion::new();
    tree_begin_if::<true>(false, &mut tree);
    assert_eq!(tree.sample(), 0);
    tree_begin_if::<true>(true, &mut tree);
    assert!(!tree.validate(0));
    tree_end_if::<true>(true, &mut tree);
    assert!(tree.validate(2));
}

#[test]
fn covers_bracket_the_word_they_name() {
    let mut tree = SeqVersion::new();
    let mut cells = vec![0u32, 6];
    let node = Cover::Node(1);
    node.begin_if::<true, false>(true, &mut tree, &mut cells);
    assert_eq!(cells, vec![0, 7]);
    node.end_if::<true, false>(true, &mut tree, &mut cells);
    assert_eq!(cells, vec![0, 8]);
    assert!(tree.validate(0));

    // Nested mode: the brief brackets do nothing; the descent bracket acts.
    node.begin_if::<true, true>(true, &mut tree, &mut cells);
    assert_eq!(cells, vec![0, 8]);
    node.nest_begin::<true, true>(&mut cells);
    assert_eq!(cells, vec![0, 9]);
    node.nest_end::<true, true>(&mut cells);
    assert_eq!(cells, vec![0, 10]);
    Cover::Tree.nest_begin::<true, true>(&mut cells);
    assert_eq!(cells, vec![0, 10]);

    Cover::Tree.begin_if::<true, false>(true, &mut tree, &mut cells);
    assert!(!tree.validate(0));
    Cover::Tree.end_if::<true, false>(true, &mut tree, &mut cells);
    assert!(tree.validate(2));
    assert_eq!(cells, vec![0, 10]);

    // Unshared trees bracket nothing.
    node.begin_if::<false, false>(true, &mut tree, &mut cells);
    assert_eq!(cells, vec![0, 10]);
}
