use expanse::set::{ExpanseSet, ROOT_LEAF_CAP};
use std::collections::BTreeSet;

struct XorShift(u64);
impl XorShift {
    fn next(&mut self) -> u64 {
        let mut x = self.0;
        x ^= x << 13;
        x ^= x >> 7;
        x ^= x << 17;
        self.0 = x;
        x
    }
}

const OPS: usize = 6000;

fn keys_of(s: &ExpanseSet) -> Vec<u64> {
    let mut it = s.iter();
    let mut out = Vec::new();
    while let Some(k) = it.next() {
        out.push(k);
    }
    out
}

fn set_of(keys: &[u64]) -> ExpanseSet {
    let mut s = ExpanseSet::new();
    for &k in keys {
        s.insert(k);
    }
    s
}

#[test]
fn from_sorted_iter_matches_insert() {
    type Gen = fn(&mut XorShift, usize) -> Vec<u64>;
    let distributions: &[(&str, Gen)] = &[
        ("dense", |_r, n| (0..n as u64).collect()),
        ("clustered", |r, n| {
            let mut v = Vec::new();
            let mut base = 0u64;
            while v.len() < n {
                base += (r.next() % 4096) + 1;
                let run = 1 + (r.next() % 64) as usize;
                for j in 0..run {
                    v.push(base + j as u64);
                }
            }
            v.truncate(n);
            v
        }),
        ("sparse", |r, n| {
            let mut s = BTreeSet::new();
            while s.len() < n {
                s.insert(r.next());
            }
            s.into_iter().collect()
        }),
        ("byte-skewed", |r, n| {
            let mut s = BTreeSet::new();
            while s.len() < n {
                s.insert(r.next() & 0x0003_03FF_00FF_03FF);
            }
            s.into_iter().collect()
        }),
    ];
    for &(name, genf) in distributions {
        for &n in &[
            0usize, 1, 5, 15, 16, 25, 26, 31, 32, 33, 200, 300, 2000, 20_000,
        ] {
            let mut rng = XorShift(0x51ED_0000 ^ n as u64);
            let mut keys = genf(&mut rng, n);
            keys.sort_unstable();
            keys.dedup();

            let built = ExpanseSet::from_sorted_iter(keys.clone());
            built
                .validate_defensive()
                .unwrap_or_else(|e| panic!("{name} n={n}: builder invalid: {e}"));

            let mut inserted = ExpanseSet::new();
            for &k in &keys {
                inserted.insert(k);
            }

            assert_eq!(built.len(), keys.len() as u64, "{name} n={n}: len");
            assert_eq!(keys_of(&built), keys, "{name} n={n}: contents");
            assert!(
                built.mem_used() <= inserted.mem_used(),
                "{name} n={n}: builder less compact than insert ({} > {})",
                built.mem_used(),
                inserted.mem_used()
            );

            let mut b2 = ExpanseSet::from_sorted_iter(keys.clone());
            if let Some(&first) = keys.first() {
                assert!(!b2.insert(first), "re-insert of existing key");
                assert!(b2.remove(first), "remove existing key");
                assert!(!b2.contains(first), "removed key still present");
                b2.validate_defensive()
                    .unwrap_or_else(|e| panic!("{name} n={n}: post-mutation invalid: {e}"));
            }
        }
    }
}

#[test]
fn materialize_differential() {
    fn check(a: &[u64], b: &[u64], label: &str) {
        let (sa, sb) = (set_of(a), set_of(b));
        let (ma, mb): (BTreeSet<u64>, BTreeSet<u64>) =
            (a.iter().copied().collect(), b.iter().copied().collect());
        let cases: &[(ExpanseSet, Vec<u64>, &str)] = &[
            (
                sa.intersection(&sb),
                ma.intersection(&mb).copied().collect(),
                "and",
            ),
            (sa.union(&sb), ma.union(&mb).copied().collect(), "or"),
            (
                sa.difference(&sb),
                ma.difference(&mb).copied().collect(),
                "diff",
            ),
            (
                sa.symmetric_difference(&sb),
                ma.symmetric_difference(&mb).copied().collect(),
                "xor",
            ),
        ];
        for (got, want, op) in cases {
            got.validate_defensive()
                .unwrap_or_else(|e| panic!("{label}/{op}: invalid result: {e}"));
            assert_eq!(keys_of(got), *want, "{label}/{op}: contents");
            assert_eq!(got.len(), want.len() as u64, "{label}/{op}: len");
        }
    }

    let mut rng = XorShift(0xA1B2_C3D4);
    let dense_a: Vec<u64> = (0..70_000u64).collect();
    let dense_b: Vec<u64> = (30_000..100_000u64).collect();
    check(&dense_a, &dense_b, "dense-overlap");
    check(&dense_a, &dense_a, "dense-self");
    check(
        &(0..65_536u64).collect::<Vec<_>>(),
        &[0, 65_535, 65_536, 200_000],
        "full-l2-vs-sparse",
    );
    check(
        &(0..256u64).collect::<Vec<_>>(),
        &(128..384u64).collect::<Vec<_>>(),
        "full-l1-overlap",
    );

    let clustered = |rng: &mut XorShift, n: usize| -> Vec<u64> {
        let mut v = Vec::new();
        let mut base = 0u64;
        while v.len() < n {
            base += (rng.next() % 8192) + 1;
            for j in 0..(1 + rng.next() % 200) {
                v.push(base + j);
            }
        }
        v.truncate(n);
        v.sort_unstable();
        v.dedup();
        v
    };
    let ca = clustered(&mut rng, 40_000);
    let cb = clustered(&mut rng, 40_000);
    check(&ca, &cb, "clustered");

    let sparse = |rng: &mut XorShift, n: usize| -> Vec<u64> {
        let mut s = BTreeSet::new();
        while s.len() < n {
            s.insert(rng.next());
        }
        s.into_iter().collect()
    };
    let ra = sparse(&mut rng, 5_000);
    let rb = sparse(&mut rng, 5_000);
    check(&ra, &rb, "sparse");

    let zipf = |rng: &mut XorShift, n: usize| -> Vec<u64> {
        let mut s = BTreeSet::new();
        while s.len() < n {
            let r = rng.next();
            let k = if r % 4 == 0 { r } else { r % 4096 };
            s.insert(k);
        }
        s.into_iter().collect()
    };
    let za = zipf(&mut rng, 3_000);
    let zb = zipf(&mut rng, 3_000);
    check(&za, &zb, "zipfian");

    let big = sparse(&mut rng, 2_000);
    check(&[], &[], "empty-empty");
    check(&[], &big, "empty-tree");
    check(&big, &[], "tree-empty");
    check(&[42], &big, "single-tree");
    check(&[1, 2, 3], &[3, 4, 5], "leaf-leaf");
    check(&big, &big, "tree-self");
}

#[test]
fn materialize_full_expanse_operands() {
    let a_keys: Vec<u64> = (0..512u64).chain(1024..1100).collect();
    let a = ExpanseSet::from_sorted_iter(a_keys.clone());
    a.validate_defensive().unwrap();
    assert!(
        a.stats().node_counts.full_expanse >= 2,
        "operand should carry level-1 FullExpanse edges: {:?}",
        a.stats().node_counts
    );

    let others: &[(&str, Vec<u64>)] = &[
        ("overlap-block", (100..300).chain(1050..1060).collect()),
        ("full-vs-full", (0..512).collect()),
        ("sparse", vec![5, 200, 511, 1024, 1099, 999_999]),
        ("empty", vec![]),
        ("superset", (0..2000).collect()),
    ];
    let ma: BTreeSet<u64> = a_keys.iter().copied().collect();
    for (label, b_keys) in others {
        let b = ExpanseSet::from_sorted_iter(b_keys.clone());
        let mb: BTreeSet<u64> = b_keys.iter().copied().collect();
        let cases: &[(ExpanseSet, Vec<u64>, &str)] = &[
            (
                a.intersection(&b),
                ma.intersection(&mb).copied().collect(),
                "and",
            ),
            (a.union(&b), ma.union(&mb).copied().collect(), "or"),
            (
                a.difference(&b),
                ma.difference(&mb).copied().collect(),
                "diff",
            ),
            (
                a.symmetric_difference(&b),
                ma.symmetric_difference(&mb).copied().collect(),
                "xor",
            ),
        ];
        for (got, want, op) in cases {
            got.validate_defensive()
                .unwrap_or_else(|e| panic!("{label}/{op}: invalid: {e}"));
            assert_eq!(keys_of(got), *want, "{label}/{op}");
        }
    }
}

#[test]
fn from_sorted_iter_tolerates_unsorted() {
    let raw = [9u64, 3, 3, 7, 1, 1, 9, 100, 50, 50];
    let built = ExpanseSet::from_sorted_iter(raw.to_vec());
    built.validate_defensive().unwrap();
    assert_eq!(keys_of(&built), vec![1, 3, 7, 9, 50, 100]);
}

fn model_run(seed: u64, gen_key: impl Fn(&mut XorShift) -> u64) {
    let mut rng = XorShift(seed);
    let mut set = ExpanseSet::new();
    let mut model = BTreeSet::new();
    for op in 0..OPS {
        let key = gen_key(&mut rng);
        match rng.next() % 3 {
            0 => assert_eq!(set.insert(key), model.insert(key), "insert {key:#x}"),
            1 => assert_eq!(set.remove(key), model.remove(&key), "remove {key:#x}"),
            _ => assert_eq!(set.contains(key), model.contains(&key), "contains {key:#x}"),
        }
        assert_eq!(set.len(), model.len() as u64);
        if op % 64 == 0 {
            set.validate();
        }
    }
    set.validate();
    for &k in &model {
        assert!(set.contains(k), "model key missing {k:#x}");
    }
    for &k in &model {
        assert!(set.remove(k));
    }
    set.validate();
    assert!(set.is_empty());
    assert_eq!(set.mem_used(), 0);
}

#[test]
fn model_sequential() {
    model_run(0xA1, |rng| rng.next() % 4096);
}

#[test]
fn model_random_full_width() {
    model_run(0xB2, |rng| rng.next());
}

#[test]
fn model_clustered() {
    let bases = [
        0u64,
        0xDEAD_BEEF_0000,
        0xFFFF_FFFF_FFFF_FF00,
        0x1234_5678_9ABC_0000,
    ];
    model_run(0xC3, move |rng| {
        let base = bases[(rng.next() % 4) as usize];
        base.wrapping_add(rng.next() % 512)
    });
}

#[test]
fn model_sparse_high_bytes() {
    model_run(0xD4, |rng| (rng.next() % 4096) << 48);
}

#[test]
fn model_boundary_keys() {
    model_run(0xE5, |rng| {
        let picks = [
            0u64,
            1,
            255,
            256,
            u64::MAX,
            u64::MAX - 1,
            1 << 32,
            (1 << 32) - 1,
        ];
        match rng.next() % 3 {
            0 => picks[(rng.next() % 8) as usize],
            1 => 1u64 << (rng.next() % 64),
            _ => rng.next() % 300,
        }
    });
}

#[test]
fn model_prefix_runs() {
    model_run(0xF6, |rng| {
        let base = (rng.next() & !0xFF) >> (rng.next() % 3 * 8) << (rng.next() % 3 * 8);
        (base & !0xFF) | (rng.next() % 256)
    });
}

#[test]
fn ladder_full_climb_and_descend() {
    let mut set = ExpanseSet::new();
    for k in 0u64..=255 {
        assert!(set.insert(k), "insert {k}");
        set.validate();
    }
    assert_eq!(set.len(), 256);
    for k in 0u64..=255 {
        assert!(set.contains(k));
    }
    assert!(!set.contains(256));
    for k in (0u64..=255).rev() {
        assert!(set.remove(k), "remove {k}");
        set.validate();
    }
    assert!(set.is_empty());
    assert_eq!(set.mem_used(), 0);
}

#[test]
fn wide_fanout_reaches_uncompressed_branch() {
    let mut set = ExpanseSet::new();
    let mut model = BTreeSet::new();
    for hi in 0u64..256 {
        for lo in 0u64..16 {
            let k = (hi << 8) | lo;
            assert!(set.insert(k));
            model.insert(k);
        }
    }
    set.validate();
    assert_eq!(set.len(), 4096);
    for &k in &model {
        assert!(set.contains(k));
    }
    for hi in 8u64..256 {
        for lo in 0u64..16 {
            assert!(set.remove((hi << 8) | lo));
        }
        if hi % 32 == 0 {
            set.validate();
        }
    }
    set.validate();
    assert_eq!(set.len(), 8 * 16);
    for hi in 0u64..8 {
        for lo in 0u64..16 {
            assert!(set.contains((hi << 8) | lo));
        }
    }
    set.clear();
    assert_eq!(set.mem_used(), 0);
}

#[test]
fn boundary_thrash_does_not_churn() {
    let mut set = ExpanseSet::new();
    for k in 0u64..47 {
        set.insert(k * 3);
    }
    for _ in 0..64 {
        assert!(set.insert(1000));
        set.validate();
        assert!(set.remove(1000));
        set.validate();
    }
    set.clear();
    assert_eq!(set.mem_used(), 0);
}

#[test]
fn root_leaf_to_tree_transition() {
    let mut set = ExpanseSet::new();
    for k in 0..=ROOT_LEAF_CAP as u64 {
        assert!(set.insert(k * 0x0101_0101_0101));
        set.validate();
    }
    assert_eq!(set.len(), ROOT_LEAF_CAP as u64 + 1);
    for k in 0..=ROOT_LEAF_CAP as u64 {
        assert!(set.contains(k * 0x0101_0101_0101));
    }
    set.clear();
    assert_eq!(set.mem_used(), 0);
}

fn nav_differential(set: &ExpanseSet, model: &BTreeSet<u64>, probes: &BTreeSet<u64>) {
    assert_eq!(set.first(), model.first().copied());
    assert_eq!(set.last(), model.last().copied());
    assert_eq!(keys_of(set), model.iter().copied().collect::<Vec<_>>(), "iterator order");
    for &k in probes {
        assert_eq!(
            set.next_at_or_after(k),
            model.range(k..).next().copied(),
            "next>={k:#x}"
        );
        assert_eq!(
            set.prev_at_or_before(k),
            model.range(..=k).next_back().copied(),
            "prev<={k:#x}"
        );
        if k < u64::MAX {
            assert_eq!(set.next_after(k), model.range(k + 1..).next().copied());
        }
        if k > 0 {
            assert_eq!(set.prev_before(k), model.range(..k).next_back().copied());
        }
        assert_eq!(
            set.count_below(k),
            model.range(..k).count() as u64,
            "rank {k:#x}"
        );
    }
    for n in 0..model.len().min(64) as u64 {
        assert_eq!(set.by_count(n), model.iter().nth(n as usize).copied());
    }
    assert_eq!(set.by_count(model.len() as u64), None);
    let mut ps = probes.iter();
    while let (Some(&a), Some(&b)) = (ps.next(), ps.next()) {
        let (a, b) = (a.min(b), a.max(b));
        assert_eq!(
            set.count_range(a..=b),
            model.range(a..=b).count() as u64,
            "count {a:#x}..={b:#x}"
        );
    }
}

#[test]
fn navigation_matches_model() {
    let n_rand = 1500;
    let mut rng = XorShift(0xFACE_0FF5_1234_5678);
    let mut set = ExpanseSet::new();
    let mut model = BTreeSet::new();
    for k in 0u64..=255 {
        set.insert(k);
        model.insert(k);
    }
    for k in 0u64..40 {
        set.insert(0x4000 + k);
        model.insert(0x4000 + k);
    }
    for _ in 0..n_rand {
        let k = match rng.next() % 3 {
            0 => rng.next(),
            1 => 0xAA_BB00_0000 + (rng.next() % 300),
            _ => (rng.next() % 2048) << 48,
        };
        set.insert(k);
        model.insert(k);
    }
    for k in [0u64, 1, u64::MAX, u64::MAX - 1] {
        set.insert(k);
        model.insert(k);
    }
    set.validate();
    let mut probes: BTreeSet<u64> = model.iter().copied().collect();
    for &k in model.iter().take(200) {
        probes.insert(k.wrapping_add(1));
        probes.insert(k.wrapping_sub(1));
    }
    for _ in 0..400 {
        probes.insert(rng.next());
    }
    nav_differential(&set, &model, &probes);
    set.clear();
}

#[test]
fn navigation_root_leaf_and_empty() {
    let set = ExpanseSet::new();
    assert_eq!(set.first(), None);
    assert_eq!(set.by_count(0), None);
    assert_eq!(set.count_range(0..=u64::MAX), 0);
    assert!(set.iter().next().is_none());

    let mut set = ExpanseSet::new();
    let mut model = BTreeSet::new();
    for k in [5u64, 100, 7, 0, u64::MAX, 1 << 40] {
        set.insert(k);
        model.insert(k);
    }
    let probes: BTreeSet<u64> = (0..64u64).map(|i| i * 0x0404_0404_0404).collect();
    nav_differential(&set, &model, &probes);
}

#[test]
fn root_condenses_and_regrows() {
    let mut set = ExpanseSet::new();
    let mut model = BTreeSet::new();
    for k in 0u64..120 {
        set.insert(k * 0x0101_0101);
        model.insert(k * 0x0101_0101);
    }
    for k in (25u64..120).rev() {
        assert!(set.remove(k * 0x0101_0101));
        model.remove(&(k * 0x0101_0101));
        set.validate();
        assert_eq!(set.len(), model.len() as u64);
        assert_eq!(keys_of(&set), model.iter().copied().collect::<Vec<_>>(), "at {k}");
    }
    assert_eq!(set.count_range(0..=u64::MAX), 25);
    for k in 200u64..250 {
        assert!(set.insert(k << 32));
        model.insert(k << 32);
    }
    set.validate();
    assert_eq!(keys_of(&set), model.iter().copied().collect::<Vec<_>>());
    set.clear();
    assert_eq!(set.mem_used(), 0);
}

#[test]
fn dense_leaf_structure_assertion() {
    let mut set = ExpanseSet::new();
    let mut rng = XorShift(0x0DDB_1A5E_5EED_0001);
    let num_runs = 50;
    for _ in 0..num_runs {
        let prefix = rng.next() & !0xFF;
        for j in 0..32 {
            set.insert(prefix | j);
        }
    }
    set.validate();
    let stats = set.stats();
    assert!(stats.leaf_pop_histogram[32] >= num_runs);
    assert_eq!(stats.node_counts.leaf_bitmap, 0);
    assert!(stats.node_counts.leaf_linear >= num_runs);
}

#[test]
fn test_deferred_ancestor_pop_clustered_and_boundary_flush() {
    let mut set = ExpanseSet::new();
    for cluster in 0..10u64 {
        let prefix = (cluster + 1) << 16;
        for i in 0..200u64 {
            assert!(set.insert(prefix | i));
        }
    }
    assert_eq!(set.len(), 2000);
    for cluster in 0..10u64 {
        let prefix = (cluster + 1) << 16;
        for i in 0..200u64 {
            assert!(set.contains(prefix | i));
        }
    }
    set.validate();
    assert_eq!(set.len(), 2000);
}

#[test]
fn test_sequential_linear_leaf_cursor_bypass_and_upgrade() {
    let mut set = ExpanseSet::new();
    for i in 0..1000u64 {
        assert!(set.insert(i));
        assert!(set.contains(i));
        assert_eq!(set.len(), i + 1);
    }
    set.validate();
    for i in 0..1000u64 {
        assert!(set.contains(i));
    }
    for i in 0..1000u64 {
        assert!(set.remove(i));
        assert!(!set.contains(i));
    }
    set.validate();
    assert!(set.is_empty());
    assert_eq!(set.mem_used(), 0);
}

#[test]
fn test_fuzz_set_ops_crash_case() {
    let mut set = ExpanseSet::new();
    let k1 = 4268070197446520623u64;
    let k2 = 0xAABB_CCDD_EE00 + 29555u64;
    let k_c = 0x1122_3344_0000 + 37265u64;
    assert!(set.insert(k1));
    assert!(!set.contains(k_c));
    assert!(!set.contains(k_c));
    assert!(set.insert(k2));
    set.validate();
    assert!(set.contains(k1));
    assert!(set.contains(k2));
    assert!(set.remove(k1));
    assert!(set.remove(k2));
    assert!(set.is_empty());
}

#[test]
fn test_contains_batch_against_single_contains() {
    let mut set = ExpanseSet::new();
    let mut all_keys = Vec::new();

    let mut out = [true; 8];
    assert_eq!(set.contains_batch(&[1, 2, 3, 4, 5, 6, 7, 8], &mut out), 0);
    assert_eq!(out, [false; 8]);

    for i in 0..10_000u64 {
        let k = if i % 3 == 0 {
            i
        } else if i % 3 == 1 {
            i * 1000
        } else {
            i.wrapping_mul(0x1122_3344_5566_7788)
        };
        set.insert(k);
        all_keys.push(k);
    }

    let test_batch_sizes = [0, 1, 2, 7, 8, 9, 15, 16, 64, 100, 1000];
    for &size in &test_batch_sizes {
        if size > all_keys.len() {
            continue;
        }
        let query_keys: Vec<u64> = all_keys[..size]
            .iter()
            .enumerate()
            .map(|(idx, &k)| if idx % 3 == 0 { k + 1 } else { k })
            .collect();

        let mut batch_out = vec![false; size];
        let found_count = set.contains_batch(&query_keys, &mut batch_out);

        let mut expected_found = 0;
        for (idx, &k) in query_keys.iter().enumerate() {
            let single = set.contains(k);
            assert_eq!(batch_out[idx], single, "Mismatch for set key {}", k);
            if single {
                expected_found += 1;
            }
        }
        assert_eq!(found_count, expected_found);
    }
}

fn check_algebra(a_keys: &[u64], b_keys: &[u64]) {
    let a = set_of(a_keys);
    let b = set_of(b_keys);
    let ma: BTreeSet<u64> = a_keys.iter().copied().collect();
    let mb: BTreeSet<u64> = b_keys.iter().copied().collect();

    let inter: u64 = ma.intersection(&mb).count() as u64;
    let uni: u64 = ma.union(&mb).count() as u64;
    let diff: u64 = ma.difference(&mb).count() as u64;
    let sym: u64 = ma.symmetric_difference(&mb).count() as u64;

    assert_eq!(a.intersection_len(&b), inter, "intersection_len");
    assert_eq!(b.intersection_len(&a), inter, "intersection_len rev");
    assert_eq!(a.union_len(&b), uni, "union_len");
    assert_eq!(b.union_len(&a), uni, "union_len rev");
    assert_eq!(a.difference_len(&b), diff, "difference_len");
    assert_eq!(b.difference_len(&a), mb.difference(&ma).count() as u64);
    assert_eq!(
        a.symmetric_difference_len(&b),
        sym,
        "symmetric_difference_len"
    );

    let checks: [(ExpanseSet, Vec<u64>, &str); 4] = [
        (
            a.intersection(&b),
            ma.intersection(&mb).copied().collect(),
            "intersection",
        ),
        (a.union(&b), ma.union(&mb).copied().collect(), "union"),
        (a.difference(&b), ma.difference(&mb).copied().collect(), "difference"),
        (
            a.symmetric_difference(&b),
            ma.symmetric_difference(&mb).copied().collect(),
            "symmetric_difference",
        ),
    ];
    for (got, expected, name) in checks {
        got.validate();
        assert_eq!(got.len(), expected.len() as u64, "{name} len");
        assert_eq!(keys_of(&got), expected, "{name} contents");
    }
}

fn build_dist(kind: u8, n: usize, seed: u64) -> Vec<u64> {
    let mut rng = XorShift(0x5EED_0000 ^ seed);
    let mut v: Vec<u64> = match kind {
        0 => {
            let start = (seed % 4) * (n as u64 / 2).max(1);
            (start..start + n as u64).collect()
        }
        1 => {
            let universe = (n as u64 * 2).max(2);
            let mut out = Vec::new();
            while out.len() < n {
                let base = (rng.next() % (universe / 128).max(1)) * 128;
                for j in 0..128 {
                    out.push(base + j);
                }
            }
            out.truncate(n);
            out
        }
        2 => (0..n).map(|_| rng.next() % (n as u64 * 4).max(2)).collect(),
        3 => (0..n)
            .map(|_| {
                let r = rng.next() % 1000;
                if r < 800 {
                    rng.next() % 256
                } else {
                    rng.next() % (n as u64 * 4).max(2)
                }
            })
            .collect(),
        _ => {
            let mut out = Vec::new();
            for t in 0..16u64 {
                for d in 0..(n as u64).div_ceil(16) {
                    out.push((t << 40) | d);
                }
            }
            out.truncate(n);
            out
        }
    };
    v.sort_unstable();
    v.dedup();
    v
}

#[test]
fn algebra_edge_cases() {
    check_algebra(&[], &[]);
    check_algebra(&[1], &[]);
    check_algebra(&[], &[1]);
    check_algebra(&[1], &[1]);
    check_algebra(&[1], &[2]);
    check_algebra(&[0, u64::MAX], &[0, u64::MAX]);
    check_algebra(&[0, 1, 2, 3], &[2, 3, 4, 5]);
    let big: Vec<u64> = (0..200u64).map(|k| k * 7).collect();
    check_algebra(&[0, 700, 1400], &big);
    check_algebra(&big, &[0, 700, 1400]);
}

#[test]
fn algebra_distributions() {
    for kind in 0u8..=4 {
        for &n in &[300usize, 4096] {
            let a = build_dist(kind, n, 0);
            let b = build_dist(kind, n, 1);
            check_algebra(&a, &b);
        }
    }
}

#[test]
fn algebra_skewed_sizes() {
    let n = 20_000usize;
    for kind in 0u8..=2 {
        let a = build_dist(kind, n, 0);
        let mut rng = XorShift(0xB10B_0007);
        let nb = (n / 1000).max(4);
        let mut b: Vec<u64> = (0..nb)
            .map(|_| {
                if rng.next() % 2 == 0 && !a.is_empty() {
                    a[(rng.next() as usize) % a.len()]
                } else {
                    rng.next() % (n as u64 * 4).max(2)
                }
            })
            .collect();
        b.sort_unstable();
        b.dedup();
        check_algebra(&a, &b);
    }
}

#[test]
fn algebra_disjoint_high_expanses() {
    let a: Vec<u64> = (0..500u64).collect();
    let b: Vec<u64> = (0..500u64).map(|k| (1u64 << 56) | k).collect();
    check_algebra(&a, &b);
    assert_eq!(set_of(&a).intersection_len(&set_of(&b)), 0);
}

#[test]
fn c_int_entry_points_report_membership() {
    let mut set = ExpanseSet::new();
    assert_eq!(set.insert_c_int(9), 1);
    assert_eq!(set.insert_c_int(9), 0);
    assert_eq!(set.contains_c_int(9), 1);
    assert_eq!(set.contains_c_int(10), 0);
}

#[test]
fn rank_and_select_are_inverse() {
    let keys: Vec<u64> = (0..100u64).map(|k| k * k * 31 + 7).collect();
    let set = set_of(&keys);
    for (i, &k) in keys.iter().enumerate() {
        assert_eq!(set.count_below(k), i as u64);
        assert_eq!(set.by_count(set.count_below(k)), Some(k));
    }
    assert_eq!(set.count_range(7..=38), 2);
    assert_eq!(set.count_range(8..=37), 0);
    assert_eq!(set.count_range(38..=7), 0);
}

#[test]
fn reverse_iterators_and_ranges() {
    let set = set_of(&[1, 5, 9, 13, 200]);
    let mut r = set.iter_rev();
    assert_eq!(r.next(), Some(200));
    assert_eq!(r.next_back(), Some(1));
    assert_eq!(r.next(), Some(13));
    assert_eq!(r.next_back(), Some(5));
    assert_eq!(r.next(), Some(9));
    assert_eq!(r.next(), None);
    assert_eq!(r.next_back(), None);

    let mut rr = set.range_rev(5..=13);
    assert_eq!(rr.next(), Some(13));
    assert_eq!(rr.next_back(), Some(5));
    assert_eq!(rr.next(), Some(9));
    assert_eq!(rr.next(), None);

    let mut fr = set.range(2..=100);
    assert_eq!(fr.next(), Some(5));
    assert_eq!(fr.next(), Some(9));
    assert_eq!(fr.next(), Some(13));
    assert_eq!(fr.next(), None);
    let mut empty = set.range(10..=2);
    assert_eq!(empty.next(), None);
}

#[test]
fn cursor_seeks_forward_only() {
    let set = set_of(&[10, 20, 30, 40, 50]);
    let mut c = set.cursor();
    assert_eq!(c.next(), Some(10));
    assert_eq!(c.seek(25), Some(30));
    assert_eq!(c.seek(5), Some(40), "a seek never moves backwards");
    assert_eq!(c.next(), Some(50));
    assert_eq!(c.seek(0), None);
    let mut c2 = set.cursor_from(31);
    assert_eq!(c2.next(), Some(40));
}

#[test]
fn stats_of_a_root_leaf_and_of_a_tree() {
    let small = set_of(&[3, 4, 5]);
    let st = small.stats();
    assert_eq!(st.population, 3);
    assert_eq!(st.node_counts.leaf_linear, 1);
    assert_eq!(st.leaf_pop_histogram[3], 1);

    // 256 keys fill expanse 0; 10 keys sit in expanse 1 (immediate); 60 keys
    // sit in expanse 2 (bitmap leaf).
    let mut keys: Vec<u64> = (0..256u64).collect();
    keys.extend(256..266u64);
    keys.extend(512..572u64);
    let big = set_of(&keys);
    let st = big.stats();
    assert_eq!(st.population, keys.len() as u64);
    assert_eq!(st.node_counts.full_expanse, 1);
    assert_eq!(st.node_counts.immediate, 1);
    assert_eq!(st.node_counts.leaf_bitmap, 1);
    assert_eq!(st.node_counts.leaf_linear, 0);
    assert_eq!(ExpanseSet::new().stats().population, 0);
}

#[test]
fn allocation_counter_and_default() {
    let mut set = ExpanseSet::default();
    assert_eq!(set.total_node_allocs(), 0);
    set.insert(1);
    assert!(set.total_node_allocs() >= 1);
    assert_eq!(set.mem_used(), 8);
}
