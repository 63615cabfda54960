use expanse::blobmap::{ArenaError, ARENA_META_CEILING};
use expanse::poc_sidecar::{
    pack_wide_locator, unpack_wide_locator, InvertedIndex, SidecarBlobMap, WIDE_LOCATOR_CEILING,
};
use expanse::set::ExpanseSet;
use std::collections::BTreeMap as RefMap;

// Deterministic xorshift, matching the bench harness generator.
struct XorShift(u64);
impl XorShift {
    fn next(&mut self) -> u64 {
        let mut x = self.0;
        x ^= x << 13;
        x ^= x >> 7;
        x ^= x << 17;
        self.0 = x;
        x
    }
}

fn keys_of(s: &ExpanseSet) -> Vec<u64> {
    let mut it = s.iter();
    let mut out = Vec::new();
    while let Some(k) = it.next() {
        out.push(k);
    }
    out
}

#[test]
fn point_lookup_and_meta_roundtrip() {
    let mut map = SidecarBlobMap::<1>::with_chunk_size(64 * 1024);
    map.insert(10, b"", [0]).unwrap();
    map.insert(11, b"a-short-blob", [42]).unwrap();
    map.insert(12, &vec![0xAB; 500], [u32::MAX]).unwrap();

    assert_eq!(map.len(), 3);
    assert_eq!(map.get(10).unwrap().0, b"");
    assert_eq!(map.get(11).unwrap().0, b"a-short-blob");
    assert_eq!(map.get(11).unwrap().1, &[42]);
    assert_eq!(map.get(12).unwrap().1, &[u32::MAX]);
    assert_eq!(map.get(12).unwrap().0, &vec![0xAB; 500][..]);
    assert!(map.get(99).is_none());
}

#[test]
fn axis_a_full_32bit_timestamp_range_scan_matches_btreemap() {
    let mut map = SidecarBlobMap::<1>::with_chunk_size(1 << 20);
    let mut reference: RefMap<u64, (Vec<u8>, u32)> = RefMap::new();
    let mut rng = XorShift(0xA11CE);
    for k in 0..2000u64 {
        let ts = (rng.next() & 0xFFFF_FFFF) as u32;
        let payload = format!("ts-payload-{k}-{ts}").into_bytes();
        map.insert(k, &payload, [ts]).unwrap();
        reference.insert(k, (payload, ts));
    }

    let (lo, hi) = (0x00A0_0000u32, 0xF000_0000u32);
    let mut got: Vec<(u64, u32)> = Vec::new();
    map.scan_filtered(
        0..=u64::MAX,
        |_k, cols| (lo..=hi).contains(&cols[0]),
        |k, _payload, cols| {
            got.push((k, cols[0]));
            true
        },
    );

    let mut want: Vec<(u64, u32)> = reference
        .iter()
        .filter(|(_, (_, ts))| (lo..=hi).contains(ts))
        .map(|(k, (_, ts))| (*k, *ts))
        .collect();
    want.sort_unstable();
    assert_eq!(got, want);
    assert!(
        got.windows(2).all(|w| w[0].0 < w[1].0),
        "scan must be key-ordered"
    );
}

#[test]
fn axis_b_three_attribute_predicate_matches_btreemap() {
    let mut map = SidecarBlobMap::<3>::with_chunk_size(1 << 20);
    let mut reference: RefMap<u64, [u32; 3]> = RefMap::new();
    let mut rng = XorShift(0xB0B);
    for k in 0..5000u64 {
        let ts = (rng.next() & 0xFFFF_FFFF) as u32;
        let tenant = (rng.next() % 8) as u32;
        let status = (rng.next() % 4) as u32;
        map.insert(k, b"row-payload-XXXXXXXX", [ts, tenant, status])
            .unwrap();
        reference.insert(k, [ts, tenant, status]);
    }

    let (lo, hi, tenant, status) = (0x1000_0000u32, 0xE000_0000u32, 3u32, 1u32);
    let pred = |c: &[u32; 3]| (lo..=hi).contains(&c[0]) && c[1] == tenant && c[2] == status;

    let mut got: Vec<u64> = Vec::new();
    map.scan_filtered(
        0..=u64::MAX,
        |_k, c| pred(c),
        |k, _p, _c| {
            got.push(k);
            true
        },
    );

    let mut want: Vec<u64> = reference
        .iter()
        .filter(|(_, c)| pred(c))
        .map(|(k, _)| *k)
        .collect();
    want.sort_unstable();
    assert_eq!(got, want);
}

#[test]
fn overwrite_updates_payload_and_meta_reusing_handle() {
    let mut map = SidecarBlobMap::<2>::with_chunk_size(64 * 1024);
    map.insert(1, b"original-value", [10, 20]).unwrap();
    let slots_before = map.record_slots();
    map.insert(1, b"replacement-value-longer", [11, 21])
        .unwrap();
    assert_eq!(map.len(), 1);
    assert_eq!(map.record_slots(), slots_before);
    assert_eq!(map.get(1).unwrap().0, b"replacement-value-longer");
    assert_eq!(map.get(1).unwrap().1, &[11, 21]);
}

#[test]
fn remove_recycles_handle_and_compaction_preserves_data() {
    let mut map = SidecarBlobMap::<1>::with_chunk_size(64 * 1024);
    for k in 0..300u64 {
        map.insert(k, &[(k & 0xFF) as u8; 200], [k as u32]).unwrap();
    }
    for k in 0..200u64 {
        assert!(map.remove(k));
    }
    assert_eq!(map.len(), 100);
    for k in 300..340u64 {
        map.insert(k, &[0x11u8; 200], [k as u32]).unwrap();
    }
    assert!(map.record_slots() <= 300, "freed handles must be recycled");

    let moved = map.compact().unwrap();
    assert_eq!(moved as u64, map.len());

    for k in 200..300u64 {
        assert_eq!(map.get(k).unwrap().0, &vec![(k & 0xFF) as u8; 200][..]);
        assert_eq!(map.get(k).unwrap().1, &[k as u32]);
    }
    for k in 300..340u64 {
        assert_eq!(map.get(k).unwrap().1, &[k as u32]);
    }
}

#[test]
fn full_differential_insert_remove_get_against_btreemap() {
    let mut map = SidecarBlobMap::<1>::with_chunk_size(1 << 16);
    let mut reference: RefMap<u64, (Vec<u8>, u32)> = RefMap::new();
    let mut rng = XorShift(0xC0FFEE);
    for _ in 0..8000 {
        let k = rng.next() % 1500;
        let op = rng.next() % 3;
        if op == 0 {
            assert_eq!(map.remove(k), reference.remove(&k).is_some());
        } else {
            let len = (rng.next() % 40) as usize;
            let payload: Vec<u8> = (0..len).map(|i| (i as u64 ^ k) as u8).collect();
            let m = (rng.next() & 0xFFFF_FFFF) as u32;
            map.insert(k, &payload, [m]).unwrap();
            reference.insert(k, (payload, m));
        }
        assert_eq!(map.len(), reference.len() as u64);
    }
    map.compact().unwrap();
    for (k, (payload, m)) in &reference {
        let (got_p, got_m) = map.get(*k).unwrap();
        assert_eq!(got_p, &payload[..]);
        assert_eq!(got_m, &[*m]);
    }
    for k in 1500..1520 {
        assert!(map.get(k).is_none());
    }
}

#[test]
fn axis_c_wide_locator_encodes_beyond_64gib() {
    assert_eq!(ARENA_META_CEILING, (1u64 << 32) * 16); // 64 GiB

    let off_100gib: u128 = 100 * 1024 * 1024 * 1024;
    assert!(off_100gib > ARENA_META_CEILING as u128);
    let packed = pack_wide_locator(off_100gib, 0x11).expect("56-bit locator holds 100 GiB");
    let (back, tag) = unpack_wide_locator(packed);
    assert_eq!(back, off_100gib);
    assert_eq!(tag, 0x11);

    assert!((off_100gib / 16) > u32::MAX as u128);

    assert!(pack_wide_locator(WIDE_LOCATOR_CEILING, 0).is_none());
    assert!(pack_wide_locator(WIDE_LOCATOR_CEILING - 16, 0).is_some());
    assert!(pack_wide_locator(24, 0).is_none());
}

#[test]
fn sidecar_bytes_per_record_math() {
    assert_eq!(SidecarBlobMap::<1>::sidecar_bytes_per_record(), 13);
    assert_eq!(SidecarBlobMap::<3>::sidecar_bytes_per_record(), 21);
}

#[test]
fn inverted_index_intersection_matches_reference() {
    let mut idx = InvertedIndex::new(8);
    let mut rng = XorShift(0xD00D);
    let mut ref_ts: RefMap<u64, (u32, u32, u32)> = RefMap::new();
    for k in 0..6000u64 {
        let tenant = (rng.next() % 5) as u32;
        let status = (rng.next() % 3) as u32;
        let ts = (rng.next() & 0xFFFF_FFFF) as u32;
        idx.insert(k, tenant, status, ts);
        ref_ts.insert(k, (tenant, status, ts));
    }
    assert_eq!(idx.keys(), 6000);

    for t in 0..5u32 {
        for s in 0..3u32 {
            let got = idx.query_tenant_status(t, s);
            let want: Vec<u64> = ref_ts
                .iter()
                .filter(|(_, (tt, ss, _))| *tt == t && *ss == s)
                .map(|(k, _)| *k)
                .collect();
            let got_keys: Vec<u64> = keys_of(&got);
            assert_eq!(got_keys, want, "intersection set mismatch t={t} s={s}");
            assert_eq!(idx.count_tenant_status(t, s), want.len() as u64);
        }
    }
}

#[test]
fn inverted_index_ts_range_exact_and_bucketed_agree() {
    let mut idx = InvertedIndex::new(10);
    let mut rng = XorShift(0xFEED);
    let mut ref_ts: RefMap<u64, u32> = RefMap::new();
    for k in 0..8000u64 {
        let ts = (rng.next() % 200_000) as u32;
        idx.insert(k, 0, 0, ts);
        ref_ts.insert(k, ts);
    }
    let ts_of = |k: u64| *ref_ts.get(&k).unwrap();

    for &(lo, hi) in &[
        (0u32, 1023u32),
        (500, 50_000),
        (99_000, 101_000),
        (0, 200_000),
    ] {
        let exact = idx.query_ts_range_exact(lo, hi);
        let bucketed = idx.query_ts_range_bucketed(lo, hi, ts_of);
        let mut want: Vec<u64> = ref_ts
            .iter()
            .filter(|(_, ts)| (lo..=hi).contains(ts))
            .map(|(k, _)| *k)
            .collect();
        want.sort_unstable();
        assert_eq!(keys_of(&exact), want, "exact ts range [{lo},{hi}]");
        assert_eq!(
            keys_of(&bucketed),
            want,
            "bucketed ts range [{lo},{hi}] (residual filter)"
        );
    }
}

#[test]
fn ts_bucketing_reduces_posting_list_count() {
    let mut idx = InvertedIndex::new(12);
    for k in 0..10_000u64 {
        idx.insert(k, 0, 0, k as u32);
    }
    let exact = idx.ts_exact_stats();
    let bucketed = idx.ts_bucketed_stats();
    assert_eq!(exact.posting_lists, 10_000, "unique ts => one list per key");
    assert!(
        bucketed.posting_lists <= 4,
        "bucketing collapses the list count"
    );
    assert_eq!(exact.total_postings, bucketed.total_postings);
}

#[test]
fn unpack_of_any_word_repacks_to_itself() {
    for raw in [0u64, 1, 0xFF, 0x1234_5678_9ABC_DEF0, u64::MAX] {
        let (off, tag) = unpack_wide_locator(raw);
        assert_eq!(pack_wide_locator(off, tag), Some(raw));
    }
    assert_eq!(pack_wide_locator(32, 7), Some((2 << 8) | 7));
}

#[test]
fn oversized_payload_is_refused_and_leaves_the_map_unchanged() {
    let mut map = SidecarBlobMap::<1>::with_chunk_size(64);
    map.insert(1, b"fits", [5]).unwrap();
    let before = map.live_payload_bytes();
    assert_eq!(map.insert(2, &[0u8; 57], [6]), Err(ArenaError::PayloadTooLarge));
    assert_eq!(map.insert(1, &[0u8; 57], [7]), Err(ArenaError::PayloadTooLarge));
    assert_eq!(map.len(), 1);
    assert_eq!(map.get(1).unwrap().0, b"fits");
    assert_eq!(map.get(1).unwrap().1, &[5]);
    assert_eq!(map.live_payload_bytes(), before);
    assert!(!map.contains_key(2));
    assert_eq!(map.meta_of(1), Some(&[5]));
    assert_eq!(map.meta_of(2), None);
}

#[test]
fn live_payload_bytes_follow_inserts_overwrites_and_removes() {
    let mut map = SidecarBlobMap::<1>::new();
    assert!(map.is_empty());
    map.insert(1, b"abc", [0]).unwrap();
    map.insert(2, b"defgh", [0]).unwrap();
    assert_eq!(map.live_payload_bytes(), (8 + 3) + (8 + 5));
    map.insert(1, b"z", [0]).unwrap();
    assert_eq!(map.live_payload_bytes(), (8 + 1) + (8 + 5));
    assert!(map.remove(2));
    assert!(!map.remove(2));
    assert_eq!(map.live_payload_bytes(), 8 + 1);
    assert_eq!(map.record_slots(), 2);
    map.insert(3, b"", [9]).unwrap();
    assert_eq!(map.record_slots(), 2, "the freed handle is reused");
    assert!(map.mem_used() >= 8 * map.record_slots());
}

#[test]
fn inverted_index_stats_and_missing_values() {
    let mut idx = InvertedIndex::new(4);
    assert_eq!(idx.bucket_shift(), 4);
    idx.insert(10, 1, 2, 100);
    idx.insert(11, 1, 3, 101);
    idx.insert(12, 2, 2, 300);
    let t = idx.tenant_stats();
    assert_eq!(t.posting_lists, 2);
    assert_eq!(t.total_postings, 3);
    assert_eq!(t.mem_bytes, 24);
    assert_eq!(idx.status_stats().posting_lists, 2);
    assert_eq!(keys_of(&idx.query_tenant_status(1, 2)), vec![10]);
    assert_eq!(idx.count_tenant_status(9, 2), 0);
    assert!(keys_of(&idx.query_tenant_status(1, 9)).is_empty());
    assert_eq!(keys_of(&idx.query_ts_range_exact(100, 101)), vec![10, 11]);
    assert_eq!(keys_of(&idx.query_ts_range_exact(101, 100)), Vec::<u64>::new());
    // 100 and 101 share bucket 6 with nothing else; 300 sits in bucket 18.
    assert_eq!(idx.ts_bucketed_stats().posting_lists, 2);
}

#[test]
fn scan_stops_after_the_first_refusal_and_matches_list_every_hit() {
    let mut map = SidecarBlobMap::<1>::with_chunk_size(1 << 16);
    for k in 0..20u64 {
        map.insert(k, format!("p{k}").as_bytes(), [(k % 2) as u32]).unwrap();
    }
    let mut seen: Vec<u64> = Vec::new();
    let mut asked: Vec<u64> = Vec::new();
    map.scan_filtered(
        3..=15,
        |k, c| {
            asked.push(k);
            c[0] == 1
        },
        |k, payload, _c| {
            assert_eq!(payload, format!("p{k}").as_bytes());
            seen.push(k);
            k < 9
        },
    );
    assert_eq!(seen, vec![3, 5, 7, 9]);
    assert_eq!(asked, vec![3, 4, 5, 6, 7, 8, 9]);
    let hits: Vec<u64> = map.scan_matches(3..=15, |_k, c| c[0] == 1).into_iter().map(|e| e.0).collect();
    assert_eq!(hits, vec![3, 5, 7, 9, 11, 13, 15]);
}

#[test]
fn index_counts_distinct_keys() {
    let mut idx = InvertedIndex::new(4);
    idx.insert(1, 10, 1, 100);
    idx.insert(2, 10, 1, 100);
    idx.insert(1, 11, 2, 200);
    assert_eq!(idx.keys(), 2);
    for k in 0..600u64 {
        idx.insert(k, 3, 0, k as u32);
    }
    assert_eq!(idx.keys(), 600);
}
