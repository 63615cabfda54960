use expanse::mutate::{
    build_leaf, bump_pop0, decode_value, divergence_level, immed_keys, immed_map_keys, key_low,
    leaf_keys, leaf_locate_fixed, linear_insert_slot, linear_insert_slot_l3, linear_remove_slot, map_immed_max, pow256,
    read_packed, read_packed_fixed, restore_decode, split_skip, wrap_skip_level, write_decode,
    write_immed, write_packed, write_packed_fixed, ImmedBuf, InsertPath, StackKeys32,
};
use expanse::mutate_map::{
    build_bitmap_leaf_map, build_map_leaf, read_map_leaf, write_map_immed, InsertPathMap,
    StackEntries32,
};
use expanse::nav::{
    compose, edge_pop, immed_suffixes, immed_value, leaf_lower_bound, leaf_suffix, skip_parts,
};
use expanse::node::Edge;
use expanse::types::{EdgeType, ImmedType};

#[test]
fn key_low_masks_low_bytes() {
    assert_eq!(key_low(0x1122_3344_5566_7788, 0), 0);
    assert_eq!(key_low(0x1122_3344_5566_7788, 3), 0x66_7788);
    assert_eq!(key_low(0x1122_3344_5566_7788, 8), 0x1122_3344_5566_7788);
    assert_eq!(key_low(0x1122_3344_5566_7788, 12), 0x1122_3344_5566_7788);
    assert_eq!(pow256(0), 1);
    assert_eq!(pow256(7), 1 << 56);
}

#[test]
fn divergence_level_is_highest_differing_byte() {
    assert_eq!(divergence_level(0x0000_0000_0000_0001, 0x0000_0000_0000_0002, 8), 1);
    assert_eq!(divergence_level(0x0000_0000_00AB_0000, 0x0000_0000_00CD_0000, 8), 3);
    assert_eq!(divergence_level(0xFF00_0000_0000_0000, 0x0000_0000_0000_0000, 8), 8);
    // Differences above the suffix are ignored.
    assert_eq!(divergence_level(0xFF00_0000_0000_0100, 0x0000_0000_0000_0000, 4), 2);
}

#[test]
fn compose_places_digit_above_remainder() {
    assert_eq!(compose(0xAB, 0x12, 2), 0xAB12);
    assert_eq!(compose(0x01, 0, 8), 1 << 56);
    assert_eq!(compose(0x7F, 0, 1), 0x7F);
}

#[test]
fn decode_digits_roundtrip() {
    let key = 0x0011_2233_4455_6677u64;
    let mut e = Edge::new_node(0x1000, EdgeType::BranchL3.as_u8());
    e.set_pop0(2, 0xBEEF);
    write_decode(&mut e, 2, 6, key);
    // Digits at levels 3..=6 of the key, lowest first.
    assert_eq!(e.decode_bytes(2), vec![0x55, 0x44, 0x33, 0x22, 0x00]);
    assert_eq!(decode_value(&e, 2, 6), 0x2233_4455);
    assert_eq!(e.pop0(2), 0xBEEF);
    assert_eq!(skip_parts(&e, 2, 6), (0x2233_4455, 16));
    assert_eq!(skip_parts(&e, 6, 6), (0, 48));

    let saved = *e.aux_bytes();
    let mut f = Edge::null();
    restore_decode(&mut f, 2, 6, &saved);
    assert_eq!(f.decode_bytes(2), vec![0x55, 0x44, 0x33, 0x22, 0x00]);
    let before = *f.aux_bytes();
    restore_decode(&mut f, 6, 6, &[9; 7]);
    assert_eq!(*f.aux_bytes(), before);
}

#[test]
fn linear_slots_keep_digits_sorted() {
    let mut digits = [0u8; 8];
    let mut edges = [Edge::null(); 8];
    let marker = Edge::new_node(0x40, EdgeType::BranchL7.as_u8());
    let mut num = 0usize;
    for d in [50u8, 10, 30, 70] {
        let pos = linear_insert_slot(&mut digits, &mut edges, num, d);
        edges[pos] = marker;
        num += 1;
    }
    assert_eq!(&digits[..4], &[10, 30, 50, 70]);
    assert!(edges[..4].iter().all(|e| !e.is_null()));
    linear_remove_slot(&mut digits, &mut edges, num, 1);
    assert_eq!(&digits[..4], &[10, 50, 70, 0]);
    assert!(edges[3].is_null());

    let mut d3 = [0u8; 8];
    let mut e3 = [Edge::null(); 3];
    assert_eq!(linear_insert_slot_l3(&mut d3, &mut e3, 0, 9), 0);
    e3[0] = marker;
    assert_eq!(linear_insert_slot_l3(&mut d3, &mut e3, 1, 3), 0);
    assert_eq!(linear_insert_slot_l3(&mut d3, &mut e3, 2, 5), 1);
    assert_eq!(&d3[..3], &[3, 5, 9]);
    assert!(e3[0].is_null() && e3[1].is_null() && !e3[2].is_null());
}

#[test]
fn immediate_keys_read_packed_payload() {
    let mut e = Edge::null();
    let im = ImmedType::new(2, 3).unwrap();
    e.set_tag(im.as_u8());
    e.set_imm_bytes([0x01, 0x02, 0x03, 0x04, 0x05, 0x06, 0, 0]);
    let keys = immed_keys(&e, im);
    assert_eq!(keys.as_slice(), &[0x0201, 0x0403, 0x0605]);
    let same = immed_suffixes::<false>(&e, im);
    assert_eq!(same.as_slice(), keys.as_slice());

    let mut m = Edge::null();
    m.set_aux_bytes([0x10, 0x20, 0x30, 0, 0, 0, 0]);
    let im1 = ImmedType::new(1, 3).unwrap();
    assert_eq!(immed_map_keys(&m, im1).as_slice(), &[0x10, 0x20, 0x30]);
    assert_eq!(immed_suffixes::<true>(&m, im1).as_slice(), &[0x10, 0x20, 0x30]);
    assert_eq!(map_immed_max(1), 7);
    assert_eq!(map_immed_max(2), 3);
    assert_eq!(map_immed_max(7), 1);
}

#[test]
fn small_buffers_push_insert_remove() {
    let mut b: ImmedBuf<u64> = ImmedBuf::new();
    b.push(1);
    b.push(3);
    b.insert(1, 2);
    b.insert(0, 0);
    assert_eq!(b.as_slice(), &[0, 1, 2, 3]);
    assert_eq!(b.remove(2), 2);
    assert_eq!(b.as_slice(), &[0, 1, 3]);
    assert_eq!(b.len(), 3);

    let mut s = StackKeys32::new();
    for k in 0..32u64 {
        s.push(k * 2);
    }
    assert_eq!(s.as_slice().len(), 32);
    assert_eq!(s.as_slice()[31], 62);

    let mut e = StackEntries32::new();
    e.push((1, 10));
    e.push((2, 20));
    assert_eq!(e.as_slice(), &[(1, 10), (2, 20)]);
}

#[test]
fn insert_paths_record_ancestors_below_a_root() {
    let mut p = InsertPath::empty();
    assert_eq!(p.prefix, u64::MAX);
    p.record_ancestor(5, 7);
    assert_eq!(p.depth, 0, "no root recorded yet");
    p.depth = 1;
    p.record_ancestor(5, 7);
    p.record_ancestor(6, 6);
    assert_eq!(p.depth, 3);
    assert_eq!(&p.edges[1..3], &[5, 6]);
    assert_eq!(&p.levels[1..3], &[7, 6]);
    p.depth = 8;
    p.record_ancestor(9, 1);
    assert_eq!(p.depth, 8, "a full path is left alone");

    let mut q = InsertPathMap::empty();
    q.depth = 1;
    q.record_ancestor(3, 2);
    assert_eq!(q.depth, 2);
    assert_eq!(q.edges[1], 3);
    assert!(q.leaf.is_none());
}

#[test]
fn bump_pop0_adds_modulo_field_width() {
    let mut e = Edge::null();
    e.set_pop0(2, 10);
    bump_pop0(&mut e, 2, 5);
    assert_eq!(e.pop0(2), 15);
    bump_pop0(&mut e, 2, -20);
    assert_eq!(e.pop0(2), 0x1_0000 - 5);
    let before = *e.aux_bytes();
    bump_pop0(&mut e, 8, 1);
    assert_eq!(*e.aux_bytes(), before, "level 8 has no pop0 field");
}

#[test]
fn packed_keys_read_back_at_every_width() {
    for kb in 1..=7usize {
        let mut buf = vec![0xAAu8; 4 * kb];
        for slot in 0..4usize {
            let val = 0x0102_0304_0506_0708u64.wrapping_mul(slot as u64 + 1);
            write_packed(&mut buf, slot, kb, val);
            assert_eq!(read_packed(&buf, slot, kb), key_low(val, kb as u8));
        }
        for slot in 0..4usize {
            let val = 0x0102_0304_0506_0708u64.wrapping_mul(slot as u64 + 1);
            assert_eq!(read_packed(&buf, slot, kb), key_low(val, kb as u8), "kb={kb} slot={slot}");
        }
    }
    // A width outside 1..=7 reads nothing.
    assert_eq!(read_packed(&[1, 2, 3], 0, 0), 0);
    assert_eq!(read_packed(&[1, 2, 3], 0, 9), 0);
}

#[test]
fn packed_fixed_layout_is_little_endian() {
    let mut buf = [0u8; 9];
    write_packed_fixed::<3>(&mut buf, 1, 0xAABB_CCDD);
    assert_eq!(buf, [0, 0, 0, 0xDD, 0xCC, 0xBB, 0, 0, 0]);
    assert_eq!(read_packed_fixed::<3>(&buf, 1), 0xBB_CCDD);
    assert_eq!(read_packed_fixed::<1>(&buf, 5), 0xBB);
    let mut word = [0u8; 8];
    write_packed(&mut word, 0, 8, 0x1122_3344_5566_7788);
    assert_eq!(word, 0x1122_3344_5566_7788u64.to_le_bytes());
}

#[test]
fn build_leaf_then_leaf_keys_round_trips() {
    let keys = [0x01_0203u64, 0x01_0204, 0x7F_FFFF, 0xFF_0000_0001];
    let mut e = Edge::null();
    let bytes = build_leaf(&mut e, 0x1000, 3, &keys);
    assert_eq!(bytes.len(), 12);
    assert_eq!(e.tag_byte(), EdgeType::Leaf3.as_u8());
    assert_eq!(e.pop0(3), 3);
    assert_eq!(leaf_keys(&bytes, 3, 4), vec![0x01_0203, 0x01_0204, 0x7F_FFFF, 0x00_0001]);
}

#[test]
fn write_immed_then_immed_keys_round_trips() {
    let keys = [0x0102u64, 0x0304, 0xFF05];
    let mut e = Edge::null();
    write_immed(&mut e, 2, &keys);
    let im = ImmedType::new(2, 3).unwrap();
    assert_eq!(e.tag_byte(), im.as_u8());
    assert_eq!(immed_keys(&e, im).as_slice(), &keys[..]);
    let payload = e.imm_payload();
    assert_eq!(&payload[6..], &[0u8; 9][..]);

    let five = [1u64, 2, 3, 4, 5];
    write_immed(&mut e, 3, &five);
    let im = ImmedType::new(3, 5).unwrap();
    assert_eq!(immed_keys(&e, im).as_slice(), &five[..]);
}

#[test]
fn map_leaf_round_trips_entries() {
    let entries = [(0x0101u64, 7u64), (0x0202, 8), (0xFFFF, 9)];
    let mut e = Edge::null();
    let (vals, keys) = build_map_leaf(&mut e, 0x2000, 2, &entries);
    assert_eq!(vals, vec![7, 8, 9]);
    assert_eq!(keys, vec![0x01, 0x01, 0x02, 0x02, 0xFF, 0xFF]);
    assert_eq!(e.tag_byte(), EdgeType::Leaf2.as_u8());
    assert_eq!(e.pop0(2), 2);
    assert_eq!(read_map_leaf(&vals, &keys, 2, 3), entries.to_vec());
}

#[test]
fn map_immed_single_value_is_inline() {
    let mut e = Edge::null();
    let vals = write_map_immed(&mut e, 3, &[(0xABCDEF, 0x1122_3344_5566_7788)], 0x9999);
    assert!(vals.is_empty());
    assert_eq!(e.imm_bytes(), 0x1122_3344_5566_7788u64.to_le_bytes());
    let im = ImmedType::new(3, 1).unwrap();
    assert_eq!(e.tag_byte(), im.as_u8());
    assert_eq!(immed_map_keys(&e, im).as_slice(), &[0xABCDEF][..]);
    assert_eq!(e.aux_bytes()[3..], [0u8; 4]);
}

#[test]
fn map_immed_several_values_use_the_array() {
    let mut e = Edge::null();
    let vals = write_map_immed(&mut e, 2, &[(0x0102, 5), (0x0304, 6), (0x0506, 7)], 0x4000);
    assert_eq!(vals, vec![5, 6, 7]);
    assert_eq!(e.imm_bytes(), 0x4000u64.to_le_bytes());
    let im = ImmedType::new(2, 3).unwrap();
    assert_eq!(immed_map_keys(&e, im).as_slice(), &[0x0102, 0x0304, 0x0506][..]);
    assert_eq!(e.aux_bytes()[6], 0);
}

#[test]
fn bitmap_leaf_map_groups_values_by_subexpanse() {
    let entries = [(3u64, 30u64), (5, 50), (40, 400), (255, 2550)];
    let addrs = [100u64, 101, 102, 103, 104, 105, 106, 107];
    let mut e = Edge::null();
    let (leaf, runs) = build_bitmap_leaf_map(&mut e, 0x3000, &entries, &addrs);
    assert_eq!(runs[0], vec![30, 50]);
    assert_eq!(runs[1], vec![400]);
    assert_eq!(runs[7], vec![2550]);
    assert!(runs[2].is_empty());
    assert_eq!(leaf.values, [100, 101, 0, 0, 0, 0, 0, 107]);
    for d in 0..=255u8 {
        assert_eq!(leaf.bitmap.test(d), [3u8, 5, 40, 255].contains(&d), "digit {d}");
    }
    assert_eq!(e.tag_byte(), EdgeType::LeafB1.as_u8());
    assert_eq!(e.pop0(1), 3);
}

fn narrow_leaf() -> Edge {
    // A 2-byte leaf under a level-5 slot: pop0 bytes, then the decode
    // digits of levels 3, 4 and 5.
    let mut e = Edge::new_node(0x1000, EdgeType::Leaf2.as_u8());
    e.set_aux_bytes([0x11, 0x00, 0xA3, 0xA4, 0xA5, 0, 0]);
    e
}

#[test]
fn wrap_skip_level_materializes_one_level() {
    let mut e = narrow_leaf();
    let b = wrap_skip_level(&mut e, 0x2000, 4, 5, 18);
    assert_eq!(b.hdr.level, 4);
    assert_eq!(b.hdr.num, 1);
    assert_eq!(b.hdr.digits, [0xA4, 0, 0, 0, 0, 0, 0, 0]);
    assert_eq!(*b.edges[0].aux_bytes(), [0x11, 0x00, 0xA3, 0, 0, 0, 0]);
    assert_eq!(b.edges[0].tag_byte(), EdgeType::Leaf2.as_u8());
    assert!(b.edges[1].is_null());
    assert_eq!(e.tag_byte(), EdgeType::BranchL3.as_u8());
    assert_eq!(e.imm_bytes(), 0x2000u64.to_le_bytes());
    assert_eq!(e.pop0(4), 17);
    assert_eq!(*e.aux_bytes(), [17, 0, 0, 0, 0xA5, 0, 0]);
}

#[test]
fn split_skip_wraps_at_the_highest_disagreement() {
    let mut e = narrow_leaf();
    // Agrees with the decode digit at level 5, disagrees at level 4.
    let key = 0xA5_77_A3_0000u64;
    let (at, b) = split_skip(&mut e, 0x3000, key, 5, 18);
    assert_eq!(at, 4);
    assert_eq!(b.hdr.digits[0], 0xA4);
    assert_eq!(e.pop0(4), 17);
    // Disagreeing at the top level wraps there, with no decode bytes left.
    let mut e = narrow_leaf();
    let (at, b) = split_skip(&mut e, 0x3000, 0x01_A4_A3_0000u64, 5, 18);
    assert_eq!(at, 5);
    assert_eq!(b.hdr.digits[0], 0xA5);
    assert_eq!(*b.edges[0].aux_bytes(), [0x11, 0x00, 0xA3, 0xA4, 0, 0, 0]);
    assert_eq!(*e.aux_bytes(), [17, 0, 0, 0, 0, 0, 0]);
}

#[test]
fn edge_pop_reads_each_form() {
    assert_eq!(edge_pop(&Edge::null(), 3, 3), 0);
    let mut imm = Edge::null();
    write_immed(&mut imm, 2, &[1, 2, 3]);
    assert_eq!(edge_pop(&imm, 3, 3), 3);
    let mut leaf = Edge::new_node(0x10, EdgeType::Leaf2.as_u8());
    leaf.set_pop0(2, 299);
    assert_eq!(edge_pop(&leaf, 4, 4), 300);
    let mut bl = Edge::new_node(0x10, EdgeType::LeafB1.as_u8());
    bl.set_pop0(1, 9);
    assert_eq!(edge_pop(&bl, 2, 2), 10);
    // A skipping linear branch stores pop0 at its own level.
    let mut br = Edge::new_node(0x10, EdgeType::BranchL7.as_u8());
    br.set_pop0(3, 70_000);
    assert_eq!(edge_pop(&br, 5, 3), 70_001);
    let mut u = Edge::new_node(0x10, EdgeType::BranchU.as_u8());
    u.set_pop0(5, 123_456);
    assert_eq!(edge_pop(&u, 5, 2), 123_457);
}

#[test]
fn leaf_lower_bound_finds_first_not_below() {
    let mut bytes = vec![0u8; 10];
    for (slot, k) in [10u64, 20, 30, 40, 50].iter().enumerate() {
        write_packed(&mut bytes, slot, 2, *k);
    }
    assert_eq!(leaf_suffix(&bytes, 2, 5, 3), 40);
    assert_eq!(leaf_lower_bound(&bytes, 2, 5, 0), 0);
    assert_eq!(leaf_lower_bound(&bytes, 2, 5, 10), 0);
    assert_eq!(leaf_lower_bound(&bytes, 2, 5, 11), 1);
    assert_eq!(leaf_lower_bound(&bytes, 2, 5, 50), 4);
    assert_eq!(leaf_lower_bound(&bytes, 2, 5, 51), 5);
    assert_eq!(leaf_lower_bound(&bytes, 2, 0, 51), 0);
}

#[test]
fn leaf_locate_fixed_finds_or_places() {
    let mut bytes = vec![0u8; 15];
    for (slot, k) in [10u64, 20, 30, 40, 50].iter().enumerate() {
        write_packed(&mut bytes, slot, 3, *k);
    }
    assert_eq!(leaf_locate_fixed(&bytes, 5, 3, 10), Ok(0));
    assert_eq!(leaf_locate_fixed(&bytes, 5, 3, 40), Ok(3));
    assert_eq!(leaf_locate_fixed(&bytes, 5, 3, 5), Err(0));
    assert_eq!(leaf_locate_fixed(&bytes, 5, 3, 35), Err(3));
    assert_eq!(leaf_locate_fixed(&bytes, 5, 3, 51), Err(5));
    assert_eq!(leaf_locate_fixed(&bytes, 0, 3, 10), Err(0));
}

#[test]
fn immed_value_inline_or_array() {
    let mut e = Edge::null();
    write_map_immed(&mut e, 2, &[(7, 0xFEED)], 0);
    let one = ImmedType::new(2, 1).unwrap();
    assert_eq!(immed_value(&e, one, &[], 0), 0xFEED);
    let three = ImmedType::new(2, 3).unwrap();
    assert_eq!(immed_value(&e, three, &[4, 5, 6], 2), 6);
}

fn path_table() -> Vec<Edge> {
    let mut t = Vec::new();
    for (level, pop0) in [(3u8, 100u64), (3, 40), (2, 7), (1, 0)] {
        let mut e = Edge::new_node(0x10, EdgeType::BranchL7.as_u8());
        e.set_pop0(level, pop0);
        t.push(e);
    }
    t
}

#[test]
fn insert_path_flush_adds_pending_to_ancestors() {
    let mut table = path_table();
    let mut p = InsertPath::empty();
    p.depth = 1;
    p.edges[0] = 0;
    p.levels[0] = 4;
    p.record_ancestor(1, 3);
    p.record_ancestor(2, 2);
    p.pending_pop = 5;
    p.flush(&mut table);
    assert_eq!(p.pending_pop, 0);
    assert_eq!(table[0].pop0(3), 100, "the root is the tree's to count");
    assert_eq!(table[1].pop0(3), 45);
    assert_eq!(table[2].pop0(2), 12);
    assert_eq!(table[3].pop0(1), 0);
    // Nothing pending: nothing moves.
    p.flush(&mut table);
    assert_eq!(table[1].pop0(3), 45);
}

#[test]
fn insert_path_clear_flushes_then_forgets() {
    let mut table = path_table();
    let mut p = InsertPathMap::empty();
    p.depth = 1;
    p.prefix = 0x1234;
    p.record_ancestor(3, 1);
    p.pending_pop = 2;
    p.terminal_pop = 9;
    p.clear(&mut table);
    assert_eq!(table[3].pop0(1), 2);
    assert_eq!(p.depth, 0);
    assert_eq!(p.prefix, u64::MAX);
    assert_eq!(p.terminal_pop, 0);
    assert_eq!(p.pending_pop, 0);
    // An empty path is left alone.
    let mut q = InsertPath::empty();
    q.pending_pop = 3;
    q.clear(&mut table);
    assert_eq!(q.pending_pop, 3);
    assert_eq!(table[3].pop0(1), 2);
}
