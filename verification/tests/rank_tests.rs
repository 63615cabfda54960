use expanse::branch_forms::{upgrade_b_to_u, upgrade_l7_to_b};
use expanse::mutate::{build_leaf, write_immed};
use expanse::nav::{next, prev, NodeData};
use expanse::node::{BranchL3, BranchL7, Edge, LeafBitmap1};
use expanse::rank::{branch_form_level, by_count, child_pop, condense_to_root_leaf, count_below};
use expanse::types::EdgeType;

/// A level-3 trie of five keys: under digit 0x10 an immediate of two
/// 2-byte keys; under 0x20 a one-byte leaf skipping level 2 (decode digit
/// 0x07); under 0x30 a bitmap leaf skipping level 2 (decode digit 0x01).
fn children() -> (Vec<NodeData>, Vec<Edge>) {
    let mut arena = Vec::new();
    arena.push(NodeData::Leaf { keys: Vec::new(), values: Vec::new() });

    let mut imm = Edge::null();
    write_immed(&mut imm, 2, &[0x0101, 0x0205]);

    let mut leaf = Edge::null();
    let bytes = build_leaf(&mut leaf, 1, 1, &[0x03, 0x09]);
    leaf.set_decode_bytes(1, &[0x07]);
    arena.push(NodeData::Leaf { keys: bytes, values: Vec::new() });

    let mut bits = LeafBitmap1::new();
    bits.bitmap.set(0x42);
    let mut bl = Edge::new_node(2, EdgeType::LeafB1.as_u8());
    bl.set_pop0(1, 0);
    bl.set_decode_bytes(1, &[0x01]);
    arena.push(NodeData::Bits { leaf: bits });

    (arena, vec![imm, leaf, bl])
}

const KEYS: [u64; 5] = [0x10_0101, 0x10_0205, 0x20_0703, 0x20_0709, 0x30_0142];

fn linear_root(arena: &mut Vec<NodeData>, kids: &[Edge]) -> Edge {
    let mut l3 = BranchL3::new(3);
    l3.hdr.num = 3;
    l3.hdr.digits[..3].copy_from_slice(&[0x10, 0x20, 0x30]);
    l3.edges = [kids[0], kids[1], kids[2]];
    arena[0] = NodeData::Linear { hdr: l3.hdr, edges: l3.edges.to_vec() };
    let mut root = Edge::new_node(0, EdgeType::BranchL3.as_u8());
    root.set_pop0(3, 4);
    root
}

fn check_rank(arena: &Vec<NodeData>, root: &Edge) {
    for (i, &k) in KEYS.iter().enumerate() {
        assert_eq!(count_below(arena, root, k, 3), i as u64);
        assert_eq!(count_below(arena, root, k + 1, 3), i as u64 + 1);
        assert_eq!(by_count(arena, root, i as u64, 3), k);
    }
    assert_eq!(count_below(arena, root, 0, 3), 0);
    assert_eq!(count_below(arena, root, 0xFF_FFFF, 3), 5);
    assert_eq!(count_below(arena, root, 0x20_0000, 3), 2);
    assert_eq!(count_below(arena, root, 0x2F_FFFF, 3), 4);
}

#[test]
fn rank_and_select_through_a_linear_root() {
    let (mut arena, kids) = children();
    let root = linear_root(&mut arena, &kids);
    check_rank(&arena, &root);
}

#[test]
fn rank_and_select_through_bitmap_and_uncompressed_roots() {
    let (mut arena, kids) = children();
    let mut l7 = BranchL7::new(3);
    l7.hdr.num = 3;
    l7.hdr.digits[..3].copy_from_slice(&[0x10, 0x20, 0x30]);
    l7.edges[..3].copy_from_slice(&kids);
    let mut root = Edge::new_node(9, EdgeType::BranchL7.as_u8());
    let (b, subs) = upgrade_l7_to_b(&l7, &mut root, 0, &[0; 8]);
    let u = upgrade_b_to_u(&b, &subs, &mut Edge::null(), 0);
    arena[0] = NodeData::Bitmap { branch: b, subs };
    root.set_pop0(3, 4);
    check_rank(&arena, &root);

    arena[0] = NodeData::Uncompressed { slots: u };
    let mut root = Edge::new_node(0, EdgeType::BranchU.as_u8());
    root.set_pop0(3, 4);
    check_rank(&arena, &root);
}

#[test]
fn rank_and_select_in_leaf_forms() {
    let (arena, kids) = children();
    // The skipping linear leaf under a level-2 slot.
    assert_eq!(count_below(&arena, &kids[1], 0x0000, 2), 0);
    assert_eq!(count_below(&arena, &kids[1], 0x0704, 2), 1);
    assert_eq!(count_below(&arena, &kids[1], 0x0800, 2), 2);
    assert_eq!(by_count(&arena, &kids[1], 1, 2), 0x0709);
    // The immediate.
    assert_eq!(count_below(&arena, &kids[0], 0x0205, 2), 1);
    assert_eq!(by_count(&arena, &kids[0], 0, 2), 0x0101);
    // The skipping bitmap leaf: below, at, and above its prefix.
    assert_eq!(count_below(&arena, &kids[2], 0x00FF, 2), 0);
    assert_eq!(count_below(&arena, &kids[2], 0x0142, 2), 0);
    assert_eq!(count_below(&arena, &kids[2], 0x0143, 2), 1);
    assert_eq!(count_below(&arena, &kids[2], 0x0200, 2), 1);
    assert_eq!(by_count(&arena, &kids[2], 0, 2), 0x0142);
    // A full expanse counts every suffix below the bound.
    let mut full = Edge::new_node(0, EdgeType::FullExpanse.as_u8());
    full.set_pop0(2, 0xFFFF);
    assert_eq!(count_below(&arena, &full, 0x1234, 2), 0x1234);
    assert_eq!(by_count(&arena, &full, 0x4321, 2), 0x4321);
    assert_eq!(count_below(&arena, &Edge::null(), 0x1234, 2), 0);
}

#[test]
fn a_skipping_branch_counts_whole_above_its_prefix() {
    let (mut arena, kids) = children();
    let mut root = linear_root(&mut arena, &kids);
    // The same branch under a level-4 slot, skipping digit 0x05.
    root.set_decode_bytes(3, &[0x05]);
    assert_eq!(count_below(&arena, &root, 0x04FF_FFFF, 4), 0);
    assert_eq!(count_below(&arena, &root, 0x0520_0000, 4), 2);
    assert_eq!(count_below(&arena, &root, 0x0600_0000, 4), 5);
    assert_eq!(by_count(&arena, &root, 4, 4), 0x0530_0142);
    assert_eq!(child_pop(&arena, &root, 4), 5);
    assert_eq!(branch_form_level(&arena, &root, 4), 3);
}

#[test]
fn searching_agrees_with_rank_and_select() {
    let (mut arena, kids) = children();
    let root = linear_root(&mut arena, &kids);
    let probes = [0u64, 0x10_0101, 0x10_0102, 0x20_0000, 0x20_0709, 0x2F_FFFF, 0x30_0142, 0x30_0143, 0xFF_FFFF];
    for &x in probes.iter() {
        let c = count_below(&arena, &root, x, 3);
        let forward = if c < 5 { Some(by_count(&arena, &root, c, 3)) } else { None };
        assert_eq!(next(&arena, &root, x, 3), forward);
        let c1 = if x < 0xFF_FFFF { count_below(&arena, &root, x + 1, 3) } else { 5 };
        let backward = if c1 > 0 { Some(by_count(&arena, &root, c1 - 1, 3)) } else { None };
        assert_eq!(prev(&arena, &root, x, 3), backward);
    }
    for n in 0..5u64 {
        assert_eq!(count_below(&arena, &root, by_count(&arena, &root, n, 3), 3), n);
    }
}

#[test]
fn condensing_gathers_every_key_in_order() {
    let (mut arena, kids) = children();
    // The level-3 branch under a level-7 slot, skipping four zero digits.
    let mut mid = linear_root(&mut arena, &kids);
    mid.set_decode_bytes(3, &[0, 0, 0, 0]);
    // Under digit 0xFF, an immediate of the two largest keys.
    let mut imm = Edge::null();
    write_immed(&mut imm, 7, &[0xFF_FFFF_FFFF_FFFE, 0xFF_FFFF_FFFF_FFFF]);
    let mut top_node = BranchL3::new(8);
    top_node.hdr.num = 2;
    top_node.hdr.digits[..2].copy_from_slice(&[0x00, 0xFF]);
    top_node.edges[0] = mid;
    top_node.edges[1] = imm;
    arena.push(NodeData::Linear { hdr: top_node.hdr, edges: top_node.edges.to_vec() });
    let top = Edge::new_node((arena.len() - 1) as u64, EdgeType::BranchL3.as_u8());
    let mut want = KEYS.to_vec();
    want.push(u64::MAX - 1);
    want.push(u64::MAX);
    assert_eq!(condense_to_root_leaf(&arena, &top), want);
    assert_eq!(count_below(&arena, &top, u64::MAX, 8), 6);
    assert_eq!(by_count(&arena, &top, 6, 8), u64::MAX);
}
