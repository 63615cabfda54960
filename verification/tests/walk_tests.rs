use expanse::branch_forms::{upgrade_b_to_u, upgrade_l7_to_b};
use expanse::mutate::{build_leaf, write_immed};
use expanse::nav::{next, prev, NodeData};
use expanse::node::{BranchL3, BranchL7, Edge, LeafBitmap1};
use expanse::types::EdgeType;

/// A level-3 trie of five keys: under digit 0x10 an immediate of two
/// 2-byte keys; under 0x20 a one-byte leaf skipping level 2 (decode digit
/// 0x07); under 0x30 a bitmap leaf skipping level 2 (decode digit 0x01).
fn children() -> (Vec<NodeData>, Vec<Edge>) {
    let mut arena = Vec::new();
    arena.push(NodeData::Leaf { keys: Vec::new(), values: Vec::new() }); // slot 0: the root, set below

    let mut imm = Edge::null();
    write_immed(&mut imm, 2, &[0x0101, 0x0205]);

    let mut leaf = Edge::null();
    let bytes = build_leaf(&mut leaf, 1, 1, &[0x03, 0x09]);
    leaf.set_decode_bytes(1, &[0x07]);
    arena.push(NodeData::Leaf { keys: bytes, values: Vec::new() });

    let mut bits = LeafBitmap1::new();
    bits.bitmap.set(0x42);
    let mut bl = Edge::new_node(2, EdgeType::LeafB1.as_u8());
    bl.set_pop0(1, 0);
    bl.set_decode_bytes(1, &[0x01]);
    arena.push(NodeData::Bits { leaf: bits });

    (arena, vec![imm, leaf, bl])
}

const KEYS: [u64; 5] = [0x10_0101, 0x10_0205, 0x20_0703, 0x20_0709, 0x30_0142];

fn check_walk(arena: &Vec<NodeData>, root: &Edge) {
    assert_eq!(next(arena, root, 0, 3), Some(KEYS[0]));
    for w in KEYS.windows(2) {
        assert_eq!(next(arena, root, w[0], 3), Some(w[0]));
        assert_eq!(next(arena, root, w[0] + 1, 3), Some(w[1]));
    }
    assert_eq!(next(arena, root, 0x30_0143, 3), None);
    assert_eq!(next(arena, root, 0x2F_FFFF, 3), Some(0x30_0142));
    assert_eq!(next(arena, root, 0x20_0000, 3), Some(0x20_0703));
}

#[test]
fn next_walks_a_linear_root() {
    let (mut arena, kids) = children();
    let mut l3 = BranchL3::new(3);
    l3.hdr.num = 3;
    l3.hdr.digits[..3].copy_from_slice(&[0x10, 0x20, 0x30]);
    l3.edges = [kids[0], kids[1], kids[2]];
    arena[0] = NodeData::Linear { hdr: l3.hdr, edges: l3.edges.to_vec() };
    let root = Edge::new_node(0, EdgeType::BranchL3.as_u8());
    check_walk(&arena, &root);
}

#[test]
fn next_walks_bitmap_and_uncompressed_roots() {
    let (mut arena, kids) = children();
    let mut l7 = BranchL7::new(3);
    l7.hdr.num = 3;
    l7.hdr.digits[..3].copy_from_slice(&[0x10, 0x20, 0x30]);
    l7.edges[..3].copy_from_slice(&kids);
    let mut root = Edge::new_node(9, EdgeType::BranchL7.as_u8());
    let (b, subs) = upgrade_l7_to_b(&l7, &mut root, 0, &[0; 8]);
    let u = upgrade_b_to_u(&b, &subs, &mut Edge::null(), 0);
    arena[0] = NodeData::Bitmap { branch: b, subs };
    check_walk(&arena, &root);

    arena[0] = NodeData::Uncompressed { slots: u };
    let root = Edge::new_node(0, EdgeType::BranchU.as_u8());
    check_walk(&arena, &root);
}

#[test]
fn next_in_leaf_forms_directly() {
    let (arena, kids) = children();
    // The skipping leaf under a level-2 slot.
    assert_eq!(next(&arena, &kids[1], 0x0000, 2), Some(0x0703));
    assert_eq!(next(&arena, &kids[1], 0x0704, 2), Some(0x0709));
    assert_eq!(next(&arena, &kids[1], 0x070A, 2), None);
    assert_eq!(next(&arena, &kids[1], 0x0800, 2), None);
    // A full expanse holds every key; a null edge none.
    let full = Edge::new_node(0, EdgeType::FullExpanse.as_u8());
    assert_eq!(next(&arena, &full, 0x1234, 2), Some(0x1234));
    assert_eq!(next(&arena, &Edge::null(), 0, 2), None);
}

fn check_prev_walk(arena: &Vec<NodeData>, root: &Edge) {
    assert_eq!(prev(arena, root, 0xFF_FFFF, 3), Some(KEYS[4]));
    for w in KEYS.windows(2) {
        assert_eq!(prev(arena, root, w[1], 3), Some(w[1]));
        assert_eq!(prev(arena, root, w[1] - 1, 3), Some(w[0]));
    }
    assert_eq!(prev(arena, root, 0x10_0100, 3), None);
    assert_eq!(prev(arena, root, 0x30_0000, 3), Some(0x20_0709));
    assert_eq!(prev(arena, root, 0x20_FFFF, 3), Some(0x20_0709));
}

#[test]
fn prev_walks_every_branch_form() {
    let (mut arena, kids) = children();
    let mut l3 = BranchL3::new(3);
    l3.hdr.num = 3;
    l3.hdr.digits[..3].copy_from_slice(&[0x10, 0x20, 0x30]);
    l3.edges = [kids[0], kids[1], kids[2]];
    arena[0] = NodeData::Linear { hdr: l3.hdr, edges: l3.edges.to_vec() };
    let root = Edge::new_node(0, EdgeType::BranchL3.as_u8());
    check_prev_walk(&arena, &root);

    let mut l7 = BranchL7::new(3);
    l7.hdr.num = 3;
    l7.hdr.digits[..3].copy_from_slice(&[0x10, 0x20, 0x30]);
    l7.edges[..3].copy_from_slice(&kids);
    let mut root = Edge::new_node(9, EdgeType::BranchL7.as_u8());
    let (b, subs) = upgrade_l7_to_b(&l7, &mut root, 0, &[0; 8]);
    let u = upgrade_b_to_u(&b, &subs, &mut Edge::null(), 0);
    arena[0] = NodeData::Bitmap { branch: b, subs };
    check_prev_walk(&arena, &root);

    arena[0] = NodeData::Uncompressed { slots: u };
    let root = Edge::new_node(0, EdgeType::BranchU.as_u8());
    check_prev_walk(&arena, &root);
}

#[test]
fn prev_in_leaf_forms_directly() {
    let (arena, kids) = children();
    assert_eq!(prev(&arena, &kids[1], 0xFFFF, 2), Some(0x0709));
    assert_eq!(prev(&arena, &kids[1], 0x0708, 2), Some(0x0703));
    assert_eq!(prev(&arena, &kids[1], 0x0702, 2), None);
    assert_eq!(prev(&arena, &kids[1], 0x0600, 2), None);
    assert_eq!(prev(&arena, &kids[0], 0x0204, 2), Some(0x0101));
    assert_eq!(prev(&arena, &kids[2], 0x0142, 2), Some(0x0142));
    assert_eq!(prev(&arena, &kids[2], 0x0141, 2), None);
    let full = Edge::new_node(0, EdgeType::FullExpanse.as_u8());
    assert_eq!(prev(&arena, &full, 0x1234, 2), Some(0x1234));
}
