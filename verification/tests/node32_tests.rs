use expanse::node32::{BranchHeader32, BranchL2_32, BranchL6_32, BranchU32, LeafBitmap1_32};
use expanse::types32::Edge32;

#[test]
fn test_node32_sizes_and_alignments() {
    assert_eq!(core::mem::size_of::<BranchHeader32>(), 8);
    assert_eq!(core::mem::size_of::<BranchL2_32>(), 32);
    assert_eq!(core::mem::size_of::<BranchL6_32>(), 64);
}

#[test]
fn test_branch_l2_32_find() {
    let e0 = Edge32::new_immed_map_u8(1, 100);
    let e1 = Edge32::new_immed_map_u8(2, 200);
    let branch = BranchL2_32::new(2, 0x10, e0, 0x20, e1, 2);

    assert_eq!(branch.find(0x10), Some(0));
    assert_eq!(branch.find(0x20), Some(1));
    assert_eq!(branch.find(0x30), None);
}

#[test]
fn test_leaf_bitmap1_32_set_unset() {
    let mut leaf = LeafBitmap1_32::new();
    assert!(!leaf.test(42));
    assert!(leaf.set(42));
    assert!(leaf.test(42));
    assert!(!leaf.set(42)); // already set

    assert!(leaf.set(200));
    assert_eq!(leaf.pop0, 2);

    assert!(leaf.unset(42));
    assert!(!leaf.test(42));
    assert_eq!(leaf.pop0, 1);
}

#[test]
fn unset_of_absent_bit_changes_nothing() {
    let mut leaf = LeafBitmap1_32::new();
    assert!(!leaf.unset(7));
    assert_eq!(leaf.pop0, 0);
    assert!(leaf.set(255));
    assert!(leaf.set(0));
    assert!(leaf.test(255) && leaf.test(0) && !leaf.test(128));
    assert_eq!(leaf.pop0, 2);
}

#[test]
fn branch_l6_32_find_respects_count() {
    let mut b = BranchL6_32::new(3);
    assert_eq!(b.find(0), None);
    b.header.num_edges = 3;
    b.digits[0] = 4;
    b.digits[1] = 9;
    b.digits[2] = 200;
    assert_eq!(b.find(9), Some(1));
    assert_eq!(b.find(200), Some(2));
    assert_eq!(b.find(5), None);
    b.header.num_edges = 1;
    assert_eq!(b.find(9), None);
}

#[test]
fn immed_map_u8_edge_and_empty_branch() {
    let e = Edge32::new_immed_map_u8(7, 0xDEAD_BEEF);
    assert!(!e.is_null());
    assert_eq!(e.word, 0xDEAD_BEEF);
    assert!(Edge32::null().is_null());
    let u = BranchU32::new(2);
    assert!(u.edges.iter().all(|e| e.is_null()));
}
