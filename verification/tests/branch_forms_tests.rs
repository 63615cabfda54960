use expanse::branch_forms::{
    downgrade_b_to_l7, downgrade_l7_to_l3, downgrade_u_to_b, upgrade_b_to_u, upgrade_l3_to_l7,
    upgrade_l7_to_b,
};
use expanse::node::{BranchL3, BranchL7, BranchU, Edge};
use expanse::types::EdgeType;

fn child(n: u64) -> Edge {
    Edge::new_node(0x1000 + n, EdgeType::Leaf2.as_u8())
}

fn with_pop(pop0: u64) -> Edge {
    let mut e = Edge::new_node(0xDEAD, EdgeType::BranchL3.as_u8());
    e.set_pop0(2, pop0);
    e
}

#[test]
fn l3_to_l7_and_back_keeps_children() {
    let mut l3 = BranchL3::new(2);
    l3.hdr.num = 3;
    l3.hdr.digits[..3].copy_from_slice(&[4, 9, 200]);
    l3.edges = [child(1), child(2), child(3)];
    let mut e = with_pop(41);
    let l7 = upgrade_l3_to_l7(&l3, &mut e, 0x5000);
    assert_eq!(e.tag_byte(), EdgeType::BranchL7.as_u8());
    assert_eq!(e.pop0(2), 41);
    assert_eq!(e.imm_bytes(), 0x5000u64.to_le_bytes());
    assert_eq!(l7.hdr.num, 3);
    assert_eq!(&l7.hdr.digits[..3], &[4, 9, 200]);
    assert_eq!(l7.edges[2].imm_bytes(), child(3).imm_bytes());
    assert!(l7.edges[3].is_null());
    let back = downgrade_l7_to_l3(&l7, &mut e, 0x6000);
    assert_eq!(e.tag_byte(), EdgeType::BranchL3.as_u8());
    assert_eq!(e.pop0(2), 41);
    assert_eq!(&back.hdr.digits[..3], &[4, 9, 200]);
    assert_eq!(back.edges[0].imm_bytes(), child(1).imm_bytes());
}

#[test]
fn l7_to_b_to_u_and_back_keeps_children() {
    let digits = [1u8, 31, 32, 100, 101, 200, 255];
    let mut l7 = BranchL7::new(3);
    l7.hdr.num = 7;
    l7.hdr.digits[..7].copy_from_slice(&digits);
    for (i, _) in digits.iter().enumerate() {
        l7.edges[i] = child(i as u64);
    }
    let addrs = [10u64, 11, 12, 13, 14, 15, 16, 17];
    let mut e = with_pop(6);
    let (b, subs) = upgrade_l7_to_b(&l7, &mut e, 0x7000, &addrs);
    assert_eq!(e.tag_byte(), EdgeType::BranchB.as_u8());
    assert_eq!(b.level, 3);
    assert_eq!(b.pop_counts, [2, 1, 0, 2, 0, 0, 1, 1]);
    assert_eq!(b.subarrays, [10, 11, 0, 13, 0, 0, 16, 17]);
    assert_eq!(subs[0].len(), 2);
    assert_eq!(subs[3][1].imm_bytes(), child(4).imm_bytes());
    for d in 0..=255u8 {
        assert_eq!(b.bitmap.test(d), digits.contains(&d));
    }

    let u = upgrade_b_to_u(&b, &subs, &mut e, 0x8000);
    assert_eq!(e.tag_byte(), EdgeType::BranchU.as_u8());
    for d in 0..256usize {
        match digits.iter().position(|&x| x as usize == d) {
            Some(i) => assert_eq!(u.edges[d].imm_bytes(), child(i as u64).imm_bytes()),
            None => assert!(u.edges[d].is_null()),
        }
    }

    let (b2, subs2) = downgrade_u_to_b(&u, &mut e, 0x9000, 3, &addrs);
    assert_eq!(b2.pop_counts, b.pop_counts);
    assert_eq!(b2.subarrays, b.subarrays);
    for s in 0..8 {
        assert_eq!(subs2[s].len(), subs[s].len());
        for k in 0..subs[s].len() {
            assert_eq!(subs2[s][k].imm_bytes(), subs[s][k].imm_bytes());
        }
    }

    let l7b = downgrade_b_to_l7(&b2, &subs2, &mut e, 0xA000);
    assert_eq!(e.tag_byte(), EdgeType::BranchL7.as_u8());
    assert_eq!(e.pop0(2), 6);
    assert_eq!(l7b.hdr.num, 7);
    assert_eq!(l7b.hdr.level, 3);
    assert_eq!(&l7b.hdr.digits[..7], &digits);
    for i in 0..7 {
        assert_eq!(l7b.edges[i].imm_bytes(), child(i as u64).imm_bytes());
    }
}

#[test]
fn u_to_b_skips_null_slots() {
    let mut u = BranchU::new();
    u.edges[70] = child(70);
    let mut e = Edge::null();
    let (b, subs) = downgrade_u_to_b(&u, &mut e, 0x1, 5, &[1, 2, 3, 4, 5, 6, 7, 8]);
    assert_eq!(b.pop_counts, [0, 0, 1, 0, 0, 0, 0, 0]);
    assert_eq!(b.subarrays, [0, 0, 3, 0, 0, 0, 0, 0]);
    assert_eq!(subs[2].len(), 1);
    assert!(b.bitmap.test(70));
    assert!(!b.bitmap.test(71));
    assert_eq!(b.level, 5);
}
