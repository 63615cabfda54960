use expanse::node::{BranchB, BranchHeader, BranchL3, BranchL7, BranchU, Edge, LeafBitmap1, LeafBitmapL};
use expanse::types::{EdgeTag, EdgeType, ImmedType};

#[test]
fn null_jp() {
    let jp = Edge::null();
    assert!(jp.is_null());
    assert_eq!(jp.tag(), Some(EdgeTag::Kind(EdgeType::Null)));
    assert_eq!(Edge::default().tag_byte(), jp.tag_byte());
}

#[test]
fn node_pointer_roundtrip() {
    let addr = 0x0000_7F12_3456_7890u64;
    let jp = Edge::new_node(addr, EdgeType::BranchL3.as_u8());
    assert!(!jp.is_null());
    assert_eq!(u64::from_le_bytes(jp.imm_bytes()), addr);
    assert_eq!(jp.tag(), Some(EdgeTag::Kind(EdgeType::BranchL3)));
}

#[test]
fn imm_bytes_roundtrip() {
    let mut jp = Edge::null();
    jp.set_tag(ImmedType::new(2, 3).unwrap().as_u8());
    jp.set_imm_bytes([1, 2, 3, 4, 5, 6, 7, 8]);
    assert_eq!(jp.imm_bytes(), [1, 2, 3, 4, 5, 6, 7, 8]);
}

#[test]
fn pop0_roundtrip_all_levels() {
    for level in 1..=7u8 {
        let max = if level == 7 {
            (1u64 << 56) - 1
        } else {
            (1u64 << (level as u32 * 8)) - 1
        };
        for pop0 in [0u64, 1, max / 2, max] {
            let mut jp = Edge::null();
            jp.set_pop0(level, pop0);
            assert_eq!(jp.pop0(level), pop0, "level={level} pop0={pop0}");
        }
    }
}

#[test]
fn pop0_and_decode_do_not_overlap() {
    for level in 1..=6u8 {
        let mut jp = Edge::null();
        let max_pop0 = (1u64 << (level as u32 * 8)) - 1;
        jp.set_pop0(level, max_pop0);
        let decode: Vec<u8> = (0..(7 - level)).map(|i| 0xA0 | i).collect();
        jp.set_decode_bytes(level, &decode);
        assert_eq!(jp.pop0(level), max_pop0, "pop0 clobbered at level {level}");
        assert_eq!(jp.decode_bytes(level), &decode[..]);
    }
}

#[test]
fn branch_header_find() {
    let mut hdr = BranchHeader::new(2);
    hdr.digits[..4].copy_from_slice(&[0x03, 0x41, 0x9C, 0xFF]);
    hdr.num = 4;
    assert_eq!(hdr.find(0x03), Some(0));
    assert_eq!(hdr.find(0x9C), Some(2));
    assert_eq!(hdr.find(0xFF), Some(3));
    assert_eq!(hdr.find(0x42), None);
    hdr.num = 2;
    assert_eq!(hdr.find(0x9C), None, "count limits the searched digits");
    // Unused slots (zero-filled) must not produce phantom matches.
    let empty = BranchHeader::new(2);
    assert_eq!(empty.find(0x00), None);
}

#[test]
fn empty_nodes() {
    assert!(BranchL3::new(2).edges.iter().all(Edge::is_null));
    assert!(BranchL7::new(2).edges.iter().all(Edge::is_null));
    assert!(BranchU::new().edges.iter().all(Edge::is_null));
    let bb = BranchB::new(2);
    assert!(bb.bitmap.is_empty());
    assert!(bb.subarrays.iter().all(|p| *p == 0));
    assert!(LeafBitmap1::new().bitmap.is_empty());
    let bl = LeafBitmapL::new();
    assert!(bl.bitmap.is_empty());
    assert!(bl.values.iter().all(|p| *p == 0));
}

#[test]
fn set_decode_keeps_pop0_and_tag() {
    let mut jp = Edge::new_node(0x1000, EdgeType::BranchL7.as_u8());
    jp.set_pop0(3, 0x12_3456);
    jp.set_decode_bytes(3, &[0xAA, 0xBB]);
    assert_eq!(jp.pop0(3), 0x12_3456);
    assert_eq!(jp.decode_bytes(3), vec![0xAA, 0xBB, 0x00, 0x00]);
    assert_eq!(jp.tag(), Some(EdgeTag::Kind(EdgeType::BranchL7)));
    assert_eq!(u64::from_le_bytes(jp.imm_bytes()), 0x1000);
}

#[test]
fn set_pop0_keeps_only_the_field_width() {
    let mut jp = Edge::null();
    jp.set_pop0(2, 0x0123_4567);
    assert_eq!(jp.pop0(2), 0x4567);
}

#[test]
fn imm_payload_is_word_then_aux() {
    let mut jp = Edge::null();
    jp.set_imm_bytes([1, 2, 3, 4, 5, 6, 7, 8]);
    jp.set_aux_bytes([9, 10, 11, 12, 13, 14, 15]);
    assert_eq!(jp.imm_payload(), [1, 2, 3, 4, 5, 6, 7, 8, 9, 10, 11, 12, 13, 14, 15]);
    jp.clear_aux_byte(3);
    assert_eq!(*jp.aux_bytes(), [9, 10, 11, 0, 13, 14, 15]);
}

#[test]
fn edge_type_and_immed_codes_roundtrip() {
    for t in [
        EdgeType::Null,
        EdgeType::BranchL3,
        EdgeType::BranchL7,
        EdgeType::BranchB,
        EdgeType::BranchU,
    ] {
        assert_eq!(EdgeType::from_u8(t.as_u8()), Some(t));
    }
    let im = ImmedType::new(3, 5).unwrap();
    assert_eq!(im.key_bytes(), 3);
    assert_eq!(im.key_count(), 5);
    assert_eq!(ImmedType::from_u8(im.as_u8()), Some(im));
    assert_eq!(ImmedType::new(3, 6), None);
    assert_eq!(ImmedType::new(0, 1), None);
    assert_eq!(EdgeTag::from_u8(im.as_u8()), Some(EdgeTag::Immed(im)));
}
