use par2rust::format::{
    build_packet, md5_of, round_up_4, HEADER_SIZE, MD5_SIZE, PACKET_MAGIC, TYPE_COMMENT_ASCII,
    TYPE_COMMENT_UNICODE, TYPE_CREATOR, TYPE_FILE_DESC, TYPE_FILE_VERIFY, TYPE_MAIN, TYPE_RECOVERY,
};

#[test]
fn round_up_4_handles_all_residues() {
    assert_eq!(round_up_4(0), 0);
    assert_eq!(round_up_4(1), 4);
    assert_eq!(round_up_4(2), 4);
    assert_eq!(round_up_4(3), 4);
    assert_eq!(round_up_4(4), 4);
    assert_eq!(round_up_4(5), 8);
    assert_eq!(round_up_4(17), 20);
}

#[test]
fn type_tags_match_upstream_par2cmdline() {
    assert_eq!(&TYPE_MAIN, b"PAR 2.0\0Main\0\0\0\0");
    assert_eq!(&TYPE_FILE_DESC, b"PAR 2.0\0FileDesc");
    assert_eq!(&TYPE_FILE_VERIFY, b"PAR 2.0\0IFSC\0\0\0\0");
    assert_eq!(&TYPE_RECOVERY, b"PAR 2.0\0RecvSlic");
    assert_eq!(&TYPE_CREATOR, b"PAR 2.0\0Creator\0");
}

#[test]
fn comment_type_tags() {
    assert_eq!(&TYPE_COMMENT_ASCII, b"PAR 2.0\0CommASCI");
    assert_eq!(&TYPE_COMMENT_UNICODE, b"PAR 2.0\0CommUni\0");
}

#[test]
fn packet_magic_is_par2_pkt() {
    assert_eq!(&PACKET_MAGIC, b"PAR2\0PKT");
}

#[test]
fn build_packet_has_correct_header_layout() {
    let set_id = [0xAAu8; 16];
    let body = vec![0u8; 8];
    let pkt = build_packet(&set_id, &TYPE_CREATOR, &body);

    assert_eq!(pkt.len(), HEADER_SIZE + body.len());
    assert_eq!(&pkt[0..8], &PACKET_MAGIC);
    assert_eq!(
        u64::from_le_bytes(pkt[8..16].try_into().unwrap()),
        (HEADER_SIZE + body.len()) as u64,
    );
    // bytes 16..32 are the packet MD5 (checked separately)
    assert_eq!(&pkt[32..48], &set_id);
    assert_eq!(&pkt[48..64], &TYPE_CREATOR);
    assert_eq!(&pkt[64..], &body[..]);
}

#[test]
fn build_packet_md5_covers_setid_through_body() {
    let set_id = [0x11u8; 16];
    let body = b"hello, par2!\0\0\0\0".to_vec(); // 16 bytes, 4-aligned
    let pkt = build_packet(&set_id, &TYPE_CREATOR, &body);

    let mut expected = Vec::new();
    expected.extend_from_slice(&set_id);
    expected.extend_from_slice(&TYPE_CREATOR);
    expected.extend_from_slice(&body);
    let expected_hash = md5_of(&expected);

    assert_eq!(&pkt[16..32], &expected_hash);
    assert_eq!(&pkt[16..32], &md5_of(&pkt[32..]));
}

#[test]
fn md5_of_empty_matches_known_value() {
    // d41d8cd98f00b204e9800998ecf8427e, MD5("")
    let h = md5_of(&[]);
    let expected = [
        0xd4, 0x1d, 0x8c, 0xd9, 0x8f, 0x00, 0xb2, 0x04, 0xe9, 0x80, 0x09, 0x98, 0xec, 0xf8, 0x42,
        0x7e,
    ];
    assert_eq!(h, expected);
    assert_eq!(h.len(), MD5_SIZE);
}

#[test]
fn packets_with_different_contents_differ() {
    let a = build_packet(&[1u8; 16], &TYPE_CREATOR, &[1, 2, 3, 4]);
    let b = build_packet(&[1u8; 16], &TYPE_CREATOR, &[1, 2, 3, 5]);
    let c = build_packet(&[2u8; 16], &TYPE_CREATOR, &[1, 2, 3, 4]);
    let d = build_packet(&[1u8; 16], &TYPE_MAIN, &[1, 2, 3, 4]);
    assert_ne!(a, b);
    assert_ne!(a, c);
    assert_ne!(a, d);
}

#[test]
fn packet_with_empty_body_is_a_header() {
    let p = build_packet(&[9u8; 16], &TYPE_MAIN, &[]);
    assert_eq!(p.len(), 64);
    assert_eq!(u64::from_le_bytes(p[8..16].try_into().unwrap()), 64);
}
