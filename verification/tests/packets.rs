use par2rust::format::{
    md5_of, Md5Hash, HEADER_SIZE, PACKET_MAGIC, TYPE_COMMENT_ASCII, TYPE_COMMENT_UNICODE,
};
use par2rust::packet::comment::build_comment_packets;
use par2rust::packet::creator::{build_creator_packet, CREATOR_STRING};
use par2rust::packet::file_desc::build_file_desc_packet;
use par2rust::packet::file_verify::build_file_verify_packet;
use par2rust::packet::main_packet::build_main_packet;
use par2rust::packet::recovery::build_recovery_packet;
use par2rust::source::{SliceChecksum, SourceFile};

fn count_packets(bytes: &[u8], type_tag: &[u8; 16]) -> usize {
    let mut count = 0;
    let mut i = 0;
    while i + HEADER_SIZE <= bytes.len() {
        if &bytes[i..i + 8] == b"PAR2\0PKT" {
            let len = u64::from_le_bytes(bytes[i + 8..i + 16].try_into().unwrap()) as usize;
            if len >= HEADER_SIZE && i + len <= bytes.len() {
                if &bytes[i + 48..i + 64] == type_tag {
                    count += 1;
                }
                i += len;
                continue;
            }
        }
        i += 1;
    }
    count
}

#[test]
fn empty_comments_yields_no_bytes() {
    assert!(build_comment_packets(&[0u8; 16], &[]).is_empty());
}

#[test]
fn ascii_only_comment_emits_single_ascii_packet() {
    let bytes = build_comment_packets(&[0u8; 16], &["hello".to_string()]);
    assert_eq!(count_packets(&bytes, &TYPE_COMMENT_ASCII), 1);
    assert_eq!(count_packets(&bytes, &TYPE_COMMENT_UNICODE), 0);
    // Body padded to mult of 4; "hello" is 5 bytes -> body = 8 bytes.
    assert_eq!(bytes.len(), HEADER_SIZE + 8);
    assert_eq!(&bytes[HEADER_SIZE..HEADER_SIZE + 5], b"hello");
    assert_eq!(&bytes[HEADER_SIZE + 5..HEADER_SIZE + 8], &[0u8; 3]);
}

#[test]
fn non_ascii_comment_emits_both_variants() {
    let bytes = build_comment_packets(&[0u8; 16], &["héllo".to_string()]);
    assert_eq!(count_packets(&bytes, &TYPE_COMMENT_ASCII), 1);
    assert_eq!(count_packets(&bytes, &TYPE_COMMENT_UNICODE), 1);
    // ASCII variant must transliterate non-ASCII to '?'.
    assert_eq!(&bytes[HEADER_SIZE..HEADER_SIZE + 5], b"h?llo");
}

#[test]
fn unicode_packet_body_starts_with_ascii_link() {
    let bytes = build_comment_packets(&[0u8; 16], &["héllo".to_string()]);
    // First packet is ASCII variant.
    let ascii_len = u64::from_le_bytes(bytes[8..16].try_into().unwrap()) as usize;
    let ascii_md5 = &bytes[16..32];
    // Unicode packet starts immediately after.
    let uni_start = ascii_len;
    let link = &bytes[uni_start + 64..uni_start + 80];
    assert_eq!(link, ascii_md5);
}

#[test]
fn multiple_comments_concatenate() {
    let bytes = build_comment_packets(
        &[0u8; 16],
        &["one".to_string(), "two".to_string(), "trés".to_string()],
    );
    assert_eq!(count_packets(&bytes, &TYPE_COMMENT_ASCII), 3);
    assert_eq!(count_packets(&bytes, &TYPE_COMMENT_UNICODE), 1);
}

#[test]
fn all_packets_are_4_byte_aligned() {
    let bytes = build_comment_packets(
        &[0u8; 16],
        &["a".to_string(), "abcdé".to_string(), "x".repeat(7)],
    );
    assert_eq!(bytes.len() % 4, 0);
}

#[test]
fn unicode_body_is_utf16le_with_surrogates() {
    // U+1D11E is D834 DD1E in UTF-16; the body is link, 4 bytes, no padding.
    let bytes = build_comment_packets(&[0u8; 16], &["\u{1D11E}".to_string()]);
    let uni = u64::from_le_bytes(bytes[8..16].try_into().unwrap()) as usize;
    assert_eq!(bytes.len(), uni + 64 + 16 + 4);
    assert_eq!(&bytes[uni + 80..], &[0x34, 0xD8, 0x1E, 0xDD]);
    assert_eq!(&bytes[64..68], b"?\0\0\0");
    // U+00E9 is one unit, padded to four bytes.
    let bytes = build_comment_packets(&[0u8; 16], &["é".to_string()]);
    let uni = u64::from_le_bytes(bytes[8..16].try_into().unwrap()) as usize;
    assert_eq!(&bytes[uni + 80..], &[0xE9, 0x00, 0x00, 0x00]);
}

#[test]
fn unicode_body_matches_std_encoding() {
    let text = "Größe \u{FFFF} \u{10000} \u{10FFFF} ok";
    let bytes = build_comment_packets(&[7u8; 16], &[text.to_string()]);
    let uni = u64::from_le_bytes(bytes[8..16].try_into().unwrap()) as usize;
    let mut expected: Vec<u8> = Vec::new();
    for u in text.encode_utf16() {
        expected.extend_from_slice(&u.to_le_bytes());
    }
    while expected.len() % 4 != 0 {
        expected.push(0);
    }
    assert_eq!(&bytes[uni + 80..], &expected[..]);
}

#[test]
fn empty_comment_is_a_bare_packet() {
    let bytes = build_comment_packets(&[0u8; 16], &[String::new()]);
    assert_eq!(bytes.len(), HEADER_SIZE);
    assert_eq!(count_packets(&bytes, &TYPE_COMMENT_ASCII), 1);
}

#[test]
fn creator_body_contains_signature_string() {
    let pkt = build_creator_packet(&[0u8; 16]);
    let body = &pkt[HEADER_SIZE..];
    assert!(body.starts_with(CREATOR_STRING.as_bytes()));
    assert_eq!(pkt.len() % 4, 0);
    assert_eq!(body.len(), 28);
    assert_eq!(&body[26..], &[0, 0]);
}

fn fake_source(name: &[u8]) -> SourceFile {
    SourceFile {
        name: name.to_vec(),
        path: std::path::PathBuf::from("/tmp/fake"),
        length: 0x10,
        hash_full: [0xAA; 16],
        hash16k: [0xBB; 16],
        file_id: [0xCC; 16],
        slice_checksums: vec![],
    }
}

#[test]
fn body_layout_matches_spec_for_aligned_name() {
    // 4-char name: no padding bytes needed.
    let src = fake_source(b"abcd");
    let set_id = [0u8; 16];
    let pkt = build_file_desc_packet(&set_id, &src);

    // header + 16 + 16 + 16 + 8 + 4 = 64 + 60 = 124
    assert_eq!(pkt.len(), HEADER_SIZE + 60);
    assert_eq!(&pkt[0..8], &PACKET_MAGIC);

    let body = &pkt[HEADER_SIZE..];
    assert_eq!(&body[0..16], &src.file_id);
    assert_eq!(&body[16..32], &src.hash_full);
    assert_eq!(&body[32..48], &src.hash16k);
    assert_eq!(u64::from_le_bytes(body[48..56].try_into().unwrap()), src.length);
    assert_eq!(&body[56..60], b"abcd");
}

#[test]
fn body_pads_unaligned_name_with_zeros() {
    // 5-char name: 3 zero bytes of padding for an 8-byte tail.
    let src = fake_source(b"hello");
    let pkt = build_file_desc_packet(&[0u8; 16], &src);

    assert_eq!(pkt.len(), HEADER_SIZE + 64);
    let body = &pkt[HEADER_SIZE..];
    assert_eq!(&body[56..61], b"hello");
    assert_eq!(&body[61..64], &[0u8, 0, 0]);
}

#[test]
fn packet_length_field_matches_total_size() {
    let src = fake_source(b"file.bin");
    let pkt = build_file_desc_packet(&[0u8; 16], &src);
    let declared_len = u64::from_le_bytes(pkt[8..16].try_into().unwrap()) as usize;
    assert_eq!(declared_len, pkt.len());
}

fn fake_with_slices(n: usize) -> SourceFile {
    let mut slices = Vec::new();
    for i in 0..n {
        slices.push(SliceChecksum { md5: [i as u8; 16], crc32: 0xDEADBEEF + i as u32 });
    }
    SourceFile {
        name: b"f".to_vec(),
        path: std::path::PathBuf::from("/tmp/fake"),
        length: 4,
        hash_full: [0; 16],
        hash16k: [0; 16],
        file_id: [0x42; 16],
        slice_checksums: slices,
    }
}

#[test]
fn body_layout_with_two_slices() {
    let src = fake_with_slices(2);
    let pkt = build_file_verify_packet(&[0u8; 16], &src);

    // 64 header + 16 fileid + 2 * 20 entries = 64 + 16 + 40 = 120
    assert_eq!(pkt.len(), HEADER_SIZE + 16 + 40);
    let body = &pkt[HEADER_SIZE..];
    assert_eq!(&body[0..16], &src.file_id);

    for (i, sc) in src.slice_checksums.iter().enumerate() {
        let off = 16 + i * 20;
        assert_eq!(&body[off..off + 16], &sc.md5);
        assert_eq!(u32::from_le_bytes(body[off + 16..off + 20].try_into().unwrap()), sc.crc32);
    }
}

#[test]
fn empty_slice_list_still_produces_well_formed_packet() {
    let src = fake_with_slices(0);
    let pkt = build_file_verify_packet(&[0u8; 16], &src);
    assert_eq!(pkt.len(), HEADER_SIZE + 16);
    assert!(pkt.len() % 4 == 0);
}

#[test]
fn file_ids_are_sorted_ascending_in_packet() {
    let ids = vec![[0x20u8; 16], [0x10u8; 16], [0x30u8; 16]];
    let main = build_main_packet(4096, &ids);

    let body = &main.bytes[HEADER_SIZE..];
    // skip slice_size(8) + count(4) = 12
    assert_eq!(&body[12..28], &[0x10u8; 16]);
    assert_eq!(&body[28..44], &[0x20u8; 16]);
    assert_eq!(&body[44..60], &[0x30u8; 16]);
}

#[test]
fn ids_sort_lexicographically_and_order_does_not_matter() {
    let mut a = [0u8; 16];
    let mut b = [0u8; 16];
    let mut c = [0u8; 16];
    a[15] = 1;
    b[14] = 1;
    c[0] = 1;
    let m1 = build_main_packet(4, &[c, a, b, a]);
    let m2 = build_main_packet(4, &[a, b, a, c]);
    assert_eq!(m1.bytes, m2.bytes);
    assert_eq!(m1.set_id_hash, m2.set_id_hash);
    let body = &m1.bytes[HEADER_SIZE..];
    assert_eq!(&body[12..28], &a);
    assert_eq!(&body[28..44], &a);
    assert_eq!(&body[44..60], &b);
    assert_eq!(&body[60..76], &c);
}

#[test]
fn set_id_hash_is_md5_of_body() {
    let ids = vec![[0xAAu8; 16]];
    let main = build_main_packet(4096, &ids);

    let mut expected_body = Vec::new();
    expected_body.extend_from_slice(&4096u64.to_le_bytes());
    expected_body.extend_from_slice(&1u32.to_le_bytes());
    expected_body.extend_from_slice(&[0xAA; 16]);
    let expected = md5_of(&expected_body);

    assert_eq!(main.set_id_hash, expected);
    // And the header carries that same set_id_hash.
    assert_eq!(&main.bytes[32..48], &main.set_id_hash);
}

#[test]
fn slice_size_round_trips_via_le_encoding() {
    let main = build_main_packet(0x1234_5678_9ABC_DEF0, &[]);
    let body = &main.bytes[HEADER_SIZE..];
    assert_eq!(u64::from_le_bytes(body[0..8].try_into().unwrap()), 0x1234_5678_9ABC_DEF0);
}

#[test]
fn recoverable_count_matches_file_id_count() {
    let ids = vec![[1u8; 16], [2u8; 16], [3u8; 16], [4u8; 16]];
    let main = build_main_packet(4096, &ids);
    let body = &main.bytes[HEADER_SIZE..];
    assert_eq!(u32::from_le_bytes(body[8..12].try_into().unwrap()), 4);
}

#[test]
fn body_length_is_4_byte_aligned() {
    for n in 0..8 {
        let ids: Vec<Md5Hash> = (0..n).map(|i| [i as u8; 16]).collect();
        let main = build_main_packet(4096, &ids);
        assert_eq!(main.bytes.len() % 4, 0, "n={}", n);
    }
}

#[test]
fn body_layout_for_one_byte_slice_zero_padded_to_4() {
    let slice = vec![0x11u8, 0x22, 0x33, 0x44];
    let pkt = build_recovery_packet(&[0u8; 16], 0x1234, &slice);

    assert_eq!(pkt.len(), HEADER_SIZE + 4 + 4);
    let body = &pkt[HEADER_SIZE..];
    assert_eq!(u32::from_le_bytes(body[0..4].try_into().unwrap()), 0x1234u32);
    assert_eq!(&body[4..8], &slice[..]);
}

#[test]
fn exponent_is_widened_to_u32_in_packet() {
    let pkt = build_recovery_packet(&[0u8; 16], 0xFFFF, &[0u8; 4]);
    let body = &pkt[HEADER_SIZE..];
    assert_eq!(u32::from_le_bytes(body[0..4].try_into().unwrap()), 0x0000_FFFFu32);
}

#[test]
fn longer_slice_payload_is_preserved_verbatim() {
    let slice: Vec<u8> = (0..256u16).map(|x| (x ^ 0xAA) as u8).collect();
    let pkt = build_recovery_packet(&[0xCDu8; 16], 7, &slice);
    let body = &pkt[HEADER_SIZE..];
    assert_eq!(&body[4..], &slice[..]);
    assert_eq!(pkt.len(), HEADER_SIZE + 4 + 256);
}
