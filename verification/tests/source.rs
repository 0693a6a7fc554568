use std::path::PathBuf;

use par2rust::format::md5_of;
use par2rust::source::{
    check_scan_request, compute_file_id, read_slice, scan_in_pieces, slice_checksum, zero_tail,
    StreamScan, HASH16K_LEN,
};
use par2rust::{Par2Error, SourceFile};

fn scan(content: &[u8], name: &[u8], slice_size: u64) -> Result<SourceFile, Par2Error> {
    SourceFile::scan(PathBuf::from("file"), name.to_vec(), slice_size, content)
}

#[test]
fn rejects_empty_file() {
    let err = scan(&[], b"x", 4).unwrap_err();
    assert!(matches!(err, Par2Error::EmptyFile(_)));
}

#[test]
fn rejects_zero_slice_size() {
    let err = scan(b"hi", b"x", 0).unwrap_err();
    assert!(matches!(err, Par2Error::InvalidSliceSize(_)));
}

#[test]
fn rejects_slice_size_not_multiple_of_4() {
    let err = scan(b"hi", b"x", 5).unwrap_err();
    assert!(matches!(err, Par2Error::InvalidSliceSize(_)));
}

#[test]
fn rejects_empty_name() {
    let err = scan(b"x", b"", 4).unwrap_err();
    assert!(matches!(err, Par2Error::InvalidFileName(_)));
}

#[test]
fn rejects_name_with_nul() {
    let err = scan(b"x", b"bad\0name", 4).unwrap_err();
    assert!(matches!(err, Par2Error::InvalidFileName(_)));
}

#[test]
fn the_first_reason_counts() {
    match scan(b"", b"", 5) {
        Err(Par2Error::InvalidFileName(p)) => assert_eq!(p, PathBuf::from("file")),
        other => panic!("unexpected {other:?}"),
    }
    assert!(matches!(scan(b"", b"x", 6), Err(Par2Error::InvalidSliceSize(6))));
    match scan(b"", b"x", 8) {
        Err(Par2Error::EmptyFile(p)) => assert_eq!(p, PathBuf::from("file")),
        other => panic!("unexpected {other:?}"),
    }
    let p = PathBuf::from("p");
    assert!(check_scan_request(&p, b"x", 4).is_ok());
    assert!(matches!(check_scan_request(&p, b"x", 2), Err(Par2Error::InvalidSliceSize(2))));
    assert!(matches!(check_scan_request(&p, b"\0", 2), Err(Par2Error::InvalidFileName(_))));
}

#[test]
fn hashes_short_file_with_zero_padded_last_slice() {
    // 5 bytes, slice size 4: two slices, "ABCD" and "E" padded with three zeros.
    let sf = scan(b"ABCDE", b"file.bin", 4).unwrap();

    assert_eq!(sf.length, 5);
    assert_eq!(sf.slice_checksums.len(), 2);

    assert_eq!(sf.slice_checksums[0].md5, md5_of(b"ABCD"));
    assert_eq!(sf.slice_checksums[1].md5, md5_of(b"E\0\0\0"));

    // hash_full covers the real 5 bytes (no padding).
    assert_eq!(sf.hash_full, md5_of(b"ABCDE"));

    // hash16k for a tiny file == MD5 of the whole file.
    assert_eq!(sf.hash16k, md5_of(b"ABCDE"));
}

#[test]
fn hash16k_truncates_at_16384_bytes() {
    let mut data = vec![0u8; HASH16K_LEN + 100];
    for (i, b) in data.iter_mut().enumerate() {
        *b = (i & 0xff) as u8;
    }
    let sf = scan(&data, b"big.bin", 4096).unwrap();

    assert_eq!(sf.hash16k, md5_of(&data[..HASH16K_LEN]));
    assert_eq!(sf.hash_full, md5_of(&data));
}

#[test]
fn slice_crc32_matches_independent_implementation() {
    let sf = scan(b"ABCD", b"f", 4).unwrap();
    let expected = crc32fast::hash(b"ABCD");
    assert_eq!(sf.slice_checksums[0].crc32, expected);
}

#[test]
fn crc32_check_value() {
    // The check value of CRC-32 is that of "123456789".
    assert_eq!(slice_checksum(b"123456789", 9).crc32, 0xCBF4_3926);
    assert_eq!(slice_checksum(b"", 0).crc32, 0);
    assert_eq!(slice_checksum(b"", 4).crc32, 0x2144_DF1C);
    assert_eq!(slice_checksum(b"", 4).md5, md5_of(&[0, 0, 0, 0]));
}

#[test]
fn file_id_derivation_matches_spec() {
    let hash16k = [0x11u8; 16];
    let length: u64 = 0x1234_5678;
    let name = b"example.dat";

    let mut buf = Vec::new();
    buf.extend_from_slice(&hash16k);
    buf.extend_from_slice(&length.to_le_bytes());
    buf.extend_from_slice(name);
    let expected = md5_of(&buf);

    assert_eq!(compute_file_id(&hash16k, length, name), expected);
}

#[test]
fn slice_count_matches_ceiling_division() {
    // 17 bytes with slice_size 8: 3 slices (8, 8, 1 + padding).
    let data: Vec<u8> = (0..17u8).collect();
    let sf = scan(&data, b"x", 8).unwrap();
    assert_eq!(sf.slice_checksums.len(), 3);

    // Last slice content = data[16..17] then 7 zero bytes.
    let mut last = vec![16u8];
    last.extend(std::iter::repeat(0).take(7));
    assert_eq!(sf.slice_checksums[2].md5, md5_of(&last));
}

#[test]
fn parallel_scan_matches_serial_for_many_slices() {
    let mut data = vec![0u8; 4096 * 16];
    for (i, b) in data.iter_mut().enumerate() {
        *b = ((i.wrapping_mul(0x9E37) >> 5) & 0xff) as u8;
    }
    let sf = scan(&data, b"x", 16).unwrap();
    assert_eq!(sf.slice_checksums.len(), 4096);
    // Slice i lines up with bytes [16*i .. 16*i+16].
    for &i in &[0usize, 1, 7, 1023, 4095] {
        let start = i * 16;
        assert_eq!(
            sf.slice_checksums[i].md5,
            md5_of(&data[start..start + 16]),
            "mismatch at slice {i}"
        );
        assert_eq!(
            sf.slice_checksums[i].crc32,
            crc32fast::hash(&data[start..start + 16]),
            "crc mismatch at slice {i}"
        );
    }
}

#[test]
fn scanning_in_pieces_gives_the_same() {
    for len in [1usize, 3, 4, 5, 8, 4096, 16384, 16385, 20000] {
        let data: Vec<u8> = (0..len).map(|i| (i * 7 + i / 256) as u8).collect();
        let sf = scan(&data, b"x", 12).unwrap();
        let (sums, full, head) = scan_in_pieces(&data, 12);
        assert_eq!(full, sf.hash_full);
        assert_eq!(head, sf.hash16k);
        assert_eq!(sums.len(), sf.slice_checksums.len());
        for (a, b) in sums.iter().zip(sf.slice_checksums.iter()) {
            assert_eq!((a.md5, a.crc32), (b.md5, b.crc32));
        }
        let again = SourceFile::from_parts(
            PathBuf::from("file"),
            b"x".to_vec(),
            len as u64,
            (sums, full, head),
        );
        assert_eq!(again.file_id, sf.file_id);
    }
}

#[test]
fn stream_scan_reports_ticks_and_the_end() {
    let mut scan = StreamScan::new(4, 300);
    assert_eq!(scan.absorb(b"aaaa"), None);
    assert_eq!(scan.absorb(b"bbbb"), None);
    assert_eq!(scan.absorb(b"cccc"), Some(3));
    assert_eq!(scan.absorb(b"d"), Some(4));
    let (sums, full, _) = scan.finish();
    assert_eq!(sums.len(), 4);
    assert_eq!(full, md5_of(b"aaaabbbbccccd"));
}

#[test]
fn slices_are_read_with_zero_padding() {
    let content: Vec<u8> = (1..=10u8).collect();
    let mut buf = [0xFFu8; 4];
    read_slice(&content, 0, &mut buf);
    assert_eq!(buf, [1, 2, 3, 4]);
    read_slice(&content, 2, &mut buf);
    assert_eq!(buf, [9, 10, 0, 0]);
    read_slice(&content, 3, &mut buf);
    assert_eq!(buf, [0, 0, 0, 0]);
    read_slice(&content, usize::MAX, &mut buf);
    assert_eq!(buf, [0, 0, 0, 0]);
    let mut buf = [5u8; 6];
    zero_tail(&mut buf, 2);
    assert_eq!(buf, [5, 5, 0, 0, 0, 0]);
}
