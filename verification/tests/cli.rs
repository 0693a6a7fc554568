use std::path::PathBuf;
use std::str::FromStr;

use par2rust::cli::{
    build_volume_scheme, choose_recovery_count, default_uniform_count, parse_slice_size,
    resolve_redundancy, split_input_list, Redundancy, VolumeFlags,
};
use par2rust::source::{SliceChecksum, SourceFile};
use par2rust::volumes::resolve_volume_sizes;
use par2rust::{Par2Error, VolumeScheme};

#[test]
fn parses_percent() {
    assert_eq!(Redundancy::from_str("10").unwrap(), Redundancy::Percent(10));
    assert_eq!(Redundancy::from_str("0").unwrap(), Redundancy::Percent(0));
    assert_eq!(Redundancy::from_str("250").unwrap(), Redundancy::Percent(250));
}

#[test]
fn parses_size_targets() {
    assert_eq!(Redundancy::from_str("k500").unwrap(), Redundancy::TargetBytes(500 * 1024));
    assert_eq!(Redundancy::from_str("m10").unwrap(), Redundancy::TargetBytes(10 * 1024 * 1024));
    assert_eq!(
        Redundancy::from_str("g2").unwrap(),
        Redundancy::TargetBytes(2 * 1024 * 1024 * 1024)
    );
    // Case-insensitive on the unit letter.
    assert_eq!(Redundancy::from_str("M1").unwrap(), Redundancy::TargetBytes(1024 * 1024));
}

#[test]
fn rejects_bad_input() {
    assert!(Redundancy::from_str("").is_err());
    assert!(Redundancy::from_str("abc").is_err());
    assert!(Redundancy::from_str("k").is_err());
    assert!(Redundancy::from_str("-5").is_err());
}

#[test]
fn redundancy_messages() {
    assert_eq!(Redundancy::from_str("").unwrap_err(), "redundancy value is empty");
    assert_eq!(Redundancy::from_str("k").unwrap_err(), "redundancy 'k' is missing a numeric value");
    assert_eq!(
        Redundancy::from_str("k1x").unwrap_err(),
        "redundancy 'k1x' has invalid number '1x'"
    );
    assert_eq!(
        Redundancy::from_str("10%").unwrap_err(),
        "redundancy '10%' is not a percentage or [gmk]N value"
    );
    assert_eq!(
        Redundancy::from_str("4294967296").unwrap_err(),
        "redundancy '4294967296' is not a percentage or [gmk]N value"
    );
}

#[test]
fn redundancy_edge_values() {
    assert_eq!(Redundancy::from_str("+7").unwrap(), Redundancy::Percent(7));
    assert_eq!(Redundancy::from_str("4294967295").unwrap(), Redundancy::Percent(u32::MAX));
    assert_eq!(Redundancy::from_str("007").unwrap(), Redundancy::Percent(7));
    assert_eq!(
        Redundancy::from_str("k18014398509481983").unwrap(),
        Redundancy::TargetBytes(u64::MAX - 1023)
    );
    assert_eq!(
        Redundancy::from_str("g17179869183").unwrap(),
        Redundancy::TargetBytes(u64::MAX - ((1 << 30) - 1))
    );
}

#[test]
fn redundancy_overflow_is_refused() {
    for amount in [
        "k18014398509481984",
        "k18446744073709551615",
        "m17592186044416",
        "g17179869184",
    ] {
        assert_eq!(
            Redundancy::from_str(amount).unwrap_err(),
            format!("redundancy '{amount}' overflows u64")
        );
    }
}

#[test]
fn slice_size_bare_integer() {
    assert_eq!(parse_slice_size("4096").unwrap(), 4096);
    assert_eq!(parse_slice_size("768000").unwrap(), 768000);
}

#[test]
fn slice_size_byte_suffix() {
    assert_eq!(parse_slice_size("768000b").unwrap(), 768000);
    assert_eq!(parse_slice_size("768000B").unwrap(), 768000);
}

#[test]
fn slice_size_binary_units() {
    assert_eq!(parse_slice_size("750K").unwrap(), 750 * 1024);
    assert_eq!(parse_slice_size("750k").unwrap(), 750 * 1024);
    assert_eq!(parse_slice_size("1M").unwrap(), 1 << 20);
    assert_eq!(parse_slice_size("1m").unwrap(), 1 << 20);
    assert_eq!(parse_slice_size("2G").unwrap(), 2u64 << 30);
    assert_eq!(parse_slice_size("2g").unwrap(), 2u64 << 30);
}

#[test]
fn slice_size_rejects_bad_input() {
    assert!(parse_slice_size("").is_err());
    assert!(parse_slice_size("b").is_err());
    assert!(parse_slice_size("K").is_err());
    assert!(parse_slice_size("abc").is_err());
    assert!(parse_slice_size("12x").is_err());
    assert!(parse_slice_size("-5").is_err());
}

#[test]
fn slice_size_rejects_overflow() {
    assert!(parse_slice_size("99999999999G").is_err());
}

#[test]
fn slice_size_messages_and_limits() {
    assert_eq!(parse_slice_size("").unwrap_err(), "slice size is empty");
    assert_eq!(parse_slice_size("K").unwrap_err(), "slice size 'K' is missing a numeric value");
    assert_eq!(
        parse_slice_size("1ü2k").unwrap_err(),
        "slice size '1ü2k' has invalid number '1ü2'"
    );
    assert_eq!(
        parse_slice_size("99999999999G").unwrap_err(),
        "slice size '99999999999G' overflows u64"
    );
    assert_eq!(parse_slice_size("18446744073709551615").unwrap(), u64::MAX);
    assert!(parse_slice_size("18446744073709551616").is_err());
    assert_eq!(parse_slice_size("18014398509481983k").unwrap(), 18446744073709550592);
    assert!(parse_slice_size("18014398509481984k").is_err());
    assert_eq!(parse_slice_size("+8").unwrap(), 8);
    assert!(parse_slice_size("+").is_err());
    assert!(parse_slice_size("++8").is_err());
}

fn fake_sources_with_blocks(total_blocks: usize) -> Vec<SourceFile> {
    let slice_checksums = vec![SliceChecksum { md5: [0u8; 16], crc32: 0 }; total_blocks];
    vec![SourceFile {
        name: b"x".to_vec(),
        path: PathBuf::from("x"),
        length: 0,
        hash_full: [0u8; 16],
        hash16k: [0u8; 16],
        file_id: [0u8; 16],
        slice_checksums,
    }]
}

#[test]
fn resolves_percent() {
    let sources = fake_sources_with_blocks(100);
    assert_eq!(resolve_redundancy(Redundancy::Percent(10), &sources, 4096).unwrap(), 10);
    // Non-exact percentages round up.
    let sources = fake_sources_with_blocks(33);
    assert_eq!(
        resolve_redundancy(Redundancy::Percent(10), &sources, 4096).unwrap(),
        4 // ceil(33 * 10 / 100) = ceil(3.3) = 4
    );
}

#[test]
fn resolves_target_bytes() {
    let sources = fake_sources_with_blocks(100);
    assert_eq!(resolve_redundancy(Redundancy::TargetBytes(8192), &sources, 4096).unwrap(), 2);
    assert_eq!(resolve_redundancy(Redundancy::TargetBytes(8193), &sources, 4096).unwrap(), 3);
}

#[test]
fn rejects_zero_result() {
    let sources = fake_sources_with_blocks(1);
    let err = resolve_redundancy(Redundancy::Percent(0), &sources, 4096).unwrap_err();
    assert!(matches!(err, Par2Error::InvalidVolumeScheme(_)));
}

#[test]
fn redundancy_resolution_limits() {
    let sources = fake_sources_with_blocks(1);
    match resolve_redundancy(Redundancy::Percent(0), &sources, 4096) {
        Err(Par2Error::InvalidVolumeScheme(m)) => assert_eq!(
            m,
            "-r Percent(0) resolves to 0 recovery blocks (input is too small or value too low)"
        ),
        other => panic!("unexpected {other:?}"),
    }
    match resolve_redundancy(Redundancy::TargetBytes(0), &sources, 4096) {
        Err(Par2Error::InvalidVolumeScheme(m)) => assert_eq!(
            m,
            "-r TargetBytes(0) resolves to 0 recovery blocks (input is too small or value too low)"
        ),
        other => panic!("unexpected {other:?}"),
    }
    assert_eq!(
        resolve_redundancy(Redundancy::TargetBytes(u64::MAX), &sources, 4).unwrap(),
        u32::MAX
    );
    // A slice size of 0 counts as 1.
    assert_eq!(resolve_redundancy(Redundancy::TargetBytes(9), &sources, 0).unwrap(), 9);
}

#[test]
fn recovery_count_is_chosen_and_limited() {
    let sources = fake_sources_with_blocks(200);
    assert_eq!(choose_recovery_count(None, 7, &sources, 4).unwrap(), 7);
    assert_eq!(choose_recovery_count(None, 0, &sources, 4).unwrap(), 0);
    assert_eq!(
        choose_recovery_count(Some(Redundancy::Percent(5)), 99, &sources, 4).unwrap(),
        10
    );
    assert_eq!(choose_recovery_count(None, 65535, &sources, 4).unwrap(), 65535);
    assert!(matches!(
        choose_recovery_count(None, 65536, &sources, 4),
        Err(Par2Error::TooManyRecoveryBlocks(65536))
    ));
    assert!(matches!(
        choose_recovery_count(Some(Redundancy::TargetBytes(u64::MAX)), 0, &sources, 4),
        Err(Par2Error::TooManyRecoveryBlocks(u32::MAX))
    ));
    assert!(matches!(
        choose_recovery_count(Some(Redundancy::Percent(0)), 3, &sources, 4),
        Err(Par2Error::InvalidVolumeScheme(_))
    ));
}

#[test]
fn uniform_default_is_clamped() {
    assert_eq!(default_uniform_count(0), 1);
    assert_eq!(default_uniform_count(1), 1);
    assert_eq!(default_uniform_count(14), 14);
    assert_eq!(default_uniform_count(15), 15);
    assert_eq!(default_uniform_count(1000), 15);
}

const PLAIN: VolumeFlags = VolumeFlags {
    single_volume: false,
    uniform: false,
    limit_size: false,
    volume_count: None,
    slice_size: 4096,
};

fn sources_of_lengths(lengths: &[u64]) -> Vec<SourceFile> {
    lengths
        .iter()
        .map(|&length| {
            let mut s = fake_sources_with_blocks(1).remove(0);
            s.length = length;
            s
        })
        .collect()
}

#[test]
fn flags_choose_a_scheme() {
    let src = sources_of_lengths(&[4096, 40960, 8192]);
    let scheme = |f: VolumeFlags| build_volume_scheme(&f, &src, 50).unwrap();
    assert_eq!(scheme(PLAIN), VolumeScheme::Exponential);
    assert_eq!(scheme(VolumeFlags { single_volume: true, ..PLAIN }), VolumeScheme::Single);
    assert_eq!(
        scheme(VolumeFlags { uniform: true, ..PLAIN }),
        VolumeScheme::Uniform { count: 15 }
    );
    assert_eq!(
        scheme(VolumeFlags { uniform: true, volume_count: Some(5), ..PLAIN }),
        VolumeScheme::Uniform { count: 5 }
    );
    assert_eq!(
        scheme(VolumeFlags { limit_size: true, ..PLAIN }),
        VolumeScheme::Limited {
            max_blocks_per_volume: 10,
            inner: Box::new(VolumeScheme::Exponential)
        }
    );
    assert_eq!(
        scheme(VolumeFlags { limit_size: true, uniform: true, slice_size: 1 << 40, ..PLAIN }),
        VolumeScheme::Limited {
            max_blocks_per_volume: 1,
            inner: Box::new(VolumeScheme::Uniform { count: 15 })
        }
    );
}

#[test]
fn flags_that_exclude_each_other_are_refused() {
    let src = sources_of_lengths(&[4096]);
    let reason = |f: VolumeFlags, s: &[SourceFile]| match build_volume_scheme(&f, s, 50) {
        Err(Par2Error::InvalidVolumeScheme(m)) => m,
        other => panic!("unexpected {other:?}"),
    };
    let clash = "--single-volume cannot be combined with -u, -l, or -n";
    let single = VolumeFlags { single_volume: true, ..PLAIN };
    assert_eq!(reason(VolumeFlags { uniform: true, ..single }, &src), clash);
    assert_eq!(reason(VolumeFlags { limit_size: true, ..single }, &src), clash);
    assert_eq!(reason(VolumeFlags { volume_count: Some(3), ..single }, &src), clash);
    assert_eq!(
        reason(VolumeFlags { volume_count: Some(3), ..PLAIN }, &src),
        "-n/--volume-count currently requires -u/--uniform"
    );
    assert_eq!(
        reason(VolumeFlags { limit_size: true, ..PLAIN }, &[]),
        "-l/--limit-size requires at least one non-empty source file"
    );
}

#[test]
fn input_lists_are_split_at_newlines() {
    assert_eq!(split_input_list(b"a.bin\nb.bin\n"), vec![b"a.bin".to_vec(), b"b.bin".to_vec()]);
    assert_eq!(split_input_list(b"\n\na b\n\nc"), vec![b"a b".to_vec(), b"c".to_vec()]);
    assert!(split_input_list(b"").is_empty());
    assert!(split_input_list(b"\n\n").is_empty());
}

#[test]
fn limited_volumes_are_not_larger_than_the_largest_file() {
    let src = sources_of_lengths(&[4096, 40961, 8192]);
    for uniform in [false, true] {
        let flags = VolumeFlags { limit_size: true, uniform, ..PLAIN };
        let scheme = build_volume_scheme(&flags, &src, 200).unwrap();
        let sizes = resolve_volume_sizes(&scheme, 200).unwrap();
        assert_eq!(sizes.iter().sum::<u32>(), 200);
        assert!(sizes.iter().all(|&n| n > 0 && n as u64 * 4096 <= 40961));
    }
}

#[test]
fn default_uniform_layout_is_accepted() {
    for n in 1..=40u32 {
        let count = default_uniform_count(n);
        let sizes = resolve_volume_sizes(&VolumeScheme::Uniform { count }, n).unwrap();
        assert_eq!(sizes.len() as u32, count);
    }
}
