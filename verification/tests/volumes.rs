use par2rust::volumes::{
    cap_volume_sizes, distribute, exponential_split, resolve_volume_sizes, uniform_split,
    VolumeScheme,
};
use par2rust::Par2Error;

fn reason(r: Result<Vec<u32>, Par2Error>) -> String {
    match r {
        Err(Par2Error::InvalidVolumeScheme(m)) => m,
        other => panic!("unexpected {other:?}"),
    }
}

#[test]
fn exponential_split_total_one_is_single_volume() {
    assert_eq!(exponential_split(1), vec![1]);
}

#[test]
fn exponential_split_total_two_is_two_volumes_of_one() {
    assert_eq!(exponential_split(2), vec![1, 1]);
}

#[test]
fn exponential_split_total_four_doubles_after_pair() {
    assert_eq!(exponential_split(4), vec![1, 1, 2]);
}

#[test]
fn exponential_split_total_ten_remainder_clamps() {
    // 1 + 1 + 2 + 4 = 8, remaining 2, so the final volume has 2.
    assert_eq!(exponential_split(10), vec![1, 1, 2, 4, 2]);
}

#[test]
fn exponential_split_sums_to_total_for_many_sizes() {
    for total in [1u32, 2, 3, 7, 50, 100, 1000, 65_535] {
        let sizes = exponential_split(total);
        let sum: u64 = sizes.iter().map(|&n| n as u64).sum();
        assert_eq!(sum, total as u64, "scheme didn't sum to {total}: {sizes:?}");
        assert!(
            sizes.iter().all(|&n| n > 0),
            "scheme produced zero-sized volume: {sizes:?}"
        );
    }
}

#[test]
fn exponential_split_extremes() {
    assert_eq!(exponential_split(0), Vec::<u32>::new());
    let sizes = exponential_split(u32::MAX);
    assert_eq!(sizes.len(), 33);
    assert_eq!(sizes[31], 1 << 30);
    assert_eq!(sizes[32], (1 << 31) - 1);
}

#[test]
fn uniform_split_divides_evenly() {
    assert_eq!(uniform_split(10, 5).unwrap(), vec![2, 2, 2, 2, 2]);
}

#[test]
fn uniform_split_dumps_remainder_into_last_volume() {
    // 13 / 4 = 3 with remainder 1: 3, 3, 3, 4.
    assert_eq!(uniform_split(13, 4).unwrap(), vec![3, 3, 3, 4]);
}

#[test]
fn uniform_split_count_one_matches_single() {
    assert_eq!(uniform_split(42, 1).unwrap(), vec![42]);
}

#[test]
fn uniform_split_rejects_zero_count() {
    let err = uniform_split(10, 0).unwrap_err();
    assert!(matches!(err, Par2Error::InvalidVolumeScheme(_)));
}

#[test]
fn uniform_split_rejects_count_greater_than_total() {
    let err = uniform_split(3, 5).unwrap_err();
    assert!(matches!(err, Par2Error::InvalidVolumeScheme(_)));
}

#[test]
fn uniform_split_sums_to_total_across_sizes() {
    for (total, count) in [(1u32, 1), (7, 3), (50, 7), (100, 10), (65_535, 17)] {
        let sizes = uniform_split(total, count).unwrap();
        assert_eq!(sizes.len() as u32, count);
        let sum: u64 = sizes.iter().map(|&n| n as u64).sum();
        assert_eq!(sum, total as u64, "sum mismatch for ({total},{count})");
    }
}

#[test]
fn cap_volume_sizes_leaves_in_bounds_entries_alone() {
    assert_eq!(cap_volume_sizes(&[1, 2, 3], 4), vec![1, 2, 3]);
}

#[test]
fn cap_volume_sizes_splits_oversize_entries() {
    // cap = 3; the 10 splits to 3, 3, 3, 1.
    assert_eq!(cap_volume_sizes(&[2, 10, 1], 3), vec![2, 3, 3, 3, 1, 1]);
}

#[test]
fn cap_volume_sizes_clean_split_no_remainder() {
    // cap = 4; 8 splits exactly into 4, 4 (no trailing remainder).
    assert_eq!(cap_volume_sizes(&[8], 4), vec![4, 4]);
}

#[test]
fn limited_scheme_caps_exponential_growth() {
    let scheme = VolumeScheme::Limited {
        max_blocks_per_volume: 3,
        inner: Box::new(VolumeScheme::Exponential),
    };
    // Exponential(20) = [1, 1, 2, 4, 8, 5]; each is split at 3.
    let sizes = resolve_volume_sizes(&scheme, 20).unwrap();
    assert!(sizes.iter().all(|&n| n <= 3 && n > 0));
    let sum: u32 = sizes.iter().sum();
    assert_eq!(sum, 20);
}

#[test]
fn limited_scheme_caps_uniform_layout() {
    let scheme = VolumeScheme::Limited {
        max_blocks_per_volume: 4,
        inner: Box::new(VolumeScheme::Uniform { count: 2 }),
    };
    // Uniform(20, 2) = [10, 10]; cap = 4 gives [4, 4, 2, 4, 4, 2].
    let sizes = resolve_volume_sizes(&scheme, 20).unwrap();
    assert_eq!(sizes, vec![4, 4, 2, 4, 4, 2]);
}

#[test]
fn limited_scheme_rejects_zero_cap() {
    let scheme = VolumeScheme::Limited {
        max_blocks_per_volume: 0,
        inner: Box::new(VolumeScheme::Exponential),
    };
    let err = resolve_volume_sizes(&scheme, 10).unwrap_err();
    assert!(matches!(err, Par2Error::InvalidVolumeScheme(_)));
}

#[test]
fn refusals_say_why() {
    let limited = |cap, inner| VolumeScheme::Limited { max_blocks_per_volume: cap, inner };
    assert_eq!(reason(uniform_split(10, 0)), "Uniform scheme requires count > 0");
    assert_eq!(
        reason(uniform_split(3, 5)),
        "Uniform scheme count (5) exceeds recovery block total (3)"
    );
    assert_eq!(
        reason(resolve_volume_sizes(&limited(0, Box::new(VolumeScheme::Single)), 10)),
        "Limited scheme requires max_blocks_per_volume > 0"
    );
    assert_eq!(
        reason(resolve_volume_sizes(
            &limited(3, Box::new(VolumeScheme::Uniform { count: 11 })),
            10
        )),
        "Uniform scheme count (11) exceeds recovery block total (10)"
    );
    assert_eq!(
        reason(resolve_volume_sizes(&VolumeScheme::Explicit(vec![]), 10)),
        "explicit scheme requires at least one volume"
    );
    assert_eq!(
        reason(resolve_volume_sizes(&VolumeScheme::Explicit(vec![10, 0]), 10)),
        "explicit scheme volumes must each have >0 recovery blocks"
    );
    assert_eq!(
        reason(resolve_volume_sizes(
            &VolumeScheme::Explicit(vec![u32::MAX, u32::MAX]),
            10
        )),
        "explicit volume sizes sum to 8589934590, expected 10"
    );
}

#[test]
fn layouts() {
    assert_eq!(resolve_volume_sizes(&VolumeScheme::Single, 9).unwrap(), vec![9]);
    assert_eq!(
        resolve_volume_sizes(&VolumeScheme::Explicit(vec![3, 6]), 9).unwrap(),
        vec![3, 6]
    );
    assert_eq!(VolumeScheme::default(), VolumeScheme::Single);
}

#[test]
fn documented_layouts() {
    assert_eq!(exponential_split(50), vec![1, 1, 2, 4, 8, 16, 18]);
    assert_eq!(uniform_split(50, 5).unwrap(), vec![10, 10, 10, 10, 10]);
}

#[test]
fn nothing_to_distribute() {
    assert_eq!(distribute(&VolumeScheme::Single, 0).unwrap(), Vec::<u32>::new());
    assert_eq!(distribute(&VolumeScheme::Exponential, 0).unwrap(), Vec::<u32>::new());
    assert_eq!(distribute(&VolumeScheme::Uniform { count: 0 }, 0).unwrap(), Vec::<u32>::new());
    assert_eq!(distribute(&VolumeScheme::Explicit(vec![]), 0).unwrap(), Vec::<u32>::new());
    assert_eq!(
        reason(distribute(&VolumeScheme::Explicit(vec![4]), 0)),
        "explicit volume sizes sum to 4, expected 0"
    );
    assert_eq!(
        reason(distribute(&VolumeScheme::Explicit(vec![4, 0]), 0)),
        "explicit scheme volumes must each have >0 recovery blocks"
    );
    let limited = VolumeScheme::Limited {
        max_blocks_per_volume: 2,
        inner: Box::new(VolumeScheme::Explicit(vec![1, 1])),
    };
    assert_eq!(
        reason(distribute(&limited, 0)),
        "explicit volume sizes sum to 2, expected 0"
    );
    assert_eq!(distribute(&VolumeScheme::Exponential, 4).unwrap(), vec![1, 1, 2]);
}

#[test]
fn schemes_can_be_copied() {
    let limited = VolumeScheme::Limited {
        max_blocks_per_volume: 2,
        inner: Box::new(VolumeScheme::Explicit(vec![3, 1])),
    };
    for scheme in [
        VolumeScheme::Single,
        VolumeScheme::Exponential,
        VolumeScheme::Uniform { count: 3 },
        limited,
    ] {
        assert_eq!(scheme.clone(), scheme);
    }
}

#[test]
fn capping_twice_is_capping_once() {
    let once = cap_volume_sizes(&[7, 0, 10, 3], 3);
    assert_eq!(once, vec![3, 3, 1, 0, 3, 3, 3, 1, 3]);
    assert_eq!(cap_volume_sizes(&once, 3), once);
}
