use std::path::{Path, PathBuf};

use par2rust::creator::{
    check_sums, checked_count_blocks, plan_create, Action, BlockRef, CreateJob, JobEvent,
};
use par2rust::encoder::VolumeEncoder;
use par2rust::format::{TYPE_CREATOR, TYPE_FILE_DESC, TYPE_FILE_VERIFY, TYPE_MAIN, TYPE_RECOVERY};
use par2rust::galois_simd::Dispatch;
use par2rust::memory::{create_in_memory, CreatedSet};
use par2rust::paths::derive_volume_filename;
use par2rust::reedsolomon::RsEncoder;
use par2rust::source::{read_slice, SliceChecksum};
use par2rust::{
    CreateOptions, Par2Error, ProgressEvent, SourceFile, VolumeScheme, MAX_INPUT_BLOCKS,
    MAX_RECOVERY_BLOCKS,
};

fn options(slice_size: u64, recovery: u32, scheme: VolumeScheme) -> CreateOptions {
    CreateOptions {
        output: PathBuf::from("recovery.par2"),
        slice_size,
        recovery_block_count: recovery,
        volume_scheme: scheme,
        comments: Vec::new(),
    }
}

fn make_source(name: &str, content: &[u8], slice: u64) -> SourceFile {
    SourceFile::scan(PathBuf::from(name), name.as_bytes().to_vec(), slice, content).unwrap()
}

fn run(opts: &CreateOptions, files: &[(&str, &[u8])]) -> Result<CreatedSet, Par2Error> {
    let sources: Vec<SourceFile> =
        files.iter().map(|(n, c)| make_source(n, c, opts.slice_size)).collect();
    let contents: Vec<Vec<u8>> = files.iter().map(|(_, c)| c.to_vec()).collect();
    create_in_memory(opts, &sources, &contents, Dispatch::Gfni)
}

fn names(set: &CreatedSet) -> Vec<String> {
    set.volumes
        .iter()
        .map(|v| {
            derive_volume_filename(Some("recovery"), Some("par2"), v.first_exponent, v.count)
        })
        .collect()
}

/// The packets of a file: offset, type and body of each.
fn packets(file: &[u8]) -> Vec<([u8; 16], Vec<u8>)> {
    let mut out = Vec::new();
    let mut at = 0;
    while at < file.len() {
        assert_eq!(&file[at..at + 8], b"PAR2\0PKT");
        let len = u64::from_le_bytes(file[at + 8..at + 16].try_into().unwrap()) as usize;
        let tag: [u8; 16] = file[at + 48..at + 64].try_into().unwrap();
        out.push((tag, file[at + 64..at + len].to_vec()));
        at += len;
    }
    out
}

#[test]
fn index_only_run_produces_single_file() {
    let set = run(&options(4, 0, VolumeScheme::Single), &[("a.bin", b"hello par2 world")]).unwrap();
    assert!(set.volumes.is_empty());
    assert!(!set.index.is_empty());
}

#[test]
fn run_with_recovery_produces_index_and_volume() {
    let set =
        run(&options(4, 2, VolumeScheme::Single), &[("a.bin", b"hello par2 world!!!!")]).unwrap();
    assert_eq!(names(&set), vec!["recovery.vol0+2.par2"]);
    assert!(!set.index.is_empty());
    assert!(!set.volumes[0].bytes.is_empty());
}

#[test]
fn errors_when_no_input_files() {
    let err = run(&options(4, 0, VolumeScheme::Single), &[]).err().unwrap();
    assert!(matches!(err, Par2Error::NoInputFiles));
}

fn fake_source(blocks: usize, length: u64) -> SourceFile {
    SourceFile {
        name: b"big.bin".to_vec(),
        path: PathBuf::from("big.bin"),
        length,
        hash_full: [0u8; 16],
        hash16k: [0u8; 16],
        file_id: [0u8; 16],
        slice_checksums: vec![SliceChecksum { md5: [0u8; 16], crc32: 0 }; blocks],
    }
}

#[test]
fn errors_when_total_slices_exceed_max_input_blocks() {
    let slice_size: u64 = 4;
    let blocks = (MAX_INPUT_BLOCKS as usize) + 1;
    let fake = fake_source(blocks, blocks as u64 * slice_size);
    let err = plan_create(&options(slice_size, 1, VolumeScheme::Single), &[fake]).err().unwrap();
    match err {
        Par2Error::TooManyInputBlocks { count, slice_size: ss, suggested } => {
            assert_eq!(count, blocks as u64);
            assert_eq!(ss, slice_size);
            assert!(suggested > slice_size);
            assert_eq!(suggested % 4, 0);
            assert_eq!(suggested, 8);
        }
        other => panic!("expected TooManyInputBlocks, got {other:?}"),
    }
}

#[test]
fn errors_when_recovery_count_exceeds_limit() {
    let err = run(&options(4, MAX_RECOVERY_BLOCKS + 1, VolumeScheme::Single), &[("a.bin", b"x")])
        .err()
        .unwrap();
    assert!(matches!(err, Par2Error::TooManyRecoveryBlocks(65536)));
}

#[test]
fn refusals_come_in_order() {
    let plan = |opts: &CreateOptions, n: usize| {
        let sources: Vec<SourceFile> = (0..n).map(|_| fake_source(1, 4)).collect();
        plan_create(opts, &sources)
    };
    let bad = options(3, MAX_RECOVERY_BLOCKS + 1, VolumeScheme::Single);
    assert!(matches!(plan(&bad, 0).err().unwrap(), Par2Error::NoInputFiles));
    assert!(matches!(plan(&bad, 32769).err().unwrap(), Par2Error::TooManyFiles(32769)));
    assert!(matches!(plan(&bad, 32768).err().unwrap(), Par2Error::TooManyRecoveryBlocks(65536)));
    let bad = options(3, 1, VolumeScheme::Single);
    assert!(matches!(plan(&bad, 1).err().unwrap(), Par2Error::InvalidSliceSize(3)));
    let bad = options(0, 1, VolumeScheme::Single);
    assert!(matches!(plan(&bad, 1).err().unwrap(), Par2Error::InvalidSliceSize(0)));
    let good = options(4, 1, VolumeScheme::Single);
    assert!(plan(&good, 32768).is_ok());
}

fn suggestion(sources: &[SourceFile]) -> u64 {
    match plan_create(&options(4, 0, VolumeScheme::Single), sources).err().unwrap() {
        Par2Error::TooManyInputBlocks { suggested, slice_size: 4, .. } => suggested,
        other => panic!("unexpected {other:?}"),
    }
}

#[test]
fn suggested_slice_size_values() {
    let of_one = |length: u64| suggestion(&[fake_source(32769, length)]);
    assert_eq!(of_one(4 * 32768 + 1), 8);
    assert_eq!(of_one(8 * 32768), 8);
    assert_eq!(of_one(8 * 32768 + 1), 12);
    assert_eq!(of_one(u64::MAX), 1 << 49);
}

#[test]
fn suggested_slice_size_counts_the_slices_of_each_file() {
    // 131072 bytes, but one slice too many at 4 bytes a slice.
    assert_eq!(suggestion(&[fake_source(1, 1), fake_source(32768, 131071)]), 8);
    let many: Vec<SourceFile> = (0..32768).map(|_| fake_source(2, 5)).collect();
    assert_eq!(suggestion(&many), 8);
    // Every file has a slice of its own, which leaves one for the last.
    let small = || (0..32767).map(|_| fake_source(1, 1));
    let sources: Vec<SourceFile> = small().chain([fake_source(25, 100)]).collect();
    assert_eq!(suggestion(&sources), 100);
    let sources: Vec<SourceFile> = small().chain([fake_source(26, 101)]).collect();
    assert_eq!(suggestion(&sources), 104);
}

#[test]
fn suggested_slice_size_is_accepted() {
    let lengths = [131071u64, 1, 77, 4096];
    let scanned = |size: u64| -> Vec<SourceFile> {
        lengths.iter().map(|&n| fake_source(n.div_ceil(size) as usize, n)).collect()
    };
    let better = suggestion(&scanned(4));
    assert_eq!(better, 8);
    assert!(plan_create(&options(better, 0, VolumeScheme::Single), &scanned(better)).is_ok());
}

#[test]
fn legacy_write_index_file_still_works() {
    let opts = options(4, 7, VolumeScheme::Explicit(vec![7]));
    let index_only = opts.index_only();
    assert_eq!(index_only.output, opts.output);
    let files: [(&str, &[u8]); 1] = [("a.bin", b"hello par2")];
    let set = run(&index_only, &files).unwrap();
    assert!(set.volumes.is_empty());
    assert_eq!(set.index, run(&opts, &files).unwrap().index);
}

#[test]
fn exponential_scheme_produces_expected_volume_files() {
    let payload = vec![0xABu8; 4096 * 4];
    let set = run(&options(4096, 10, VolumeScheme::Exponential), &[("a.bin", &payload)]).unwrap();
    // index + 5 volume files (1+1+2+4+2).
    assert_eq!(
        names(&set),
        vec![
            "recovery.vol0+1.par2",
            "recovery.vol1+1.par2",
            "recovery.vol2+2.par2",
            "recovery.vol4+4.par2",
            "recovery.vol8+2.par2",
        ]
    );
}

#[test]
fn explicit_scheme_rejects_sum_mismatch() {
    let err = run(
        &options(4, 5, VolumeScheme::Explicit(vec![2, 2])),
        &[("a.bin", b"hello par2 world!!!!")],
    )
    .err()
    .unwrap();
    assert!(
        matches!(err, Par2Error::InvalidVolumeScheme(_)),
        "expected InvalidVolumeScheme, got: {err:?}"
    );
}

#[test]
fn explicit_scheme_rejects_zero_sized_volume() {
    let err = run(
        &options(4, 4, VolumeScheme::Explicit(vec![2, 0, 2])),
        &[("a.bin", b"hello par2 world!!!!")],
    )
    .err()
    .unwrap();
    assert!(matches!(err, Par2Error::InvalidVolumeScheme(_)));
}

#[test]
fn explicit_scheme_honours_caller_layout() {
    let payload = vec![0x5Au8; 4096 * 3];
    let set =
        run(&options(4096, 6, VolumeScheme::Explicit(vec![3, 3])), &[("a.bin", &payload)]).unwrap();
    assert_eq!(names(&set), vec!["recovery.vol0+3.par2", "recovery.vol3+3.par2"]);
}

#[test]
fn uniform_scheme_produces_expected_volume_files() {
    let payload = vec![0xCDu8; 4096 * 4];
    let set = run(&options(4096, 10, VolumeScheme::Uniform { count: 4 }), &[("a.bin", &payload)])
        .unwrap();
    // Uniform(10, 4) = [2, 2, 2, 4].
    assert_eq!(
        names(&set),
        vec![
            "recovery.vol0+2.par2",
            "recovery.vol2+2.par2",
            "recovery.vol4+2.par2",
            "recovery.vol6+4.par2",
        ]
    );
}

#[test]
fn create_options_default_is_single_scheme() {
    let opts = CreateOptions::default();
    assert_eq!(opts.volume_scheme, VolumeScheme::Single);
    assert_eq!(opts.slice_size, 4096);
    assert_eq!(opts.recovery_block_count, 0);
    assert!(opts.comments.is_empty());
    assert_eq!(opts.output, PathBuf::new());
}

/// Runs a job and keeps a record of what it asked for.
fn drive(job: &mut CreateJob, contents: &[&[u8]], slice_size: usize) -> Vec<Action> {
    let mut log = Vec::new();
    loop {
        let action = job.next();
        log.push(action);
        match action {
            Action::ReadSlice { file, slice } => {
                let mut buf = vec![0u8; slice_size];
                read_slice(contents[file], slice as usize, &mut buf);
                if let Some(e) = job.supply(&buf) {
                    log.push(Action::Report(e));
                }
            }
            Action::Finished | Action::Failed => return log,
            _ => {}
        }
    }
}

#[test]
fn progress_events_fire_in_order_for_create_with_recovery() {
    // 4-byte slices, 20-byte file: 5 input blocks. 2 recovery blocks in a single
    // volume.
    let content: &[u8] = b"hello par2 world!!!!";
    let src = make_source("a.bin", content, 4);
    let plan = plan_create(&options(4, 2, VolumeScheme::Single), &[src]).unwrap();
    let mut job = CreateJob::new(plan, Dispatch::TableScalar);
    let log = drive(&mut job, &[content], 4);
    let read = |slice: u64| Action::ReadSlice { file: 0, slice };
    let tick = |done: u64| {
        Action::Report(JobEvent::EncodeProgress {
            volume_index: 0,
            input_block_done: done,
            input_blocks: 5,
        })
    };
    assert_eq!(
        log,
        vec![
            Action::WriteIndex,
            Action::Report(JobEvent::IndexWritten),
            Action::Report(JobEvent::EncodeStarted {
                volume_index: 0,
                total_volumes: 1,
                input_blocks: 5,
                recovery_blocks: 2,
            }),
            Action::OpenFile { file: 0 },
            read(0),
            tick(1),
            read(1),
            tick(2),
            read(2),
            tick(3),
            read(3),
            tick(4),
            read(4),
            tick(5),
            Action::Report(JobEvent::EncodeCompleted { volume_index: 0 }),
            Action::WriteVolume { volume_index: 0, first_exponent: 0, count: 2 },
            Action::Report(JobEvent::VolumeWritten { volume_index: 0 }),
            Action::Finished,
        ]
    );
    assert_eq!(job.next(), Action::Finished);
}

#[test]
fn run_create_with_and_without_reporter_produce_identical_output() {
    // Whoever drives the job and whether or not they listen, the bytes are the
    // same.
    let content: &[u8] = b"hello par2 world!!!!";
    let opts = options(4, 2, VolumeScheme::Single);
    let set = run(&opts, &[("a.bin", content)]).unwrap();
    let plan = plan_create(&opts, &[make_source("a.bin", content, 4)]).unwrap();
    let mut job = CreateJob::new(plan, Dispatch::Scalar);
    assert_eq!(job.index_bytes(), &set.index[..]);
    let mut volumes = Vec::new();
    loop {
        match job.next() {
            Action::ReadSlice { file: _, slice } => {
                let mut buf = vec![0u8; 4];
                read_slice(content, slice as usize, &mut buf);
                let _ = job.supply(&buf);
            }
            Action::WriteVolume { .. } => volumes.push(job.volume_bytes().to_vec()),
            Action::Finished => break,
            _ => {}
        }
    }
    assert_eq!(volumes, vec![set.volumes[0].bytes.clone()]);
}

#[test]
fn files_are_opened_when_they_change() {
    let a: &[u8] = b"0123456789";
    let b: &[u8] = b"abc";
    let mut sources = [make_source("a", a, 8), make_source("b", b, 8)];
    sources[0].file_id = [1; 16];
    sources[1].file_id = [2; 16];
    let plan =
        plan_create(&options(8, 3, VolumeScheme::Explicit(vec![1, 2])), &sources).unwrap();
    assert_eq!(
        plan.blocks,
        vec![
            BlockRef { file: 0, slice: 0 },
            BlockRef { file: 0, slice: 1 },
            BlockRef { file: 1, slice: 0 },
        ]
    );
    assert_eq!(plan.sizes, vec![1, 2]);
    let mut job = CreateJob::new(plan, Dispatch::Neon);
    let log = drive(&mut job, &[a, b], 8);
    let opens: Vec<usize> = log
        .iter()
        .filter_map(|x| match x {
            Action::OpenFile { file } => Some(*file),
            _ => None,
        })
        .collect();
    // Each volume opens each file once.
    assert_eq!(opens, vec![0, 1, 0, 1]);
    let writes: Vec<Action> =
        log.iter().filter(|x| matches!(x, Action::WriteVolume { .. })).copied().collect();
    assert_eq!(
        writes,
        vec![
            Action::WriteVolume { volume_index: 0, first_exponent: 0, count: 1 },
            Action::WriteVolume { volume_index: 1, first_exponent: 1, count: 2 },
        ]
    );
}

/// Bodies of the packets of a type.
fn bodies(file: &[u8], tag: [u8; 16]) -> Vec<Vec<u8>> {
    packets(file).into_iter().filter(|p| p.0 == tag).map(|p| p.1).collect()
}

#[test]
fn slices_are_numbered_in_the_order_of_the_main_packet() {
    let contents: [&[u8]; 3] = [b"0123456789", b"abc", b"hello par2 world"];
    let mut files: Vec<(SourceFile, Vec<u8>)> = contents
        .iter()
        .enumerate()
        .map(|(i, c)| (make_source(&format!("f{i}"), c, 8), c.to_vec()))
        .collect();
    files.sort_by_key(|f| std::cmp::Reverse(f.0.file_id));
    let (sources, contents): (Vec<SourceFile>, Vec<Vec<u8>>) = files.into_iter().unzip();
    let opts = options(8, 2, VolumeScheme::Single);
    let plan = plan_create(&opts, &sources).unwrap();
    // Given with descending ids, the files are encoded from the last to the
    // first.
    let mut expected = Vec::new();
    for file in [2usize, 1, 0] {
        for slice in 0..sources[file].slice_checksums.len() as u64 {
            expected.push(BlockRef { file, slice });
        }
    }
    assert_eq!(plan.blocks, expected);
    let set = create_in_memory(&opts, &sources, &contents, Dispatch::Gfni).ok().unwrap();
    let main = &bodies(&set.index, TYPE_MAIN)[0];
    for (k, file) in [2usize, 1, 0].into_iter().enumerate() {
        assert_eq!(main[12 + 16 * k..28 + 16 * k], sources[file].file_id);
    }
    let rs = RsEncoder::new(expected.len() as u32, 0, 2);
    let found = bodies(&set.volumes[0].bytes, TYPE_RECOVERY);
    for r in 0..2usize {
        let mut recovery = vec![0u8; 8];
        for (i, block) in expected.iter().enumerate() {
            let mut slice = vec![0u8; 8];
            read_slice(&contents[block.file], block.slice as usize, &mut slice);
            rs.accumulate(r, i, &slice, &mut recovery);
        }
        assert_eq!(&found[r][4..], &recovery[..]);
    }
}

#[test]
fn the_order_of_files_changes_no_recovery_packet() {
    let files: [(&str, &[u8]); 4] =
        [("a", b"0123456789"), ("b", b"abc"), ("c", b"hello par2 world"), ("d", b"d")];
    let opts = || options(4, 5, VolumeScheme::Exponential);
    let reference = run(&opts(), &files).unwrap();
    for turn in 1..4 {
        let mut other = files;
        other.rotate_left(turn);
        other.swap(0, 1);
        let set = run(&opts(), &other).unwrap();
        assert_eq!(bodies(&set.index, TYPE_MAIN), bodies(&reference.index, TYPE_MAIN));
        assert_eq!(names(&set), names(&reference));
        for (v, w) in set.volumes.iter().zip(reference.volumes.iter()) {
            assert_eq!(bodies(&v.bytes, TYPE_RECOVERY), bodies(&w.bytes, TYPE_RECOVERY));
        }
    }
}

#[test]
fn files_of_the_same_id_stay_in_order() {
    let mut sources = [fake_source(1, 4), fake_source(2, 8), fake_source(1, 4)];
    sources[0].file_id = [9; 16];
    sources[1].file_id = [5; 16];
    sources[2].file_id = [5; 16];
    let plan = plan_create(&options(4, 0, VolumeScheme::Single), &sources).unwrap();
    assert_eq!(
        plan.blocks,
        vec![
            BlockRef { file: 1, slice: 0 },
            BlockRef { file: 1, slice: 1 },
            BlockRef { file: 2, slice: 0 },
            BlockRef { file: 0, slice: 0 },
        ]
    );
}

#[test]
fn explicit_sizes_must_sum_to_zero_without_recovery_blocks() {
    let files: [(&str, &[u8]); 1] = [("a.bin", b"hello par2 world")];
    match run(&options(4, 0, VolumeScheme::Explicit(vec![2, 3])), &files) {
        Err(Par2Error::InvalidVolumeScheme(m)) => {
            assert_eq!(m, "explicit volume sizes sum to 5, expected 0")
        }
        _ => panic!("expected InvalidVolumeScheme"),
    }
    let set = run(&options(4, 0, VolumeScheme::Explicit(vec![])), &files).unwrap();
    assert!(set.volumes.is_empty());
    assert!(run(&options(4, 0, VolumeScheme::Uniform { count: 9 }), &files).is_ok());
}

#[test]
fn where_the_files_are_written_changes_no_byte() {
    let files: [(&str, &[u8]); 2] = [("a", b"0123456789"), ("b", b"abc")];
    let here = options(4, 3, VolumeScheme::Exponential);
    let mut there = options(4, 3, here.volume_scheme.clone());
    there.output = PathBuf::from("elsewhere/recovery.par2");
    let (x, y) = (run(&here, &files).unwrap(), run(&there, &files).unwrap());
    assert_eq!(x.index, y.index);
    assert_eq!(names(&x), names(&y));
    for (v, w) in x.volumes.iter().zip(y.volumes.iter()) {
        assert_eq!(v.bytes, w.bytes);
    }
}

#[test]
fn a_refused_layout_fails_after_the_index() {
    let content: &[u8] = b"abcd";
    let src = make_source("a", content, 4);
    let plan = plan_create(&options(4, 3, VolumeScheme::Uniform { count: 9 }), &[src]).unwrap();
    let mut job = CreateJob::new(plan, Dispatch::Scalar);
    let log = drive(&mut job, &[content], 4);
    assert_eq!(
        log,
        vec![Action::WriteIndex, Action::Report(JobEvent::IndexWritten), Action::Failed]
    );
    assert_eq!(job.next(), Action::Failed);
    match job.into_failure() {
        Some(Par2Error::InvalidVolumeScheme(m)) => {
            assert_eq!(m, "Uniform scheme count (9) exceeds recovery block total (3)")
        }
        other => panic!("unexpected {other:?}"),
    }
}

#[test]
fn index_holds_the_packets_in_order() {
    let mut opts = options(4, 0, VolumeScheme::Single);
    opts.comments = vec!["note".to_string()];
    let set = run(&opts, &[("a.bin", b"12345"), ("b.bin", b"6")]).unwrap();
    let tags: Vec<[u8; 16]> = packets(&set.index).iter().map(|p| p.0).collect();
    assert_eq!(
        tags,
        vec![
            TYPE_MAIN,
            TYPE_FILE_DESC,
            TYPE_FILE_VERIFY,
            TYPE_FILE_DESC,
            TYPE_FILE_VERIFY,
            TYPE_CREATOR,
            *b"PAR 2.0\0CommASCI",
        ]
    );
    assert_eq!(set.index.len() % 4, 0);
}

#[test]
fn volumes_hold_the_index_twice_and_the_recovery_slices() {
    let data: Vec<u8> = (0..23u8).collect();
    let opts = options(8, 3, VolumeScheme::Explicit(vec![1, 2]));
    let set = run(&opts, &[("a.bin", &data)]).unwrap();
    let volume = &set.volumes[1];
    assert_eq!((volume.first_exponent, volume.count), (1, 2));
    assert!(volume.bytes.starts_with(&set.index));
    assert!(volume.bytes.ends_with(&set.index));
    let found: Vec<Vec<u8>> = packets(&volume.bytes)
        .into_iter()
        .filter(|p| p.0 == TYPE_RECOVERY)
        .map(|p| p.1)
        .collect();
    assert_eq!(found.len(), 2);
    let rs = RsEncoder::new(3, 1, 2);
    for r in 0..2usize {
        let mut expected = vec![0u8; 8];
        for i in 0..3usize {
            let mut slice = vec![0u8; 8];
            read_slice(&data, i, &mut slice);
            rs.accumulate(r, i, &slice, &mut expected);
        }
        assert_eq!(u32::from_le_bytes(found[r][..4].try_into().unwrap()), 1 + r as u32);
        assert_eq!(&found[r][4..], &expected[..]);
    }
}

#[test]
fn recovery_data_is_the_same_in_every_layout_and_path() {
    let data: Vec<u8> = (0..1000u32).map(|i| (i * i) as u8).collect();
    let recovery = |scheme: VolumeScheme, dispatch: Dispatch| -> Vec<Vec<u8>> {
        let opts = options(64, 9, scheme);
        let sources = [make_source("a.bin", &data, 64)];
        let set =
            create_in_memory(&opts, &sources, &[data.clone()], dispatch).ok().unwrap();
        set.volumes
            .iter()
            .flat_map(|v| packets(&v.bytes))
            .filter(|p| p.0 == TYPE_RECOVERY)
            .map(|p| p.1)
            .collect()
    };
    let reference = recovery(VolumeScheme::Single, Dispatch::Scalar);
    assert_eq!(reference.len(), 9);
    for d in [
        Dispatch::TableScalar,
        Dispatch::Neon,
        Dispatch::Ssse3,
        Dispatch::Gfni,
        Dispatch::GfniAvx512,
    ] {
        assert_eq!(recovery(VolumeScheme::Exponential, d), reference);
    }
    let limited = VolumeScheme::Limited {
        max_blocks_per_volume: 2,
        inner: Box::new(VolumeScheme::Uniform { count: 2 }),
    };
    assert_eq!(recovery(limited, Dispatch::Gfni), reference);
}

#[test]
fn encoder_handles_more_rows_than_threads() {
    let mut enc = VolumeEncoder::new(2, 0, 300, 4, Dispatch::Neon);
    enc.absorb(&[1, 2, 3, 4]);
    enc.absorb(&[5, 6, 7, 8]);
    let file = enc.build_volume_file(&[0u8; 16], &[]);
    let found = packets(&file);
    assert_eq!(found.len(), 300);
    // Exponent 0: the XOR of the slices.
    assert_eq!(&found[0].1[4..], &[1 ^ 5, 2 ^ 6, 3 ^ 7, 4 ^ 8]);
    let rs = RsEncoder::new(2, 0, 300);
    let mut expected = vec![0u8; 4];
    rs.accumulate(299, 0, &[1, 2, 3, 4], &mut expected);
    rs.accumulate(299, 1, &[5, 6, 7, 8], &mut expected);
    assert_eq!(&found[299].1[4..], &expected[..]);
}

#[test]
fn empty_volume_of_an_encoder_without_rows() {
    let mut enc = VolumeEncoder::new(1, 0, 0, 4, Dispatch::Neon);
    enc.absorb(&[1, 2, 3, 4]);
    assert_eq!(enc.build_volume_file(&[0u8; 16], b"abcd"), b"abcdabcd".to_vec());
}

#[test]
fn index_of_a_two_mebibyte_file_has_552_bytes() {
    let data = vec![0x5Au8; 8 * 262144];
    let set = run(&options(262144, 0, VolumeScheme::Single), &[("data.bin", &data)]).unwrap();
    assert_eq!(set.index.len(), 552);
}

#[test]
fn sums_that_do_not_fit_are_found() {
    let opts = options(4, 1, VolumeScheme::Single);
    let small = [fake_source(1, u64::MAX), fake_source(1, 1)];
    // Few slices: nobody adds up the bytes.
    assert!(check_sums(&opts, &small));
    let large = [fake_source(32768, u64::MAX), fake_source(1, 1)];
    assert!(!check_sums(&opts, &large));
    assert!(check_sums(&opts, &[fake_source(32768, u64::MAX - 1), fake_source(1, 1)]));
    // Other refusals come first.
    let bad = options(3, 1, VolumeScheme::Single);
    assert!(check_sums(&bad, &large));
    assert!(matches!(plan_create(&bad, &large).err().unwrap(), Par2Error::InvalidSliceSize(3)));
    assert!(check_sums(&opts, &[]));
    assert_eq!(checked_count_blocks(&large), Some(32769));
}

#[test]
fn job_reports_become_events() {
    let (index, volume) = (Path::new("i"), Path::new("v"));
    let text = |e: JobEvent| format!("{:?}", e.to_progress(index, volume));
    assert_eq!(text(JobEvent::IndexWritten), "IndexWritten { path: \"i\" }");
    assert_eq!(
        text(JobEvent::VolumeWritten { volume_index: 3 }),
        "VolumeWritten { path: \"v\" }"
    );
    assert_eq!(
        text(JobEvent::EncodeStarted {
            volume_index: 1,
            total_volumes: 2,
            input_blocks: 3,
            recovery_blocks: 4,
        }),
        format!(
            "{:?}",
            ProgressEvent::EncodeStarted {
                volume_index: 1,
                total_volumes: 2,
                input_blocks: 3,
                recovery_blocks: 4,
            }
        )
    );
    assert_eq!(
        text(JobEvent::EncodeProgress { volume_index: 1, input_block_done: 2, input_blocks: 3 }),
        "EncodeProgress { volume_index: 1, input_block_done: 2, input_blocks: 3 }"
    );
    assert_eq!(
        text(JobEvent::EncodeCompleted { volume_index: 1 }),
        "EncodeCompleted { volume_index: 1 }"
    );
}

#[test]
fn recovery_packets_of_a_volume_are_those_of_its_parts() {
    let recovery = |sizes: Vec<u32>| -> Vec<Vec<u8>> {
        let set =
            run(&options(4, 5, VolumeScheme::Explicit(sizes)), &[("a", b"0123456789")]).unwrap();
        set.volumes.iter().flat_map(|v| bodies(&v.bytes, TYPE_RECOVERY)).collect()
    };
    assert_eq!(recovery(vec![5]), recovery(vec![2, 3]));
    assert_eq!(recovery(vec![5]), recovery(vec![1, 3, 1]));
}
