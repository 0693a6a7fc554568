use std::path::{Path, PathBuf};
use std::sync::Mutex;

use par2rust::bars::{BarUpdate, Bars};
use par2rust::progress::{
    next_tick, reports, scan_ticks, tick_stride, ProgressEvent, ProgressReporter,
};
use par2rust::SourceFile;

struct Capture {
    log: Mutex<Vec<String>>,
}

impl ProgressReporter for Capture {
    fn on_event(&self, event: ProgressEvent<'_>) {
        self.log.lock().unwrap().push(format!("{event:?}"));
    }
}

#[test]
fn arc_forwards_events() {
    let cap = std::sync::Arc::new(Capture { log: Mutex::new(Vec::new()) });
    let path = Path::new("x");
    ProgressReporter::on_event(&cap, ProgressEvent::ScanStarted { path, total_slices: 1 });
    assert_eq!(cap.log.lock().unwrap().len(), 1);
}

#[test]
fn tick_stride_keeps_rate_bounded() {
    assert_eq!(tick_stride(0), 1);
    assert_eq!(tick_stride(50), 1);
    assert_eq!(tick_stride(100), 1);
    assert_eq!(tick_stride(1000), 10);
    assert_eq!(tick_stride(10_000), 100);
}

#[test]
fn ticks_are_the_multiples_of_the_stride_and_the_end() {
    for total in [1u64, 7, 99, 100, 199, 200, 250, 1003] {
        let by_test: Vec<u64> = (1..=total).filter(|&d| reports(d, total)).collect();
        let mut by_walk = Vec::new();
        let mut done = 0;
        while done < total {
            done = next_tick(done, total);
            by_walk.push(done);
        }
        assert_eq!(by_test, by_walk);
        assert_eq!(scan_ticks(total), by_walk);
        assert_eq!(*by_walk.last().unwrap(), total);
        assert!(by_walk.len() <= 200);
    }
}

#[test]
fn ticks_of_a_scan() {
    assert_eq!(scan_ticks(0), Vec::<u64>::new());
    assert_eq!(scan_ticks(3), vec![1, 2, 3]);
    let ticks = scan_ticks(251);
    assert_eq!(ticks.len(), 126);
    assert_eq!(&ticks[..3], &[2, 4, 6]);
    assert_eq!(&ticks[124..], &[250, 251]);
}

#[test]
fn scan_reports_start_ticks_and_end() {
    let cap = Capture { log: Mutex::new(Vec::new()) };
    let content = vec![7u8; 4 * 250 + 1];
    let with =
        SourceFile::scan_with_progress(PathBuf::from("f"), b"f".to_vec(), 4, &content, Some(&cap))
            .unwrap();
    let without = SourceFile::scan(PathBuf::from("f"), b"f".to_vec(), 4, &content).unwrap();
    assert_eq!(with.file_id, without.file_id);
    assert_eq!(with.slice_checksums.len(), without.slice_checksums.len());
    for (a, b) in with.slice_checksums.iter().zip(without.slice_checksums.iter()) {
        assert_eq!((a.md5, a.crc32), (b.md5, b.crc32));
    }
    let log = cap.log.lock().unwrap();
    assert_eq!(log[0], "ScanStarted { path: \"f\", total_slices: 251 }");
    assert_eq!(log[1], "ScanProgress { path: \"f\", slices_done: 2, total_slices: 251 }");
    assert_eq!(
        log[log.len() - 2],
        "ScanProgress { path: \"f\", slices_done: 251, total_slices: 251 }"
    );
    assert_eq!(log[log.len() - 1], "ScanCompleted { path: \"f\" }");
    assert_eq!(log.len(), 2 + 125 + 1);
}

#[test]
fn bars_follow_events() {
    let path = Path::new("a");
    let mut bar = Bars::new();
    let started = ProgressEvent::ScanStarted { path, total_slices: 5 };
    assert_eq!(bar.on_event(&started), BarUpdate::GrowScan(5));
    let tick = |slices_done| ProgressEvent::ScanProgress { path, slices_done, total_slices: 5 };
    assert_eq!(bar.on_event(&tick(2)), BarUpdate::SetScan(2));
    assert_eq!(bar.on_event(&tick(5)), BarUpdate::SetScan(5));
    assert_eq!(bar.on_event(&ProgressEvent::ScanCompleted { path }), BarUpdate::Keep);
    // The next file goes on where this one ended.
    assert_eq!(bar.on_event(&tick(1)), BarUpdate::SetScan(6));
    assert_eq!(bar, Bars { scan: true, encode: false, base: 5, position: 6 });
    let encode = ProgressEvent::EncodeStarted {
        volume_index: 0,
        total_volumes: 3,
        input_blocks: 7,
        recovery_blocks: 2,
    };
    assert_eq!(
        bar.on_event(&encode),
        BarUpdate::RestartEncode { length: 7, volume: 1, total_volumes: 3 }
    );
    let done = ProgressEvent::EncodeProgress {
        volume_index: 0,
        input_block_done: 4,
        input_blocks: 7,
    };
    assert_eq!(bar.on_event(&done), BarUpdate::SetEncode(4));
    assert_eq!(
        bar.on_event(&ProgressEvent::EncodeCompleted { volume_index: 0 }),
        BarUpdate::Keep
    );
    assert_eq!(bar.on_event(&ProgressEvent::IndexWritten { path }), BarUpdate::Keep);
    assert_eq!(bar.on_event(&ProgressEvent::VolumeWritten { path }), BarUpdate::Keep);
    assert_eq!(bar, Bars { scan: true, encode: true, base: 5, position: 6 });
}

#[test]
fn no_bar_shows_what_comes_before_a_start() {
    let path = Path::new("a");
    let mut bar = Bars::new();
    let tick = ProgressEvent::ScanProgress { path, slices_done: 3, total_slices: 5 };
    assert_eq!(bar.on_event(&tick), BarUpdate::Keep);
    assert_eq!(bar.on_event(&ProgressEvent::ScanCompleted { path }), BarUpdate::Keep);
    let done =
        ProgressEvent::EncodeProgress { volume_index: 0, input_block_done: 4, input_blocks: 7 };
    assert_eq!(bar.on_event(&done), BarUpdate::Keep);
    assert_eq!(bar, Bars { scan: false, encode: false, base: 0, position: 0 });
    let started = ProgressEvent::ScanStarted { path, total_slices: 5 };
    assert_eq!(bar.on_event(&started), BarUpdate::GrowScan(5));
    assert_eq!(bar.on_event(&tick), BarUpdate::SetScan(3));
}

#[test]
fn bars_can_come_again() {
    let path = Path::new("a");
    let started = ProgressEvent::ScanStarted { path, total_slices: 5 };
    let tick = ProgressEvent::ScanProgress { path, slices_done: 5, total_slices: 5 };
    let mut bar = Bars::new();
    bar.on_event(&started);
    bar.on_event(&tick);
    bar.on_event(&ProgressEvent::ScanCompleted { path });
    bar.finish();
    assert_eq!(bar, Bars { scan: false, encode: false, base: 5, position: 0 });
    assert_eq!(bar.on_event(&tick), BarUpdate::Keep);
    assert_eq!(bar.on_event(&started), BarUpdate::GrowScan(5));
    assert_eq!(bar.on_event(&tick), BarUpdate::SetScan(10));
}
