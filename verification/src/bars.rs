//! What progress events mean for two progress bars: one for scanning, over the
//! slices of all files, and one for encoding, over the blocks of one volume.

use crate::progress::ProgressEvent;
use vstd::prelude::*;

verus! {

/// What to do with the bars.
#[derive(Clone, Copy, Debug, PartialEq, Eq, Structural)]
pub enum BarUpdate {
    /// Nothing.
    Keep,
    /// Make the scan bar longer by that many slices, and show the file's name.
    GrowScan(u64),
    /// Set the position of the scan bar.
    SetScan(u64),
    /// Start the encode bar again with that length, for this volume of so many.
    RestartEncode { length: u64, volume: u64, total_volumes: u32 },
    /// Set the position of the encode bar.
    SetEncode(u64),
}

/// Which bars there are, where the scan bar stands, and where it stood before
/// the current file. A bar is there from the first start of its kind on; what
/// comes before that, no bar shows.
#[derive(Clone, Copy, Debug, PartialEq, Eq, Structural)]
pub struct Bars {
    pub scan: bool,
    pub encode: bool,
    pub base: u64,
    pub position: u64,
}

/// What an event does to the bars, and what is to be done. The scan bar goes on
/// from file to file.
pub open spec fn bar_step(bars: Bars, event: ProgressEvent<'_>) -> (Bars, BarUpdate) {
    match event {
        ProgressEvent::ScanStarted { path: _, total_slices } => (
            Bars { scan: true, ..bars },
            BarUpdate::GrowScan(total_slices),
        ),
        ProgressEvent::ScanProgress { path: _, slices_done, total_slices: _ } => if bars.scan {
            let position = (bars.base + slices_done) as u64;
            (Bars { position, ..bars }, BarUpdate::SetScan(position))
        } else {
            (bars, BarUpdate::Keep)
        },
        ProgressEvent::ScanCompleted { path: _ } => if bars.scan {
            (Bars { base: bars.position, ..bars }, BarUpdate::Keep)
        } else {
            (bars, BarUpdate::Keep)
        },
        ProgressEvent::EncodeStarted {
            volume_index,
            total_volumes,
            input_blocks,
            recovery_blocks: _,
        } => (
            Bars { encode: true, ..bars },
            BarUpdate::RestartEncode {
                length: input_blocks,
                volume: (volume_index + 1) as u64,
                total_volumes,
            },
        ),
        ProgressEvent::EncodeProgress { volume_index: _, input_block_done, input_blocks: _ } => (
            bars,
            if bars.encode {
                BarUpdate::SetEncode(input_block_done)
            } else {
                BarUpdate::Keep
            },
        ),
        _ => (bars, BarUpdate::Keep),
    }
}

impl Bars {
    /// No bars yet.
    pub fn new() -> (bars: Self)
        ensures
            bars == (Bars { scan: false, encode: false, base: 0, position: 0 }),
    {
        Bars { scan: false, encode: false, base: 0, position: 0 }
    }

    /// Take in an event.
    pub fn on_event(&mut self, event: &ProgressEvent<'_>) -> (update: BarUpdate)
        requires
            old(self).scan && *event is ScanProgress ==> old(self).base + event->slices_done
                <= u64::MAX,
        ensures
            (*final(self), update) == bar_step(*old(self), *event),
    {
        match event {
            ProgressEvent::ScanStarted { path: _, total_slices } => {
                self.scan = true;
                BarUpdate::GrowScan(*total_slices)
            },
            ProgressEvent::ScanProgress { path: _, slices_done, total_slices: _ } => {
                if self.scan {
                    self.position = self.base + *slices_done;
                    BarUpdate::SetScan(self.position)
                } else {
                    BarUpdate::Keep
                }
            },
            ProgressEvent::ScanCompleted { path: _ } => {
                if self.scan {
                    self.base = self.position;
                }
                BarUpdate::Keep
            },
            ProgressEvent::EncodeStarted {
                volume_index,
                total_volumes,
                input_blocks,
                recovery_blocks: _,
            } => {
                self.encode = true;
                BarUpdate::RestartEncode {
                    length: *input_blocks,
                    volume: *volume_index as u64 + 1,
                    total_volumes: *total_volumes,
                }
            },
            ProgressEvent::EncodeProgress {
                volume_index: _,
                input_block_done,
                input_blocks: _,
            } => {
                if self.encode {
                    BarUpdate::SetEncode(*input_block_done)
                } else {
                    BarUpdate::Keep
                }
            },
            _ => BarUpdate::Keep,
        }
    }

    /// Take the bars away. A scan bar that comes later starts at 0, and the next
    /// file still counts from where the last one ended.
    pub fn finish(&mut self)
        ensures
            *final(self) == (Bars {
                scan: false,
                encode: false,
                base: old(self).base,
                position: 0,
            }),
    {
        self.scan = false;
        self.encode = false;
        self.position = 0;
    }
}

/// A file whose last report is its number of slices moves the start of the next
/// file on by that number.
pub proof fn law_scan_bar_accumulates<'a>(
    bars: Bars,
    last: ProgressEvent<'a>,
    end: ProgressEvent<'a>,
)
    requires
        bars.scan,
        last is ScanProgress,
        end is ScanCompleted,
        bars.base + last->slices_done <= u64::MAX,
    ensures
        bar_step(bar_step(bars, last).0, end).0.base == bars.base + last->slices_done,
{
}

/// Until a scan has started, nothing moves the scan bar.
pub proof fn law_no_scan_bar_before_a_start(bars: Bars, event: ProgressEvent<'_>)
    requires
        !bars.scan,
        !(event is ScanStarted),
    ensures
        !bar_step(bars, event).0.scan,
        bar_step(bars, event).0.base == bars.base,
        bar_step(bars, event).0.position == bars.position,
        !(bar_step(bars, event).1 is SetScan),
{
}

/// What each event does to the bars. The start of a scan makes the scan bar longer
/// by the slices of the file; its progress stands after the files before it; its
/// end is where the next file starts. The start of a volume starts the encode bar
/// again, numbered from 1; its progress is that of the volume. Nothing else moves
/// a bar, and no bar moves before it is there.
pub proof fn law_bars(bars: Bars, event: ProgressEvent<'_>)
    ensures
        ({
            let (next, update) = bar_step(bars, event);
            let scan_kept = next.scan == bars.scan && next.base == bars.base && next.position
                == bars.position;
            match event {
                ProgressEvent::ScanStarted { path: _, total_slices } => {
                    &&& next.scan
                    &&& next.encode == bars.encode
                    &&& next.base == bars.base
                    &&& next.position == bars.position
                    &&& update == BarUpdate::GrowScan(total_slices)
                },
                ProgressEvent::ScanProgress { path: _, slices_done, total_slices: _ } => {
                    &&& next.encode == bars.encode
                    &&& next.scan == bars.scan
                    &&& next.base == bars.base
                    &&& !bars.scan ==> scan_kept && update is Keep
                    &&& bars.scan && bars.base + slices_done <= u64::MAX ==> next.position
                        == bars.base + slices_done && update is SetScan && update->SetScan_0
                        == bars.base + slices_done
                },
                ProgressEvent::ScanCompleted { path: _ } => {
                    &&& update is Keep
                    &&& next.encode == bars.encode
                    &&& next.scan == bars.scan
                    &&& next.position == bars.position
                    &&& next.base == if bars.scan {
                        bars.position
                    } else {
                        bars.base
                    }
                },
                ProgressEvent::EncodeStarted {
                    volume_index,
                    total_volumes,
                    input_blocks,
                    recovery_blocks: _,
                } => {
                    &&& scan_kept
                    &&& next.encode
                    &&& update is RestartEncode
                    &&& update->length == input_blocks
                    &&& update->volume == volume_index + 1
                    &&& update->total_volumes == total_volumes
                },
                ProgressEvent::EncodeProgress { volume_index: _, input_block_done, input_blocks: _ } => {
                    &&& scan_kept
                    &&& next.encode == bars.encode
                    &&& update == if bars.encode {
                        BarUpdate::SetEncode(input_block_done)
                    } else {
                        BarUpdate::Keep
                    }
                },
                _ => next == bars && update is Keep,
            }
        }),
{
}

} // verus!
