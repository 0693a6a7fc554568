//! Progress reporting for long-running operations.
//!
//! Implement [`ProgressReporter`] to observe scanning and encoding.

use crate::os_path::borrowed_path_bytes;
use std::path::Path;
use std::sync::Arc;
use vstd::prelude::*;

verus! {

/// Receiver of progress notifications.
///
/// Implementations must be cheap to call. They are shared by reference between
/// threads.
pub trait ProgressReporter: Send + Sync {
    /// Take note of an event. What it says makes sense: see [`event_wf`].
    fn on_event(&self, event: ProgressEvent<'_>)
        requires
            event_wf(event),
    ;
}

/// One observable step.
#[non_exhaustive]
#[derive(Debug)]
pub enum ProgressEvent<'a> {
    /// A source file is about to be scanned.
    ScanStarted { path: &'a Path, total_slices: u64 },
    /// Progress within the scan of a single file.
    ScanProgress { path: &'a Path, slices_done: u64, total_slices: u64 },
    /// A source file has been fully scanned.
    ScanCompleted { path: &'a Path },
    /// Encoding of one recovery volume is starting.
    EncodeStarted { volume_index: u32, total_volumes: u32, input_blocks: u64, recovery_blocks: u32 },
    /// Progress within one recovery volume's encoding.
    EncodeProgress { volume_index: u32, input_block_done: u64, input_blocks: u64 },
    /// Encoding of one recovery volume has finished.
    EncodeCompleted { volume_index: u32 },
    /// The index file has been written.
    IndexWritten { path: &'a Path },
    /// A recovery volume file has been written.
    VolumeWritten { path: &'a Path },
}

/// What an event says makes sense: there is something to do, what is done is part
/// of it and due to be reported, and a volume is one of those there are.
pub open spec fn event_wf(event: ProgressEvent<'_>) -> bool {
    match event {
        ProgressEvent::ScanStarted { path: _, total_slices } => total_slices > 0,
        ProgressEvent::ScanProgress { path: _, slices_done, total_slices } => {
            &&& 0 < slices_done <= total_slices
            &&& is_tick(slices_done as int, total_slices)
        },
        ProgressEvent::EncodeStarted {
            volume_index,
            total_volumes,
            input_blocks: _,
            recovery_blocks,
        } => volume_index < total_volumes && recovery_blocks > 0,
        ProgressEvent::EncodeProgress { volume_index: _, input_block_done, input_blocks } => {
            &&& 0 < input_block_done <= input_blocks
            &&& is_tick(input_block_done as int, input_blocks)
        },
        _ => true,
    }
}

/// An event in the scan of the file at `path`, which has `total` slices.
pub open spec fn is_scan_event(event: ProgressEvent<'_>, path: Seq<u8>, total: u64) -> bool {
    match event {
        ProgressEvent::ScanStarted { path: p, total_slices } => {
            &&& borrowed_path_bytes(p) == path
            &&& total_slices == total
        },
        ProgressEvent::ScanProgress { path: p, slices_done, total_slices } => {
            &&& borrowed_path_bytes(p) == path
            &&& total_slices == total
            &&& 0 < slices_done <= total
            &&& is_tick(slices_done as int, total)
        },
        ProgressEvent::ScanCompleted { path: p } => borrowed_path_bytes(p) == path,
        _ => false,
    }
}

/// A shared reporter reports like the one it shares.
impl<R: ProgressReporter + ?Sized> ProgressReporter for Arc<R> {
    fn on_event(&self, event: ProgressEvent<'_>) {
        (**self).on_event(event);
    }
}

/// How many steps lie between two reports of a loop of `total` steps: a
/// hundredth of them, but at least one.
pub open spec fn stride_of(total: u64) -> u64 {
    if total / 100 >= 1 {
        (total / 100) as u64
    } else {
        1
    }
}

/// Step `done` of `total` is reported: it is the last, or a multiple of the
/// stride.
pub open spec fn is_tick(done: int, total: u64) -> bool {
    done == total || done % (stride_of(total) as int) == 0
}

/// The number of steps between two reports of a loop of `total` steps.
pub fn tick_stride(total: u64) -> (stride: u64)
    ensures
        stride == stride_of(total),
        stride > 0,
{
    if total / 100 >= 1 {
        total / 100
    } else {
        1
    }
}

/// Whether step `done` of `total` is reported.
pub fn reports(done: u64, total: u64) -> (r: bool)
    ensures
        r == is_tick(done as int, total),
{
    done == total || done % tick_stride(total) == 0
}

/// The first step after `done` that is reported.
pub fn next_tick(done: u64, total: u64) -> (next: u64)
    requires
        done < total,
    ensures
        done < next <= total,
        is_tick(next as int, total),
        forall|d: int| done < d < next ==> !is_tick(d, total),
{
    let stride: u64 = tick_stride(total);
    let past: u64 = done % stride;
    let step: u64 = stride - past;
    let next: u64 = if total - done <= step { total } else { done + step };
    proof {
        let s = stride as int;
        vstd::arithmetic::div_mod::lemma_fundamental_div_mod(done as int, s);
        let q = done as int / s;
        assert(s * q == q * s) by (nonlinear_arith);
        assert forall|d: int| done < d < done + step implies #[trigger] (d % s) != 0 by {
            vstd::arithmetic::div_mod::lemma_fundamental_div_mod_converse(d, s, q, d - s * q);
        }
        assert((done + step) % s == 0) by {
            assert(done + step == (q + 1) * s) by (nonlinear_arith)
                requires
                    done == s * q + past,
                    step == s - past,
            ;
            vstd::arithmetic::div_mod::lemma_mod_multiples_basic(q + 1, s);
        }
    }
    next
}

/// The steps among the first `n` of `total` that are reported, in order.
pub open spec fn ticks_among(n: nat, total: u64) -> Seq<u64>
    decreases n,
{
    if n == 0 {
        Seq::empty()
    } else if is_tick(n as int, total) {
        ticks_among((n - 1) as nat, total).push(n as u64)
    } else {
        ticks_among((n - 1) as nat, total)
    }
}

/// What is reported: the ticks and nothing else, each once, in ascending order.
pub proof fn lemma_ticks(n: nat, total: u64)
    requires
        n <= total,
    ensures
        forall|k: int|
            0 <= k < ticks_among(n, total).len() ==> 0 < #[trigger] ticks_among(n, total)[k] <= n
                && is_tick(ticks_among(n, total)[k] as int, total),
        forall|j: int, k: int|
            0 <= j < k < ticks_among(n, total).len() ==> #[trigger] ticks_among(n, total)[j]
                < #[trigger] ticks_among(n, total)[k],
        forall|d: u64|
            0 < d <= n && is_tick(d as int, total) ==> #[trigger] ticks_among(n, total).contains(d),
    decreases n,
{
    if n > 0 {
        let before = ticks_among((n - 1) as nat, total);
        let ticks = ticks_among(n, total);
        lemma_ticks((n - 1) as nat, total);
        assert forall|d: u64| 0 < d <= n && is_tick(d as int, total) implies #[trigger]
            ticks.contains(d) by {
            if d < n {
                assert(before.contains(d));
                let k = choose|k: int| 0 <= k < before.len() && before[k] == d;
                assert(ticks[k] == d);
            } else {
                assert(ticks[before.len() as int] == d);
            }
        }
    }
}

/// The last step of a loop is reported last.
pub proof fn lemma_last_tick(total: u64)
    requires
        total > 0,
    ensures
        ticks_among(total as nat, total).len() > 0,
        ticks_among(total as nat, total).last() == total,
{
}

proof fn lemma_no_ticks_between(from: nat, to: nat, total: u64)
    requires
        from <= to,
        forall|d: int| from < d <= to ==> !is_tick(d, total),
    ensures
        ticks_among(to, total) == ticks_among(from, total),
    decreases to,
{
    if from < to {
        assert(!is_tick(to as int, total));
        lemma_no_ticks_between(from, (to - 1) as nat, total);
    }
}

/// The steps of a loop of `total` steps that are reported, in order.
pub fn scan_ticks(total: u64) -> (ticks: Vec<u64>)
    ensures
        ticks@ == ticks_among(total as nat, total),
{
    let mut ticks: Vec<u64> = Vec::new();
    let mut done: u64 = 0;
    while done < total
        invariant
            done <= total,
            ticks@ == ticks_among(done as nat, total),
        decreases total - done,
    {
        let next: u64 = next_tick(done, total);
        proof {
            lemma_no_ticks_between(done as nat, (next - 1) as nat, total);
        }
        ticks.push(next);
        done = next;
    }
    ticks
}

/// There are fewer than 200 multiples of the stride in a loop of any length, so
/// a loop is reported at most 200 times.
pub proof fn law_ticks_are_few(total: u64)
    ensures
        0 <= total as int / stride_of(total) as int <= 199,
{
    let t = total as int;
    let s = stride_of(total) as int;
    let q = t / s;
    vstd::arithmetic::div_mod::lemma_fundamental_div_mod(t, s);
    if t >= 100 {
        assert(t < 100 * s + 100);
        assert(q <= 199) by (nonlinear_arith)
            requires
                t == s * q + t % s,
                t % s >= 0,
                t < 100 * s + 100,
                s >= 1,
        ;
    }
    assert(q >= 0) by (nonlinear_arith)
        requires
            t == s * q + t % s,
            t % s < s,
            t >= 0,
            s >= 1,
    ;
}

/// Ticks other than the last are a stride apart: about a hundredth of the loop.
pub proof fn law_ticks_are_spread(a: int, b: int, total: u64)
    requires
        0 < a < b < total,
        is_tick(a, total),
        is_tick(b, total),
    ensures
        b - a >= stride_of(total),
        100 * (b - a) + 100 > total,
{
    let s = stride_of(total) as int;
    let qa = a / s;
    let qb = b / s;
    vstd::arithmetic::div_mod::lemma_fundamental_div_mod(a, s);
    vstd::arithmetic::div_mod::lemma_fundamental_div_mod(b, s);
    assert(b - a >= s) by (nonlinear_arith)
        requires
            a == s * qa,
            b == s * qb,
            a < b,
            s > 0,
    ;
}

/// How far apart reports are: one step in loops of fewer than 200 steps, and in
/// others the whole part of a hundredth.
pub proof fn law_stride(total: u64)
    ensures
        total < 200 ==> stride_of(total) == 1,
        total >= 100 ==> 100 * stride_of(total) <= total < 100 * stride_of(total) + 100,
{
}

/// What is reported: the last step, and every multiple of the stride.
pub proof fn law_tick(done: int, q: int, total: u64)
    ensures
        is_tick(total as int, total),
        is_tick(q * stride_of(total), total),
        is_tick(done, total) ==> done == total || exists|k: int|
            done == #[trigger] (k * stride_of(total)),
{
    let s = stride_of(total) as int;
    vstd::arithmetic::div_mod::lemma_mod_multiples_basic(q, s);
    if is_tick(done, total) && done != total {
        vstd::arithmetic::div_mod::lemma_fundamental_div_mod(done, s);
        let k = done / s;
        assert(done == k * s) by (nonlinear_arith)
            requires
                done == s * k,
        ;
    }
}

/// The reports of a loop: every step that is due, and no other, each once and in
/// order.
pub proof fn law_reported_steps(total: u64, j: int, k: int, d: u64)
    ensures
        ({
            let ticks = ticks_among(total as nat, total);
            &&& 0 <= j < ticks.len() ==> 0 < ticks[j] <= total && is_tick(ticks[j] as int, total)
            &&& 0 <= j < k < ticks.len() ==> ticks[j] < ticks[k]
            &&& 0 < d <= total && is_tick(d as int, total) ==> exists|m: int|
                0 <= m < ticks.len() && #[trigger] ticks[m] == d
        }),
{
    let ticks = ticks_among(total as nat, total);
    lemma_ticks(total as nat, total);
    if 0 < d <= total && is_tick(d as int, total) {
        assert(ticks.contains(d));
        let m = choose|m: int| 0 <= m < ticks.len() && ticks[m] == d;
        assert(ticks[m] == d);
    }
}

/// What the events of a scan say: all name the file; the start and the progress
/// give the number of its slices, and the progress a number of slices done that is
/// due to be reported. No other event is one of a scan.
pub proof fn law_scan_events(event: ProgressEvent<'_>, path: Seq<u8>, total: u64)
    requires
        is_scan_event(event, path, total),
    ensures
        match event {
            ProgressEvent::ScanStarted { path: p, total_slices } => borrowed_path_bytes(p) == path
                && total_slices == total,
            ProgressEvent::ScanProgress { path: p, slices_done, total_slices } => {
                &&& borrowed_path_bytes(p) == path
                &&& total_slices == total
                &&& 0 < slices_done <= total
                &&& slices_done == total || slices_done as int % (stride_of(total) as int) == 0
            },
            ProgressEvent::ScanCompleted { path: p } => borrowed_path_bytes(p) == path,
            _ => false,
        },
{
}

} // verus!
