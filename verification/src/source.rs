//! Scanning input files: checksums of slices, digests of the file, and the file
//! id.
//!
//! A file is cut into slices of `slice_size` bytes; the last one is padded with
//! zeros before it is checksummed.

use crate::bytes::{law_le64, le64, put_bytes, put_le64, put_zeros};
use crate::crc::{crc32, crc32_of};
use crate::error::{Par2Error, Result};
use crate::format::{md5_of, Md5Hash};
use crate::md5_impl::{digest, lemma_md5_digest, md5_digest, Md5Ctx};
use crate::md5_mb_neon::rfc1321_digest;
use crate::os_path::{borrowed_path_bytes, path_bytes};
use crate::progress::{
    event_wf, is_scan_event, is_tick, lemma_last_tick, lemma_ticks, reports, scan_ticks,
    ProgressEvent, ProgressReporter,
};
use rayon::iter::ParallelIterator;
use rayon::slice::ParallelSlice;
use std::path::{Path, PathBuf};
use vstd::prelude::*;
use vstd::slice::slice_subrange;

verus! {

/// How much of the start of a file `hash16k` covers.
pub const HASH16K_LEN: usize = 16384;

/// The checksums of one slice.
#[derive(Debug, Clone, Copy)]
pub struct SliceChecksum {
    pub md5: Md5Hash,
    pub crc32: u32,
}

/// What the packets say of one input file.
#[derive(Debug, Clone)]
pub struct SourceFile {
    /// Name as it stands in the packet.
    pub name: Vec<u8>,
    /// Where the file is read from.
    pub path: PathBuf,
    pub length: u64,
    pub hash_full: Md5Hash,
    pub hash16k: Md5Hash,
    pub file_id: Md5Hash,
    pub slice_checksums: Vec<SliceChecksum>,
}

// ---------------------------------------------------------------------------
// Model
// ---------------------------------------------------------------------------

/// `a / b`, rounded up.
pub open spec fn ceil_div(a: int, b: int) -> int {
    (a + b - 1) / b
}

/// Number of slices of a file of `len` bytes.
pub open spec fn slice_count(len: nat, slice_size: nat) -> nat {
    ceil_div(len as int, slice_size as int) as nat
}

/// `data`, followed by zeros up to `len` bytes.
pub open spec fn zero_padded(data: Seq<u8>, len: nat) -> Seq<u8> {
    Seq::new(
        len,
        |j: int|
            if j < data.len() {
                data[j]
            } else {
                0u8
            },
    )
}

/// Slice `i` of a file, padded with zeros past the end of the file.
pub open spec fn padded_slice(data: Seq<u8>, i: int, slice_size: nat) -> Seq<u8> {
    Seq::new(
        slice_size,
        |j: int|
            if i * slice_size + j < data.len() {
                data[i * slice_size + j]
            } else {
                0u8
            },
    )
}

/// The checksums of a slice.
pub open spec fn checksum_of(slice: Seq<u8>) -> SliceChecksum {
    SliceChecksum { md5: md5_digest(slice), crc32: crc32(slice) }
}

/// The checksums of the first `n` slices of a file.
pub open spec fn slice_sums(data: Seq<u8>, slice_size: nat, n: nat) -> Seq<SliceChecksum> {
    Seq::new(n, |i: int| checksum_of(padded_slice(data, i, slice_size)))
}

/// The checksums of all slices of a file.
pub open spec fn file_sums(data: Seq<u8>, slice_size: nat) -> Seq<SliceChecksum> {
    slice_sums(data, slice_size, slice_count(data.len(), slice_size))
}

/// The first 16 KiB of a file.
pub open spec fn first_16k(data: Seq<u8>) -> Seq<u8> {
    if data.len() <= 16384 {
        data
    } else {
        data.take(16384)
    }
}

/// The id of a file.
pub open spec fn file_id_of(hash16k: Seq<u8>, length: u64, name: Seq<u8>) -> [u8; 16] {
    md5_digest(hash16k + le64(length) + name)
}

/// `file` describes the content `data` under `name`.
pub open spec fn describes(file: SourceFile, name: Seq<u8>, data: Seq<u8>, slice_size: nat) -> bool {
    &&& file.name@ == name
    &&& file.length == data.len()
    &&& file.hash_full == md5_digest(data)
    &&& file.hash16k == md5_digest(first_16k(data))
    &&& file.file_id == file_id_of(file.hash16k@, file.length, name)
    &&& file.slice_checksums@ == file_sums(data, slice_size)
}

/// A name that a packet can hold: not empty, no NUL byte.
pub open spec fn valid_name(name: Seq<u8>) -> bool {
    name.len() > 0 && !name.contains(0)
}

/// A slice size that a recovery set can have.
pub open spec fn valid_slice_size(slice_size: u64) -> bool {
    slice_size > 0 && slice_size % 4 == 0
}

/// Cutting at a whole number of slices does not change the slices before the cut.
proof fn lemma_slices_of_prefix(data: Seq<u8>, more: Seq<u8>, size: nat, n: nat)
    requires
        size > 0,
        data.len() == n * size,
    ensures
        slice_sums(data, size, n) == slice_sums(data + more, size, n),
{
    let all = data + more;
    assert forall|i: int| 0 <= i < n implies #[trigger] slice_sums(data, size, n)[i] == slice_sums(
        all,
        size,
        n,
    )[i] by {
        assert forall|j: int| 0 <= j < size implies padded_slice(data, i, size)[j] == padded_slice(
            all,
            i,
            size,
        )[j] by {
            assert(i * size + j < n * size) by (nonlinear_arith)
                requires
                    0 <= i < n,
                    0 <= j < size,
            ;
        }
        assert(padded_slice(data, i, size) =~= padded_slice(all, i, size));
    }
    assert(slice_sums(data, size, n) =~= slice_sums(all, size, n));
}

/// The number of slices, from the position of the last one.
pub proof fn lemma_slice_count(len: nat, size: nat, n: nat)
    requires
        size > 0,
        n > 0,
        (n - 1) * size < len <= n * size,
    ensures
        slice_count(len, size) == n,
{
    let r = len - (n - 1) * size - 1;
    assert(len + size - 1 == n * size + r) by (nonlinear_arith)
        requires
            r == len - (n - 1) * size - 1,
    ;
    assert(0 <= r < size) by (nonlinear_arith)
        requires
            r == len - (n - 1) * size - 1,
            (n - 1) * size < len <= n * size,
    ;
    vstd::arithmetic::div_mod::lemma_fundamental_div_mod_converse(
        len + size - 1,
        size as int,
        n as int,
        r,
    );
}

// ---------------------------------------------------------------------------
// Checksums
// ---------------------------------------------------------------------------

/// The checksums of a slice, padded with zeros to `slice_size` bytes.
pub fn slice_checksum(slice: &[u8], slice_size: usize) -> (sum: SliceChecksum)
    requires
        slice@.len() <= slice_size,
    ensures
        sum == checksum_of(zero_padded(slice@, slice_size as nat)),
        sum.md5@ == rfc1321_digest(zero_padded(slice@, slice_size as nat)),
        sum.crc32 == crc32(zero_padded(slice@, slice_size as nat)),
{
    proof {
        lemma_md5_digest(zero_padded(slice@, slice_size as nat));
    }
    if slice.len() == slice_size {
        assert(zero_padded(slice@, slice_size as nat) =~= slice@);
        SliceChecksum { md5: digest(slice), crc32: crc32_of(slice) }
    } else {
        let mut buf: Vec<u8> = Vec::new();
        put_bytes(&mut buf, slice);
        put_zeros(&mut buf, slice_size - slice.len());
        assert(buf@ =~= zero_padded(slice@, slice_size as nat));
        SliceChecksum { md5: digest(&buf), crc32: crc32_of(&buf) }
    }
}

/// Chunk `i` of `data` when it is cut into chunks of `size` bytes.
pub open spec fn chunk(data: Seq<u8>, size: nat, i: int) -> Seq<u8> {
    data.subrange(
        i * size,
        if (i + 1) * size <= data.len() {
            (i + 1) * size
        } else {
            data.len() as int
        },
    )
}

/// rayon's `par_chunks`, `map` and `collect`: one result for each chunk of
/// `size` bytes, the last chunk being what is left, in the order of the chunks.
#[verifier::external_body]
fn par_chunks_map<F: Fn(&[u8]) -> SliceChecksum + Sync + Send>(data: &[u8], size: usize, f: F) -> (r:
    Vec<SliceChecksum>)
    requires
        size > 0,
        forall|c: &[u8]| 0 < c@.len() <= size ==> #[trigger] call_requires(f, (c,)),
    ensures
        r@.len() == slice_count(data@.len(), size as nat),
        forall|i: int|
            0 <= i < r@.len() ==> exists|c: &[u8]|
                c@ == chunk(data@, size as nat, i) && #[trigger] call_ensures(
                    f,
                    (c,),
                    #[trigger] r@[i],
                ),
{
    data.par_chunks(size).map(f).collect()
}

/// A chunk, padded, is the slice of the same number.
proof fn lemma_chunk_is_slice(data: Seq<u8>, size: nat, i: int)
    requires
        size > 0,
        0 <= i < slice_count(data.len(), size),
    ensures
        i * size < data.len(),
        (i + 1) * size == i * size + size,
        zero_padded(chunk(data, size, i), size) == padded_slice(data, i, size),
{
    let n = slice_count(data.len(), size);
    vstd::arithmetic::div_mod::lemma_fundamental_div_mod(
        (data.len() + size - 1) as int,
        size as int,
    );
    assert(i * size < data.len()) by (nonlinear_arith)
        requires
            0 <= i < n,
            size > 0,
            data.len() + size - 1 == size * n + (data.len() + size - 1) as int % size as int,
            (data.len() + size - 1) as int % (size as int) >= 0,
    ;
    assert((i + 1) * size == i * size + size) by (nonlinear_arith);
    assert(i * size >= 0) by (nonlinear_arith)
        requires
            0 <= i,
    ;
    assert(zero_padded(chunk(data, size, i), size) =~= padded_slice(data, i, size));
}

/// The checksums of all slices of `bytes`, computed in parallel.
fn checksum_slices(bytes: &[u8], slice_size: usize) -> (sums: Vec<SliceChecksum>)
    requires
        slice_size > 0,
    ensures
        sums@ == file_sums(bytes@, slice_size as nat),
{
    let f = |c: &[u8]| -> (sum: SliceChecksum)
        requires
            c@.len() <= slice_size,
        ensures
            sum == checksum_of(zero_padded(c@, slice_size as nat)),
        { slice_checksum(c, slice_size) };
    let sums: Vec<SliceChecksum> = par_chunks_map(bytes, slice_size, f);
    proof {
        let size = slice_size as nat;
        assert forall|i: int| 0 <= i < sums@.len() implies #[trigger] sums@[i] == file_sums(
            bytes@,
            size,
        )[i] by {
            lemma_chunk_is_slice(bytes@, size, i);
        }
        assert(sums@ =~= file_sums(bytes@, size));
    }
    sums
}

/// Slices `from..to` of a file are the slices of its bytes from the first of
/// them on.
proof fn lemma_slices_of_part(data: Seq<u8>, size: nat, from: nat, to: nat, end: nat)
    requires
        size > 0,
        from < to <= slice_count(data.len(), size),
        end == if to == slice_count(data.len(), size) {
            data.len()
        } else {
            to * size
        },
    ensures
        from * size <= end <= data.len(),
        slice_sums(data, size, from) + file_sums(data.subrange((from * size) as int, end as int), size)
            == slice_sums(data, size, to),
{
    let n = slice_count(data.len(), size);
    let part = data.subrange((from * size) as int, end as int);
    lemma_chunk_is_slice(data, size, to - 1);
    assert(from * size + size <= to * size) by (nonlinear_arith)
        requires
            from + 1 <= to,
    ;
    assert(to * size == (to - 1) * size + size) by (nonlinear_arith);
    if to < n {
        lemma_chunk_is_slice(data, size, to as int);
    }
    assert(data.len() <= n * size) by (nonlinear_arith)
        requires
            n == (data.len() + size - 1) as int / size as int,
            size > 0,
    ;
    assert(from * size <= (to - 1) * size) by (nonlinear_arith)
        requires
            from <= to - 1,
    ;
    assert(((to - from) - 1) * size < part.len() <= (to - from) * size) by (nonlinear_arith)
        requires
            part.len() == end - from * size,
            (to - 1) * size < end,
            end <= to * size,
    ;
    lemma_slice_count(part.len(), size, (to - from) as nat);
    assert forall|i: int| 0 <= i < to - from implies #[trigger] padded_slice(part, i, size)
        == padded_slice(data, from + i, size) by {
        assert((from + i) * size == from * size + i * size) by (nonlinear_arith);
        assert(i * size >= 0) by (nonlinear_arith)
            requires
                i >= 0,
        ;
        assert(i * size + size <= (to - from) * size) by (nonlinear_arith)
            requires
                i + 1 <= to - from,
        ;
        assert((to - from) * size == to * size - from * size) by (nonlinear_arith);
        assert(padded_slice(part, i, size) =~= padded_slice(data, from + i, size));
    }
    let left = slice_sums(data, size, from) + file_sums(part, size);
    assert forall|i: int| 0 <= i < to implies #[trigger] left[i] == slice_sums(data, size, to)[i] by {
        if i >= from {
            assert(padded_slice(part, i - from, size) == padded_slice(
                data,
                from + (i - from),
                size,
            ));
        }
    }
    assert(left =~= slice_sums(data, size, to));
}

/// `report` takes every event in the scan of the file at `path`, which has
/// `total` slices.
pub open spec fn takes_scan_events<'a, F: Fn(ProgressEvent<'a>)>(
    report: F,
    path: Seq<u8>,
    total: u64,
) -> bool {
    forall|event: ProgressEvent<'a>| #[trigger]
        is_scan_event(event, path, total) ==> call_requires(report, (event,))
}

/// The checksums of all slices of `bytes`, with a report at every tick.
fn checksum_slices_reporting<'a, F: Fn(ProgressEvent<'a>)>(
    bytes: &[u8],
    slice_size: usize,
    path: &'a Path,
    report: &F,
) -> (sums: Vec<SliceChecksum>)
    requires
        slice_size > 0,
        takes_scan_events(
            *report,
            borrowed_path_bytes(path),
            slice_count(bytes@.len(), slice_size as nat) as u64,
        ),
    ensures
        sums@ == file_sums(bytes@, slice_size as nat),
{
    let total: usize = count_slices(bytes.len(), slice_size);
    let ticks: Vec<u64> = scan_ticks(total as u64);
    let mut sums: Vec<SliceChecksum> = Vec::new();
    let mut done: usize = 0;
    let mut k: usize = 0;
    assert(sums@ =~= slice_sums(bytes@, slice_size as nat, 0));
    proof {
        lemma_ticks(total as nat, total as u64);
        if total > 0 {
            lemma_last_tick(total as u64);
        }
    }
    while k < ticks.len()
        invariant
            slice_size > 0,
            k <= ticks@.len(),
            done == if k == 0 {
                0
            } else {
                ticks@[k - 1]
            },
            forall|j: int|
                0 <= j < ticks@.len() ==> 0 < #[trigger] ticks@[j] <= total && is_tick(
                    ticks@[j] as int,
                    total as u64,
                ),
            takes_scan_events(*report, borrowed_path_bytes(path), total as u64),
            forall|i: int, j: int|
                0 <= i < j < ticks@.len() ==> #[trigger] ticks@[i] < #[trigger] ticks@[j],
            total == slice_count(bytes@.len(), slice_size as nat),
            sums@ == slice_sums(bytes@, slice_size as nat, done as nat),
        decreases ticks@.len() - k,
    {
        let next: usize = ticks[k] as usize;
        proof {
            let size = slice_size as nat;
            let end = if next == total {
                bytes@.len()
            } else {
                (next * size) as nat
            };
            if k > 0 {
                assert(ticks@[k - 1] < ticks@[k as int]);
            }
            lemma_slices_of_part(bytes@, size, done as nat, next as nat, end);
            assert(bytes@.len() == bytes.len());
        }
        let start: usize = done * slice_size;
        let end: usize = if next == total { bytes.len() } else { next * slice_size };
        let mut batch: Vec<SliceChecksum> = checksum_slices(
            slice_subrange(bytes, start, end),
            slice_size,
        );
        sums.append(&mut batch);
        done = next;
        k = k + 1;
        let event = ProgressEvent::ScanProgress {
            path,
            slices_done: done as u64,
            total_slices: total as u64,
        };
        assert(is_scan_event(event, borrowed_path_bytes(path), total as u64));
        report(event);
    }
    assert(done == total);
    sums
}

/// `a / b`, rounded up.
fn count_slices(len: usize, slice_size: usize) -> (n: usize)
    requires
        slice_size > 0,
    ensures
        n == slice_count(len as nat, slice_size as nat),
        n <= len,
{
    proof {
        lemma_ceil_div(len as int, slice_size as int);
    }
    if len % slice_size == 0 {
        len / slice_size
    } else {
        len / slice_size + 1
    }
}

/// Rounding up is rounding down, plus one where something is left.
pub proof fn lemma_ceil_div(a: int, b: int)
    requires
        a >= 0,
        b > 0,
    ensures
        ceil_div(a, b) == a / b + (if a % b == 0 { 0int } else { 1 }),
        0 <= ceil_div(a, b) <= a,
        a <= ceil_div(a, b) * b,
        ceil_div(a, b) * b < a + b,
{
    let q = a / b;
    let r = a % b;
    vstd::arithmetic::div_mod::lemma_fundamental_div_mod(a, b);
    assert(b * q == q * b) by (nonlinear_arith);
    assert((q + 1) * b == q * b + b) by (nonlinear_arith);
    if r == 0 {
        vstd::arithmetic::div_mod::lemma_fundamental_div_mod_converse(a + b - 1, b, q, b - 1);
    } else {
        vstd::arithmetic::div_mod::lemma_fundamental_div_mod_converse(a + b - 1, b, q + 1, r - 1);
    }
    assert(0 <= q <= a - r) by (nonlinear_arith)
        requires
            a == b * q + r,
            0 <= r < b,
            a >= 0,
            b > 0,
    ;
}

/// `rayon::join` runs both closures and returns what they return.
pub assume_specification<A, B, RA, RB>[ rayon::join::<A, B, RA, RB> ](oper_a: A, oper_b: B) -> (r: (
    RA,
    RB,
))
    where A: FnOnce() -> RA + Send, B: FnOnce() -> RB + Send, RA: Send, RB: Send
    requires
        call_requires(oper_a, ()),
        call_requires(oper_b, ()),
    ensures
        call_ensures(oper_a, (), r.0),
        call_ensures(oper_b, (), r.1),
;

/// Scan the whole content of a file: the checksums of its slices, its MD5, and
/// the MD5 of its first 16 KiB. The slices are checksummed in parallel with each
/// other and with the digests of the file. Whatever is reported on the way is an
/// event in the scan of that file.
pub fn scan_via_mmap<'a, F: Fn(ProgressEvent<'a>) + Sync>(
    bytes: &[u8],
    slice_size: usize,
    path: &'a Path,
    report: Option<&F>,
) -> (r: (Vec<SliceChecksum>, Md5Hash, Md5Hash))
    requires
        slice_size > 0,
        report is Some ==> takes_scan_events(
            *report->0,
            borrowed_path_bytes(path),
            slice_count(bytes@.len(), slice_size as nat) as u64,
        ),
    ensures
        r.0@ == file_sums(bytes@, slice_size as nat),
        r.1 == md5_digest(bytes@),
        r.2 == md5_digest(first_16k(bytes@)),
        r.1@ == rfc1321_digest(bytes@),
        r.2@ == rfc1321_digest(first_16k(bytes@)),
        forall|i: int|
            0 <= i < r.0@.len() ==> (#[trigger] r.0@[i]).md5@ == rfc1321_digest(
                padded_slice(bytes@, i, slice_size as nat),
            ),
{
    proof {
        lemma_md5_digest(bytes@);
        lemma_md5_digest(first_16k(bytes@));
        lemma_sums_are_digests(bytes@, slice_size as nat);
    }
    let per_slice = || -> (sums: Vec<SliceChecksum>)
        ensures
            sums@ == file_sums(bytes@, slice_size as nat),
        {
            match report {
                Some(f) => checksum_slices_reporting(bytes, slice_size, path, f),
                None => checksum_slices(bytes, slice_size),
            }
        };
    let file_hashes = || -> (h: (Md5Hash, Md5Hash))
        ensures
            h.0 == md5_digest(bytes@),
            h.1 == md5_digest(first_16k(bytes@)),
        {
            let hash_full: Md5Hash = digest(bytes);
            let end: usize = if bytes.len() < HASH16K_LEN { bytes.len() } else { HASH16K_LEN };
            let head: &[u8] = slice_subrange(bytes, 0, end);
            assert(head@ =~= first_16k(bytes@));
            (hash_full, digest(head))
        };
    let (slice_checksums, hashes): (Vec<SliceChecksum>, (Md5Hash, Md5Hash)) = rayon::join(
        per_slice,
        file_hashes,
    );
    (slice_checksums, hashes.0, hashes.1)
}

/// `MD5(hash16k, length, name)`, the length as eight little-endian bytes.
pub fn compute_file_id(hash16k: &Md5Hash, length: u64, name: &[u8]) -> (id: Md5Hash)
    ensures
        id == file_id_of(hash16k@, length, name@),
        id@ == rfc1321_digest(hash16k@ + le64(length) + name@),
{
    let mut buf: Vec<u8> = Vec::new();
    put_bytes(&mut buf, hash16k);
    put_le64(&mut buf, length);
    put_bytes(&mut buf, name);
    assert(buf@ =~= hash16k@ + le64(length) + name@);
    md5_of(&buf)
}

// ---------------------------------------------------------------------------
// Files
// ---------------------------------------------------------------------------

/// What a scan of the content `data` comes to.
pub open spec fn is_scan_result(
    r: Result<SourceFile>,
    path: PathBuf,
    name: Seq<u8>,
    slice_size: u64,
    data: Seq<u8>,
) -> bool {
    if !valid_name(name) {
        r == Err::<SourceFile, Par2Error>(Par2Error::InvalidFileName(path))
    } else if !valid_slice_size(slice_size) {
        r == Err::<SourceFile, Par2Error>(Par2Error::InvalidSliceSize(slice_size))
    } else if data.len() == 0 {
        r == Err::<SourceFile, Par2Error>(Par2Error::EmptyFile(path))
    } else if slice_size > usize::MAX {
        r == Err::<SourceFile, Par2Error>(Par2Error::InvalidSliceSize(slice_size))
    } else {
        r is Ok && r->Ok_0.path == path && describes(r->Ok_0, name, data, slice_size as nat)
    }
}

/// Whether a byte string contains a NUL byte.
fn has_nul(name: &[u8]) -> (r: bool)
    ensures
        r == name@.contains(0),
{
    let mut i: usize = 0;
    while i < name.len()
        invariant
            i <= name@.len(),
            forall|j: int| 0 <= j < i ==> name@[j] != 0,
        decreases name@.len() - i,
    {
        if name[i] == 0 {
            return true;
        }
        i = i + 1;
    }
    false
}

/// What can be refused of a scan before the file is looked at: the name, then
/// the slice size.
pub fn check_scan_request(path: &PathBuf, display_name: &[u8], slice_size: u64) -> (r: Result<()>)
    ensures
        r == if !valid_name(display_name@) {
            Err::<(), Par2Error>(Par2Error::InvalidFileName(*path))
        } else if !valid_slice_size(slice_size) {
            Err(Par2Error::InvalidSliceSize(slice_size))
        } else {
            Ok(())
        },
{
    if display_name.len() == 0 || has_nul(display_name) {
        return Err(Par2Error::InvalidFileName(path.clone()));
    }
    if slice_size == 0 || slice_size % 4 != 0 {
        return Err(Par2Error::InvalidSliceSize(slice_size));
    }
    Ok(())
}

/// What a scan of a file that is not empty comes to, with reports of the start,
/// every tick and the end. Whatever is reported is an event in the scan of that
/// file; that it is reported, and in what order, is not part of the contract.
pub fn scan_parts<'a, F: Fn(ProgressEvent<'a>) + Sync>(
    path: &'a PathBuf,
    slice_size: usize,
    content: &[u8],
    report: Option<&F>,
) -> (r: (Vec<SliceChecksum>, Md5Hash, Md5Hash))
    requires
        slice_size > 0,
        content@.len() > 0,
        report is Some ==> takes_scan_events(
            *report->0,
            path_bytes(*path),
            slice_count(content@.len(), slice_size as nat) as u64,
        ),
    ensures
        r.0@ == file_sums(content@, slice_size as nat),
        r.1 == md5_digest(content@),
        r.2 == md5_digest(first_16k(content@)),
        r.1@ == rfc1321_digest(content@),
        r.2@ == rfc1321_digest(first_16k(content@)),
        forall|i: int|
            0 <= i < r.0@.len() ==> (#[trigger] r.0@[i]).md5@ == rfc1321_digest(
                padded_slice(content@, i, slice_size as nat),
            ),
{
    let borrowed: &'a Path = path.as_path();
    if let Some(f) = report {
        let total: u64 = count_slices(content.len(), slice_size) as u64;
        let event = ProgressEvent::ScanStarted { path: borrowed, total_slices: total };
        assert(is_scan_event(event, path_bytes(*path), total));
        f(event);
    }
    let parts: (Vec<SliceChecksum>, Md5Hash, Md5Hash) = scan_via_mmap(
        content,
        slice_size,
        borrowed,
        report,
    );
    if let Some(f) = report {
        let event = ProgressEvent::ScanCompleted { path: borrowed };
        assert(is_scan_event(
            event,
            path_bytes(*path),
            slice_count(content@.len(), slice_size as nat) as u64,
        ));
        f(event);
    }
    parts
}

impl SourceFile {
    /// Describe a file with the given content. `display_name` is the name that
    /// the packets will hold.
    pub fn scan(path: PathBuf, display_name: Vec<u8>, slice_size: u64, content: &[u8]) -> (r: Result<
        Self,
    >)
        ensures
            is_scan_result(r, path, display_name@, slice_size, content@),
            r is Ok ==> {
                let file = r->Ok_0;
                &&& file.name@ == display_name@
                &&& file.length == content@.len()
                &&& file.hash_full@ == rfc1321_digest(content@)
                &&& file.hash16k@ == rfc1321_digest(
                    content@.take(
                        if content@.len() < 16384 {
                            content@.len() as int
                        } else {
                            16384
                        },
                    ),
                )
                &&& file.file_id@ == rfc1321_digest(
                    file.hash16k@ + le64(file.length) + display_name@,
                )
                &&& (file.slice_checksums@.len() - 1) * slice_size < content@.len()
                &&& content@.len() <= file.slice_checksums@.len() * slice_size
                &&& forall|i: int|
                    0 <= i < file.slice_checksums@.len() ==> {
                        let slice = padded_slice(content@, i, slice_size as nat);
                        &&& (#[trigger] file.slice_checksums@[i]).md5@ == rfc1321_digest(slice)
                        &&& file.slice_checksums@[i].crc32 == crc32(slice)
                    }
            },
    {
        Self::scan_with_progress(path, display_name, slice_size, content, None)
    }

    /// Like [`SourceFile::scan`], and report on the way: the start with the
    /// number of slices, every tick, and the end.
    pub fn scan_with_progress(
        path: PathBuf,
        display_name: Vec<u8>,
        slice_size: u64,
        content: &[u8],
        reporter: Option<&dyn ProgressReporter>,
    ) -> (r: Result<Self>)
        ensures
            is_scan_result(r, path, display_name@, slice_size, content@),
            r is Ok ==> {
                let file = r->Ok_0;
                &&& file.name@ == display_name@
                &&& file.length == content@.len()
                &&& file.hash_full@ == rfc1321_digest(content@)
                &&& file.hash16k@ == rfc1321_digest(
                    content@.take(
                        if content@.len() < 16384 {
                            content@.len() as int
                        } else {
                            16384
                        },
                    ),
                )
                &&& file.file_id@ == rfc1321_digest(
                    file.hash16k@ + le64(file.length) + display_name@,
                )
                &&& (file.slice_checksums@.len() - 1) * slice_size < content@.len()
                &&& content@.len() <= file.slice_checksums@.len() * slice_size
                &&& forall|i: int|
                    0 <= i < file.slice_checksums@.len() ==> {
                        let slice = padded_slice(content@, i, slice_size as nat);
                        &&& (#[trigger] file.slice_checksums@[i]).md5@ == rfc1321_digest(slice)
                        &&& file.slice_checksums@[i].crc32 == crc32(slice)
                    }
            },
    {
        match check_scan_request(&path, &display_name, slice_size) {
            Err(e) => {
                return Err(e);
            },
            Ok(_) => {},
        }
        if content.len() == 0 {
            return Err(Par2Error::EmptyFile(path));
        }
        if slice_size > usize::MAX as u64 {
            return Err(Par2Error::InvalidSliceSize(slice_size));
        }
        let parts: (Vec<SliceChecksum>, Md5Hash, Md5Hash) = {
            let forward = |event: ProgressEvent<'_>|
                requires
                    event_wf(event),
                {
                    if let Some(r) = reporter {
                        r.on_event(event);
                    }
                };
            let report = if reporter.is_some() {
                Some(&forward)
            } else {
                None
            };
            proof {
                let count = slice_count(content@.len(), slice_size as nat);
                lemma_ceil_div(content@.len() as int, slice_size as int);
                assert(count > 0) by (nonlinear_arith)
                    requires
                        0 < content@.len() <= count * slice_size,
                ;
                assert(content@.len() == content.len());
            }
            scan_parts(&path, slice_size as usize, content, report)
        };
        let file: Self = Self::from_parts(path, display_name, content.len() as u64, parts);
        proof {
            law_description(file, file.name@, content@, slice_size as nat);
        }
        Ok(file)
    }

    /// Put the results of a scan together; the file id follows from them.
    pub fn from_parts(
        path: PathBuf,
        name: Vec<u8>,
        length: u64,
        parts: (Vec<SliceChecksum>, Md5Hash, Md5Hash),
    ) -> (file: Self)
        ensures
            file.path == path,
            file.name == name,
            file.length == length,
            file.slice_checksums == parts.0,
            file.hash_full == parts.1,
            file.hash16k == parts.2,
            file.file_id == file_id_of(parts.2@, length, name@),
    {
        let file_id: Md5Hash = compute_file_id(&parts.2, length, &name);
        SourceFile {
            name,
            path,
            length,
            hash_full: parts.1,
            hash16k: parts.2,
            file_id,
            slice_checksums: parts.0,
        }
    }
}

/// A scan that is handed the file in pieces of one slice each, for files that
/// cannot be had in one piece. Its view is the content so far.
pub struct StreamScan {
    slice_size: usize,
    total_slices: u64,
    sums: Vec<SliceChecksum>,
    full: Md5Ctx,
    head: Md5Ctx,
    in_head: usize,
    ended: bool,
    content: Ghost<Seq<u8>>,
}

impl View for StreamScan {
    type V = Seq<u8>;

    closed spec fn view(&self) -> Seq<u8> {
        self.content@
    }
}

impl StreamScan {
    /// Size of a slice.
    pub closed spec fn size(&self) -> nat {
        self.slice_size as nat
    }

    /// Number of slices expected.
    pub closed spec fn total(&self) -> u64 {
        self.total_slices
    }

    /// Number of pieces taken.
    pub closed spec fn pieces(&self) -> nat {
        self.sums@.len()
    }

    /// A piece shorter than a slice was taken: it was the last.
    pub closed spec fn at_end(&self) -> bool {
        self.ended
    }

    /// The digests and checksums are those of the content so far.
    pub closed spec fn wf(&self) -> bool {
        let n = self.sums@.len();
        let size = self.slice_size as nat;
        &&& self.slice_size > 0
        &&& self.full.wf()
        &&& self.head.wf()
        &&& self.full@ == self.content@
        &&& self.head@ == first_16k(self.content@)
        &&& self.in_head == self.head@.len()
        &&& self.sums@ == slice_sums(self.content@, size, n)
        &&& !self.ended ==> self.content@.len() == n * size
        &&& self.ended ==> n > 0 && (n - 1) * size < self.content@.len() < n * size
    }

    /// Start a scan of a file that is expected to have `total_slices` slices.
    pub fn new(slice_size: usize, total_slices: u64) -> (scan: Self)
        requires
            slice_size > 0,
        ensures
            scan.wf(),
            scan@ == Seq::<u8>::empty(),
            scan.size() == slice_size,
            scan.total() == total_slices,
            scan.pieces() == 0,
            !scan.at_end(),
    {
        let scan = StreamScan {
            slice_size,
            total_slices,
            sums: Vec::new(),
            full: Md5Ctx::new(),
            head: Md5Ctx::new(),
            in_head: 0,
            ended: false,
            content: Ghost(Seq::empty()),
        };
        assert(scan.sums@ =~= slice_sums(scan.content@, slice_size as nat, 0));
        scan
    }

    /// Take the next piece: a whole slice, or the shorter rest of the file.
    /// Returns the number of slices done if that is to be reported.
    pub fn absorb(&mut self, piece: &[u8]) -> (tick: Option<u64>)
        requires
            old(self).wf(),
            !old(self).at_end(),
            0 < piece@.len() <= old(self).size(),
            old(self).pieces() < u64::MAX,
        ensures
            final(self).wf(),
            final(self)@ == old(self)@ + piece@,
            final(self).size() == old(self).size(),
            final(self).total() == old(self).total(),
            final(self).pieces() == old(self).pieces() + 1,
            final(self).at_end() == (piece@.len() < old(self).size()),
            tick == if piece@.len() < old(self).size() || is_tick(
                final(self).pieces() as int,
                old(self).total(),
            ) {
                Some(final(self).pieces() as u64)
            } else {
                None
            },
    {
        let ghost before = *self;
        let ghost size = self.slice_size as nat;
        let ghost n = self.sums@.len();
        let filled: usize = piece.len();
        self.full.update(piece);
        if self.in_head < HASH16K_LEN {
            let room: usize = HASH16K_LEN - self.in_head;
            let take: usize = if filled < room { filled } else { room };
            self.head.update(slice_subrange(piece, 0, take));
            self.in_head = self.in_head + take;
        }
        proof {
            assert(self.head@ =~= first_16k(before.content@ + piece@));
        }
        self.sums.push(slice_checksum(piece, self.slice_size));
        self.content = Ghost(self.content@ + piece@);
        let partial: bool = filled < self.slice_size;
        self.ended = partial;
        proof {
            lemma_slices_of_prefix(before.content@, piece@, size, n);
            let all = self.content@;
            assert(padded_slice(all, n as int, size) =~= zero_padded(piece@, size));
            assert((n + 1) * size == n * size + size) by (nonlinear_arith);
            assert(self.sums@ =~= slice_sums(all, size, n + 1));
        }
        let done: u64 = self.sums.len() as u64;
        if partial || reports(done, self.total_slices) {
            Some(done)
        } else {
            None
        }
    }

    /// The checksums of the slices, the MD5 of the content, and the MD5 of its
    /// first 16 KiB.
    pub fn finish(self) -> (r: (Vec<SliceChecksum>, Md5Hash, Md5Hash))
        requires
            self.wf(),
        ensures
            r.0@ == file_sums(self@, self.size()),
            r.1 == md5_digest(self@),
            r.2 == md5_digest(first_16k(self@)),
            r.1@ == rfc1321_digest(self@),
            r.2@ == rfc1321_digest(first_16k(self@)),
            forall|i: int|
                0 <= i < r.0@.len() ==> (#[trigger] r.0@[i]).md5@ == rfc1321_digest(
                    padded_slice(self@, i, self.size()),
                ),
    {
        proof {
            lemma_md5_digest(self@);
            lemma_md5_digest(first_16k(self@));
            lemma_sums_are_digests(self@, self.size());
            let n = self.sums@.len();
            let size = self.slice_size as nat;
            if n == 0 {
                assert(n * size == 0) by (nonlinear_arith)
                    requires
                        n == 0,
                ;
                lemma_ceil_div(0, size as int);
            } else {
                assert((n - 1) * size < n * size) by (nonlinear_arith)
                    requires
                        size > 0,
                ;
                lemma_slice_count(self.content@.len(), size, n);
            }
            assert(self.sums@ == file_sums(self@, self.size()));
            assert forall|i: int| 0 <= i < self.sums@.len() implies (
            #[trigger] self.sums@[i]).md5@ == rfc1321_digest(
                padded_slice(self@, i, self.size()),
            ) by {
                assert(file_sums(self@, self.size())[i].md5@ == rfc1321_digest(
                    padded_slice(self@, i, self.size()),
                ));
            }
        }
        (self.sums, self.full.finalize(), self.head.finalize())
    }
}

/// Scan the content of a file piece by piece, in one thread.
pub fn scan_in_pieces(content: &[u8], slice_size: usize) -> (r: (
    Vec<SliceChecksum>,
    Md5Hash,
    Md5Hash,
))
    requires
        slice_size > 0,
    ensures
        r.0@ == file_sums(content@, slice_size as nat),
        r.1 == md5_digest(content@),
        r.2 == md5_digest(first_16k(content@)),
{
    let len: usize = content.len();
    let mut scan: StreamScan = StreamScan::new(slice_size, count_slices(len, slice_size) as u64);
    let mut done: usize = 0;
    assert(content@.take(0) =~= Seq::empty());
    while done < len
        invariant
            slice_size > 0,
            len == content@.len(),
            done <= len,
            scan.wf(),
            scan.size() == slice_size,
            scan@ == content@.take(done as int),
            scan.pieces() <= done,
            scan.at_end() ==> done == len,
        decreases len - done,
    {
        let take: usize = if len - done < slice_size { len - done } else { slice_size };
        let piece: &[u8] = slice_subrange(content, done, done + take);
        scan.absorb(piece);
        assert(content@.take(done as int) + piece@ =~= content@.take(done + take));
        done = done + take;
    }
    assert(content@.take(len as int) =~= content@);
    scan.finish()
}

// ---------------------------------------------------------------------------
// Reading slices
// ---------------------------------------------------------------------------

/// Fill `buf` with slice `index` of a file that is at hand in one piece; what
/// lies past the end of the file is zero.
pub fn read_slice(content: &[u8], index: usize, buf: &mut [u8])
    ensures
        final(buf)@ == padded_slice(content@, index as int, old(buf)@.len()),
{
    let n: usize = buf.len();
    let start: usize = match index.checked_mul(n) {
        Some(s) => s,
        None => usize::MAX,
    };
    let have: usize = if start < content.len() { content.len() - start } else { 0 };
    let filled: usize = if have < n { have } else { n };
    let mut j: usize = 0;
    while j < filled
        invariant
            j <= filled,
            filled <= n,
            n == buf@.len(),
            filled > 0 ==> start == index * n && start + filled <= content.len(),
            forall|i: int| 0 <= i < j ==> #[trigger] buf@[i] == content@[start + i],
        decreases filled - j,
    {
        buf[j] = content[start + j];
        j = j + 1;
    }
    zero_tail(buf, filled);
    proof {
        let slice = padded_slice(content@, index as int, n as nat);
        assert forall|i: int| 0 <= i < n implies buf@[i] == slice[i] by {
            if i >= filled {
                assert(index * n + i >= content@.len());
            }
        }
        assert(buf@ =~= slice);
    }
}

/// Zero a buffer from `filled` on, after a read that filled only that much.
pub fn zero_tail(buf: &mut [u8], filled: usize)
    requires
        filled <= old(buf)@.len(),
    ensures
        final(buf)@ == zero_padded(old(buf)@.take(filled as int), old(buf)@.len()),
{
    let n: usize = buf.len();
    let mut j: usize = filled;
    while j < n
        invariant
            filled <= j <= n,
            n == buf@.len(),
            n == old(buf)@.len(),
            forall|i: int| 0 <= i < filled ==> #[trigger] buf@[i] == old(buf)@[i],
            forall|i: int| filled <= i < j ==> #[trigger] buf@[i] == 0,
        decreases n - j,
    {
        buf[j] = 0;
        j = j + 1;
    }
    assert(buf@ =~= zero_padded(old(buf)@.take(filled as int), old(buf)@.len()));
}

// ---------------------------------------------------------------------------
// Laws
// ---------------------------------------------------------------------------

/// A file is as long as its slices, up to the padding of the last one: dropping
/// the padding gives the file back.
pub proof fn law_slices_hold_the_file(data: Seq<u8>, slice_size: nat, p: int)
    requires
        slice_size > 0,
        0 <= p < data.len(),
    ensures
        0 <= p / (slice_size as int) < slice_count(data.len(), slice_size),
        padded_slice(data, p / (slice_size as int), slice_size)[p % (slice_size as int)] == data[p],
{
    let size = slice_size as int;
    let q = p / size;
    let r = p % size;
    vstd::arithmetic::div_mod::lemma_fundamental_div_mod(p, size);
    lemma_ceil_div(data.len() as int, size);
    let n = slice_count(data.len(), slice_size) as int;
    assert(q * size + r == p) by (nonlinear_arith)
        requires
            p == size * q + r,
    ;
    assert(0 <= q < n) by (nonlinear_arith)
        requires
            p == size * q + r,
            0 <= r < size,
            0 <= p < data.len(),
            data.len() <= n * size,
    ;
}

/// What follows the end of the file in its last slice is zero.
pub proof fn law_padding_is_zero(data: Seq<u8>, slice_size: nat, i: int, j: int)
    requires
        0 <= j < slice_size,
        data.len() <= i * slice_size + j,
    ensures
        padded_slice(data, i, slice_size)[j] == 0,
{
}

/// A file of at most 16 KiB has the same MD5 in both places.
pub proof fn law_small_file_digests_agree(
    file: SourceFile,
    name: Seq<u8>,
    data: Seq<u8>,
    slice_size: nat,
)
    requires
        describes(file, name, data, slice_size),
        data.len() <= 16384,
    ensures
        file.hash16k == file.hash_full,
{
}

/// A description has one checksum for each slice: the slices before the last
/// are full, and the last one is not empty.
pub proof fn law_checksum_count(file: SourceFile, name: Seq<u8>, data: Seq<u8>, slice_size: nat)
    requires
        describes(file, name, data, slice_size),
        slice_size > 0,
        data.len() > 0,
    ensures
        file.slice_checksums@.len() > 0,
        (file.slice_checksums@.len() - 1) * slice_size < data.len()
            <= file.slice_checksums@.len() * slice_size,
{
    let n = slice_count(data.len(), slice_size) as int;
    lemma_ceil_div(data.len() as int, slice_size as int);
    assert((n - 1) * slice_size == n * slice_size - slice_size) by (nonlinear_arith);
    if n == 0 {
        assert(n * slice_size == 0) by (nonlinear_arith)
            requires
                n == 0,
        ;
    }
}

/// A description does not depend on how the content was read: any two
/// descriptions of the same content under the same name agree in all that the
/// packets hold.
pub proof fn law_description_is_unique(
    a: SourceFile,
    b: SourceFile,
    name: Seq<u8>,
    data: Seq<u8>,
    slice_size: nat,
)
    requires
        describes(a, name, data, slice_size),
        describes(b, name, data, slice_size),
    ensures
        a.name@ == b.name@,
        a.length == b.length,
        a.hash_full == b.hash_full,
        a.hash16k == b.hash16k,
        a.file_id == b.file_id,
        a.slice_checksums@ == b.slice_checksums@,
{
}

proof fn lemma_sums_are_digests(data: Seq<u8>, slice_size: nat)
    ensures
        forall|i: int|
            0 <= i < file_sums(data, slice_size).len() ==> {
                let slice = padded_slice(data, i, slice_size);
                &&& (#[trigger] file_sums(data, slice_size)[i]).md5@ == rfc1321_digest(slice)
                &&& file_sums(data, slice_size)[i].crc32 == crc32(slice)
            },
{
    assert forall|i: int| 0 <= i < file_sums(data, slice_size).len() implies {
        let slice = padded_slice(data, i, slice_size);
        &&& (#[trigger] file_sums(data, slice_size)[i]).md5@ == rfc1321_digest(slice)
        &&& file_sums(data, slice_size)[i].crc32 == crc32(slice)
    } by {
        lemma_md5_digest(padded_slice(data, i, slice_size));
    }
}

/// A slice byte by byte: as long as the slice size, the bytes of the file from its
/// place on, and zeros past the end of the file. Padding alone does the same to
/// any bytes.
pub proof fn law_slice_bytes(data: Seq<u8>, i: int, slice_size: nat, j: int)
    requires
        0 <= i,
        0 <= j < slice_size,
    ensures
        padded_slice(data, i, slice_size).len() == slice_size,
        i * slice_size + j < data.len() ==> padded_slice(data, i, slice_size)[j] == data[i
            * slice_size + j],
        i * slice_size + j >= data.len() ==> padded_slice(data, i, slice_size)[j] == 0,
        zero_padded(data, slice_size).len() == slice_size,
        j < data.len() ==> zero_padded(data, slice_size)[j] == data[j],
        j >= data.len() ==> zero_padded(data, slice_size)[j] == 0,
{
}

/// The checksums of slice `i` of a file are the MD5 and the CRC-32 of all of its
/// bytes, for every file and every slice size; and there are as many slices as it
/// takes to hold the file.
pub proof fn law_slice_checksums(data: Seq<u8>, slice_size: nat, i: int, slice: Seq<u8>)
    requires
        slice_size > 0,
        0 <= i < file_sums(data, slice_size).len(),
        slice.len() == slice_size,
        forall|j: int|
            0 <= j < slice_size ==> #[trigger] slice[j] == if i * slice_size + j < data.len() {
                data[i * slice_size + j]
            } else {
                0
            },
    ensures
        file_sums(data, slice_size)[i].md5@ == rfc1321_digest(slice),
        file_sums(data, slice_size)[i].crc32 == crc32(slice),
        (file_sums(data, slice_size).len() - 1) * slice_size < data.len(),
        data.len() <= file_sums(data, slice_size).len() * slice_size,
{
    lemma_sums_are_digests(data, slice_size);
    assert(slice =~= padded_slice(data, i, slice_size));
    lemma_ceil_div(data.len() as int, slice_size as int);
    let n = file_sums(data, slice_size).len() as int;
    assert((n - 1) * slice_size == n * slice_size - slice_size) by (nonlinear_arith);
}

/// What a description says of a file, in full: its name and length, the MD5 of its
/// content, that of its first 16384 bytes, the MD5 of these with the length and the
/// name as its id, and the MD5 and CRC-32 of each padded slice.
pub proof fn law_description(file: SourceFile, name: Seq<u8>, data: Seq<u8>, slice_size: nat)
    requires
        describes(file, name, data, slice_size),
        slice_size > 0,
        data.len() > 0,
    ensures
        file.name@ == name,
        file.length == data.len(),
        file.hash_full@ == rfc1321_digest(data),
        file.hash16k@ == rfc1321_digest(
            data.take(
                if data.len() < 16384 {
                    data.len() as int
                } else {
                    16384
                },
            ),
        ),
        file.file_id@ == rfc1321_digest(file.hash16k@ + le64(file.length) + name),
        (file.slice_checksums@.len() - 1) * slice_size < data.len(),
        data.len() <= file.slice_checksums@.len() * slice_size,
        forall|i: int|
            0 <= i < file.slice_checksums@.len() ==> {
                let slice = padded_slice(data, i, slice_size);
                &&& (#[trigger] file.slice_checksums@[i]).md5@ == rfc1321_digest(slice)
                &&& file.slice_checksums@[i].crc32 == crc32(slice)
            },
{
    lemma_md5_digest(data);
    lemma_md5_digest(first_16k(data));
    lemma_md5_digest(file.hash16k@ + le64(file.length) + name);
    lemma_sums_are_digests(data, slice_size);
    assert(data.take(data.len() as int) =~= data);
    let n = file.slice_checksums@.len() as int;
    lemma_ceil_div(data.len() as int, slice_size as int);
    assert((n - 1) * slice_size == n * slice_size - slice_size) by (nonlinear_arith);
}

/// When a scan succeeds and why it fails: the name must be neither empty nor hold
/// a NUL byte, the slice size must be a positive multiple of 4, the file must not
/// be empty, and a slice must fit into memory; the first that fails counts.
pub proof fn law_scan_outcome(
    r: Result<SourceFile>,
    path: PathBuf,
    name: Seq<u8>,
    slice_size: u64,
    data: Seq<u8>,
    p: int,
)
    requires
        is_scan_result(r, path, name, slice_size, data),
    ensures
        name.len() == 0 || (0 <= p < name.len() && name[p] == 0) ==> r == Err::<
            SourceFile,
            Par2Error,
        >(Par2Error::InvalidFileName(path)),
        r == Err::<SourceFile, Par2Error>(Par2Error::InvalidFileName(path)) ==> name.len() == 0
            || exists|q: int| 0 <= q < name.len() && #[trigger] name[q] == 0,
        name.len() > 0 && (forall|q: int| 0 <= q < name.len() ==> #[trigger] name[q] != 0) ==> {
            let valid = slice_size > 0 && slice_size % 4 == 0;
            &&& !valid ==> r == Err::<SourceFile, Par2Error>(Par2Error::InvalidSliceSize(slice_size))
            &&& valid && data.len() == 0 ==> r == Err::<SourceFile, Par2Error>(
                Par2Error::EmptyFile(path),
            )
            &&& valid && data.len() > 0 && slice_size > usize::MAX ==> r == Err::<
                SourceFile,
                Par2Error,
            >(Par2Error::InvalidSliceSize(slice_size))
            &&& valid && data.len() > 0 && slice_size <= usize::MAX ==> {
                &&& r is Ok
                &&& r->Ok_0.path == path
                &&& describes(r->Ok_0, name, data, slice_size as nat)
            }
        },
{
    if 0 <= p < name.len() && name[p] == 0 {
        assert(name.contains(0));
    }
    if name.contains(0) {
        let q = choose|q: int| 0 <= q < name.len() && name[q] == 0;
        assert(name[q] == 0);
    }
}

/// The id of a file is the MD5 of 24 bytes and the name: the digest of the first 16
/// KiB, and the length with its low byte first.
pub proof fn law_file_id(hash16k: Seq<u8>, length: u64, name: Seq<u8>, message: Seq<u8>)
    requires
        hash16k.len() == 16,
        message.len() == 24 + name.len(),
        message.take(16) == hash16k,
        message[16] + 0x100 * message[17] + 0x1_0000 * message[18] + 0x100_0000 * message[19]
            + 0x1_0000_0000 * message[20] + 0x100_0000_0000 * message[21] + 0x1_0000_0000_0000
            * message[22] + 0x100_0000_0000_0000 * message[23] == length,
        message.skip(24) == name,
    ensures
        file_id_of(hash16k, length, name)@ == rfc1321_digest(message),
{
    let le = le64(length);
    law_le64(length);
    lemma_md5_digest(hash16k + le + name);
    assert(le[0] == message[16] && le[1] == message[17] && le[2] == message[18] && le[3]
        == message[19] && le[4] == message[20] && le[5] == message[21] && le[6] == message[22]
        && le[7] == message[23]) by {
        assert(le.len() == 8);
    }
    assert forall|i: int| 0 <= i < message.len() implies message[i] == (hash16k + le + name)[i] by {
        if i < 16 {
            assert(message.take(16)[i] == hash16k[i]);
        } else if i >= 24 {
            assert(message.skip(24)[i - 24] == name[i - 24]);
        }
    }
    assert(message =~= hash16k + le + name);
}

} // verus!
