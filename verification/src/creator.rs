//! Creating a recovery set.
//!
//! [`plan_create`] checks a request and lays out everything that does not depend
//! on the data: the critical packets, the order of the input blocks, and the
//! volumes. [`CreateJob`] then says step by step what is to be done (write this,
//! open that, read this slice, report that) and encodes the slices it is handed.
//! The caller does the input and output.

use crate::bytes::put_bytes;
use crate::encoder::{volume_file, VolumeEncoder};
use crate::error::{Par2Error, Result};
use crate::file_order::{
    file_order, lemma_file_order, lemma_total_in_order, order_files, sorted_ids, total_of,
};
use crate::format::Md5Hash;
use crate::galois_simd::Dispatch;
use crate::os_path::path_bytes;
use crate::packet::comment::{build_comment_packets, comment_packets};
use crate::packet::creator::{build_creator_packet, creator_packet};
use crate::packet::file_desc::{build_file_desc_packet, file_desc_packet};
use crate::packet::file_verify::{build_file_verify_packet, file_verify_packet};
use crate::packet::main_packet::{build_main_packet, main_packet, set_id, MainPacket};
use crate::progress::{is_tick, reports, ProgressEvent};
pub use crate::reedsolomon::MAX_INPUT_BLOCKS;
use crate::reedsolomon::input_bases;
use crate::source::{valid_slice_size, SourceFile};
use crate::suggestion::{suggest_slice_size, suggested_slice_size};
pub use crate::volumes::VolumeScheme;
use crate::volumes::{
    distribute, distribution, distribution_refusal, law_layout_holds_all_blocks,
    lemma_sum_monotone, sum_of, sum_to,
};
use std::path::{Path, PathBuf};
use vstd::prelude::*;

verus! {

/// Most input files a recovery set can have.
pub const MAX_FILES: usize = 32768;

/// Most recovery blocks a recovery set can have.
pub const MAX_RECOVERY_BLOCKS: u32 = 65535;

/// What is to be created.
pub struct CreateOptions {
    /// Path of the index file. Volume files are named after it.
    pub output: PathBuf,
    /// Slice size in bytes, a positive multiple of 4.
    pub slice_size: u64,
    /// Number of recovery blocks. With 0, only the index is written.
    pub recovery_block_count: u32,
    /// How to distribute recovery blocks over volume files.
    pub volume_scheme: VolumeScheme,
    /// Comments to put beside the critical packets.
    pub comments: Vec<String>,
}

impl Default for CreateOptions {
    fn default() -> (opts: Self)
        ensures
            path_bytes(opts.output) == Seq::<u8>::empty(),
            opts.slice_size == 4096,
            opts.recovery_block_count == 0,
            opts.volume_scheme == VolumeScheme::Single,
            opts.comments@.len() == 0,
    {
        CreateOptions {
            output: PathBuf::new(),
            slice_size: 4096,
            recovery_block_count: 0,
            volume_scheme: VolumeScheme::Single,
            comments: Vec::new(),
        }
    }
}

impl CreateOptions {
    /// The same, without recovery blocks: only the index is written.
    pub fn index_only(&self) -> (opts: Self)
        ensures
            opts.output == self.output,
            opts.slice_size == self.slice_size,
            opts.recovery_block_count == 0,
            opts.volume_scheme == VolumeScheme::Single,
            opts.comments@ == self.comments@,
    {
        let comments: Vec<String> = self.comments.clone();
        assert(comments@ =~= self.comments@);
        CreateOptions {
            output: self.output.clone(),
            slice_size: self.slice_size,
            recovery_block_count: 0,
            volume_scheme: VolumeScheme::Single,
            comments,
        }
    }
}

// ---------------------------------------------------------------------------
// Model
// ---------------------------------------------------------------------------

/// An input block: a slice of a file.
#[derive(Clone, Copy, Debug, PartialEq, Eq, Structural)]
pub struct BlockRef {
    /// Which of the input files.
    pub file: usize,
    /// Which slice of it.
    pub slice: u64,
}

/// The ids of the files, in the order given.
pub open spec fn source_ids(sources: Seq<SourceFile>) -> Seq<[u8; 16]> {
    sources.map_values(|s: SourceFile| s.file_id)
}

/// Number of input blocks of the first `n` files.
pub open spec fn block_count(sources: Seq<SourceFile>, n: nat) -> nat
    decreases n,
{
    if n == 0 {
        0
    } else {
        block_count(sources, (n - 1) as nat) + sources[n - 1].slice_checksums@.len()
    }
}

/// Number of bytes of the first `n` files.
pub open spec fn byte_count(sources: Seq<SourceFile>, n: nat) -> nat
    decreases n,
{
    if n == 0 {
        0
    } else {
        byte_count(sources, (n - 1) as nat) + sources[n - 1].length as nat
    }
}

/// The input blocks of the first `n` files of an order: file by file, slice by
/// slice.
pub open spec fn blocks_of(sources: Seq<SourceFile>, order: Seq<usize>, n: nat) -> Seq<BlockRef>
    decreases n,
{
    if n == 0 {
        Seq::empty()
    } else {
        blocks_of(sources, order, (n - 1) as nat) + Seq::new(
            sources[order[n - 1] as int].slice_checksums@.len(),
            |i: int| BlockRef { file: order[n - 1], slice: i as u64 },
        )
    }
}

/// The input blocks of all files, in the order in which the main packet lists
/// the files.
pub open spec fn input_blocks(sources: Seq<SourceFile>) -> Seq<BlockRef> {
    blocks_of(sources, file_order(source_ids(sources)), sources.len())
}

/// The description and verification packets of the first `n` files.
pub open spec fn file_packets(set: Seq<u8>, sources: Seq<SourceFile>, n: nat) -> Seq<u8>
    decreases n,
{
    if n == 0 {
        Seq::empty()
    } else {
        file_packets(set, sources, (n - 1) as nat) + file_desc_packet(set, sources[n - 1])
            + file_verify_packet(set, sources[n - 1])
    }
}

/// The critical packets of a recovery set: main packet, file packets, creator
/// packet, comments. They are the whole index file.
pub open spec fn critical_packets(
    slice_size: u64,
    sources: Seq<SourceFile>,
    comments: Seq<String>,
) -> Seq<u8> {
    let ids = source_ids(sources);
    let set = set_id(slice_size, ids)@;
    main_packet(slice_size, ids) + file_packets(set, sources, sources.len()) + creator_packet(set)
        + comment_packets(set, comments, comments.len())
}

/// Why a request is refused without a look into the files, if it is. The first
/// reason that holds counts.
pub open spec fn early_refusal(opts: CreateOptions, files: nat) -> Option<Par2Error> {
    if files == 0 {
        Some(Par2Error::NoInputFiles)
    } else if files > MAX_FILES {
        Some(Par2Error::TooManyFiles(files as usize))
    } else if opts.recovery_block_count > MAX_RECOVERY_BLOCKS {
        Some(Par2Error::TooManyRecoveryBlocks(opts.recovery_block_count))
    } else if !valid_slice_size(opts.slice_size) {
        Some(Par2Error::InvalidSliceSize(opts.slice_size))
    } else {
        None
    }
}

/// Why a request is refused, if it is: early, or because the files have too many
/// slices.
pub open spec fn create_refusal(
    opts: CreateOptions,
    sources: Seq<SourceFile>,
) -> Option<Par2Error> {
    let blocks = block_count(sources, sources.len());
    match early_refusal(opts, sources.len()) {
        Some(e) => Some(e),
        None => if blocks > MAX_INPUT_BLOCKS {
            Some(
                Par2Error::TooManyInputBlocks {
                    count: blocks as u64,
                    slice_size: opts.slice_size,
                    suggested: suggested_slice_size(sources) as u64,
                },
            )
        } else {
            None
        },
    }
}

/// The sums over all files that a request comes to need fit into 64 bits: the
/// number of slices, and where there are too many of them the number of bytes. A
/// request that is refused early needs neither.
pub open spec fn sums_fit(opts: CreateOptions, sources: Seq<SourceFile>) -> bool {
    let blocks = block_count(sources, sources.len());
    early_refusal(opts, sources.len()) is None ==> {
        &&& blocks <= u64::MAX
        &&& blocks > MAX_INPUT_BLOCKS ==> byte_count(sources, sources.len()) <= u64::MAX
    }
}

/// Everything about a recovery set that does not depend on the data.
pub struct CreatePlan {
    pub slice_size: u64,
    pub set_id_hash: Md5Hash,
    /// The critical packets, which are the index file.
    pub critical_packets: Vec<u8>,
    /// The input blocks in the order in which they are encoded.
    pub blocks: Vec<BlockRef>,
    /// The numbers of recovery blocks of the volumes.
    pub sizes: Vec<u32>,
    /// Why there can be no volumes, if there cannot.
    pub failure: Option<Par2Error>,
}

/// The volumes of a request, or why there can be none.
pub open spec fn plans_volumes(
    sizes: Seq<u32>,
    failure: Option<Par2Error>,
    opts: CreateOptions,
) -> bool {
    match distribution_refusal(opts.volume_scheme, opts.recovery_block_count) {
        Some(reason) => {
            &&& sizes.len() == 0
            &&& failure is Some
            &&& failure->0 is InvalidVolumeScheme
            &&& failure->0->InvalidVolumeScheme_0@ == reason
        },
        None => if opts.recovery_block_count > 0 && opts.slice_size > usize::MAX {
            sizes.len() == 0 && failure == Some(Par2Error::InvalidSliceSize(opts.slice_size))
        } else {
            sizes == distribution(opts.volume_scheme, opts.recovery_block_count) && failure is None
        },
    }
}

/// `plan` is the plan of a request that is not refused.
pub open spec fn is_plan(plan: CreatePlan, opts: CreateOptions, sources: Seq<SourceFile>) -> bool {
    &&& plan.slice_size == opts.slice_size
    &&& plan.set_id_hash == set_id(opts.slice_size, source_ids(sources))
    &&& plan.critical_packets@ == critical_packets(opts.slice_size, sources, opts.comments@)
    &&& plan.blocks@ == input_blocks(sources)
    &&& plans_volumes(plan.sizes@, plan.failure, opts)
}

impl CreatePlan {
    /// The limits that a plan keeps: at most 32768 input blocks, at most 65535
    /// recovery blocks, no empty volume, and slices that fit into memory.
    pub open spec fn wf(&self) -> bool {
        &&& self.blocks@.len() <= 32768
        &&& sum_of(self.sizes@) <= 65535
        &&& forall|v: int| 0 <= v < self.sizes@.len() ==> #[trigger] self.sizes@[v] > 0
        &&& self.sizes@.len() > 0 ==> valid_slice_size(self.slice_size) && self.slice_size
            <= usize::MAX
        &&& self.failure is Some ==> self.sizes@.len() == 0
    }
}

// ---------------------------------------------------------------------------
// Planning
// ---------------------------------------------------------------------------

/// The numbers of slices of the files.
spec fn slice_counts(sources: Seq<SourceFile>) -> Seq<nat> {
    Seq::new(sources.len(), |i: int| sources[i].slice_checksums@.len())
}

proof fn lemma_block_count_total(sources: Seq<SourceFile>, n: nat)
    requires
        n <= sources.len(),
    ensures
        block_count(sources, n) == total_of(slice_counts(sources).take(n as int)),
    decreases n,
{
    if n > 0 {
        lemma_block_count_total(sources, (n - 1) as nat);
        let s = slice_counts(sources).take(n as int);
        assert(s.drop_last() =~= slice_counts(sources).take(n - 1));
    }
}

proof fn lemma_blocks_of_total(sources: Seq<SourceFile>, order: Seq<usize>, n: nat)
    requires
        n <= order.len(),
        forall|k: int| 0 <= k < order.len() ==> #[trigger] order[k] < sources.len(),
    ensures
        blocks_of(sources, order, n).len() == total_of(
            Seq::new(order.len(), |k: int| slice_counts(sources)[order[k] as int]).take(n as int),
        ),
    decreases n,
{
    if n > 0 {
        lemma_blocks_of_total(sources, order, (n - 1) as nat);
        let all = Seq::new(order.len(), |k: int| slice_counts(sources)[order[k] as int]);
        assert(all.take(n as int).drop_last() =~= all.take(n - 1));
    }
}

/// There are as many input blocks as the files have slices.
pub proof fn lemma_blocks_len(sources: Seq<SourceFile>)
    requires
        sources.len() <= usize::MAX,
    ensures
        input_blocks(sources).len() == block_count(sources, sources.len()),
{
    let ids = source_ids(sources);
    let order = file_order(ids);
    let counts = slice_counts(sources);
    let ordered = Seq::new(order.len(), |k: int| counts[order[k] as int]);
    lemma_file_order(ids);
    lemma_block_count_total(sources, sources.len());
    lemma_blocks_of_total(sources, order, sources.len());
    lemma_total_in_order(ids, counts);
    assert(counts.take(sources.len() as int) =~= counts);
    assert(ordered.take(sources.len() as int) =~= ordered);
    assert(ordered =~= Seq::new(ids.len(), |k: int| counts[file_order(ids)[k] as int]));
}

/// More files have no fewer blocks and bytes.
pub proof fn lemma_counts_monotone(sources: Seq<SourceFile>, m: nat, n: nat)
    requires
        m <= n,
        n <= sources.len(),
    ensures
        block_count(sources, m) <= block_count(sources, n),
        byte_count(sources, m) <= byte_count(sources, n),
    decreases n,
{
    if m < n {
        lemma_counts_monotone(sources, m, (n - 1) as nat);
    }
}

/// Number of input blocks of all files.
pub fn count_blocks(sources: &[SourceFile]) -> (n: u64)
    requires
        block_count(sources@, sources@.len()) <= u64::MAX,
    ensures
        n == block_count(sources@, sources@.len()),
{
    let mut n: u64 = 0;
    let mut i: usize = 0;
    while i < sources.len()
        invariant
            i <= sources@.len(),
            n == block_count(sources@, i as nat),
            block_count(sources@, sources@.len()) <= u64::MAX,
        decreases sources@.len() - i,
    {
        proof {
            lemma_counts_monotone(sources@, (i + 1) as nat, sources@.len());
        }
        n = n + sources[i].slice_checksums.len() as u64;
        i = i + 1;
    }
    n
}

/// The ids of the files.
fn collect_ids(sources: &[SourceFile]) -> (ids: Vec<Md5Hash>)
    ensures
        ids@ == source_ids(sources@),
{
    let mut ids: Vec<Md5Hash> = Vec::new();
    let mut i: usize = 0;
    while i < sources.len()
        invariant
            i <= sources@.len(),
            ids@ == source_ids(sources@).take(i as int),
        decreases sources@.len() - i,
    {
        ids.push(sources[i].file_id);
        i = i + 1;
        assert(ids@ =~= source_ids(sources@).take(i as int));
    }
    assert(ids@ =~= source_ids(sources@));
    ids
}

/// The input blocks of all files, in the order in which the main packet lists
/// the files.
fn list_blocks(sources: &[SourceFile], ids: &Vec<Md5Hash>) -> (blocks: Vec<BlockRef>)
    requires
        ids@ == source_ids(sources@),
    ensures
        blocks@ == input_blocks(sources@),
{
    let order: Vec<usize> = order_files(ids);
    proof {
        assert(sources.len() == sources@.len());
        lemma_file_order(ids@);
    }
    let mut blocks: Vec<BlockRef> = Vec::new();
    let mut k: usize = 0;
    while k < order.len()
        invariant
            k <= order@.len(),
            order@.len() == sources@.len(),
            forall|j: int| 0 <= j < order@.len() ==> #[trigger] order@[j] < sources@.len(),
            blocks@ == blocks_of(sources@, order@, k as nat),
        decreases order@.len() - k,
    {
        let file: usize = order[k];
        let n: usize = sources[file].slice_checksums.len();
        let ghost before = blocks@;
        let mut slice: usize = 0;
        while slice < n
            invariant
                slice <= n,
                blocks@ == before + Seq::new(
                    slice as nat,
                    |i: int| BlockRef { file, slice: i as u64 },
                ),
            decreases n - slice,
        {
            blocks.push(BlockRef { file, slice: slice as u64 });
            slice = slice + 1;
            assert(blocks@ =~= before + Seq::new(
                slice as nat,
                |i: int| BlockRef { file, slice: i as u64 },
            ));
        }
        k = k + 1;
        assert(blocks@ =~= blocks_of(sources@, order@, k as nat));
    }
    blocks
}

/// The critical packets of a recovery set, and its id.
fn build_critical_packets(
    slice_size: u64,
    sources: &[SourceFile],
    ids: &Vec<Md5Hash>,
    comments: &Vec<String>,
) -> (r: (Vec<u8>, Md5Hash))
    requires
        ids@ == source_ids(sources@),
    ensures
        r.0@ == critical_packets(slice_size, sources@, comments@),
        r.1 == set_id(slice_size, source_ids(sources@)),
{
    let MainPacket { bytes, set_id_hash } = build_main_packet(slice_size, ids);
    let mut out: Vec<u8> = bytes;
    let ghost main = out@;
    assert(out@ =~= main + file_packets(set_id_hash@, sources@, 0));
    let mut k: usize = 0;
    while k < sources.len()
        invariant
            k <= sources@.len(),
            out@ == main + file_packets(set_id_hash@, sources@, k as nat),
        decreases sources@.len() - k,
    {
        let desc: Vec<u8> = build_file_desc_packet(&set_id_hash, &sources[k]);
        let verify: Vec<u8> = build_file_verify_packet(&set_id_hash, &sources[k]);
        put_bytes(&mut out, &desc);
        put_bytes(&mut out, &verify);
        k = k + 1;
        assert(out@ =~= main + file_packets(set_id_hash@, sources@, k as nat));
    }
    let creator: Vec<u8> = build_creator_packet(&set_id_hash);
    put_bytes(&mut out, &creator);
    let comment: Vec<u8> = build_comment_packets(&set_id_hash, comments);
    put_bytes(&mut out, &comment);
    (out, set_id_hash)
}

/// The volumes of a request, or why there can be none.
fn plan_volumes(opts: &CreateOptions) -> (r: (Vec<u32>, Option<Par2Error>))
    ensures
        plans_volumes(r.0@, r.1, *opts),
        opts.recovery_block_count <= MAX_RECOVERY_BLOCKS ==> sum_of(r.0@) <= 65535,
        forall|v: int| 0 <= v < r.0@.len() ==> #[trigger] r.0@[v] > 0,
        r.0@.len() > 0 ==> opts.slice_size <= usize::MAX,
        r.1 is Some ==> r.0@.len() == 0,
{
    match distribute(&opts.volume_scheme, opts.recovery_block_count) {
        Err(e) => (Vec::new(), Some(e)),
        Ok(sizes) => {
            if opts.recovery_block_count > 0 && opts.slice_size > usize::MAX as u64 {
                (Vec::new(), Some(Par2Error::InvalidSliceSize(opts.slice_size)))
            } else {
                proof {
                    if opts.recovery_block_count > 0 {
                        law_layout_holds_all_blocks(opts.volume_scheme, opts.recovery_block_count);
                    }
                }
                (sizes, None)
            }
        },
    }
}

/// What can be refused without a look into the files.
fn refuse_early(opts: &CreateOptions, files: usize) -> (refusal: Option<Par2Error>)
    ensures
        refusal == early_refusal(*opts, files as nat),
{
    if files == 0 {
        Some(Par2Error::NoInputFiles)
    } else if files > MAX_FILES {
        Some(Par2Error::TooManyFiles(files))
    } else if opts.recovery_block_count > MAX_RECOVERY_BLOCKS {
        Some(Par2Error::TooManyRecoveryBlocks(opts.recovery_block_count))
    } else if opts.slice_size == 0 || opts.slice_size % 4 != 0 {
        Some(Par2Error::InvalidSliceSize(opts.slice_size))
    } else {
        None
    }
}

/// Number of input blocks of all files, if it fits.
pub fn checked_count_blocks(sources: &[SourceFile]) -> (n: Option<u64>)
    ensures
        n is Some <==> block_count(sources@, sources@.len()) <= u64::MAX,
        n is Some ==> n->0 == block_count(sources@, sources@.len()),
{
    let mut n: u64 = 0;
    let mut i: usize = 0;
    while i < sources.len()
        invariant
            i <= sources@.len(),
            n == block_count(sources@, i as nat),
        decreases sources@.len() - i,
    {
        proof {
            lemma_counts_monotone(sources@, (i + 1) as nat, sources@.len());
        }
        n = match n.checked_add(sources[i].slice_checksums.len() as u64) {
            Some(sum) => sum,
            None => {
                return None;
            },
        };
        i = i + 1;
    }
    Some(n)
}

/// Whether the number of bytes of all files fits.
fn bytes_fit(sources: &[SourceFile]) -> (fit: bool)
    ensures
        fit == (byte_count(sources@, sources@.len()) <= u64::MAX),
{
    let mut n: u64 = 0;
    let mut i: usize = 0;
    while i < sources.len()
        invariant
            i <= sources@.len(),
            n == byte_count(sources@, i as nat),
        decreases sources@.len() - i,
    {
        proof {
            lemma_counts_monotone(sources@, (i + 1) as nat, sources@.len());
        }
        n = match n.checked_add(sources[i].length) {
            Some(sum) => sum,
            None => {
                return false;
            },
        };
        i = i + 1;
    }
    true
}

/// Whether the sums that [`plan_create`] needs fit into 64 bits.
pub fn check_sums(opts: &CreateOptions, sources: &[SourceFile]) -> (fit: bool)
    ensures
        fit == sums_fit(*opts, sources@),
{
    if refuse_early(opts, sources.len()).is_some() {
        return true;
    }
    match checked_count_blocks(sources) {
        None => false,
        Some(n) => n <= MAX_INPUT_BLOCKS as u64 || bytes_fit(sources),
    }
}

/// Check a request and plan it.
pub fn plan_create(opts: &CreateOptions, sources: &[SourceFile]) -> (r: Result<CreatePlan>)
    requires
        sums_fit(*opts, sources@),
    ensures
        match create_refusal(*opts, sources@) {
            Some(e) => r == Err::<CreatePlan, Par2Error>(e),
            None => r is Ok && is_plan(r->Ok_0, *opts, sources@) && r->Ok_0.wf(),
        },
{
    match refuse_early(opts, sources.len()) {
        Some(e) => {
            return Err(e);
        },
        None => {},
    }
    let total: u64 = count_blocks(sources);
    if total > MAX_INPUT_BLOCKS as u64 {
        return Err(
            Par2Error::TooManyInputBlocks {
                count: total,
                slice_size: opts.slice_size,
                suggested: suggest_slice_size(sources),
            },
        );
    }
    let ids: Vec<Md5Hash> = collect_ids(sources);
    let (critical, set_id_hash): (Vec<u8>, Md5Hash) = build_critical_packets(
        opts.slice_size,
        sources,
        &ids,
        &opts.comments,
    );
    let (sizes, failure): (Vec<u32>, Option<Par2Error>) = plan_volumes(opts);
    proof {
        assert(sources.len() == sources@.len());
        lemma_blocks_len(sources@);
    }
    Ok(
        CreatePlan {
            slice_size: opts.slice_size,
            set_id_hash,
            critical_packets: critical,
            blocks: list_blocks(sources, &ids),
            sizes,
            failure,
        },
    )
}

// ---------------------------------------------------------------------------
// The job
// ---------------------------------------------------------------------------

/// What a job reports.
#[derive(Clone, Copy, Debug, PartialEq, Eq, Structural)]
pub enum JobEvent {
    /// The index file has been written.
    IndexWritten,
    /// Encoding of a volume is starting.
    EncodeStarted { volume_index: u32, total_volumes: u32, input_blocks: u64, recovery_blocks: u32 },
    /// Progress within the encoding of a volume.
    EncodeProgress { volume_index: u32, input_block_done: u64, input_blocks: u64 },
    /// Encoding of a volume has finished.
    EncodeCompleted { volume_index: u32 },
    /// A volume file has been written.
    VolumeWritten { volume_index: u32 },
}

/// A report of a job as an event of the whole; `index` is the path of the index
/// file, and `volume` that of the volume file written last.
pub open spec fn progress_of<'a>(
    event: JobEvent,
    index: &'a Path,
    volume: &'a Path,
) -> ProgressEvent<'a> {
    match event {
        JobEvent::IndexWritten => ProgressEvent::IndexWritten { path: index },
        JobEvent::EncodeStarted {
            volume_index,
            total_volumes,
            input_blocks,
            recovery_blocks,
        } => ProgressEvent::EncodeStarted {
            volume_index,
            total_volumes,
            input_blocks,
            recovery_blocks,
        },
        JobEvent::EncodeProgress {
            volume_index,
            input_block_done,
            input_blocks,
        } => ProgressEvent::EncodeProgress { volume_index, input_block_done, input_blocks },
        JobEvent::EncodeCompleted { volume_index } => ProgressEvent::EncodeCompleted {
            volume_index,
        },
        JobEvent::VolumeWritten { volume_index: _ } => ProgressEvent::VolumeWritten {
            path: volume,
        },
    }
}

impl JobEvent {
    /// The report as an event of the whole.
    pub fn to_progress<'a>(self, index: &'a Path, volume: &'a Path) -> (event: ProgressEvent<'a>)
        ensures
            event == progress_of(self, index, volume),
    {
        match self {
            JobEvent::IndexWritten => ProgressEvent::IndexWritten { path: index },
            JobEvent::EncodeStarted {
                volume_index,
                total_volumes,
                input_blocks,
                recovery_blocks,
            } => ProgressEvent::EncodeStarted {
                volume_index,
                total_volumes,
                input_blocks,
                recovery_blocks,
            },
            JobEvent::EncodeProgress {
                volume_index,
                input_block_done,
                input_blocks,
            } => ProgressEvent::EncodeProgress { volume_index, input_block_done, input_blocks },
            JobEvent::EncodeCompleted { volume_index } => ProgressEvent::EncodeCompleted {
                volume_index,
            },
            JobEvent::VolumeWritten { volume_index: _ } => ProgressEvent::VolumeWritten {
                path: volume,
            },
        }
    }
}

/// What the caller of a job is to do next.
#[derive(Clone, Copy, Debug, PartialEq, Eq, Structural)]
pub enum Action {
    /// Write the critical packets as the index file.
    WriteIndex,
    /// Pass on a report.
    Report(JobEvent),
    /// Open an input file; the reads that follow are of this file.
    OpenFile { file: usize },
    /// Read a slice of the open file and hand it to `supply`.
    ReadSlice { file: usize, slice: u64 },
    /// Write the volume file under the name of these exponents.
    WriteVolume { volume_index: u32, first_exponent: u16, count: u32 },
    /// Everything is done.
    Finished,
    /// There can be no volumes; `into_failure` says why.
    Failed,
}

/// Where a job stands.
#[derive(Clone, Copy, Debug, PartialEq, Eq, Structural)]
pub enum Phase {
    /// Before the index is written.
    Start,
    /// The index is written.
    IndexWritten,
    /// Before volume `volume`, or after the last one.
    NextVolume,
    /// Before block `block` of volume `volume`, or after the last one.
    Blocks,
    /// The file of the block is open.
    Opened,
    /// The slice of the block is being read.
    Reading,
    /// The volume is encoded.
    Encoded,
    /// The volume is written.
    Written,
    /// Nothing is left to do.
    Ended,
}

/// Phase, volume and block.
#[derive(Clone, Copy, Debug, PartialEq, Eq, Structural)]
pub struct Cursor {
    pub phase: Phase,
    pub volume: usize,
    pub block: usize,
}

/// Block `b` lies in another file than the block before it.
pub open spec fn starts_file(blocks: Seq<BlockRef>, b: int) -> bool {
    b == 0 || blocks[b].file != blocks[b - 1].file
}

/// What is to be done at a cursor, and where the job stands afterwards.
pub open spec fn advance(
    blocks: Seq<BlockRef>,
    sizes: Seq<u32>,
    failed: bool,
    at: Cursor,
) -> (Action, Cursor) {
    let v = at.volume;
    let b = at.block;
    match at.phase {
        Phase::Start => (
            Action::WriteIndex,
            Cursor { phase: Phase::IndexWritten, volume: v, block: b },
        ),
        Phase::IndexWritten => (
            Action::Report(JobEvent::IndexWritten),
            Cursor { phase: Phase::NextVolume, volume: v, block: b },
        ),
        Phase::NextVolume => if failed {
            (Action::Failed, Cursor { phase: Phase::Ended, volume: v, block: b })
        } else if v >= sizes.len() {
            (Action::Finished, Cursor { phase: Phase::Ended, volume: v, block: b })
        } else {
            (
                Action::Report(
                    JobEvent::EncodeStarted {
                        volume_index: v as u32,
                        total_volumes: sizes.len() as u32,
                        input_blocks: blocks.len() as u64,
                        recovery_blocks: sizes[v as int],
                    },
                ),
                Cursor { phase: Phase::Blocks, volume: v, block: 0 },
            )
        },
        Phase::Blocks => if b >= blocks.len() {
            (
                Action::Report(JobEvent::EncodeCompleted { volume_index: v as u32 }),
                Cursor { phase: Phase::Encoded, volume: v, block: b },
            )
        } else if starts_file(blocks, b as int) {
            (
                Action::OpenFile { file: blocks[b as int].file },
                Cursor { phase: Phase::Opened, volume: v, block: b },
            )
        } else {
            (
                Action::ReadSlice { file: blocks[b as int].file, slice: blocks[b as int].slice },
                Cursor { phase: Phase::Reading, volume: v, block: b },
            )
        },
        Phase::Opened => (
            Action::ReadSlice { file: blocks[b as int].file, slice: blocks[b as int].slice },
            Cursor { phase: Phase::Reading, volume: v, block: b },
        ),
        Phase::Reading => (
            Action::ReadSlice { file: blocks[b as int].file, slice: blocks[b as int].slice },
            at,
        ),
        Phase::Encoded => (
            Action::WriteVolume {
                volume_index: v as u32,
                first_exponent: sum_to(sizes, v as nat) as u16,
                count: sizes[v as int],
            },
            Cursor { phase: Phase::Written, volume: v, block: b },
        ),
        Phase::Written => (
            Action::Report(JobEvent::VolumeWritten { volume_index: v as u32 }),
            Cursor { phase: Phase::NextVolume, volume: (v + 1) as usize, block: b },
        ),
        Phase::Ended => (if failed { Action::Failed } else { Action::Finished }, at),
    }
}

/// A create job in progress. Its view is the slices of the current volume.
pub struct CreateJob {
    plan: CreatePlan,
    dispatch: Dispatch,
    cursor: Cursor,
    first_exponent: u32,
    encoder: VolumeEncoder,
    volume: Vec<u8>,
}

impl View for CreateJob {
    type V = Seq<Seq<u8>>;

    closed spec fn view(&self) -> Seq<Seq<u8>> {
        self.encoder@
    }
}

/// The phases in which a volume is at work.
pub open spec fn in_volume(phase: Phase) -> bool {
    phase == Phase::Blocks || phase == Phase::Opened || phase == Phase::Reading || phase
        == Phase::Encoded || phase == Phase::Written
}

impl CreateJob {
    /// The plan of the job.
    pub closed spec fn plan(&self) -> CreatePlan {
        self.plan
    }

    /// Where the job stands.
    pub closed spec fn at(&self) -> Cursor {
        self.cursor
    }

    /// The file of the current volume, as its slices make it.
    pub open spec fn expected_volume(&self) -> Seq<u8> {
        volume_file(
            self.plan().set_id_hash@,
            self.plan().critical_packets@,
            input_bases(self.plan().blocks@.len()),
            sum_to(self.plan().sizes@, self.at().volume as nat) as nat,
            self.plan().sizes@[self.at().volume as int] as nat,
            self@,
            self.plan().slice_size as nat,
        )
    }

    /// The job keeps to its plan.
    pub closed spec fn wf(&self) -> bool {
        let p = self.plan;
        let c = self.cursor;
        &&& p.wf()
        &&& c.volume <= p.sizes@.len()
        &&& c.block <= p.blocks@.len()
        &&& c.phase == Phase::Start || c.phase == Phase::IndexWritten ==> c.volume == 0
        &&& c.phase == Phase::NextVolume || in_volume(c.phase) ==> self.first_exponent == sum_to(
            p.sizes@,
            c.volume as nat,
        )
        &&& in_volume(c.phase) ==> {
            &&& c.volume < p.sizes@.len()
            &&& self.encoder.wf()
            &&& self.encoder.bases() == input_bases(p.blocks@.len())
            &&& self.encoder.first() == sum_to(p.sizes@, c.volume as nat)
            &&& self.encoder.count() == p.sizes@[c.volume as int]
            &&& self.encoder.slice_size() == p.slice_size
            &&& self.encoder@.len() == c.block
        }
        &&& c.phase == Phase::Opened || c.phase == Phase::Reading ==> c.block < p.blocks@.len()
        &&& c.phase == Phase::Encoded || c.phase == Phase::Written ==> {
            &&& c.block == p.blocks@.len()
            &&& self.volume@ == self.expected_volume()
        }
    }

    /// Start a job.
    pub fn new(plan: CreatePlan, dispatch: Dispatch) -> (job: Self)
        requires
            plan.wf(),
        ensures
            job.wf(),
            job.plan() == plan,
            job.at() == (Cursor { phase: Phase::Start, volume: 0, block: 0 }),
    {
        CreateJob {
            plan,
            dispatch,
            cursor: Cursor { phase: Phase::Start, volume: 0, block: 0 },
            first_exponent: 0,
            encoder: VolumeEncoder::new(0, 0, 0, 0, dispatch),
            volume: Vec::new(),
        }
    }

    /// The index file.
    pub fn index_bytes(&self) -> (bytes: &[u8])
        ensures
            bytes@ == self.plan().critical_packets@,
    {
        self.plan.critical_packets.as_slice()
    }

    /// The file of the volume that is to be written or was just written.
    pub fn volume_bytes(&self) -> (bytes: &[u8])
        requires
            self.wf(),
            self.at().phase == Phase::Encoded || self.at().phase == Phase::Written,
        ensures
            bytes@ == self.expected_volume(),
    {
        self.volume.as_slice()
    }

    /// Why there can be no volumes.
    pub fn into_failure(self) -> (failure: Option<Par2Error>)
        ensures
            failure == self.plan().failure,
    {
        self.plan.failure
    }

    /// What is to be done next.
    pub fn next(&mut self) -> (action: Action)
        requires
            old(self).wf(),
            old(self).at().phase != Phase::Reading,
        ensures
            final(self).wf(),
            final(self).plan() == old(self).plan(),
            (action, final(self).at()) == advance(
                old(self).plan().blocks@,
                old(self).plan().sizes@,
                old(self).plan().failure is Some,
                old(self).at(),
            ),
            old(self).at().phase == Phase::NextVolume ==> final(self).at().phase == Phase::Ended
                || final(self)@ == Seq::<Seq<u8>>::empty(),
            old(self).at().phase != Phase::NextVolume ==> final(self)@ == old(self)@,
    {
        let v: usize = self.cursor.volume;
        let b: usize = self.cursor.block;
        proof {
            lemma_volume_numbers(self.plan.sizes@);
        }
        match self.cursor.phase {
            Phase::Start => {
                self.cursor.phase = Phase::IndexWritten;
                Action::WriteIndex
            },
            Phase::IndexWritten => {
                self.cursor.phase = Phase::NextVolume;
                self.first_exponent = 0;
                Action::Report(JobEvent::IndexWritten)
            },
            Phase::NextVolume => self.start_volume(),
            Phase::Blocks => {
                if b >= self.plan.blocks.len() {
                    self.volume = self.encoder.build_volume_file(
                        &self.plan.set_id_hash,
                        &self.plan.critical_packets,
                    );
                    self.cursor.phase = Phase::Encoded;
                    Action::Report(JobEvent::EncodeCompleted { volume_index: v as u32 })
                } else {
                    let block: BlockRef = self.plan.blocks[b];
                    if b == 0 || block.file != self.plan.blocks[b - 1].file {
                        self.cursor.phase = Phase::Opened;
                        Action::OpenFile { file: block.file }
                    } else {
                        self.cursor.phase = Phase::Reading;
                        Action::ReadSlice { file: block.file, slice: block.slice }
                    }
                }
            },
            Phase::Opened => {
                let block: BlockRef = self.plan.blocks[b];
                self.cursor.phase = Phase::Reading;
                Action::ReadSlice { file: block.file, slice: block.slice }
            },
            Phase::Reading => {
                let block: BlockRef = self.plan.blocks[b];
                Action::ReadSlice { file: block.file, slice: block.slice }
            },
            Phase::Encoded => {
                proof {
                    lemma_sum_monotone(self.plan.sizes@, v as nat, self.plan.sizes@.len());
                }
                self.cursor.phase = Phase::Written;
                Action::WriteVolume {
                    volume_index: v as u32,
                    first_exponent: self.first_exponent as u16,
                    count: self.plan.sizes[v],
                }
            },
            Phase::Written => {
                proof {
                    lemma_sum_monotone(
                        self.plan.sizes@,
                        (v + 1) as nat,
                        self.plan.sizes@.len(),
                    );
                }
                self.cursor.phase = Phase::NextVolume;
                self.cursor.volume = v + 1;
                self.first_exponent = self.first_exponent + self.plan.sizes[v];
                Action::Report(JobEvent::VolumeWritten { volume_index: v as u32 })
            },
            Phase::Ended => {
                if self.plan.failure.is_some() {
                    Action::Failed
                } else {
                    Action::Finished
                }
            },
        }
    }

    /// Begin the next volume, or end the job.
    fn start_volume(&mut self) -> (action: Action)
        requires
            old(self).wf(),
            old(self).at().phase == Phase::NextVolume,
        ensures
            final(self).wf(),
            final(self).plan() == old(self).plan(),
            (action, final(self).at()) == advance(
                old(self).plan().blocks@,
                old(self).plan().sizes@,
                old(self).plan().failure is Some,
                old(self).at(),
            ),
            final(self).at().phase == Phase::Ended || final(self)@ == Seq::<Seq<u8>>::empty(),
    {
        let v: usize = self.cursor.volume;
        proof {
            lemma_volume_numbers(self.plan.sizes@);
        }
        if self.plan.failure.is_some() {
            self.cursor.phase = Phase::Ended;
            return Action::Failed;
        }
        if v >= self.plan.sizes.len() {
            self.cursor.phase = Phase::Ended;
            return Action::Finished;
        }
        let count: u32 = self.plan.sizes[v];
        proof {
            lemma_sum_monotone(self.plan.sizes@, (v + 1) as nat, self.plan.sizes@.len());
            assert(sum_to(self.plan.sizes@, (v + 1) as nat) == sum_to(self.plan.sizes@, v as nat)
                + count);
        }
        self.encoder = VolumeEncoder::new(
            self.plan.blocks.len() as u32,
            self.first_exponent as u16,
            count,
            self.plan.slice_size as usize,
            self.dispatch,
        );
        self.cursor.phase = Phase::Blocks;
        self.cursor.block = 0;
        Action::Report(
            JobEvent::EncodeStarted {
                volume_index: v as u32,
                total_volumes: self.plan.sizes.len() as u32,
                input_blocks: self.plan.blocks.len() as u64,
                recovery_blocks: count,
            },
        )
    }

    /// Hand over the slice that was read, padded to the slice size. Returns a
    /// report if one is due.
    pub fn supply(&mut self, slice: &[u8]) -> (report: Option<JobEvent>)
        requires
            old(self).wf(),
            old(self).at().phase == Phase::Reading,
            slice@.len() == old(self).plan().slice_size,
        ensures
            final(self).wf(),
            final(self).plan() == old(self).plan(),
            final(self).at() == (Cursor {
                phase: Phase::Blocks,
                volume: old(self).at().volume,
                block: (old(self).at().block + 1) as usize,
            }),
            final(self)@ == old(self)@.push(slice@),
            report == if is_tick(
                old(self).at().block + 1,
                old(self).plan().blocks@.len() as u64,
            ) {
                Some(
                    JobEvent::EncodeProgress {
                        volume_index: old(self).at().volume as u32,
                        input_block_done: (old(self).at().block + 1) as u64,
                        input_blocks: old(self).plan().blocks@.len() as u64,
                    },
                )
            } else {
                None
            },
    {
        let v: usize = self.cursor.volume;
        let total: u64 = self.plan.blocks.len() as u64;
        self.encoder.absorb(slice);
        self.cursor.phase = Phase::Blocks;
        self.cursor.block = self.cursor.block + 1;
        let done: u64 = self.cursor.block as u64;
        if reports(done, total) {
            Some(
                JobEvent::EncodeProgress {
                    volume_index: v as u32,
                    input_block_done: done,
                    input_blocks: total,
                },
            )
        } else {
            None
        }
    }
}

/// The cursor of a job lies within its plan.
pub proof fn lemma_job_cursor(job: CreateJob)
    requires
        job.wf(),
    ensures
        job.plan().wf(),
        cursor_ok(job.plan().blocks@, job.plan().sizes@, job.at()),
        job.at().phase == Phase::Encoded || job.at().phase == Phase::Written ==> job.at().block
            == job.plan().blocks@.len(),
        in_volume(job.at().phase) ==> job@.len() == job.at().block,
{
}

/// The cursor lies within the plan.
pub open spec fn cursor_ok(blocks: Seq<BlockRef>, sizes: Seq<u32>, at: Cursor) -> bool {
    &&& at.volume <= sizes.len()
    &&& at.block <= blocks.len()
    &&& at.phase == Phase::Start || at.phase == Phase::IndexWritten ==> at.volume == 0
    &&& at.phase == Phase::Opened || at.phase == Phase::Reading ==> at.block < blocks.len()
    &&& in_volume(at.phase) ==> at.volume < sizes.len()
}

proof fn lemma_blocks_of_in_range(
    sources: Seq<SourceFile>,
    order: Seq<usize>,
    n: nat,
    b: int,
)
    requires
        n <= order.len(),
        forall|k: int| 0 <= k < order.len() ==> #[trigger] order[k] < sources.len(),
        0 <= b < blocks_of(sources, order, n).len(),
    ensures
        ({
            let block = blocks_of(sources, order, n)[b];
            &&& block.file < sources.len()
            &&& block.slice < sources[block.file as int].slice_checksums@.len()
            &&& block.slice <= usize::MAX
            &&& exists|k: int| 0 <= k < n && #[trigger] order[k] == block.file
        }),
    decreases n,
{
    let before = blocks_of(sources, order, (n - 1) as nat);
    let blocks = blocks_of(sources, order, n);
    let sums = sources[order[n - 1] as int].slice_checksums;
    if b < before.len() {
        lemma_blocks_of_in_range(sources, order, (n - 1) as nat, b);
        assert(blocks[b] == before[b]);
    } else {
        assert(sums.len() == sums@.len());
        assert(blocks[b] == BlockRef {
            file: order[n - 1],
            slice: (b - before.len()) as u64,
        });
        assert(order[n - 1] == blocks[b].file);
    }
}

/// Every input block is a slice of one of the files.
pub proof fn lemma_blocks_in_range(sources: Seq<SourceFile>, b: int)
    requires
        sources.len() <= usize::MAX,
        0 <= b < input_blocks(sources).len(),
    ensures
        input_blocks(sources)[b].file < sources.len(),
        input_blocks(sources)[b].slice < sources[input_blocks(
            sources,
        )[b].file as int].slice_checksums@.len(),
        input_blocks(sources)[b].slice <= usize::MAX,
{
    lemma_file_order(source_ids(sources));
    lemma_blocks_of_in_range(sources, file_order(source_ids(sources)), sources.len(), b);
}

proof fn lemma_block_number(
    sources: Seq<SourceFile>,
    order: Seq<usize>,
    n: nat,
    k: int,
    slice: int,
)
    requires
        n <= order.len(),
        forall|k: int| 0 <= k < order.len() ==> #[trigger] order[k] < sources.len(),
        0 <= k < n,
        0 <= slice < sources[order[k] as int].slice_checksums@.len(),
    ensures
        blocks_of(sources, order, k as nat).len() + slice < blocks_of(sources, order, n).len(),
        blocks_of(sources, order, n)[blocks_of(sources, order, k as nat).len() + slice] == (
        BlockRef { file: order[k], slice: slice as u64 }),
    decreases n,
{
    if k < n - 1 {
        lemma_block_number(sources, order, (n - 1) as nat, k, slice);
    }
}

/// Each slice of each file is an input block, and the blocks are numbered file
/// by file in the order of the main packet: before the slices of the file with
/// the `k`-th id come those of the files with smaller ids.
pub proof fn law_block_numbers(sources: Seq<SourceFile>, k: int, slice: int)
    requires
        sources.len() <= usize::MAX,
        0 <= k < sources.len(),
        0 <= slice < sources[file_order(
            source_ids(sources),
        )[k] as int].slice_checksums@.len(),
    ensures
        ({
            let order = file_order(source_ids(sources));
            let at = blocks_of(sources, order, k as nat).len() + slice;
            &&& sources[order[k] as int].file_id == sorted_ids(source_ids(sources))[k]
            &&& at < input_blocks(sources).len()
            &&& input_blocks(sources)[at] == (BlockRef { file: order[k], slice: slice as u64 })
        }),
{
    lemma_file_order(source_ids(sources));
    let order = file_order(source_ids(sources));
    assert(source_ids(sources)[order[k] as int] == sorted_ids(source_ids(sources))[k]);
    lemma_block_number(sources, order, sources.len(), k, slice);
}

/// Every file has its place in the order of the blocks.
pub proof fn law_every_file_has_its_place(sources: Seq<SourceFile>, file: usize)
    requires
        sources.len() <= usize::MAX,
        file < sources.len(),
    ensures
        exists|k: int|
            0 <= k < sources.len() && #[trigger] file_order(source_ids(sources))[k] == file,
{
    lemma_file_order(source_ids(sources));
    assert(file_order(source_ids(sources)).contains(file));
}

proof fn lemma_read_in_order(sources: Seq<SourceFile>, order: Seq<usize>, n: nat, b: int)
    requires
        n <= order.len(),
        forall|k: int| 0 <= k < order.len() ==> #[trigger] order[k] < sources.len(),
        forall|j: int, k: int|
            0 <= j < k < order.len() ==> #[trigger] order[j] != #[trigger] order[k],
        0 <= b < blocks_of(sources, order, n).len(),
    ensures
        ({
            let blocks = blocks_of(sources, order, n);
            if starts_file(blocks, b) {
                blocks[b].slice == 0
            } else {
                blocks[b].slice == blocks[b - 1].slice + 1
            }
        }),
    decreases n,
{
    let blocks = blocks_of(sources, order, n);
    let before = blocks_of(sources, order, (n - 1) as nat);
    let file = order[n - 1];
    let sums = sources[file as int].slice_checksums;
    if b < before.len() {
        lemma_read_in_order(sources, order, (n - 1) as nat, b);
        assert(blocks[b] == before[b]);
        if b > 0 {
            assert(blocks[b - 1] == before[b - 1]);
        }
    } else {
        assert(sums.len() == sums@.len());
        assert(blocks[b] == BlockRef { file, slice: (b - before.len()) as u64 });
        if b > before.len() {
            assert(blocks[b - 1] == BlockRef { file, slice: (b - 1 - before.len()) as u64 });
        } else if b > 0 {
            assert(blocks[b - 1] == before[b - 1]);
            lemma_blocks_of_in_range(sources, order, (n - 1) as nat, b - 1);
        }
    }
}

/// Files are read from their start and in order: the first block of a file is
/// its first slice, and every other block is the slice after the one before it.
pub proof fn law_files_are_read_in_order(sources: Seq<SourceFile>, b: int)
    requires
        sources.len() <= usize::MAX,
        0 <= b < input_blocks(sources).len(),
    ensures
        ({
            let blocks = input_blocks(sources);
            if starts_file(blocks, b) {
                blocks[b].slice == 0
            } else {
                blocks[b].slice == blocks[b - 1].slice + 1
            }
        }),
{
    lemma_file_order(source_ids(sources));
    lemma_read_in_order(sources, file_order(source_ids(sources)), sources.len(), b);
}

/// There are no more volumes than recovery blocks.
pub proof fn lemma_volume_numbers(sizes: Seq<u32>)
    requires
        forall|v: int| 0 <= v < sizes.len() ==> #[trigger] sizes[v] > 0,
    ensures
        sizes.len() <= sum_of(sizes),
{
    lemma_sum_at_least(sizes, sizes.len());
}

proof fn lemma_sum_at_least(sizes: Seq<u32>, n: nat)
    requires
        n <= sizes.len(),
        forall|v: int| 0 <= v < sizes.len() ==> #[trigger] sizes[v] > 0,
    ensures
        n <= sum_to(sizes, n),
    decreases n,
{
    if n > 0 {
        lemma_sum_at_least(sizes, (n - 1) as nat);
        assert(sizes[n - 1] > 0);
    }
}

// ---------------------------------------------------------------------------
// What pins the plan down
// ---------------------------------------------------------------------------

/// Blocks and bytes add up file by file, and the ids are those of the files.
pub proof fn law_counts(sources: Seq<SourceFile>, n: nat)
    ensures
        block_count(sources, 0) == 0,
        block_count(sources, n + 1) == block_count(sources, n)
            + sources[n as int].slice_checksums@.len(),
        byte_count(sources, 0) == 0,
        byte_count(sources, n + 1) == byte_count(sources, n) + sources[n as int].length,
        source_ids(sources).len() == sources.len(),
        n < sources.len() ==> source_ids(sources)[n as int] == sources[n as int].file_id,
{
    assert((n + 1 - 1) as nat == n);
}

/// Where the blocks of a file start: after those of the files before it in the
/// order, as many as these have slices.
pub proof fn law_block_starts(sources: Seq<SourceFile>, order: Seq<usize>, k: nat)
    requires
        k < order.len(),
    ensures
        blocks_of(sources, order, 0).len() == 0,
        blocks_of(sources, order, k + 1).len() == blocks_of(sources, order, k).len()
            + sources[order[k as int] as int].slice_checksums@.len(),
{
    assert((k + 1 - 1) as nat == k);
}

/// Which requests are refused, and with what: no files, more than 32768 files, more
/// than 65535 recovery blocks, a slice size that is no positive multiple of 4, or
/// more than 32768 slices; the first that holds counts.
pub proof fn law_create_refusals(opts: CreateOptions, sources: Seq<SourceFile>)
    requires
        sources.len() <= usize::MAX,
    ensures
        ({
            let refused = create_refusal(opts, sources);
            let files = sources.len();
            let recovery = opts.recovery_block_count;
            let size = opts.slice_size;
            let blocks = block_count(sources, sources.len());
            let valid = size > 0 && size % 4 == 0;
            &&& files == 0 <==> refused == Some(Par2Error::NoInputFiles)
            &&& files > 32768 ==> refused is Some && refused->0 is TooManyFiles
                && refused->0->TooManyFiles_0 == files
            &&& 0 < files <= 32768 && recovery > 65535 ==> refused == Some(
                Par2Error::TooManyRecoveryBlocks(recovery),
            )
            &&& 0 < files <= 32768 && recovery <= 65535 && !valid ==> refused == Some(
                Par2Error::InvalidSliceSize(size),
            )
            &&& 0 < files <= 32768 && recovery <= 65535 && valid && blocks > 32768 ==> {
                &&& refused is Some
                &&& refused->0 is TooManyInputBlocks
                &&& blocks <= u64::MAX ==> refused->0->count == blocks
                &&& refused->0->slice_size == size
                &&& 0 <= suggested_slice_size(sources) <= u64::MAX ==> refused->0->suggested
                    == suggested_slice_size(sources)
            }
            &&& 0 < files <= 32768 && recovery <= 65535 && valid && blocks <= 32768 ==> refused
                is None
        }),
{
}

/// The sums that a request needs: the blocks of all files, and their bytes if there
/// are more than 32768 blocks; none if it is refused without them.
pub proof fn law_sums_needed(opts: CreateOptions, sources: Seq<SourceFile>)
    ensures
        ({
            let needed = 0 < sources.len() <= 32768 && opts.recovery_block_count <= 65535
                && opts.slice_size > 0 && opts.slice_size % 4 == 0;
            let blocks = block_count(sources, sources.len());
            sums_fit(opts, sources) <==> !needed || (blocks <= u64::MAX && (blocks <= 32768
                || byte_count(sources, sources.len()) <= u64::MAX))
        }),
{
}

/// What a plan says: the slice size, the set id, the critical packets and the
/// blocks of the request, and the volumes of its layout, or why there are none: the
/// layout is refused, or a slice does not fit into memory.
pub proof fn law_plan(plan: CreatePlan, opts: CreateOptions, sources: Seq<SourceFile>)
    requires
        is_plan(plan, opts, sources),
    ensures
        plan.slice_size == opts.slice_size,
        plan.set_id_hash == set_id(opts.slice_size, source_ids(sources)),
        plan.critical_packets@ == critical_packets(opts.slice_size, sources, opts.comments@),
        plan.blocks@ == input_blocks(sources),
        ({
            let refused = distribution_refusal(opts.volume_scheme, opts.recovery_block_count);
            let fits = opts.recovery_block_count == 0 || opts.slice_size <= usize::MAX;
            &&& refused is Some ==> plan.sizes@.len() == 0 && plan.failure is Some
                && plan.failure->0 is InvalidVolumeScheme
                && plan.failure->0->InvalidVolumeScheme_0@ == refused->0
            &&& refused is None && !fits ==> plan.sizes@.len() == 0 && plan.failure == Some(
                Par2Error::InvalidSliceSize(opts.slice_size),
            )
            &&& refused is None && fits ==> plan.failure is None && plan.sizes@ == distribution(
                opts.volume_scheme,
                opts.recovery_block_count,
            )
        }),
{
}

/// The volume file of a job: that of its plan, for the volume it is at, made of the
/// slices it was handed.
pub proof fn law_job_volume(job: CreateJob)
    ensures
        job.expected_volume() == volume_file(
            job.plan().set_id_hash@,
            job.plan().critical_packets@,
            input_bases(job.plan().blocks@.len()),
            sum_to(job.plan().sizes@, job.at().volume as nat) as nat,
            job.plan().sizes@[job.at().volume as int] as nat,
            job@,
            job.plan().slice_size as nat,
        ),
{
}

} // verus!
