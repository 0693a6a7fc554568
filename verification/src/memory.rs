//! Creating a recovery set from files that are at hand in memory.

use crate::bytes::put_bytes;
use crate::create_laws::{law_job_moves_forward, position};
use crate::creator::{
    create_refusal, critical_packets, in_volume, input_blocks, is_plan, lemma_blocks_in_range,
    lemma_job_cursor, plan_create, source_ids, sums_fit, Action, BlockRef, CreateJob,
    CreateOptions, CreatePlan, Phase,
};
use crate::encoder::volume_file;
use crate::error::{Par2Error, Result};
use crate::galois_simd::Dispatch;
use crate::packet::main_packet::set_id;
use crate::reedsolomon::input_bases;
use crate::source::{law_slice_bytes, padded_slice, read_slice, SourceFile};
use crate::volumes::{distribution, distribution_refusal, sum_to};
use vstd::prelude::*;

verus! {

/// A volume file.
pub struct CreatedVolume {
    pub first_exponent: u16,
    pub count: u32,
    pub bytes: Vec<u8>,
}

/// The files of a recovery set.
pub struct CreatedSet {
    pub index: Vec<u8>,
    pub volumes: Vec<CreatedVolume>,
}

/// The slices of the first `n` input blocks.
pub open spec fn block_slices(
    contents: Seq<Vec<u8>>,
    blocks: Seq<BlockRef>,
    slice_size: nat,
    n: nat,
) -> Seq<Seq<u8>> {
    Seq::new(
        n,
        |b: int|
            padded_slice(contents[blocks[b].file as int]@, blocks[b].slice as int, slice_size),
    )
}

/// `volume` is volume `v` of the layout, made of the given contents.
pub open spec fn is_volume(
    volume: CreatedVolume,
    v: int,
    opts: CreateOptions,
    sources: Seq<SourceFile>,
    contents: Seq<Vec<u8>>,
) -> bool {
    let blocks = input_blocks(sources);
    let sizes = distribution(opts.volume_scheme, opts.recovery_block_count);
    &&& volume.first_exponent == sum_to(sizes, v as nat)
    &&& volume.count == sizes[v]
    &&& volume.bytes@ == volume_file(
        set_id(opts.slice_size, source_ids(sources))@,
        critical_packets(opts.slice_size, sources, opts.comments@),
        input_bases(blocks.len()),
        sum_to(sizes, v as nat) as nat,
        sizes[v] as nat,
        block_slices(contents, blocks, opts.slice_size as nat, blocks.len()),
        opts.slice_size as nat,
    )
}

/// The files that a request comes to, with the given contents of the sources.
pub open spec fn is_created(
    r: Result<CreatedSet>,
    opts: CreateOptions,
    sources: Seq<SourceFile>,
    contents: Seq<Vec<u8>>,
) -> bool {
    match create_refusal(opts, sources) {
        Some(e) => r == Err::<CreatedSet, Par2Error>(e),
        None => match distribution_refusal(opts.volume_scheme, opts.recovery_block_count) {
            Some(reason) => {
                &&& r is Err
                &&& r->Err_0 is InvalidVolumeScheme
                &&& r->Err_0->InvalidVolumeScheme_0@ == reason
            },
            None => if opts.recovery_block_count > 0 && opts.slice_size > usize::MAX {
                r == Err::<CreatedSet, Par2Error>(Par2Error::InvalidSliceSize(opts.slice_size))
            } else {
                let volumes = distribution(opts.volume_scheme, opts.recovery_block_count).len();
                &&& r is Ok
                &&& r->Ok_0.index@ == critical_packets(opts.slice_size, sources, opts.comments@)
                &&& r->Ok_0.volumes@.len() == volumes
                &&& forall|v: int|
                    0 <= v < volumes ==> is_volume(
                        #[trigger] r->Ok_0.volumes@[v],
                        v,
                        opts,
                        sources,
                        contents,
                    )
            },
        },
    }
}

/// Create a recovery set; `contents` are the contents of the sources.
pub fn create_in_memory(
    opts: &CreateOptions,
    sources: &[SourceFile],
    contents: &[Vec<u8>],
    dispatch: Dispatch,
) -> (r: Result<CreatedSet>)
    requires
        contents@.len() == sources@.len(),
        sums_fit(*opts, sources@),
    ensures
        is_created(r, *opts, sources@, contents@),
{
    let plan: CreatePlan = match plan_create(opts, sources) {
        Ok(p) => p,
        Err(e) => {
            return Err(e);
        },
    };
    let ghost the_plan = plan;
    let ghost blocks = plan.blocks@;
    let ghost sizes = plan.sizes@;
    let ghost size = opts.slice_size as nat;
    let slice_size: u64 = opts.slice_size;
    assert(sources@.len() == sources.len());
    let mut job: CreateJob = CreateJob::new(plan, dispatch);
    let mut index: Vec<u8> = Vec::new();
    let mut volumes: Vec<CreatedVolume> = Vec::new();
    let mut buf: Vec<u8> = Vec::new();
    loop
        invariant
            job.wf(),
            job.plan() == the_plan,
            job.at().phase != Phase::Reading,
            job.at().phase != Phase::Ended,
            is_plan(the_plan, *opts, sources@),
            create_refusal(*opts, sources@) is None,
            blocks == the_plan.blocks@,
            sizes == the_plan.sizes@,
            size == opts.slice_size as nat,
            slice_size == opts.slice_size,
            contents@.len() == sources@.len(),
            sources@.len() <= usize::MAX,
            job.at().phase != Phase::Start ==> index@ == the_plan.critical_packets@,
            job.at().phase == Phase::Start || job.at().phase == Phase::IndexWritten
                ==> volumes@.len() == 0,
            job.at().phase != Phase::Start && job.at().phase != Phase::IndexWritten
                ==> volumes@.len() == job.at().volume + (if job.at().phase == Phase::Written {
                1int
            } else {
                0
            }),
            forall|v: int|
                0 <= v < volumes@.len() ==> is_volume(
                    #[trigger] volumes@[v],
                    v,
                    *opts,
                    sources@,
                    contents@,
                ),
            in_volume(job.at().phase) ==> job@ == block_slices(
                contents@,
                blocks,
                size,
                job.at().block as nat,
            ),
            in_volume(job.at().phase) ==> the_plan.failure is None && sizes == distribution(
                opts.volume_scheme,
                opts.recovery_block_count,
            ),
        decreases 3 + sizes.len() * (3 * blocks.len() + 8) - position(blocks, sizes, job.at()),
    {
        let ghost before = job;
        proof {
            lemma_job_cursor(job);
            assert(the_plan.blocks.len() == blocks.len() && the_plan.sizes.len() == sizes.len());
            law_job_moves_forward(blocks, sizes, the_plan.failure is Some, job.at());
        }
        let action: Action = job.next();
        proof {
            lemma_job_cursor(job);
        }
        match action {
            Action::WriteIndex => {
                index = Vec::new();
                put_bytes(&mut index, job.index_bytes());
                assert(index@ =~= the_plan.critical_packets@);
            },
            Action::Report(_) => {
                assert(block_slices(contents@, blocks, size, 0) =~= Seq::empty());
            },
            Action::OpenFile { file: _ } => {},
            Action::ReadSlice { file, slice } => {
                proof {
                    lemma_blocks_in_range(sources@, job.at().block as int);
                    law_job_moves_forward(blocks, sizes, the_plan.failure is Some, job.at());
                }
                buf = vec![0u8; slice_size as usize];
                read_slice(&contents[file], slice as usize, buf.as_mut_slice());
                let ghost b = job.at().block;
                job.supply(&buf);
                assert(job@ =~= block_slices(contents@, blocks, size, (b + 1) as nat));
            },
            Action::WriteVolume { volume_index: _, first_exponent, count } => {
                let mut bytes: Vec<u8> = Vec::new();
                put_bytes(&mut bytes, job.volume_bytes());
                let volume = CreatedVolume { first_exponent, count, bytes };
                proof {
                    let v = job.at().volume as int;
                    crate::volumes::lemma_sum_monotone(sizes, v as nat, sizes.len());
                    assert(bytes@ =~= job.expected_volume());
                    assert(is_volume(volume, v, *opts, sources@, contents@));
                }
                volumes.push(volume);
            },
            Action::Finished => {
                return Ok(CreatedSet { index, volumes });
            },
            Action::Failed => {
                match job.into_failure() {
                    Some(e) => {
                        return Err(e);
                    },
                    None => {
                        assert(false);
                        return Ok(CreatedSet { index, volumes });
                    },
                }
            },
        }
    }
}

/// The slice of an input block, byte by byte: the bytes of its file from its place
/// on, and zeros past the end of the file.
pub proof fn law_block_slice(
    contents: Seq<Vec<u8>>,
    blocks: Seq<BlockRef>,
    slice_size: nat,
    n: nat,
    b: int,
    j: int,
)
    requires
        0 <= b < n,
        0 <= j < slice_size,
    ensures
        ({
            let slices = block_slices(contents, blocks, slice_size, n);
            let data = contents[blocks[b].file as int]@;
            let at = blocks[b].slice * slice_size + j;
            &&& slices.len() == n
            &&& slices[b].len() == slice_size
            &&& at < data.len() ==> slices[b][j] == data[at]
            &&& at >= data.len() ==> slices[b][j] == 0
        }),
{
    law_slice_bytes(
        contents[blocks[b].file as int]@,
        blocks[b].slice as int,
        slice_size,
        j,
    );
}

/// What a request comes to: an error exactly where it is refused, where its layout
/// is, or where a slice does not fit into memory; else the index, and for each
/// volume of the layout a file with its recovery blocks over all input blocks.
pub proof fn law_created(
    r: Result<CreatedSet>,
    opts: CreateOptions,
    sources: Seq<SourceFile>,
    contents: Seq<Vec<u8>>,
    v: int,
)
    requires
        is_created(r, opts, sources, contents),
    ensures
        ({
            let refused = create_refusal(opts, sources);
            let layout_refused = distribution_refusal(
                opts.volume_scheme,
                opts.recovery_block_count,
            );
            let fits = opts.recovery_block_count == 0 || opts.slice_size <= usize::MAX;
            let sizes = distribution(opts.volume_scheme, opts.recovery_block_count);
            let critical = critical_packets(opts.slice_size, sources, opts.comments@);
            let blocks = input_blocks(sources);
            &&& refused is Some ==> r == Err::<CreatedSet, Par2Error>(refused->0)
            &&& refused is None && layout_refused is Some ==> r is Err
                && r->Err_0 is InvalidVolumeScheme && r->Err_0->InvalidVolumeScheme_0@
                == layout_refused->0
            &&& refused is None && layout_refused is None && !fits ==> r == Err::<
                CreatedSet,
                Par2Error,
            >(Par2Error::InvalidSliceSize(opts.slice_size))
            &&& refused is None && layout_refused is None && fits ==> {
                &&& r is Ok
                &&& r->Ok_0.index@ == critical
                &&& r->Ok_0.volumes@.len() == sizes.len()
                &&& 0 <= v < sizes.len() ==> {
                    let volume = r->Ok_0.volumes@[v];
                    &&& volume.first_exponent == sum_to(sizes, v as nat)
                    &&& volume.count == sizes[v]
                    &&& volume.bytes@ == volume_file(
                        set_id(opts.slice_size, source_ids(sources))@,
                        critical,
                        input_bases(blocks.len()),
                        sum_to(sizes, v as nat) as nat,
                        sizes[v] as nat,
                        block_slices(contents, blocks, opts.slice_size as nat, blocks.len()),
                        opts.slice_size as nat,
                    )
                }
            }
        }),
{
    if r is Ok && 0 <= v < r->Ok_0.volumes@.len() {
        assert(is_volume(r->Ok_0.volumes@[v], v, opts, sources, contents));
    }
}

} // verus!
