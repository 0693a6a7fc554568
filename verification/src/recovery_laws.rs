//! What holds of the files of a recovery set as a whole.

use crate::create_laws::lemma_volume_determines_slices;
use crate::creator::{
    block_count, blocks_of, critical_packets, input_blocks, is_plan, law_block_numbers,
    law_every_file_has_its_place, lemma_blocks_len, source_ids, CreateOptions, CreatePlan,
};
use crate::encoder::{recovery_packets, volume_file};
use crate::error::{Par2Error, Result};
use crate::file_order::{
    file_order, id_order, lemma_file_order, lemma_id_order_total, lemma_map_multiset,
    lemma_same_items, sorted_ids,
};
use crate::memory::{block_slices, is_created, is_volume, CreatedSet};
use crate::packet::main_packet::{law_set_id_ignores_order, main_packet, set_id};
use crate::packet::recovery::recovery_packet;
use crate::reedsolomon::{input_bases, recovery_slice, MAX_INPUT_BLOCKS};
use crate::source::{law_slices_hold_the_file, padded_slice, valid_slice_size, SourceFile};
use crate::suggestion::scanned_at;
use crate::volumes::{law_copies_act_alike, same_scheme};
use vstd::prelude::*;
use vstd::seq_lib::lemma_sorted_unique;

verus! {

// ---------------------------------------------------------------------------
// The order in which files are given
// ---------------------------------------------------------------------------

/// The files with their contents.
pub open spec fn with_contents(sources: Seq<SourceFile>, contents: Seq<Vec<u8>>) -> Seq<
    (SourceFile, Vec<u8>),
> {
    Seq::new(sources.len(), |i: int| (sources[i], contents[i]))
}

/// No two files have the same id.
pub open spec fn distinct_ids(sources: Seq<SourceFile>) -> bool {
    forall|i: int, j: int|
        0 <= i < j < sources.len() ==> (#[trigger] sources[i]).file_id != (
        #[trigger] sources[j]).file_id
}

/// Files that are the same but for their order have the same ids.
proof fn lemma_same_ids(
    a: Seq<SourceFile>,
    ca: Seq<Vec<u8>>,
    b: Seq<SourceFile>,
    cb: Seq<Vec<u8>>,
)
    requires
        with_contents(a, ca).to_multiset() == with_contents(b, cb).to_multiset(),
    ensures
        a.len() == b.len(),
        source_ids(a).to_multiset() == source_ids(b).to_multiset(),
        sorted_ids(source_ids(a)) == sorted_ids(source_ids(b)),
{
    let x = with_contents(a, ca);
    let y = with_contents(b, cb);
    let f = |p: (SourceFile, Vec<u8>)| p.0.file_id;
    x.to_multiset_ensures();
    y.to_multiset_ensures();
    lemma_map_multiset(x, y, f);
    assert(x.map_values(f) =~= source_ids(a));
    assert(y.map_values(f) =~= source_ids(b));
    lemma_id_order_total();
    source_ids(a).lemma_sort_by_ensures(id_order());
    source_ids(b).lemma_sort_by_ensures(id_order());
    lemma_sorted_unique(sorted_ids(source_ids(a)), sorted_ids(source_ids(b)), id_order());
}

/// Sorted by id, files that are the same but for their order are the same.
proof fn lemma_same_file_in_place(
    a: Seq<SourceFile>,
    ca: Seq<Vec<u8>>,
    b: Seq<SourceFile>,
    cb: Seq<Vec<u8>>,
    k: int,
)
    requires
        with_contents(a, ca).to_multiset() == with_contents(b, cb).to_multiset(),
        distinct_ids(a),
        distinct_ids(b),
        a.len() <= usize::MAX,
        0 <= k < a.len(),
    ensures
        ({
            let i = file_order(source_ids(a))[k];
            let j = file_order(source_ids(b))[k];
            &&& a.len() == b.len()
            &&& i < a.len()
            &&& j < b.len()
            &&& a[i as int] == b[j as int]
            &&& ca[i as int] == cb[j as int]
        }),
{
    let x = with_contents(a, ca);
    let y = with_contents(b, cb);
    lemma_same_ids(a, ca, b, cb);
    lemma_file_order(source_ids(a));
    lemma_file_order(source_ids(b));
    let i = file_order(source_ids(a))[k] as int;
    let j = file_order(source_ids(b))[k] as int;
    assert(source_ids(a)[i] == source_ids(b)[j]);
    assert(x.contains(x[i]));
    lemma_same_items(x, y, x[i]);
    let m = choose|m: int| 0 <= m < y.len() && y[m] == x[i];
    assert(b[m].file_id == b[j].file_id);
    assert(m == j) by {
        if m < j {
            assert(b[m].file_id != b[j].file_id);
        } else if j < m {
            assert(b[j].file_id != b[m].file_id);
        }
    }
}

proof fn lemma_same_slices(
    a: Seq<SourceFile>,
    ca: Seq<Vec<u8>>,
    b: Seq<SourceFile>,
    cb: Seq<Vec<u8>>,
    slice_size: nat,
    n: nat,
)
    requires
        with_contents(a, ca).to_multiset() == with_contents(b, cb).to_multiset(),
        distinct_ids(a),
        distinct_ids(b),
        a.len() <= usize::MAX,
        n <= a.len(),
    ensures
        ({
            let x = blocks_of(a, file_order(source_ids(a)), n);
            let y = blocks_of(b, file_order(source_ids(b)), n);
            &&& x.len() == y.len()
            &&& block_slices(ca, x, slice_size, x.len()) == block_slices(
                cb,
                y,
                slice_size,
                y.len(),
            )
        }),
    decreases n,
{
    let oa = file_order(source_ids(a));
    let ob = file_order(source_ids(b));
    let x = blocks_of(a, oa, n);
    let y = blocks_of(b, ob, n);
    if n > 0 {
        let m = (n - 1) as nat;
        let px = blocks_of(a, oa, m);
        let py = blocks_of(b, ob, m);
        lemma_same_slices(a, ca, b, cb, slice_size, m);
        lemma_same_file_in_place(a, ca, b, cb, m as int);
        let sx = block_slices(ca, x, slice_size, x.len());
        let sy = block_slices(cb, y, slice_size, y.len());
        assert(x.len() == y.len());
        assert forall|t: int| 0 <= t < sx.len() implies #[trigger] sx[t] == sy[t] by {
            if t < px.len() {
                assert(x[t] == px[t] && y[t] == py[t]);
                assert(block_slices(ca, px, slice_size, px.len())[t] == block_slices(
                    cb,
                    py,
                    slice_size,
                    py.len(),
                )[t]);
            }
        }
        assert(sx =~= sy);
    } else {
        assert(block_slices(ca, x, slice_size, 0) =~= block_slices(cb, y, slice_size, 0));
    }
}

/// The order in which files are given does not matter for what can be recovered:
/// the set id, the main packet, the numbering of the input slices and so every
/// recovery packet stay the same.
pub proof fn law_recovery_ignores_order(
    a: Seq<SourceFile>,
    ca: Seq<Vec<u8>>,
    b: Seq<SourceFile>,
    cb: Seq<Vec<u8>>,
    slice_size: u64,
    first_exponent: nat,
    count: nat,
)
    requires
        ca.len() == a.len(),
        cb.len() == b.len(),
        with_contents(a, ca).to_multiset() == with_contents(b, cb).to_multiset(),
        distinct_ids(a),
        a.len() <= usize::MAX,
    ensures
        set_id(slice_size, source_ids(a)) == set_id(slice_size, source_ids(b)),
        main_packet(slice_size, source_ids(a)) == main_packet(slice_size, source_ids(b)),
        block_count(a, a.len()) == block_count(b, b.len()),
        ({
            let x = input_blocks(a);
            let y = input_blocks(b);
            let sx = block_slices(ca, x, slice_size as nat, x.len());
            let sy = block_slices(cb, y, slice_size as nat, y.len());
            &&& x.len() == y.len()
            &&& sx == sy
            &&& recovery_packets(
                set_id(slice_size, source_ids(a))@,
                input_bases(x.len()),
                first_exponent,
                sx,
                slice_size as nat,
                count,
            ) == recovery_packets(
                set_id(slice_size, source_ids(b))@,
                input_bases(y.len()),
                first_exponent,
                sy,
                slice_size as nat,
                count,
            )
        }),
{
    lemma_same_ids(a, ca, b, cb);
    law_set_id_ignores_order(slice_size, source_ids(a), source_ids(b));
    lemma_distinct_ids(a, b);
    lemma_same_slices(a, ca, b, cb, slice_size as nat, a.len());
    lemma_blocks_len(a);
    lemma_blocks_len(b);
}

/// Whether ids are distinct does not depend on their order.
proof fn lemma_distinct_ids(a: Seq<SourceFile>, b: Seq<SourceFile>)
    requires
        source_ids(a).to_multiset() == source_ids(b).to_multiset(),
        distinct_ids(a),
    ensures
        distinct_ids(b),
{
    let x = source_ids(a);
    let y = source_ids(b);
    assert forall|i: int, j: int| 0 <= i < x.len() && 0 <= j < x.len() && i != j implies x[i]
        != x[j] by {
        assert(a[i].file_id == x[i] && a[j].file_id == x[j]);
    }
    assert(x.no_duplicates());
    x.lemma_multiset_has_no_duplicates();
    y.lemma_multiset_has_no_duplicates_conv();
    assert forall|i: int, j: int| 0 <= i < j < b.len() implies (#[trigger] b[i]).file_id != (
    #[trigger] b[j]).file_id by {
        assert(y[i] != y[j]);
    }
}

// ---------------------------------------------------------------------------
// Recovery
// ---------------------------------------------------------------------------

/// How recovery blocks are distributed over volumes changes no recovery packet:
/// those of a longer volume are those of its parts, joined.
pub proof fn law_volumes_join(
    set: Seq<u8>,
    bases: Seq<u16>,
    first_exponent: nat,
    slices: Seq<Seq<u8>>,
    slice_size: nat,
    m: nat,
    n: nat,
)
    ensures
        recovery_packets(set, bases, first_exponent, slices, slice_size, m + n)
            == recovery_packets(set, bases, first_exponent, slices, slice_size, m)
            + recovery_packets(set, bases, first_exponent + m, slices, slice_size, n),
    decreases n,
{
    let head = recovery_packets(set, bases, first_exponent, slices, slice_size, m);
    if n > 0 {
        let k = (n - 1) as nat;
        law_volumes_join(set, bases, first_exponent, slices, slice_size, m, k);
        assert((m + n - 1) as nat == m + k);
        let tail = recovery_packets(set, bases, first_exponent + m, slices, slice_size, k);
        let last = recovery_packet(
            set,
            (first_exponent + m + n - 1) as u16,
            recovery_slice(
                bases,
                (first_exponent + m + n - 1) as nat,
                slices,
                slices.len(),
                slice_size,
            ),
        );
        assert((head + tail) + last =~= head + (tail + last));
    } else {
        assert(head + Seq::<u8>::empty() =~= head);
    }
}

/// The contents are as long as the files were when they were scanned.
pub open spec fn lengths_match(sources: Seq<SourceFile>, contents: Seq<Vec<u8>>) -> bool {
    &&& contents.len() == sources.len()
    &&& forall|i: int|
        0 <= i < sources.len() ==> (#[trigger] contents[i])@.len() == sources[i].length
}

/// The volume file of the given blocks, made of the given contents.
pub open spec fn volume_of(
    slice_size: u64,
    sources: Seq<SourceFile>,
    comments: Seq<String>,
    contents: Seq<Vec<u8>>,
    first_exponent: nat,
    count: nat,
) -> Seq<u8> {
    let blocks = input_blocks(sources);
    volume_file(
        set_id(slice_size, source_ids(sources))@,
        critical_packets(slice_size, sources, comments),
        input_bases(blocks.len()),
        first_exponent,
        count,
        block_slices(contents, blocks, slice_size as nat, blocks.len()),
        slice_size as nat,
    )
}

/// What a volume file is for: as long as no more input blocks are lost than the
/// volume has recovery blocks, the volume file, whose main packet tells which
/// slice is which, leaves only one way to fill the gaps in the files.
pub proof fn law_volume_determines_lost(
    slice_size: u64,
    sources: Seq<SourceFile>,
    comments: Seq<String>,
    first_exponent: nat,
    count: nat,
    a: Seq<Vec<u8>>,
    b: Seq<Vec<u8>>,
    lost: Set<int>,
)
    requires
        valid_slice_size(slice_size),
        sources.len() <= usize::MAX,
        block_count(sources, sources.len()) <= MAX_INPUT_BLOCKS,
        scanned_at(sources, slice_size as int),
        lengths_match(sources, a),
        lengths_match(sources, b),
        lost.finite(),
        lost.len() <= count,
        ({
            let blocks = input_blocks(sources);
            let sa = block_slices(a, blocks, slice_size as nat, blocks.len());
            let sb = block_slices(b, blocks, slice_size as nat, blocks.len());
            forall|i: int| 0 <= i < blocks.len() && !lost.contains(i) ==> #[trigger] sa[i] == sb[i]
        }),
        volume_of(slice_size, sources, comments, a, first_exponent, count) == volume_of(
            slice_size,
            sources,
            comments,
            b,
            first_exponent,
            count,
        ),
    ensures
        forall|i: int| 0 <= i < sources.len() ==> (#[trigger] a[i])@ == b[i]@,
{
    let size = slice_size as nat;
    let blocks = input_blocks(sources);
    let sa = block_slices(a, blocks, size, blocks.len());
    let sb = block_slices(b, blocks, size, blocks.len());
    lemma_blocks_len(sources);
    lemma_volume_determines_slices(
        set_id(slice_size, source_ids(sources))@,
        critical_packets(slice_size, sources, comments),
        first_exponent,
        count,
        sa,
        sb,
        size,
        lost,
    );
    assert forall|i: int| 0 <= i < sources.len() implies (#[trigger] a[i])@ == b[i]@ by {
        let file = i as usize;
        law_every_file_has_its_place(sources, file);
        let order = file_order(source_ids(sources));
        let k = choose|k: int| 0 <= k < sources.len() && #[trigger] order[k] == file;
        let sums = sources[i].slice_checksums;
        assert(b[i]@.len() == sources[i].length);
        assert forall|p: int| 0 <= p < a[i]@.len() implies a[i]@[p] == b[i]@[p] by {
            let q = p / (slice_size as int);
            law_slices_hold_the_file(a[i]@, size, p);
            law_slices_hold_the_file(b[i]@, size, p);
            assert(sums.len() == sums@.len());
            law_block_numbers(sources, k, q);
            let at = blocks_of(sources, order, k as nat).len() + q;
            assert(sa[at] == sb[at]);
            assert(sa[at] == padded_slice(a[i]@, q, size));
            assert(sb[at] == padded_slice(b[i]@, q, size));
        }
        assert(a[i]@ =~= b[i]@);
    }
}

// ---------------------------------------------------------------------------
// What the files depend on
// ---------------------------------------------------------------------------

/// Requests that are the same but for where the files are to be written.
pub open spec fn same_request(a: CreateOptions, b: CreateOptions) -> bool {
    &&& a.slice_size == b.slice_size
    &&& a.recovery_block_count == b.recovery_block_count
    &&& same_scheme(a.volume_scheme, b.volume_scheme)
    &&& a.comments@ == b.comments@
}

/// Errors that say the same.
pub open spec fn same_error(a: Par2Error, b: Par2Error) -> bool {
    a == b || (a is InvalidVolumeScheme && b is InvalidVolumeScheme && a->InvalidVolumeScheme_0@
        == b->InvalidVolumeScheme_0@)
}

/// Files of the same bytes.
pub open spec fn same_set(a: CreatedSet, b: CreatedSet) -> bool {
    &&& a.index@ == b.index@
    &&& a.volumes@.len() == b.volumes@.len()
    &&& forall|v: int|
        0 <= v < a.volumes@.len() ==> {
            &&& (#[trigger] a.volumes@[v]).first_exponent == b.volumes@[v].first_exponent
            &&& a.volumes@[v].count == b.volumes@[v].count
            &&& a.volumes@[v].bytes@ == b.volumes@[v].bytes@
        }
}

/// The files depend on the request, the sources and their contents alone: not on
/// where they are written, nor on whether anyone watches the progress, nor on
/// the kernel that does the arithmetic. The same request comes to the same bytes
/// or to the same error.
pub proof fn law_same_request_same_files(
    r: Result<CreatedSet>,
    s: Result<CreatedSet>,
    a: CreateOptions,
    b: CreateOptions,
    sources: Seq<SourceFile>,
    contents: Seq<Vec<u8>>,
)
    requires
        same_request(a, b),
        is_created(r, a, sources, contents),
        is_created(s, b, sources, contents),
    ensures
        match (r, s) {
            (Ok(x), Ok(y)) => same_set(x, y),
            (Err(x), Err(y)) => same_error(x, y),
            _ => false,
        },
{
    law_copies_act_alike(a.volume_scheme, b.volume_scheme, a.recovery_block_count);
    if r is Ok {
        let x = r->Ok_0;
        let y = s->Ok_0;
        assert forall|v: int| 0 <= v < x.volumes@.len() implies {
            &&& (#[trigger] x.volumes@[v]).first_exponent == y.volumes@[v].first_exponent
            &&& x.volumes@[v].count == y.volumes@[v].count
            &&& x.volumes@[v].bytes@ == y.volumes@[v].bytes@
        } by {
            assert(is_volume(y.volumes@[v], v, b, sources, contents));
        }
    }
}

/// So does the plan: the same request has the same critical packets, blocks and
/// volumes, or fails for the same reason.
pub proof fn law_same_request_same_plan(
    p: CreatePlan,
    q: CreatePlan,
    a: CreateOptions,
    b: CreateOptions,
    sources: Seq<SourceFile>,
)
    requires
        same_request(a, b),
        is_plan(p, a, sources),
        is_plan(q, b, sources),
    ensures
        p.slice_size == q.slice_size,
        p.set_id_hash == q.set_id_hash,
        p.critical_packets@ == q.critical_packets@,
        p.blocks@ == q.blocks@,
        p.sizes@ == q.sizes@,
        match (p.failure, q.failure) {
            (None, None) => true,
            (Some(x), Some(y)) => same_error(x, y),
            _ => false,
        },
{
    law_copies_act_alike(a.volume_scheme, b.volume_scheme, a.recovery_block_count);
}

} // verus!
