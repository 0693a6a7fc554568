//! What holds of every recovery set: its jobs end, its files are sequences of
//! aligned packets, and every volume holds the index.

use crate::bytes::{le32, le64};
use crate::creator::{
    advance, critical_packets, cursor_ok, file_packets, lemma_volume_numbers, progress_of,
    source_ids, Action, BlockRef, CreatePlan, Cursor, JobEvent, Phase,
};
use crate::encoder::{lemma_recovery_slice_len, recovery_packets, volume_file};
use crate::file_order::{lemma_sorted_len, sorted_ids};
use crate::format::{
    law_packet_layout, packet, padded4, TYPE_COMMENT_ASCII, TYPE_COMMENT_UNICODE, TYPE_CREATOR,
    TYPE_FILE_DESC, TYPE_FILE_VERIFY, TYPE_MAIN, TYPE_RECOVERY,
};
use crate::packet::comment::{
    ascii_comment_hash, ascii_comment_packet, ascii_fallback, comment_packets,
    unicode_comment_packet, utf16le,
};
use crate::packet::creator::creator_packet;
use crate::packet::file_desc::{file_desc_body, file_desc_packet};
use crate::packet::file_verify::{file_verify_body, file_verify_packet, lemma_entries_len};
use crate::packet::main_packet::{joined, main_body, main_packet, set_id};
use crate::packet::recovery::{law_recovery_packet_fields, recovery_packet};
use crate::paths::{law_volume_names_differ, volume_name};
use crate::progress::{event_wf, is_tick, ProgressEvent};
use crate::reedsolomon::{input_bases, law_recovery_determines_lost, recovery_slice};
use crate::source::SourceFile;
use crate::volumes::{lemma_sum_monotone, sum_of, sum_to};
use std::path::Path;
use vstd::prelude::*;
use vstd::utf8::is_ascii_chars;

verus! {

// ---------------------------------------------------------------------------
// Jobs
// ---------------------------------------------------------------------------

/// Where a job stands after one step: after `supply` if a slice is being read,
/// else after `next`.
pub open spec fn job_step(
    blocks: Seq<BlockRef>,
    sizes: Seq<u32>,
    failed: bool,
    at: Cursor,
) -> Cursor {
    if at.phase == Phase::Reading {
        Cursor { phase: Phase::Blocks, volume: at.volume, block: (at.block + 1) as usize }
    } else {
        advance(blocks, sizes, failed, at).1
    }
}

/// Where a job stands after `n` steps.
pub open spec fn job_at(
    blocks: Seq<BlockRef>,
    sizes: Seq<u32>,
    failed: bool,
    n: nat,
) -> Cursor
    decreases n,
{
    if n == 0 {
        Cursor { phase: Phase::Start, volume: 0, block: 0 }
    } else {
        job_step(blocks, sizes, failed, job_at(blocks, sizes, failed, (n - 1) as nat))
    }
}

/// The position of a cursor in the course of a job: first the index, then the
/// volumes in order, in each of them the blocks in order, then its file.
pub open spec fn position(blocks: Seq<BlockRef>, sizes: Seq<u32>, at: Cursor) -> int {
    let per_volume = (3 * blocks.len() + 8) as int;
    match at.phase {
        Phase::Start => 0,
        Phase::IndexWritten => 1,
        Phase::NextVolume => 2 + at.volume * per_volume,
        Phase::Blocks => 3 + at.volume * per_volume + 3 * at.block,
        Phase::Opened => 4 + at.volume * per_volume + 3 * at.block,
        Phase::Reading => 5 + at.volume * per_volume + 3 * at.block,
        Phase::Encoded => 6 + at.volume * per_volume + 3 * blocks.len(),
        Phase::Written => 7 + at.volume * per_volume + 3 * blocks.len(),
        Phase::Ended => 3 + sizes.len() * per_volume,
    }
}

/// A job only moves forward: each step takes it to a later position, until it
/// has ended. So nothing is done twice, the index comes before all volumes, and
/// volume by volume the blocks are read in order before the file is written.
pub proof fn law_job_moves_forward(
    blocks: Seq<BlockRef>,
    sizes: Seq<u32>,
    failed: bool,
    at: Cursor,
)
    requires
        blocks.len() <= usize::MAX,
        sizes.len() <= usize::MAX,
        cursor_ok(blocks, sizes, at),
        at.phase != Phase::Ended,
    ensures
        cursor_ok(blocks, sizes, job_step(blocks, sizes, failed, at)),
        position(blocks, sizes, job_step(blocks, sizes, failed, at)) > position(blocks, sizes, at),
        position(blocks, sizes, job_step(blocks, sizes, failed, at)) <= 3 + sizes.len() * (3
            * blocks.len() + 8),
{
    let next = job_step(blocks, sizes, failed, at);
    let per = (3 * blocks.len() + 8) as int;
    assert(at.volume * per <= sizes.len() * per) by (nonlinear_arith)
        requires
            at.volume <= sizes.len(),
            per >= 0,
    ;
    assert((at.volume + 1) * per == at.volume * per + per) by (nonlinear_arith);
    if at.volume < sizes.len() {
        assert((at.volume + 1) * per <= sizes.len() * per) by (nonlinear_arith)
            requires
                at.volume + 1 <= sizes.len(),
                per >= 0,
        ;
    }
}

/// Every job ends: after a bounded number of steps nothing is left to do.
pub proof fn law_job_ends(blocks: Seq<BlockRef>, sizes: Seq<u32>, failed: bool)
    requires
        blocks.len() <= usize::MAX,
        sizes.len() <= usize::MAX,
    ensures
        exists|n: nat|
            n <= 3 + sizes.len() * (3 * blocks.len() + 8) && (#[trigger] job_at(
                blocks,
                sizes,
                failed,
                n,
            )).phase == Phase::Ended,
{
    lemma_job_ends_from(blocks, sizes, failed, 0);
}

proof fn lemma_job_ends_from(blocks: Seq<BlockRef>, sizes: Seq<u32>, failed: bool, n: nat)
    requires
        blocks.len() <= usize::MAX,
        sizes.len() <= usize::MAX,
        cursor_ok(blocks, sizes, job_at(blocks, sizes, failed, n)),
        n <= position(blocks, sizes, job_at(blocks, sizes, failed, n)),
        position(blocks, sizes, job_at(blocks, sizes, failed, n)) <= 3 + sizes.len() * (3
            * blocks.len() + 8),
    ensures
        exists|m: nat|
            m <= 3 + sizes.len() * (3 * blocks.len() + 8) && (#[trigger] job_at(
                blocks,
                sizes,
                failed,
                m,
            )).phase == Phase::Ended,
    decreases 3 + sizes.len() * (3 * blocks.len() + 8) - n,
{
    let at = job_at(blocks, sizes, failed, n);
    if at.phase != Phase::Ended {
        law_job_moves_forward(blocks, sizes, failed, at);
        assert(job_at(blocks, sizes, failed, n + 1) == job_step(blocks, sizes, failed, at));
        lemma_job_ends_from(blocks, sizes, failed, n + 1);
    }
}

/// The first thing a job does is to write the index; that comes even before a
/// layout that cannot be is refused.
pub proof fn law_index_comes_first(blocks: Seq<BlockRef>, sizes: Seq<u32>, failed: bool)
    ensures
        advance(blocks, sizes, failed, job_at(blocks, sizes, failed, 0)).0 == Action::WriteIndex,
        advance(blocks, sizes, failed, job_at(blocks, sizes, failed, 1)).0 == Action::Report(
            JobEvent::IndexWritten,
        ),
        failed ==> advance(blocks, sizes, failed, job_at(blocks, sizes, failed, 2)).0
            == Action::Failed,
{
    reveal_with_fuel(job_at, 3);
}

/// A slice is read from the file that was opened last: when a read is asked for
/// without opening, the block before it was of the same file.
pub proof fn law_reads_are_of_the_open_file(
    blocks: Seq<BlockRef>,
    sizes: Seq<u32>,
    failed: bool,
    at: Cursor,
)
    requires
        cursor_ok(blocks, sizes, at),
        at.phase == Phase::Blocks,
        advance(blocks, sizes, failed, at).0 is ReadSlice,
    ensures
        at.block > 0,
        blocks[at.block as int].file == blocks[at.block - 1].file,
{
}

/// What a job reports makes sense, at every step of every job and after every
/// slice that it is handed.
pub proof fn law_job_reports_make_sense<'a>(
    plan: CreatePlan,
    at: Cursor,
    index: &'a Path,
    volume: &'a Path,
)
    requires
        plan.wf(),
        cursor_ok(plan.blocks@, plan.sizes@, at),
    ensures
        ({
            let action = advance(plan.blocks@, plan.sizes@, plan.failure is Some, at).0;
            action is Report ==> event_wf(progress_of(action->Report_0, index, volume))
        }),
        ({
            let done = at.block + 1;
            let blocks = plan.blocks@.len() as u64;
            at.phase == Phase::Reading && is_tick(done, blocks) ==> event_wf(
                progress_of(
                    JobEvent::EncodeProgress {
                        volume_index: at.volume as u32,
                        input_block_done: done as u64,
                        input_blocks: blocks,
                    },
                    index,
                    volume,
                ),
            )
        }),
{
    lemma_volume_numbers(plan.sizes@);
}

// ---------------------------------------------------------------------------
// Packets
// ---------------------------------------------------------------------------

/// The number that little-endian bytes stand for.
pub open spec fn le_value(s: Seq<u8>) -> nat
    decreases s.len(),
{
    if s.len() == 0 {
        0
    } else {
        s[0] as nat + 256 * le_value(s.skip(1))
    }
}

proof fn lemma_le64_bits(x: u64)
    by (bit_vector)
    ensures
        ((x & 0xFF) as u8) as int + 256 * (((x >> 8) & 0xFF) as u8) + 65536 * (((x >> 16) & 0xFF)
            as u8) + 0x100_0000 * (((x >> 24) & 0xFF) as u8) + 0x1_0000_0000 * (((x >> 32) & 0xFF)
            as u8) + 0x100_0000_0000 * (((x >> 40) & 0xFF) as u8) + 0x1_0000_0000_0000 * (((x
            >> 48) & 0xFF) as u8) + 0x100_0000_0000_0000 * (((x >> 56) & 0xFF) as u8) == x,
{
}

/// A number is read back from its little-endian bytes.
pub proof fn lemma_le64_value(x: u64)
    ensures
        le_value(le64(x)) == x,
{
    let s = le64(x);
    lemma_le64_bits(x);
    reveal_with_fuel(le_value, 9);
    assert(s.skip(1)[0] == s[1]);
    assert(s.skip(1).skip(1)[0] == s[2]);
    assert(s.skip(1).skip(1).skip(1)[0] == s[3]);
    assert(s.skip(1).skip(1).skip(1).skip(1)[0] == s[4]);
    assert(s.skip(1).skip(1).skip(1).skip(1).skip(1)[0] == s[5]);
    assert(s.skip(1).skip(1).skip(1).skip(1).skip(1).skip(1)[0] == s[6]);
    assert(s.skip(1).skip(1).skip(1).skip(1).skip(1).skip(1).skip(1)[0] == s[7]);
    assert(s.skip(1).skip(1).skip(1).skip(1).skip(1).skip(1).skip(1).skip(1).len() == 0);
}

/// The packets of a file, as a reader finds them who follows the length fields.
pub open spec fn walk(file: Seq<u8>) -> Seq<Seq<u8>>
    decreases file.len(),
{
    if file.len() < 64 {
        Seq::empty()
    } else {
        let n = le_value(file.subrange(8, 16));
        if n < 64 || n > file.len() {
            Seq::empty()
        } else {
            seq![file.take(n as int)] + walk(file.skip(n as int))
        }
    }
}

/// `p` is a whole packet: its length field says how long it is.
pub open spec fn is_whole(p: Seq<u8>) -> bool {
    &&& 64 <= p.len() <= u64::MAX
    &&& p.len() % 4 == 0
    &&& le_value(p.subrange(8, 16)) == p.len()
}

/// A framed packet is whole.
pub proof fn lemma_packet_is_whole(set: Seq<u8>, tag: Seq<u8>, body: Seq<u8>)
    requires
        set.len() == 16,
        tag.len() == 16,
        body.len() % 4 == 0,
        64 + body.len() <= u64::MAX,
    ensures
        is_whole(packet(set, tag, body)),
{
    law_packet_layout(set, tag, body);
    lemma_le64_value(packet(set, tag, body).len() as u64);
}

/// A reader who follows the length fields finds a packet, and then what follows
/// it.
pub proof fn law_walk_finds_packet(p: Seq<u8>, rest: Seq<u8>)
    requires
        is_whole(p),
    ensures
        walk(p + rest) == seq![p] + walk(rest),
{
    let file = p + rest;
    assert(file.subrange(8, 16) =~= p.subrange(8, 16));
    assert(file.take(p.len() as int) =~= p);
    assert(file.skip(p.len() as int) =~= rest);
}

/// The packets, one after the other.
pub open spec fn flat(packets: Seq<Seq<u8>>) -> Seq<u8>
    decreases packets.len(),
{
    if packets.len() == 0 {
        Seq::empty()
    } else {
        flat(packets.drop_last()) + packets.last()
    }
}

/// All packets are whole.
pub open spec fn all_whole(packets: Seq<Seq<u8>>) -> bool {
    forall|i: int| 0 <= i < packets.len() ==> is_whole(#[trigger] packets[i])
}

/// A reader who follows the length fields finds exactly the packets that were
/// put one after the other.
pub proof fn law_walk_finds_all_packets(packets: Seq<Seq<u8>>, rest: Seq<u8>)
    requires
        all_whole(packets),
    ensures
        walk(flat(packets) + rest) == packets + walk(rest),
        flat(packets).len() % 4 == 0,
    decreases packets.len(),
{
    if packets.len() == 0 {
        assert(flat(packets) + rest =~= rest);
        assert(packets + walk(rest) =~= walk(rest));
    } else {
        let before = packets.drop_last();
        let last = packets.last();
        assert(flat(packets) + rest =~= flat(before) + (last + rest));
        assert forall|i: int| 0 <= i < before.len() implies is_whole(#[trigger] before[i]) by {
            assert(is_whole(packets[i]));
        }
        law_walk_finds_all_packets(before, last + rest);
        assert(is_whole(packets[packets.len() - 1]));
        law_walk_finds_packet(last, rest);
        assert(before + (seq![last] + walk(rest)) =~= packets + walk(rest));
    }
}

/// Appending to a list of packets appends to its bytes.
pub proof fn lemma_flat_push(packets: Seq<Seq<u8>>, p: Seq<u8>)
    ensures
        flat(packets.push(p)) == flat(packets) + p,
{
    assert(packets.push(p).drop_last() =~= packets);
}

/// Joining lists of packets joins their bytes.
pub proof fn lemma_flat_concat(a: Seq<Seq<u8>>, b: Seq<Seq<u8>>)
    ensures
        flat(a + b) == flat(a) + flat(b),
    decreases b.len(),
{
    if b.len() == 0 {
        assert(a + b =~= a);
        assert(flat(a) + flat(b) =~= flat(a));
    } else {
        lemma_flat_concat(a, b.drop_last());
        assert((a + b).drop_last() =~= a + b.drop_last());
        assert(flat(a) + flat(b) =~= (flat(a) + flat(b.drop_last())) + b.last());
    }
}

// ---------------------------------------------------------------------------
// Files
// ---------------------------------------------------------------------------

/// The description and the verification packet of each of the first `n` files.
pub open spec fn file_list(set: Seq<u8>, sources: Seq<SourceFile>, n: nat) -> Seq<Seq<u8>>
    decreases n,
{
    if n == 0 {
        Seq::empty()
    } else {
        file_list(set, sources, (n - 1) as nat).push(file_desc_packet(set, sources[n - 1])).push(
            file_verify_packet(set, sources[n - 1]),
        )
    }
}

/// The packets of the first `n` comments.
pub open spec fn comment_list(set: Seq<u8>, comments: Seq<String>, n: nat) -> Seq<Seq<u8>>
    decreases n,
{
    if n == 0 {
        Seq::empty()
    } else {
        let text = comments[n - 1]@;
        let ascii = comment_list(set, comments, (n - 1) as nat).push(
            ascii_comment_packet(set, text),
        );
        if is_ascii_chars(text) {
            ascii
        } else {
            ascii.push(unicode_comment_packet(set, text, ascii_comment_hash(set, text)))
        }
    }
}

/// The packets of the index: main packet, two for each file, creator packet,
/// comments.
pub open spec fn index_list(
    slice_size: u64,
    sources: Seq<SourceFile>,
    comments: Seq<String>,
) -> Seq<Seq<u8>> {
    let ids = source_ids(sources);
    let set = set_id(slice_size, ids)@;
    seq![main_packet(slice_size, ids)] + file_list(set, sources, sources.len())
        + seq![creator_packet(set)] + comment_list(set, comments, comments.len())
}

/// The recovery packets of the first `n` blocks of a volume.
pub open spec fn recovery_list(
    set: Seq<u8>,
    bases: Seq<u16>,
    first_exponent: nat,
    slices: Seq<Seq<u8>>,
    slice_size: nat,
    n: nat,
) -> Seq<Seq<u8>>
    decreases n,
{
    if n == 0 {
        Seq::empty()
    } else {
        recovery_list(set, bases, first_exponent, slices, slice_size, (n - 1) as nat).push(
            recovery_packet(
                set,
                (first_exponent + n - 1) as u16,
                recovery_slice(
                    bases,
                    (first_exponent + n - 1) as nat,
                    slices,
                    slices.len(),
                    slice_size,
                ),
            ),
        )
    }
}

/// The packets of a recovery set are short enough for their length fields.
pub open spec fn lengths_fit(sources: Seq<SourceFile>, comments: Seq<String>) -> bool {
    &&& 100 + 16 * sources.len() <= u64::MAX
    &&& forall|i: int|
        0 <= i < sources.len() ==> 200 + (#[trigger] sources[i]).name@.len() <= u64::MAX && 200 + 20
            * sources[i].slice_checksums@.len() <= u64::MAX
    &&& forall|i: int|
        0 <= i < comments.len() ==> 200 + 4 * (#[trigger] comments[i])@.len() <= u64::MAX
}

/// Padding aligns.
proof fn lemma_padded4(s: Seq<u8>)
    ensures
        padded4(s).len() % 4 == 0,
        s.len() <= padded4(s).len() < s.len() + 4,
{
}

proof fn lemma_utf16le_len(text: Seq<char>)
    ensures
        utf16le(text).len() <= 4 * text.len(),
    decreases text.len(),
{
    if text.len() > 0 {
        lemma_utf16le_len(text.drop_last());
    }
}

proof fn lemma_joined_len(ids: Seq<[u8; 16]>, n: nat)
    requires
        n <= ids.len(),
    ensures
        joined(ids, n).len() == 16 * n,
    decreases n,
{
    if n > 0 {
        lemma_joined_len(ids, (n - 1) as nat);
    }
}

proof fn lemma_push_whole(packets: Seq<Seq<u8>>, p: Seq<u8>)
    requires
        all_whole(packets),
        is_whole(p),
    ensures
        all_whole(packets.push(p)),
{
    assert forall|i: int| 0 <= i < packets.push(p).len() implies is_whole(
        #[trigger] packets.push(p)[i],
    ) by {
        if i < packets.len() {
            assert(is_whole(packets[i]));
        }
    }
}

proof fn lemma_concat_whole(a: Seq<Seq<u8>>, b: Seq<Seq<u8>>)
    requires
        all_whole(a),
        all_whole(b),
    ensures
        all_whole(a + b),
{
    assert forall|i: int| 0 <= i < (a + b).len() implies is_whole(#[trigger] (a + b)[i]) by {
        if i < a.len() {
            assert(is_whole(a[i]));
        } else {
            assert(is_whole(b[i - a.len()]));
        }
    }
}

proof fn lemma_file_list(set: Seq<u8>, sources: Seq<SourceFile>, comments: Seq<String>, n: nat)
    requires
        set.len() == 16,
        n <= sources.len(),
        lengths_fit(sources, comments),
    ensures
        flat(file_list(set, sources, n)) == file_packets(set, sources, n),
        all_whole(file_list(set, sources, n)),
    decreases n,
{
    if n > 0 {
        let m = (n - 1) as nat;
        let src = sources[n - 1];
        let before = file_list(set, sources, m);
        let desc = file_desc_packet(set, src);
        let verify = file_verify_packet(set, src);
        lemma_file_list(set, sources, comments, m);
        assert(200 + src.name@.len() <= u64::MAX);
        lemma_padded4(
            src.file_id@ + src.hash_full@ + src.hash16k@ + le64(src.length) + src.name@,
        );
        lemma_packet_is_whole(set, TYPE_FILE_DESC@, file_desc_body(src));
        lemma_entries_len(src.slice_checksums@, src.slice_checksums@.len());
        lemma_packet_is_whole(set, TYPE_FILE_VERIFY@, file_verify_body(src));
        lemma_flat_push(before, desc);
        lemma_flat_push(before.push(desc), verify);
        lemma_push_whole(before, desc);
        lemma_push_whole(before.push(desc), verify);
    }
}

proof fn lemma_comment_list(set: Seq<u8>, sources: Seq<SourceFile>, comments: Seq<String>, n: nat)
    requires
        set.len() == 16,
        n <= comments.len(),
        lengths_fit(sources, comments),
    ensures
        flat(comment_list(set, comments, n)) == comment_packets(set, comments, n),
        all_whole(comment_list(set, comments, n)),
    decreases n,
{
    if n > 0 {
        let m = (n - 1) as nat;
        let text = comments[n - 1]@;
        let before = comment_list(set, comments, m);
        let ascii = ascii_comment_packet(set, text);
        let link = ascii_comment_hash(set, text);
        let unicode = unicode_comment_packet(set, text, link);
        lemma_comment_list(set, sources, comments, m);
        assert(200 + 4 * comments[n - 1]@.len() <= u64::MAX);
        lemma_padded4(ascii_fallback(text));
        lemma_packet_is_whole(set, TYPE_COMMENT_ASCII@, padded4(ascii_fallback(text)));
        lemma_utf16le_len(text);
        lemma_padded4(link + utf16le(text));
        lemma_packet_is_whole(set, TYPE_COMMENT_UNICODE@, padded4(link + utf16le(text)));
        lemma_flat_push(before, ascii);
        lemma_push_whole(before, ascii);
        lemma_flat_push(before.push(ascii), unicode);
        lemma_push_whole(before.push(ascii), unicode);
        assert((flat(before) + ascii) + unicode =~= flat(before) + (ascii + unicode));
    }
}

/// The creator packet is whole.
proof fn lemma_creator_whole(set: Seq<u8>)
    requires
        set.len() == 16,
    ensures
        is_whole(creator_packet(set)),
{
    crate::packet::creator::lemma_creator_bytes();
    let bytes = crate::packet::creator::creator_bytes();
    lemma_padded4(bytes);
    lemma_packet_is_whole(set, TYPE_CREATOR@, padded4(bytes));
}

proof fn lemma_index_list(slice_size: u64, sources: Seq<SourceFile>, comments: Seq<String>)
    requires
        lengths_fit(sources, comments),
    ensures
        flat(index_list(slice_size, sources, comments)) == critical_packets(
            slice_size,
            sources,
            comments,
        ),
        all_whole(index_list(slice_size, sources, comments)),
{
    let ids = source_ids(sources);
    let set = set_id(slice_size, ids)@;
    let main = main_packet(slice_size, ids);
    let files = file_list(set, sources, sources.len());
    let creator = creator_packet(set);
    let notes = comment_list(set, comments, comments.len());
    lemma_sorted_len(ids);
    lemma_joined_len(sorted_ids(ids), ids.len());
    lemma_packet_is_whole(set, TYPE_MAIN@, main_body(slice_size, ids));
    lemma_file_list(set, sources, comments, sources.len());
    lemma_creator_whole(set);
    lemma_comment_list(set, sources, comments, comments.len());
    let none = Seq::<Seq<u8>>::empty();
    assert(none.push(main) =~= seq![main]);
    assert(none.push(creator) =~= seq![creator]);
    lemma_flat_push(none, main);
    lemma_flat_push(none, creator);
    lemma_push_whole(none, main);
    lemma_push_whole(none, creator);
    lemma_flat_concat(seq![main], files);
    lemma_concat_whole(seq![main], files);
    lemma_flat_concat(seq![main] + files, seq![creator]);
    lemma_concat_whole(seq![main] + files, seq![creator]);
    lemma_flat_concat(seq![main] + files + seq![creator], notes);
    lemma_concat_whole(seq![main] + files + seq![creator], notes);
    assert(flat(seq![main]) =~= main);
    assert(flat(seq![creator]) =~= creator);
}

/// The index file is aligned, and a reader who follows the length fields finds
/// in it the main packet, two packets for each file, the creator packet and the
/// comments, and nothing else.
pub proof fn law_index_is_packets(slice_size: u64, sources: Seq<SourceFile>, comments: Seq<String>)
    requires
        lengths_fit(sources, comments),
    ensures
        walk(critical_packets(slice_size, sources, comments)) == index_list(
            slice_size,
            sources,
            comments,
        ),
        critical_packets(slice_size, sources, comments).len() % 4 == 0,
{
    let list = index_list(slice_size, sources, comments);
    let file = critical_packets(slice_size, sources, comments);
    lemma_index_list(slice_size, sources, comments);
    law_walk_finds_all_packets(list, Seq::empty());
    assert(file + Seq::<u8>::empty() =~= file);
    assert(list + walk(Seq::<u8>::empty()) =~= list);
}

proof fn lemma_recovery_list(
    set: Seq<u8>,
    bases: Seq<u16>,
    first_exponent: nat,
    slices: Seq<Seq<u8>>,
    slice_size: nat,
    n: nat,
)
    requires
        set.len() == 16,
        slice_size % 4 == 0,
        slice_size + 100 <= u64::MAX,
    ensures
        flat(recovery_list(set, bases, first_exponent, slices, slice_size, n)) == recovery_packets(
            set,
            bases,
            first_exponent,
            slices,
            slice_size,
            n,
        ),
        all_whole(recovery_list(set, bases, first_exponent, slices, slice_size, n)),
    decreases n,
{
    if n > 0 {
        let m = (n - 1) as nat;
        let e = (first_exponent + n - 1) as nat;
        let slice = recovery_slice(bases, e, slices, slices.len(), slice_size);
        let before = recovery_list(set, bases, first_exponent, slices, slice_size, m);
        let p = recovery_packet(set, e as u16, slice);
        lemma_recovery_list(set, bases, first_exponent, slices, slice_size, m);
        lemma_recovery_slice_len(bases, e, slices, slices.len(), slice_size);
        lemma_packet_is_whole(set, TYPE_RECOVERY@, le32(e as u16 as u32) + slice);
        lemma_flat_push(before, p);
        lemma_push_whole(before, p);
    }
}

/// A volume file is aligned, and a reader who follows the length fields finds in
/// it all packets of the index, the recovery packets in the order of their
/// exponents, and all packets of the index again.
pub proof fn law_volume_is_packets(
    slice_size: u64,
    sources: Seq<SourceFile>,
    comments: Seq<String>,
    bases: Seq<u16>,
    first_exponent: nat,
    count: nat,
    slices: Seq<Seq<u8>>,
)
    requires
        lengths_fit(sources, comments),
        slice_size % 4 == 0,
        slice_size + 100 <= u64::MAX,
    ensures
        ({
            let set = set_id(slice_size, source_ids(sources))@;
            let index = index_list(slice_size, sources, comments);
            let volume = volume_file(
                set,
                critical_packets(slice_size, sources, comments),
                bases,
                first_exponent,
                count,
                slices,
                slice_size as nat,
            );
            &&& walk(volume) == index + recovery_list(
                set,
                bases,
                first_exponent,
                slices,
                slice_size as nat,
                count,
            ) + index
            &&& volume.len() % 4 == 0
        }),
{
    let set = set_id(slice_size, source_ids(sources))@;
    let index = index_list(slice_size, sources, comments);
    let recovery = recovery_list(set, bases, first_exponent, slices, slice_size as nat, count);
    let all = index + recovery + index;
    lemma_index_list(slice_size, sources, comments);
    lemma_recovery_list(set, bases, first_exponent, slices, slice_size as nat, count);
    lemma_flat_concat(index, recovery);
    lemma_flat_concat(index + recovery, index);
    lemma_concat_whole(index, recovery);
    lemma_concat_whole(index + recovery, index);
    law_walk_finds_all_packets(all, Seq::empty());
    assert(flat(all) + Seq::<u8>::empty() =~= flat(all));
    assert(all + walk(Seq::<u8>::empty()) =~= all);
}

/// Every volume holds the whole index, at its start and at its end.
pub proof fn law_volume_holds_index(
    set: Seq<u8>,
    critical: Seq<u8>,
    bases: Seq<u16>,
    first_exponent: nat,
    count: nat,
    slices: Seq<Seq<u8>>,
    slice_size: nat,
)
    ensures
        ({
            let volume = volume_file(
                set,
                critical,
                bases,
                first_exponent,
                count,
                slices,
                slice_size,
            );
            &&& volume.len() >= 2 * critical.len()
            &&& volume.take(critical.len() as int) == critical
            &&& volume.skip(volume.len() - critical.len()) == critical
        }),
{
    let volume = volume_file(set, critical, bases, first_exponent, count, slices, slice_size);
    assert(volume.take(critical.len() as int) =~= critical);
    assert(volume.skip(volume.len() - critical.len()) =~= critical);
}

/// The Unicode packet of a comment begins, after its header, with the MD5 field
/// of the ASCII packet of the same comment.
pub proof fn law_unicode_comment_links_ascii(set: Seq<u8>, text: Seq<char>)
    requires
        set.len() == 16,
    ensures
        unicode_comment_packet(set, text, ascii_comment_hash(set, text)).subrange(64, 80)
            == ascii_comment_packet(set, text).subrange(16, 32),
{
    let ascii = ascii_comment_packet(set, text);
    let link = ascii_comment_hash(set, text);
    let unicode = unicode_comment_packet(set, text, link);
    assert(ascii.subrange(16, 32) =~= link);
    assert(unicode.subrange(64, 80) =~= link);
}

// ---------------------------------------------------------------------------
// Recovery
// ---------------------------------------------------------------------------

/// All slices have the slice size.
pub open spec fn uniform_slices(slices: Seq<Seq<u8>>, slice_size: nat) -> bool {
    forall|i: int| 0 <= i < slices.len() ==> (#[trigger] slices[i]).len() == slice_size
}

proof fn lemma_recovery_packet_parts(set: Seq<u8>, e: u16, a: Seq<u8>, b: Seq<u8>)
    requires
        set.len() == 16,
        recovery_packet(set, e, a) == recovery_packet(set, e, b),
    ensures
        a == b,
{
    crate::format::law_packet_injective(
        set,
        TYPE_RECOVERY@,
        le32(e as u32) + a,
        set,
        TYPE_RECOVERY@,
        le32(e as u32) + b,
    );
    let x = le32(e as u32) + a;
    let y = le32(e as u32) + b;
    assert(a =~= x.skip(4));
    assert(b =~= y.skip(4));
}

/// Equal recovery packets hold equal recovery slices.
proof fn lemma_recovery_packets_determine(
    set: Seq<u8>,
    bases: Seq<u16>,
    first: nat,
    a: Seq<Seq<u8>>,
    b: Seq<Seq<u8>>,
    slice_size: nat,
    n: nat,
)
    requires
        set.len() == 16,
        recovery_packets(set, bases, first, a, slice_size, n) == recovery_packets(
            set,
            bases,
            first,
            b,
            slice_size,
            n,
        ),
    ensures
        forall|r: nat|
            r < n ==> #[trigger] recovery_slice(bases, first + r, a, a.len(), slice_size)
                == recovery_slice(bases, first + r, b, b.len(), slice_size),
    decreases n,
{
    if n > 0 {
        let m = (n - 1) as nat;
        let e = first + m;
        let sa = recovery_slice(bases, e, a, a.len(), slice_size);
        let sb = recovery_slice(bases, e, b, b.len(), slice_size);
        let pa = recovery_packets(set, bases, first, a, slice_size, m);
        let pb = recovery_packets(set, bases, first, b, slice_size, m);
        let la = recovery_packet(set, e as u16, sa);
        let lb = recovery_packet(set, e as u16, sb);
        lemma_recovery_slice_len(bases, e, a, a.len(), slice_size);
        lemma_recovery_slice_len(bases, e, b, b.len(), slice_size);
        assert(la.len() == lb.len());
        assert(pa + la == pb + lb);
        assert((pa + la).len() == pa.len() + la.len());
        assert((pb + lb).len() == pb.len() + lb.len());
        assert(pa.len() == pb.len());
        assert(pa =~= (pa + la).take(pa.len() as int));
        assert(pb =~= (pb + lb).take(pb.len() as int));
        assert(la =~= (pa + la).skip(pa.len() as int));
        assert(lb =~= (pb + lb).skip(pb.len() as int));
        lemma_recovery_packet_parts(set, e as u16, sa, sb);
        lemma_recovery_packets_determine(set, bases, first, a, b, slice_size, m);
        assert forall|r: nat| r < n implies #[trigger] recovery_slice(
            bases,
            first + r,
            a,
            a.len(),
            slice_size,
        ) == recovery_slice(bases, first + r, b, b.len(), slice_size) by {
            if r < m {
            }
        }
    }
}

/// As long as no more input slices are lost than the volume has recovery blocks,
/// the volume file leaves only one way to fill the gaps.
pub proof fn lemma_volume_determines_slices(
    set: Seq<u8>,
    critical: Seq<u8>,
    first_exponent: nat,
    count: nat,
    a: Seq<Seq<u8>>,
    b: Seq<Seq<u8>>,
    slice_size: nat,
    lost: Set<int>,
)
    requires
        set.len() == 16,
        a.len() == b.len(),
        a.len() <= 32768,
        slice_size % 4 == 0,
        uniform_slices(a, slice_size),
        uniform_slices(b, slice_size),
        lost.finite(),
        lost.len() <= count,
        forall|i: int| 0 <= i < a.len() && !lost.contains(i) ==> #[trigger] a[i] == b[i],
        volume_file(
            set,
            critical,
            input_bases(a.len()),
            first_exponent,
            count,
            a,
            slice_size,
        ) == volume_file(
            set,
            critical,
            input_bases(b.len()),
            first_exponent,
            count,
            b,
            slice_size,
        ),
    ensures
        a == b,
{
    let bases = input_bases(a.len());
    let pa = recovery_packets(set, bases, first_exponent, a, slice_size, count);
    let pb = recovery_packets(set, bases, first_exponent, b, slice_size, count);
    let va = critical + pa + critical;
    let vb = critical + pb + critical;
    assert(va.len() == 2 * critical.len() + pa.len());
    assert(vb.len() == 2 * critical.len() + pb.len());
    assert(pa =~= va.subrange(critical.len() as int, (critical.len() + pa.len()) as int));
    assert(pb =~= vb.subrange(critical.len() as int, (critical.len() + pb.len()) as int));
    lemma_recovery_packets_determine(set, bases, first_exponent, a, b, slice_size, count);
    law_recovery_determines_lost(a, b, first_exponent, slice_size, lost);
}

/// The volume files of a layout all have different names.
pub proof fn law_volume_files_have_different_names(
    sizes: Seq<u32>,
    stem: Seq<char>,
    extension: Seq<char>,
    v: int,
    w: int,
)
    requires
        forall|i: int| 0 <= i < sizes.len() ==> #[trigger] sizes[i] > 0,
        sum_of(sizes) <= 65535,
        0 <= v < w < sizes.len(),
    ensures
        volume_name(stem, sum_to(sizes, v as nat) as u16, sizes[v], extension) != volume_name(
            stem,
            sum_to(sizes, w as nat) as u16,
            sizes[w],
            extension,
        ),
{
    lemma_sum_monotone(sizes, v as nat, sizes.len());
    lemma_sum_monotone(sizes, (v + 1) as nat, w as nat);
    lemma_sum_monotone(sizes, w as nat, sizes.len());
    assert(sum_to(sizes, (v + 1) as nat) == sum_to(sizes, v as nat) + sizes[v]);
    let fv = sum_to(sizes, v as nat) as u16;
    let fw = sum_to(sizes, w as nat) as u16;
    if volume_name(stem, fv, sizes[v], extension) == volume_name(stem, fw, sizes[w], extension) {
        law_volume_names_differ(stem, extension, fv, sizes[v], fw, sizes[w]);
    }
}

// ---------------------------------------------------------------------------
// What pins the files and the job down
// ---------------------------------------------------------------------------

proof fn lemma_file_packets_at(set: Seq<u8>, sources: Seq<SourceFile>, n: nat, i: int)
    requires
        0 <= i < n <= sources.len(),
    ensures
        ({
            let all = file_packets(set, sources, n);
            let at = file_packets(set, sources, i as nat).len() as int;
            let desc = file_desc_packet(set, sources[i]);
            let verify = file_verify_packet(set, sources[i]);
            &&& at + desc.len() + verify.len() <= all.len()
            &&& all.subrange(at, at + desc.len()) == desc
            &&& all.subrange(at + desc.len(), at + desc.len() + verify.len()) == verify
        }),
    decreases n,
{
    let all = file_packets(set, sources, n);
    let before = file_packets(set, sources, (n - 1) as nat);
    let at = file_packets(set, sources, i as nat).len() as int;
    let desc = file_desc_packet(set, sources[i]);
    let verify = file_verify_packet(set, sources[i]);
    if i < n - 1 {
        lemma_file_packets_at(set, sources, (n - 1) as nat, i);
        assert(all.subrange(at, at + desc.len()) =~= before.subrange(at, at + desc.len()));
        assert(all.subrange(at + desc.len(), at + desc.len() + verify.len()) =~= before.subrange(
            at + desc.len(),
            at + desc.len() + verify.len(),
        ));
    } else {
        assert(all.subrange(at, at + desc.len()) =~= desc);
        assert(all.subrange(at + desc.len(), at + desc.len() + verify.len()) =~= verify);
    }
}

/// What the index holds, from its first byte to its last: the main packet of the
/// ids of all files; for each file in turn its description and its verification
/// packet; the creator packet; the packets of the comments. All carry the id of the
/// set.
pub proof fn law_index_parts(
    slice_size: u64,
    sources: Seq<SourceFile>,
    comments: Seq<String>,
    ids: Seq<[u8; 16]>,
    i: int,
)
    requires
        ids.len() == sources.len(),
        forall|k: int| 0 <= k < ids.len() ==> #[trigger] ids[k] == sources[k].file_id,
    ensures
        ({
            let index = critical_packets(slice_size, sources, comments);
            let set = set_id(slice_size, ids)@;
            let m = main_packet(slice_size, ids).len() as int;
            let end = m + file_packets(set, sources, sources.len()).len();
            let c = creator_packet(set).len() as int;
            &&& index.take(m) == main_packet(slice_size, ids)
            &&& file_packets(set, sources, 0).len() == 0
            &&& 0 <= i < sources.len() ==> {
                let desc = file_desc_packet(set, sources[i]);
                let verify = file_verify_packet(set, sources[i]);
                let at = m + file_packets(set, sources, i as nat).len();
                &&& index.subrange(at, at + desc.len()) == desc
                &&& index.subrange(at + desc.len(), at + desc.len() + verify.len()) == verify
                &&& m + file_packets(set, sources, (i + 1) as nat).len() == at + desc.len()
                    + verify.len()
            }
            &&& index.subrange(end, end + c) == creator_packet(set)
            &&& index.skip(end + c) == comment_packets(set, comments, comments.len())
        }),
{
    assert(source_ids(sources) =~= ids);
    let index = critical_packets(slice_size, sources, comments);
    let set = set_id(slice_size, ids)@;
    let main = main_packet(slice_size, ids);
    let files = file_packets(set, sources, sources.len());
    let creator = creator_packet(set);
    let notes = comment_packets(set, comments, comments.len());
    let m = main.len() as int;
    let end = m + files.len();
    lemma_parts(main, files, creator, notes);
    if 0 <= i < sources.len() {
        let desc = file_desc_packet(set, sources[i]);
        let verify = file_verify_packet(set, sources[i]);
        let f = file_packets(set, sources, i as nat).len() as int;
        lemma_file_packets_at(set, sources, sources.len(), i);
        lemma_sub_subrange(index, files, m, f, f + desc.len());
        lemma_sub_subrange(index, files, m, f + desc.len(), f + desc.len() + verify.len());
    }
}

proof fn lemma_parts(a: Seq<u8>, b: Seq<u8>, c: Seq<u8>, d: Seq<u8>)
    ensures
        ({
            let s = a + b + c + d;
            let m = a.len() as int;
            let n = m + b.len();
            &&& s.take(m) == a
            &&& s.subrange(m, n) == b
            &&& s.subrange(n, n + c.len()) == c
            &&& s.skip(n + c.len()) == d
        }),
{
    let s = a + b + c + d;
    let m = a.len() as int;
    let n = m + b.len();
    assert(s.take(m) =~= a);
    assert(s.subrange(m, n) =~= b);
    assert(s.subrange(n, n + c.len()) =~= c);
    assert(s.skip(n + c.len()) =~= d);
}

proof fn lemma_sub_subrange(s: Seq<u8>, part: Seq<u8>, m: int, from: int, to: int)
    requires
        0 <= m,
        m + part.len() <= s.len(),
        s.subrange(m, m + part.len()) == part,
        0 <= from <= to <= part.len(),
    ensures
        s.subrange(m + from, m + to) == part.subrange(from, to),
{
    assert forall|i: int| 0 <= i < to - from implies s.subrange(m + from, m + to)[i]
        == part.subrange(from, to)[i] by {
        assert(s.subrange(m, m + part.len())[from + i] == part[from + i]);
    }
    assert(s.subrange(m + from, m + to) =~= part.subrange(from, to));
}

proof fn lemma_recovery_packet_at(
    set: Seq<u8>,
    bases: Seq<u16>,
    first_exponent: nat,
    slices: Seq<Seq<u8>>,
    slice_size: nat,
    n: nat,
    r: int,
)
    requires
        set.len() == 16,
        slice_size <= 0xFFFF_FFFF_FFFF_FF00,
    ensures
        recovery_packets(set, bases, first_exponent, slices, slice_size, n).len() == n * (68
            + slice_size),
        0 <= r < n ==> recovery_packets(
            set,
            bases,
            first_exponent,
            slices,
            slice_size,
            n,
        ).subrange(r * (68 + slice_size), r * (68 + slice_size) + 68 + slice_size)
            == recovery_packet(
            set,
            (first_exponent + r) as u16,
            recovery_slice(bases, (first_exponent + r) as nat, slices, slices.len(), slice_size),
        ),
    decreases n,
{
    let size = (68 + slice_size) as int;
    if n > 0 {
        let m = (n - 1) as nat;
        let e = (first_exponent + n - 1) as nat;
        let slice = recovery_slice(bases, e, slices, slices.len(), slice_size);
        let before = recovery_packets(set, bases, first_exponent, slices, slice_size, m);
        let last = recovery_packet(set, e as u16, slice);
        let all = before + last;
        lemma_recovery_packet_at(set, bases, first_exponent, slices, slice_size, m, r);
        lemma_recovery_slice_len(bases, e, slices, slices.len(), slice_size);
        law_recovery_packet_fields(set, e as u16, slice);
        assert(m * size + size == n * size) by (nonlinear_arith)
            requires
                m == n - 1,
        ;
        if 0 <= r < m {
            assert(r * size + size <= m * size) by (nonlinear_arith)
                requires
                    r + 1 <= m,
                    size > 0,
            ;
            assert(r * size >= 0) by (nonlinear_arith)
                requires
                    r >= 0,
                    size > 0,
            ;
            assert(all.subrange(r * size, r * size + size) =~= before.subrange(
                r * size,
                r * size + size,
            ));
        } else if r == m {
            assert(all.subrange(r * size, r * size + size) =~= last);
        }
    } else {
        assert(n * size == 0) by (nonlinear_arith)
            requires
                n == 0,
        ;
    }
}

/// What a volume file holds, from its first byte to its last: the critical packets;
/// recovery packets of the same size, the `r`-th with the first exponent plus `r`
/// and the recovery slice of that exponent over all slices; the critical packets
/// again.
pub proof fn law_volume_parts(
    set: Seq<u8>,
    critical: Seq<u8>,
    bases: Seq<u16>,
    first_exponent: nat,
    count: nat,
    slices: Seq<Seq<u8>>,
    slice_size: nat,
    r: int,
)
    requires
        set.len() == 16,
        slice_size <= 0xFFFF_FFFF_FFFF_FF00,
        0 <= r < count,
    ensures
        ({
            let volume = volume_file(set, critical, bases, first_exponent, count, slices, slice_size);
            let c = critical.len() as int;
            let at = c + r * (68 + slice_size);
            &&& volume.len() == 2 * c + count * (68 + slice_size)
            &&& volume.take(c) == critical
            &&& volume.skip(volume.len() - c) == critical
            &&& volume.subrange(at, at + 68 + slice_size) == recovery_packet(
                set,
                (first_exponent + r) as u16,
                recovery_slice(bases, (first_exponent + r) as nat, slices, slices.len(), slice_size),
            )
        }),
{
    let volume = volume_file(set, critical, bases, first_exponent, count, slices, slice_size);
    let packets = recovery_packets(set, bases, first_exponent, slices, slice_size, count);
    let c = critical.len() as int;
    let size = (68 + slice_size) as int;
    lemma_recovery_packet_at(set, bases, first_exponent, slices, slice_size, count, r);
    law_volume_holds_index(set, critical, bases, first_exponent, count, slices, slice_size);
    assert(r * size >= 0 && r * size + size <= count * size) by (nonlinear_arith)
        requires
            0 <= r < count,
            size > 0,
    ;
    assert(volume.subrange(c, c + packets.len()) =~= packets);
    lemma_sub_subrange(volume, packets, c, r * size, r * size + size);
}

/// What a job does where it stands. It writes the index and reports that; then for
/// each volume it reports the start with the numbers of the volume, opens each file
/// when its first slice comes, has every block read, reports the end, has the
/// volume written under its first exponent and its number of blocks, and reports
/// that. Where there can be no volumes it fails instead of starting one.
pub proof fn law_job_actions(blocks: Seq<BlockRef>, sizes: Seq<u32>, failed: bool, at: Cursor)
    requires
        cursor_ok(blocks, sizes, at),
        sizes.len() < usize::MAX,
        sizes.len() <= u32::MAX,
        blocks.len() <= u64::MAX,
    ensures
        ({
            let (action, next) = advance(blocks, sizes, failed, at);
            let v = at.volume;
            let b = at.block;
            let (phase, volume, block) = (next.phase, next.volume, next.block);
            match at.phase {
                Phase::Start => action is WriteIndex && phase is IndexWritten && volume == v,
                Phase::IndexWritten => {
                    &&& action == Action::Report(JobEvent::IndexWritten)
                    &&& phase is NextVolume
                    &&& volume == v
                },
                Phase::NextVolume => if failed {
                    action is Failed && phase is Ended
                } else if v == sizes.len() {
                    action is Finished && phase is Ended
                } else {
                    &&& action is Report
                    &&& action->Report_0 is EncodeStarted
                    &&& action->Report_0->EncodeStarted_volume_index == v
                    &&& action->Report_0->total_volumes == sizes.len()
                    &&& action->Report_0->EncodeStarted_input_blocks == blocks.len()
                    &&& action->Report_0->recovery_blocks == sizes[v as int]
                    &&& phase is Blocks
                    &&& volume == v
                    &&& block == 0
                },
                Phase::Blocks => if b == blocks.len() {
                    &&& action is Report
                    &&& action->Report_0 is EncodeCompleted
                    &&& action->Report_0->EncodeCompleted_volume_index == v
                    &&& phase is Encoded
                    &&& volume == v
                } else if b == 0 || blocks[b as int].file != blocks[b - 1].file {
                    &&& action is OpenFile
                    &&& action->OpenFile_file == blocks[b as int].file
                    &&& phase is Opened
                    &&& volume == v
                    &&& block == b
                } else {
                    &&& action is ReadSlice
                    &&& action->ReadSlice_file == blocks[b as int].file
                    &&& action->slice == blocks[b as int].slice
                    &&& phase is Reading
                    &&& volume == v
                    &&& block == b
                },
                Phase::Opened => {
                    &&& action is ReadSlice
                    &&& action->ReadSlice_file == blocks[b as int].file
                    &&& action->slice == blocks[b as int].slice
                    &&& phase is Reading
                    &&& volume == v
                    &&& block == b
                },
                Phase::Reading => true,
                Phase::Encoded => {
                    &&& action is WriteVolume
                    &&& action->WriteVolume_volume_index == v
                    &&& sum_to(sizes, v as nat) <= 65535 && sum_to(sizes, v as nat) >= 0
                        ==> action->first_exponent == sum_to(sizes, v as nat)
                    &&& action->count == sizes[v as int]
                    &&& phase is Written
                    &&& volume == v
                },
                Phase::Written => {
                    &&& action is Report
                    &&& action->Report_0 is VolumeWritten
                    &&& action->Report_0->VolumeWritten_volume_index == v
                    &&& phase is NextVolume
                    &&& volume == v + 1
                },
                Phase::Ended => phase is Ended && (if failed {
                    action is Failed
                } else {
                    action is Finished
                }),
            }
        }),
{
}

/// What a report of a job becomes for a reporter: the event of the same name with
/// the same numbers, and the path of the file that was written.
pub proof fn law_job_reports_are_passed_on<'a>(event: JobEvent, index: &'a Path, volume: &'a Path)
    ensures
        match (event, progress_of(event, index, volume)) {
            (JobEvent::IndexWritten, ProgressEvent::IndexWritten { path }) => path == index,
            (
                JobEvent::EncodeStarted { volume_index, total_volumes, input_blocks, recovery_blocks },
                ProgressEvent::EncodeStarted {
                    volume_index: v,
                    total_volumes: t,
                    input_blocks: b,
                    recovery_blocks: r,
                },
            ) => v == volume_index && t == total_volumes && b == input_blocks && r
                == recovery_blocks,
            (
                JobEvent::EncodeProgress { volume_index, input_block_done, input_blocks },
                ProgressEvent::EncodeProgress {
                    volume_index: v,
                    input_block_done: d,
                    input_blocks: b,
                },
            ) => v == volume_index && d == input_block_done && b == input_blocks,
            (
                JobEvent::EncodeCompleted { volume_index },
                ProgressEvent::EncodeCompleted { volume_index: v },
            ) => v == volume_index,
            (JobEvent::VolumeWritten { volume_index: _ }, ProgressEvent::VolumeWritten { path }) => path
                == volume,
            _ => false,
        },
{
}

} // verus!
