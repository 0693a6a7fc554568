//! The main packet, which names the files of a recovery set and gives the set
//! its id.

use crate::bytes::{law_le32, law_le64, le32, le64, put_bytes, put_le32, put_le64};
use crate::file_order::{
    file_order, id_order, lemma_file_order, lemma_id_order_total, lemma_sorted_len, order_files,
    sorted_ids,
};
use crate::format::{build_packet, law_packet_fields, md5_of, packet, Md5Hash, TYPE_MAIN};
use crate::md5_impl::{lemma_md5_digest, md5_digest};
use crate::md5_mb_neon::rfc1321_digest;
use vstd::prelude::*;
use vstd::seq_lib::lemma_sorted_unique;

verus! {

/// The first `n` digests, one after the other.
pub open spec fn joined(ids: Seq<[u8; 16]>, n: nat) -> Seq<u8>
    decreases n,
{
    if n == 0 {
        Seq::empty()
    } else {
        joined(ids, (n - 1) as nat) + ids[n - 1]@
    }
}

/// The body of the main packet: the slice size, the number of files, and the
/// file ids in ascending order.
pub open spec fn main_body(slice_size: u64, ids: Seq<[u8; 16]>) -> Seq<u8> {
    le64(slice_size) + le32(ids.len() as u32) + joined(sorted_ids(ids), ids.len())
}

/// The id of a recovery set: the MD5 of the body of its main packet.
pub open spec fn set_id(slice_size: u64, ids: Seq<[u8; 16]>) -> [u8; 16] {
    md5_digest(main_body(slice_size, ids))
}

/// The main packet of a recovery set.
pub open spec fn main_packet(slice_size: u64, ids: Seq<[u8; 16]>) -> Seq<u8> {
    packet(set_id(slice_size, ids)@, TYPE_MAIN@, main_body(slice_size, ids))
}

/// A main packet and the set id that follows from it.
pub struct MainPacket {
    pub bytes: Vec<u8>,
    pub set_id_hash: Md5Hash,
}

/// Build the main packet from the ids of all files.
pub fn build_main_packet(slice_size: u64, file_ids: &[Md5Hash]) -> (main: MainPacket)
    ensures
        main.set_id_hash == set_id(slice_size, file_ids@),
        main.bytes@ == main_packet(slice_size, file_ids@),
{
    let order: Vec<usize> = order_files(file_ids);
    let ghost sorted = sorted_ids(file_ids@);
    proof {
        assert(file_ids.len() == file_ids@.len());
        lemma_file_order(file_ids@);
        lemma_sorted_len(file_ids@);
    }
    let mut body: Vec<u8> = Vec::new();
    put_le64(&mut body, slice_size);
    put_le32(&mut body, order.len() as u32);
    let ghost head = body@;
    assert(body@ =~= head + joined(sorted, 0));
    let mut i: usize = 0;
    while i < order.len()
        invariant
            i <= order@.len(),
            order@ == file_order(file_ids@),
            sorted == sorted_ids(file_ids@),
            order@.len() == file_ids@.len(),
            forall|k: int|
                0 <= k < order@.len() ==> #[trigger] order@[k] < file_ids@.len()
                    && file_ids@[order@[k] as int] == sorted[k],
            body@ == head + joined(sorted, i as nat),
            head.len() == 12,
            body@.len() == 12 + 16 * i,
        decreases order@.len() - i,
    {
        put_bytes(&mut body, &file_ids[order[i]]);
        i = i + 1;
        assert(body@ =~= head + joined(sorted, i as nat));
    }
    assert(body@ =~= main_body(slice_size, file_ids@));
    let set_id_hash: Md5Hash = md5_of(&body);
    let bytes: Vec<u8> = build_packet(&set_id_hash, &TYPE_MAIN, &body);
    MainPacket { bytes, set_id_hash }
}

/// The order in which files are given does not matter: two lists of the same ids
/// give the same main packet and the same set id.
pub proof fn law_set_id_ignores_order(slice_size: u64, a: Seq<[u8; 16]>, b: Seq<[u8; 16]>)
    requires
        a.to_multiset() == b.to_multiset(),
    ensures
        main_packet(slice_size, a) == main_packet(slice_size, b),
        set_id(slice_size, a) == set_id(slice_size, b),
{
    lemma_id_order_total();
    a.lemma_sort_by_ensures(id_order());
    b.lemma_sort_by_ensures(id_order());
    lemma_sorted_unique(sorted_ids(a), sorted_ids(b), id_order());
    a.to_multiset_ensures();
    b.to_multiset_ensures();
}

proof fn lemma_joined(ids: Seq<[u8; 16]>, n: nat, k: int)
    requires
        n <= ids.len(),
    ensures
        joined(ids, n).len() == 16 * n,
        0 <= k < n ==> joined(ids, n).subrange(16 * k, 16 * k + 16) == ids[k]@,
    decreases n,
{
    if n > 0 {
        let before = joined(ids, (n - 1) as nat);
        let all = joined(ids, n);
        lemma_joined(ids, (n - 1) as nat, k);
        if 0 <= k < n - 1 {
            assert(all.subrange(16 * k, 16 * k + 16) =~= before.subrange(16 * k, 16 * k + 16));
        } else if k == n - 1 {
            assert(all.subrange(16 * k, 16 * k + 16) =~= ids[k]@);
        }
    }
}

/// Where the fields of the main packet lie: the type `PAR 2.0`, NUL, `Main` and
/// NULs; the slice size; the number of files; the id of the `k`-th file in
/// ascending order, 16 bytes further each. The set id is the MD5 of the body.
pub proof fn law_main_packet_fields(slice_size: u64, ids: Seq<[u8; 16]>, k: int)
    requires
        ids.len() <= u32::MAX,
        0 <= k < ids.len(),
    ensures
        ({
            let p = main_packet(slice_size, ids);
            &&& p.len() == 76 + 16 * ids.len()
            &&& set_id(slice_size, ids)@ == rfc1321_digest(p.skip(64))
            &&& p.subrange(32, 48) == rfc1321_digest(p.skip(64))
            &&& p.subrange(48, 64) == seq![
                0x50u8, 0x41, 0x52, 0x20, 0x32, 0x2e, 0x30, 0, 0x4d, 0x61, 0x69, 0x6e, 0, 0, 0, 0,
            ]
            &&& p[64] + 0x100 * p[65] + 0x1_0000 * p[66] + 0x100_0000 * p[67] + 0x1_0000_0000
                * p[68] + 0x100_0000_0000 * p[69] + 0x1_0000_0000_0000 * p[70]
                + 0x100_0000_0000_0000 * p[71] == slice_size
            &&& p[72] + 0x100 * p[73] + 0x1_0000 * p[74] + 0x100_0000 * p[75] == ids.len()
            &&& p.subrange(76 + 16 * k, 92 + 16 * k) == sorted_ids(ids)[k]@
        }),
{
    let p = main_packet(slice_size, ids);
    let body = main_body(slice_size, ids);
    let list = joined(sorted_ids(ids), ids.len());
    lemma_sorted_len(ids);
    lemma_joined(sorted_ids(ids), ids.len(), k);
    law_le64(slice_size);
    law_le32(ids.len() as u32);
    law_packet_fields(set_id(slice_size, ids)@, TYPE_MAIN@, body);
    lemma_md5_digest(body);
    assert(p.skip(64) == body);
    assert forall|j: int| 64 <= j < p.len() implies #[trigger] p[j] == body[j - 64] by {
        assert(p[j] == p.skip(64)[j - 64]);
    }
    assert(p.subrange(48, 64) =~= seq![
        0x50u8, 0x41, 0x52, 0x20, 0x32, 0x2e, 0x30, 0, 0x4d, 0x61, 0x69, 0x6e, 0, 0, 0, 0,
    ]);
    assert forall|j: int| 0 <= j < 8 implies #[trigger] body[j] == le64(slice_size)[j] by {
    }
    assert(le64(slice_size)[0] == p[64] && le64(slice_size)[1] == p[65]);
    assert(le64(slice_size)[2] == p[66] && le64(slice_size)[3] == p[67]);
    assert(le64(slice_size)[4] == p[68] && le64(slice_size)[5] == p[69]);
    assert(le64(slice_size)[6] == p[70] && le64(slice_size)[7] == p[71]);
    let n = ids.len() as u32;
    assert(body[8] == le32(n)[0] && body[9] == le32(n)[1]);
    assert(body[10] == le32(n)[2] && body[11] == le32(n)[3]);
    assert(p[72] == body[8] && p[73] == body[9] && p[74] == body[10] && p[75] == body[11]);
    assert(p.subrange(76 + 16 * k, 92 + 16 * k) =~= list.subrange(16 * k, 16 * k + 16));
}

} // verus!
