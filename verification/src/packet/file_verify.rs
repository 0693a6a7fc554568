//! The file verification packet, with the checksums of a file's slices.

use crate::bytes::{law_le32, le32, put_bytes, put_le32};
use crate::format::{build_packet, law_packet_fields, packet, Md5Hash, TYPE_FILE_VERIFY};
use crate::source::{SliceChecksum, SourceFile};
use vstd::prelude::*;

verus! {

/// The entries of the first `n` slices: MD5 and CRC-32 of each.
pub open spec fn checksum_entries(sums: Seq<SliceChecksum>, n: nat) -> Seq<u8>
    decreases n,
{
    if n == 0 {
        Seq::empty()
    } else {
        checksum_entries(sums, (n - 1) as nat) + sums[n - 1].md5@ + le32(sums[n - 1].crc32)
    }
}

/// The body of a file verification packet: the file id, and one entry for each
/// slice.
pub open spec fn file_verify_body(src: SourceFile) -> Seq<u8> {
    src.file_id@ + checksum_entries(src.slice_checksums@, src.slice_checksums@.len())
}

/// The file verification packet of a file.
pub open spec fn file_verify_packet(set_id: Seq<u8>, src: SourceFile) -> Seq<u8> {
    packet(set_id, TYPE_FILE_VERIFY@, file_verify_body(src))
}

/// Build the file verification packet of a file.
pub fn build_file_verify_packet(set_id_hash: &Md5Hash, src: &SourceFile) -> (out: Vec<u8>)
    ensures
        out@ == file_verify_packet(set_id_hash@, *src),
{
    let mut body: Vec<u8> = Vec::new();
    put_bytes(&mut body, &src.file_id);
    let mut i: usize = 0;
    assert(body@ =~= src.file_id@ + checksum_entries(src.slice_checksums@, 0));
    while i < src.slice_checksums.len()
        invariant
            i <= src.slice_checksums@.len(),
            body@ == src.file_id@ + checksum_entries(src.slice_checksums@, i as nat),
            body@.len() == 16 + 20 * i,
        decreases src.slice_checksums@.len() - i,
    {
        let sum: &SliceChecksum = &src.slice_checksums[i];
        put_bytes(&mut body, &sum.md5);
        put_le32(&mut body, sum.crc32);
        i = i + 1;
        assert(body@ =~= src.file_id@ + checksum_entries(src.slice_checksums@, i as nat));
    }
    build_packet(set_id_hash, &TYPE_FILE_VERIFY, &body)
}

/// Entry `i` stands at offset `16 + 20 * i` of the body.
pub proof fn law_checksum_entry_offset(src: SourceFile, i: int)
    requires
        0 <= i < src.slice_checksums@.len(),
    ensures
        file_verify_body(src).len() == 16 + 20 * src.slice_checksums@.len(),
        file_verify_body(src).subrange(16 + 20 * i, 32 + 20 * i) == src.slice_checksums@[i].md5@,
        file_verify_body(src).subrange(32 + 20 * i, 36 + 20 * i) == le32(
            src.slice_checksums@[i].crc32,
        ),
{
    lemma_entry_offset(src.slice_checksums@, src.slice_checksums@.len(), i);
    let body = file_verify_body(src);
    let entries = checksum_entries(src.slice_checksums@, src.slice_checksums@.len());
    assert(body.subrange(16 + 20 * i, 32 + 20 * i) =~= entries.subrange(20 * i, 20 * i + 16));
    assert(body.subrange(32 + 20 * i, 36 + 20 * i) =~= entries.subrange(20 * i + 16, 20 * i + 20));
}

/// Each entry takes 20 bytes.
pub proof fn lemma_entries_len(sums: Seq<SliceChecksum>, n: nat)
    requires
        n <= sums.len(),
    ensures
        checksum_entries(sums, n).len() == 20 * n,
{
    lemma_entry_offset(sums, n, 0);
}

proof fn lemma_entry_offset(sums: Seq<SliceChecksum>, n: nat, i: int)
    requires
        n <= sums.len(),
    ensures
        checksum_entries(sums, n).len() == 20 * n,
        0 <= i < n ==> checksum_entries(sums, n).subrange(20 * i, 20 * i + 16) == sums[i].md5@,
        0 <= i < n ==> checksum_entries(sums, n).subrange(20 * i + 16, 20 * i + 20) == le32(
            sums[i].crc32,
        ),
    decreases n,
{
    if n > 0 {
        let before = checksum_entries(sums, (n - 1) as nat);
        let all = checksum_entries(sums, n);
        lemma_entry_offset(sums, (n - 1) as nat, i);
        if 0 <= i < n - 1 {
            assert(all.subrange(20 * i, 20 * i + 16) =~= before.subrange(20 * i, 20 * i + 16));
            assert(all.subrange(20 * i + 16, 20 * i + 20) =~= before.subrange(
                20 * i + 16,
                20 * i + 20,
            ));
        } else if i == n - 1 {
            assert(all.subrange(20 * i, 20 * i + 16) =~= sums[i].md5@);
            assert(all.subrange(20 * i + 16, 20 * i + 20) =~= le32(sums[i].crc32));
        }
    }
}

/// Where the fields of a file verification lie, in the packet of every file: the
/// type `PAR 2.0`, NUL, `IFSC` and NULs; the file id; and for slice `i`, 20 bytes
/// further each, its MD5 and its CRC-32.
pub proof fn law_file_verify_fields(set_id: Seq<u8>, src: SourceFile, i: int)
    requires
        set_id.len() == 16,
        src.slice_checksums@.len() <= 0xFFFF_FFFF_FFFF,
        0 <= i < src.slice_checksums@.len(),
    ensures
        ({
            let p = file_verify_packet(set_id, src);
            let at = 80 + 20 * i;
            &&& p.len() == 80 + 20 * src.slice_checksums@.len()
            &&& p.subrange(32, 48) == set_id
            &&& p.subrange(48, 64) == seq![
                0x50u8, 0x41, 0x52, 0x20, 0x32, 0x2e, 0x30, 0, 0x49, 0x46, 0x53, 0x43, 0, 0, 0, 0,
            ]
            &&& p.subrange(64, 80) == src.file_id@
            &&& p.subrange(at, at + 16) == src.slice_checksums@[i].md5@
            &&& p[at + 16] + 0x100 * p[at + 17] + 0x1_0000 * p[at + 18] + 0x100_0000 * p[at + 19]
                == src.slice_checksums@[i].crc32
        }),
{
    let p = file_verify_packet(set_id, src);
    let body = file_verify_body(src);
    let crc = src.slice_checksums@[i].crc32;
    law_checksum_entry_offset(src, i);
    law_packet_fields(set_id, TYPE_FILE_VERIFY@, body);
    law_le32(crc);
    assert forall|j: int| 64 <= j < p.len() implies #[trigger] p[j] == body[j - 64] by {
        assert(p[j] == p.skip(64)[j - 64]);
    }
    assert(p.subrange(48, 64) =~= seq![
        0x50u8, 0x41, 0x52, 0x20, 0x32, 0x2e, 0x30, 0, 0x49, 0x46, 0x53, 0x43, 0, 0, 0, 0,
    ]);
    assert(p.subrange(64, 80) =~= src.file_id@);
    let at = 80 + 20 * i;
    assert(p.subrange(at, at + 16) =~= body.subrange(16 + 20 * i, 32 + 20 * i));
    assert forall|j: int| 0 <= j < 4 implies #[trigger] le32(crc)[j] == p[at + 16 + j] by {
        assert(body.subrange(32 + 20 * i, 36 + 20 * i)[j] == p[at + 16 + j]);
    }
    assert(le32(crc)[0] == p[at + 16 + 0]);
    assert(le32(crc)[1] == p[at + 16 + 1]);
    assert(le32(crc)[2] == p[at + 16 + 2]);
    assert(le32(crc)[3] == p[at + 16 + 3]);
}

} // verus!
