//! The file description packet.

use crate::bytes::{law_le64, le64, put_bytes, put_le64};
use crate::format::{
    build_packet, law_packet_fields, law_padding, packet, padded4, put_padding4, Md5Hash,
    TYPE_FILE_DESC,
};
use crate::source::SourceFile;
use vstd::prelude::*;

verus! {

/// The body of a file description packet: id, MD5 of the file, MD5 of its first
/// 16 KiB, length, and the name padded with zeros to a multiple of 4 bytes.
pub open spec fn file_desc_body(src: SourceFile) -> Seq<u8> {
    padded4(src.file_id@ + src.hash_full@ + src.hash16k@ + le64(src.length) + src.name@)
}

/// The file description packet of a file.
pub open spec fn file_desc_packet(set_id: Seq<u8>, src: SourceFile) -> Seq<u8> {
    packet(set_id, TYPE_FILE_DESC@, file_desc_body(src))
}

/// Build the file description packet of a file.
pub fn build_file_desc_packet(set_id_hash: &Md5Hash, src: &SourceFile) -> (out: Vec<u8>)
    ensures
        out@ == file_desc_packet(set_id_hash@, *src),
{
    let mut body: Vec<u8> = Vec::new();
    put_bytes(&mut body, &src.file_id);
    put_bytes(&mut body, &src.hash_full);
    put_bytes(&mut body, &src.hash16k);
    put_le64(&mut body, src.length);
    put_bytes(&mut body, &src.name);
    assert(body@ =~= src.file_id@ + src.hash_full@ + src.hash16k@ + le64(src.length) + src.name@);
    put_padding4(&mut body);
    build_packet(set_id_hash, &TYPE_FILE_DESC, &body)
}

/// The name starts at offset 56 of the body and is padded on its own: the fixed
/// part before it is aligned.
pub proof fn law_file_desc_name(src: SourceFile)
    ensures
        file_desc_body(src).subrange(56, file_desc_body(src).len() as int) == padded4(src.name@),
        file_desc_body(src).len() == 56 + crate::format::ceil4(src.name@.len() as int),
{
    let body = file_desc_body(src);
    assert(body.subrange(56, body.len() as int) =~= padded4(src.name@));
}

/// Where the fields of a file description lie, in the packet of every file: the
/// type `PAR 2.0`, NUL, `FileDesc`; the file id; the MD5 of the whole file; the
/// MD5 of its first 16 KiB; the length; the name; and zeros, fewer than 4.
pub proof fn law_file_desc_fields(set_id: Seq<u8>, src: SourceFile)
    requires
        set_id.len() == 16,
        src.name@.len() <= 0xFFFF_FFFF_FFFF,
    ensures
        ({
            let p = file_desc_packet(set_id, src);
            let n = src.name@.len() as int;
            &&& p.len() % 4 == 0
            &&& 120 + n <= p.len() < 124 + n
            &&& p.subrange(32, 48) == set_id
            &&& p.subrange(48, 64) == seq![
                0x50u8, 0x41, 0x52, 0x20, 0x32, 0x2e, 0x30, 0, 0x46, 0x69, 0x6c, 0x65, 0x44, 0x65,
                0x73, 0x63,
            ]
            &&& p.subrange(64, 80) == src.file_id@
            &&& p.subrange(80, 96) == src.hash_full@
            &&& p.subrange(96, 112) == src.hash16k@
            &&& p[112] + 0x100 * p[113] + 0x1_0000 * p[114] + 0x100_0000 * p[115] + 0x1_0000_0000
                * p[116] + 0x100_0000_0000 * p[117] + 0x1_0000_0000_0000 * p[118]
                + 0x100_0000_0000_0000 * p[119] == src.length
            &&& p.subrange(120, 120 + n) == src.name@
            &&& forall|i: int| 120 + n <= i < p.len() ==> #[trigger] p[i] == 0
        }),
{
    let p = file_desc_packet(set_id, src);
    let body = file_desc_body(src);
    let n = src.name@.len() as int;
    let raw = src.file_id@ + src.hash_full@ + src.hash16k@ + le64(src.length) + src.name@;
    law_padding(raw);
    law_packet_fields(set_id, TYPE_FILE_DESC@, body);
    law_le64(src.length);
    assert forall|i: int| 64 <= i < p.len() implies #[trigger] p[i] == body[i - 64] by {
        assert(p[i] == p.skip(64)[i - 64]);
    }
    assert forall|i: int| 0 <= i < raw.len() implies #[trigger] body[i] == raw[i] by {
        assert(body.take(raw.len() as int)[i] == raw[i]);
    }
    assert(p.subrange(48, 64) =~= seq![
        0x50u8, 0x41, 0x52, 0x20, 0x32, 0x2e, 0x30, 0, 0x46, 0x69, 0x6c, 0x65, 0x44, 0x65, 0x73,
        0x63,
    ]);
    assert(p.subrange(64, 80) =~= src.file_id@);
    assert(p.subrange(80, 96) =~= src.hash_full@);
    assert(p.subrange(96, 112) =~= src.hash16k@);
    assert(p.subrange(112, 120) =~= le64(src.length));
    assert forall|i: int| 112 <= i < 120 implies #[trigger] p[i] == le64(src.length)[i - 112] by {
        assert(p[i] == p.subrange(112, 120)[i - 112]);
    }
    assert(p.subrange(120, 120 + n) =~= src.name@);
}

} // verus!
