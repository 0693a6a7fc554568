//! The creator packet.

use crate::bytes::put_bytes;
use crate::format::{
    build_packet, law_packet_fields, law_padding, packet, padded4, put_padding4, Md5Hash,
    TYPE_CREATOR,
};
use vstd::prelude::*;
use vstd::string::StringSliceAdditionalSpecFns;
use vstd::utf8::{is_ascii_chars, is_ascii_chars_encode_utf8};

verus! {

/// What the creator packet says.
pub const CREATOR_STRING: &'static str = "Created by par2rust v0.1.0";

/// The bytes of the creator string.
pub open spec fn creator_bytes() -> Seq<u8> {
    CREATOR_STRING.spec_bytes()
}

/// The creator packet of a recovery set.
pub open spec fn creator_packet(set_id: Seq<u8>) -> Seq<u8> {
    packet(set_id, TYPE_CREATOR@, padded4(creator_bytes()))
}

/// The creator string is ASCII: one byte for each of its 26 characters.
pub proof fn lemma_creator_bytes()
    ensures
        creator_bytes().len() == 26,
        creator_bytes() == Seq::new(26, |i: int| CREATOR_STRING@[i] as u8),
{
    reveal_strlit("Created by par2rust v0.1.0");
    assert(is_ascii_chars(CREATOR_STRING@));
    is_ascii_chars_encode_utf8(CREATOR_STRING@);
    assert(creator_bytes() =~= Seq::new(26, |i: int| CREATOR_STRING@[i] as u8));
}

/// Build the creator packet: the creator string, padded with zeros to a multiple
/// of 4 bytes.
pub fn build_creator_packet(set_id_hash: &Md5Hash) -> (out: Vec<u8>)
    ensures
        out@ == creator_packet(set_id_hash@),
{
    let mut body: Vec<u8> = Vec::new();
    put_bytes(&mut body, CREATOR_STRING.as_bytes());
    assert(body@ =~= creator_bytes());
    put_padding4(&mut body);
    build_packet(set_id_hash, &TYPE_CREATOR, &body)
}

/// The creator packet has the type `PAR 2.0`, NUL, `Creator`, NUL, and holds the
/// text `Created by par2rust v0.1.0` and two zeros.
pub proof fn law_creator_packet_fields(set_id: Seq<u8>)
    requires
        set_id.len() == 16,
    ensures
        ({
            let p = creator_packet(set_id);
            &&& p.len() == 92
            &&& p.subrange(32, 48) == set_id
            &&& p.subrange(48, 64) == seq![
                0x50u8, 0x41, 0x52, 0x20, 0x32, 0x2e, 0x30, 0, 0x43, 0x72, 0x65, 0x61, 0x74, 0x6f,
                0x72, 0,
            ]
            &&& forall|i: int|
                0 <= i < 26 ==> #[trigger] p[64 + i] == "Created by par2rust v0.1.0"@[i] as u8
            &&& p[90] == 0
            &&& p[91] == 0
        }),
{
    let p = creator_packet(set_id);
    let body = padded4(creator_bytes());
    lemma_creator_bytes();
    law_padding(creator_bytes());
    law_packet_fields(set_id, TYPE_CREATOR@, body);
    assert forall|j: int| 64 <= j < p.len() implies #[trigger] p[j] == body[j - 64] by {
        assert(p[j] == p.skip(64)[j - 64]);
    }
    assert(p.subrange(48, 64) =~= seq![
        0x50u8, 0x41, 0x52, 0x20, 0x32, 0x2e, 0x30, 0, 0x43, 0x72, 0x65, 0x61, 0x74, 0x6f, 0x72, 0,
    ]);
    assert forall|i: int| 0 <= i < 26 implies #[trigger] p[64 + i]
        == "Created by par2rust v0.1.0"@[i] as u8 by {
        assert(body.take(26)[i] == creator_bytes()[i]);
    }
}

} // verus!
