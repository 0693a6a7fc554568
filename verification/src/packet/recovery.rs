//! The recovery block packet.

use crate::bytes::{law_le32, le32, put_bytes, put_le32};
use crate::format::{build_packet, law_packet_fields, packet, Md5Hash, TYPE_RECOVERY};
use vstd::prelude::*;

verus! {

/// The packet of the recovery slice with the given exponent.
pub open spec fn recovery_packet(set_id: Seq<u8>, exponent: u16, slice: Seq<u8>) -> Seq<u8> {
    packet(set_id, TYPE_RECOVERY@, le32(exponent as u32) + slice)
}

/// Build a recovery block packet: the exponent as 32 bits, and the slice.
pub fn build_recovery_packet(set_id_hash: &Md5Hash, exponent: u16, slice: &[u8]) -> (out: Vec<u8>)
    requires
        slice@.len() % 4 == 0,
    ensures
        out@ == recovery_packet(set_id_hash@, exponent, slice@),
{
    let mut body: Vec<u8> = Vec::new();
    put_le32(&mut body, exponent as u32);
    put_bytes(&mut body, slice);
    assert(body@ =~= le32(exponent as u32) + slice@);
    build_packet(set_id_hash, &TYPE_RECOVERY, &body)
}

/// Where the fields of a recovery packet lie: the type `PAR 2.0`, NUL,
/// `RecvSlic`; the exponent; the slice.
pub proof fn law_recovery_packet_fields(set_id: Seq<u8>, exponent: u16, slice: Seq<u8>)
    requires
        set_id.len() == 16,
        slice.len() <= 0xFFFF_FFFF_FFFF_FF00,
    ensures
        ({
            let p = recovery_packet(set_id, exponent, slice);
            &&& p.len() == 68 + slice.len()
            &&& p.subrange(32, 48) == set_id
            &&& p.subrange(48, 64) == seq![
                0x50u8, 0x41, 0x52, 0x20, 0x32, 0x2e, 0x30, 0, 0x52, 0x65, 0x63, 0x76, 0x53, 0x6c,
                0x69, 0x63,
            ]
            &&& p[64] + 0x100 * p[65] + 0x1_0000 * p[66] + 0x100_0000 * p[67] == exponent
            &&& p.skip(68) == slice
        }),
{
    let p = recovery_packet(set_id, exponent, slice);
    let body = le32(exponent as u32) + slice;
    law_packet_fields(set_id, TYPE_RECOVERY@, body);
    law_le32(exponent as u32);
    assert forall|j: int| 64 <= j < p.len() implies #[trigger] p[j] == body[j - 64] by {
        assert(p[j] == p.skip(64)[j - 64]);
    }
    assert(p.subrange(48, 64) =~= seq![
        0x50u8, 0x41, 0x52, 0x20, 0x32, 0x2e, 0x30, 0, 0x52, 0x65, 0x63, 0x76, 0x53, 0x6c, 0x69,
        0x63,
    ]);
    assert(p.skip(68) =~= slice);
}

} // verus!
