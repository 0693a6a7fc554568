//! Packet framing.
//!
//! Every packet is a 64-byte header and a body whose length is a multiple of 4:
//!
//! | offset | field                                    |
//! |--------|------------------------------------------|
//! | 0      | magic `PAR2\0PKT`                        |
//! | 8      | length of the packet, header included    |
//! | 16     | MD5 of everything from offset 32 on      |
//! | 32     | id of the recovery set                   |
//! | 48     | packet type                              |
//! | 64     | body                                     |

use crate::bytes::{law_le64, le64, put_bytes, put_le64};
use crate::md5_impl::{lemma_md5_digest, md5_digest, Md5Ctx};
use crate::md5_mb_neon::rfc1321_digest;
use vstd::prelude::*;

verus! {

/// `PAR2\0PKT`.
pub const PACKET_MAGIC: [u8; 8] = [0x50, 0x41, 0x52, 0x32, 0, 0x50, 0x4b, 0x54];

/// Length of a packet header.
pub const HEADER_SIZE: usize = 64;

/// Length of an MD5 digest.
pub const MD5_SIZE: usize = 16;

/// `PAR 2.0\0FileDesc`.
pub const TYPE_FILE_DESC: [u8; 16] = [
    0x50, 0x41, 0x52, 0x20, 0x32, 0x2e, 0x30, 0, 0x46, 0x69, 0x6c, 0x65, 0x44, 0x65, 0x73, 0x63,
];

/// `PAR 2.0\0IFSC\0\0\0\0`.
pub const TYPE_FILE_VERIFY: [u8; 16] = [
    0x50, 0x41, 0x52, 0x20, 0x32, 0x2e, 0x30, 0, 0x49, 0x46, 0x53, 0x43, 0, 0, 0, 0,
];

/// `PAR 2.0\0Main\0\0\0\0`.
pub const TYPE_MAIN: [u8; 16] = [
    0x50, 0x41, 0x52, 0x20, 0x32, 0x2e, 0x30, 0, 0x4d, 0x61, 0x69, 0x6e, 0, 0, 0, 0,
];

/// `PAR 2.0\0RecvSlic`.
pub const TYPE_RECOVERY: [u8; 16] = [
    0x50, 0x41, 0x52, 0x20, 0x32, 0x2e, 0x30, 0, 0x52, 0x65, 0x63, 0x76, 0x53, 0x6c, 0x69, 0x63,
];

/// `PAR 2.0\0Creator\0`.
pub const TYPE_CREATOR: [u8; 16] = [
    0x50, 0x41, 0x52, 0x20, 0x32, 0x2e, 0x30, 0, 0x43, 0x72, 0x65, 0x61, 0x74, 0x6f, 0x72, 0,
];

/// `PAR 2.0\0CommASCI`.
pub const TYPE_COMMENT_ASCII: [u8; 16] = [
    0x50, 0x41, 0x52, 0x20, 0x32, 0x2e, 0x30, 0, 0x43, 0x6f, 0x6d, 0x6d, 0x41, 0x53, 0x43, 0x49,
];

/// `PAR 2.0\0CommUni\0`.
pub const TYPE_COMMENT_UNICODE: [u8; 16] = [
    0x50, 0x41, 0x52, 0x20, 0x32, 0x2e, 0x30, 0, 0x43, 0x6f, 0x6d, 0x6d, 0x55, 0x6e, 0x69, 0,
];

/// An MD5 digest.
pub type Md5Hash = [u8; 16];

/// The MD5 digest of `bytes`.
pub fn md5_of(bytes: &[u8]) -> (h: Md5Hash)
    ensures
        h == md5_digest(bytes@),
        h@ == rfc1321_digest(bytes@),
{
    let mut h = Md5Ctx::new();
    h.update(bytes);
    assert(h@ =~= bytes@);
    h.finalize()
}

/// `n` rounded up to a multiple of 4.
pub open spec fn ceil4(n: int) -> int {
    (n + 3) / 4 * 4
}

/// Round `n` up to the next multiple of 4.
pub fn round_up_4(n: usize) -> (r: usize)
    requires
        n + 3 <= usize::MAX,
    ensures
        r == ceil4(n as int),
{
    (n + 3) / 4 * 4
}

/// Zero bytes up to the next multiple of 4.
pub open spec fn padding4(len: nat) -> Seq<u8> {
    Seq::new((ceil4(len as int) - len) as nat, |i: int| 0u8)
}

/// `s` padded with zeros to a multiple of 4.
pub open spec fn padded4(s: Seq<u8>) -> Seq<u8> {
    s + padding4(s.len())
}

/// Pad with zeros to a multiple of 4.
pub fn put_padding4(out: &mut Vec<u8>)
    ensures
        final(out)@ == padded4(old(out)@),
{
    let ghost start = out@;
    let ghost mut added: nat = 0;
    while out.len() % 4 != 0
        invariant
            added <= 3,
            out@ == start + Seq::new(added, |i: int| 0u8),
            added + start.len() <= ceil4(start.len() as int),
        decreases 4 - added,
    {
        out.push(0);
        proof {
            added = added + 1;
            assert(out@ =~= start + Seq::new(added, |i: int| 0u8));
        }
    }
    assert(out@ =~= padded4(start));
}

/// A packet of the recovery set `set_id` with the given type and body.
pub open spec fn packet(set_id: Seq<u8>, type_tag: Seq<u8>, body: Seq<u8>) -> Seq<u8> {
    PACKET_MAGIC@ + le64(((64 + body.len()) % 0x1_0000_0000_0000_0000) as u64) + md5_digest(
        set_id + type_tag + body,
    )@ + set_id + type_tag + body
}

/// Frame a packet. This is the one place where packets are framed.
pub fn build_packet(set_id_hash: &Md5Hash, type_tag: &[u8; 16], body: &[u8]) -> (out: Vec<u8>)
    requires
        body@.len() % 4 == 0,
    ensures
        out@ == packet(set_id_hash@, type_tag@, body@),
{
    let packet_len: u64 = (body.len() as u64).wrapping_add(64);
    let mut hash_input: Vec<u8> = Vec::new();
    put_bytes(&mut hash_input, set_id_hash);
    put_bytes(&mut hash_input, type_tag);
    put_bytes(&mut hash_input, body);
    assert(hash_input@ =~= set_id_hash@ + type_tag@ + body@);
    let packet_hash: Md5Hash = md5_of(&hash_input);
    let mut out: Vec<u8> = Vec::new();
    put_bytes(&mut out, &PACKET_MAGIC);
    put_le64(&mut out, packet_len);
    put_bytes(&mut out, &packet_hash);
    put_bytes(&mut out, set_id_hash);
    put_bytes(&mut out, type_tag);
    put_bytes(&mut out, body);
    assert(out@ =~= packet(set_id_hash@, type_tag@, body@));
    out
}

// ---------------------------------------------------------------------------
// Laws
// ---------------------------------------------------------------------------

/// Where the fields of a packet lie. The length of a packet is that of its
/// header and body, so a packet with an aligned body is aligned itself.
pub proof fn law_packet_layout(set_id: Seq<u8>, type_tag: Seq<u8>, body: Seq<u8>)
    requires
        set_id.len() == 16,
        type_tag.len() == 16,
        body.len() % 4 == 0,
        64 + body.len() <= u64::MAX,
    ensures
        ({
            let p = packet(set_id, type_tag, body);
            &&& p.len() == 64 + body.len()
            &&& p.len() % 4 == 0
            &&& p.subrange(0, 8) == PACKET_MAGIC@
            &&& p.subrange(8, 16) == le64(p.len() as u64)
            &&& p.subrange(16, 32) == md5_digest(p.subrange(32, p.len() as int))@
            &&& p.subrange(32, 48) == set_id
            &&& p.subrange(48, 64) == type_tag
            &&& p.subrange(64, p.len() as int) == body
        }),
{
    let p = packet(set_id, type_tag, body);
    assert(p.len() == 64 + body.len());
    assert(p.subrange(0, 8) =~= PACKET_MAGIC@);
    assert(p.subrange(8, 16) =~= le64(p.len() as u64));
    assert(p.subrange(32, p.len() as int) =~= set_id + type_tag + body);
    assert(p.subrange(16, 32) =~= md5_digest(set_id + type_tag + body)@);
    assert(p.subrange(32, 48) =~= set_id);
    assert(p.subrange(48, 64) =~= type_tag);
    assert(p.subrange(64, p.len() as int) =~= body);
}

/// A packet determines the set, the type and the body it was framed from.
pub proof fn law_packet_injective(
    set_a: Seq<u8>,
    type_a: Seq<u8>,
    body_a: Seq<u8>,
    set_b: Seq<u8>,
    type_b: Seq<u8>,
    body_b: Seq<u8>,
)
    requires
        set_a.len() == 16,
        set_b.len() == 16,
        type_a.len() == 16,
        type_b.len() == 16,
        packet(set_a, type_a, body_a) == packet(set_b, type_b, body_b),
    ensures
        set_a == set_b,
        type_a == type_b,
        body_a == body_b,
{
    let p = packet(set_a, type_a, body_a);
    let q = packet(set_b, type_b, body_b);
    assert(p.subrange(32, 48) =~= set_a);
    assert(q.subrange(32, 48) =~= set_b);
    assert(p.subrange(48, 64) =~= type_a);
    assert(q.subrange(48, 64) =~= type_b);
    assert(p.subrange(64, p.len() as int) =~= body_a);
    assert(q.subrange(64, q.len() as int) =~= body_b);
}

/// Padding appends as few zeros as it takes to reach a multiple of 4.
pub proof fn law_padding(s: Seq<u8>)
    ensures
        s.len() <= padded4(s).len() < s.len() + 4,
        padded4(s).len() % 4 == 0,
        padded4(s).take(s.len() as int) == s,
        forall|i: int| s.len() <= i < padded4(s).len() ==> #[trigger] padded4(s)[i] == 0,
{
    assert(padded4(s).take(s.len() as int) =~= s);
}

/// Rounding up to a multiple of 4 gives the next one.
pub proof fn law_ceil4(n: int)
    requires
        n >= 0,
    ensures
        ceil4(n) % 4 == 0,
        n <= ceil4(n) < n + 4,
{
}

/// What the fields of a packet hold, byte by byte: `PAR2`, NUL, `PKT`; the length
/// of the whole packet; the MD5 of everything after it; the set; the type; the
/// body.
pub proof fn law_packet_fields(set_id: Seq<u8>, type_tag: Seq<u8>, body: Seq<u8>)
    requires
        set_id.len() == 16,
        type_tag.len() == 16,
        64 + body.len() <= u64::MAX,
    ensures
        ({
            let p = packet(set_id, type_tag, body);
            &&& p.len() == 64 + body.len()
            &&& p.subrange(0, 8) == seq![0x50u8, 0x41, 0x52, 0x32, 0, 0x50, 0x4b, 0x54]
            &&& p[8] + 0x100 * p[9] + 0x1_0000 * p[10] + 0x100_0000 * p[11] + 0x1_0000_0000 * p[12]
                + 0x100_0000_0000 * p[13] + 0x1_0000_0000_0000 * p[14] + 0x100_0000_0000_0000
                * p[15] == 64 + body.len()
            &&& p.subrange(16, 32) == rfc1321_digest(set_id + type_tag + body)
            &&& p.subrange(32, 48) == set_id
            &&& p.subrange(48, 64) == type_tag
            &&& p.skip(64) == body
        }),
{
    let p = packet(set_id, type_tag, body);
    law_le64((64 + body.len()) as u64);
    lemma_md5_digest(set_id + type_tag + body);
    assert(p.len() == 64 + body.len());
    assert(p.subrange(0, 8) =~= seq![0x50u8, 0x41, 0x52, 0x32, 0, 0x50, 0x4b, 0x54]);
    assert(p.subrange(8, 16) =~= le64((64 + body.len()) as u64));
    assert forall|i: int| 8 <= i < 16 implies #[trigger] p[i] == le64((64 + body.len()) as u64)[i
        - 8] by {
        assert(p[i] == p.subrange(8, 16)[i - 8]);
    }
    assert(p.subrange(16, 32) =~= rfc1321_digest(set_id + type_tag + body));
    assert(p.subrange(32, 48) =~= set_id);
    assert(p.subrange(48, 64) =~= type_tag);
    assert(p.skip(64) =~= body);
}

} // verus!
