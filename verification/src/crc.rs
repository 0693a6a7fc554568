//! CRC-32, computed by the `crc32fast` crate.

use vstd::prelude::*;

verus! {

/// The register after `n` more bits, for the reflected IEEE polynomial.
pub open spec fn crc32_shift(c: u32, n: nat) -> u32
    decreases n,
{
    if n == 0 {
        c
    } else {
        let p = crc32_shift(c, (n - 1) as nat);
        if p & 1 == 1 {
            (p >> 1) ^ 0xEDB8_8320
        } else {
            p >> 1
        }
    }
}

/// The register after the first `n` bytes.
pub open spec fn crc32_register(data: Seq<u8>, n: nat) -> u32
    decreases n,
{
    if n == 0 {
        0xFFFF_FFFFu32
    } else {
        crc32_shift(crc32_register(data, (n - 1) as nat) ^ (data[n - 1] as u32), 8)
    }
}

/// The CRC-32 (IEEE 802.3) of a message.
pub open spec fn crc32(data: Seq<u8>) -> u32 {
    !crc32_register(data, data.len())
}

/// `crc32fast::hash`: the CRC-32 with the IEEE polynomial.
#[verifier::external_body]
pub(crate) fn crc32_of(data: &[u8]) -> (c: u32)
    ensures
        c == crc32(data@),
{
    crc32fast::hash(data)
}

/// The CRC-32 of nothing is 0.
pub proof fn law_crc32_of_nothing()
    ensures
        crc32(Seq::<u8>::empty()) == 0,
{
    assert(!0xFFFF_FFFFu32 == 0) by (bit_vector);
}

proof fn lemma_register_prefix(a: Seq<u8>, b: Seq<u8>, n: nat)
    requires
        n <= a.len(),
        n <= b.len(),
        forall|i: int| 0 <= i < n ==> a[i] == b[i],
    ensures
        crc32_register(a, n) == crc32_register(b, n),
    decreases n,
{
    if n > 0 {
        lemma_register_prefix(a, b, (n - 1) as nat);
    }
}

/// A byte more takes the CRC-32, inverted and with the byte added to its low bits,
/// through eight steps. In each the register moves one bit to the right, and
/// `0xEDB88320` is added if the bit that falls out is set.
pub proof fn law_crc32_of_one_byte_more(data: Seq<u8>, b: u8, c: u32, n: nat)
    ensures
        crc32(data.push(b)) == !crc32_shift(!crc32(data) ^ (b as u32), 8),
        crc32_shift(c, 0) == c,
        crc32_shift(c, n + 1) == (crc32_shift(c, n) >> 1) ^ (if crc32_shift(c, n) % 2 == 1 {
            0xEDB8_8320u32
        } else {
            0
        }),
{
    let d = data.push(b);
    let r = crc32_register(data, data.len());
    lemma_register_prefix(data, d, data.len());
    assert((d.len() - 1) as nat == data.len());
    assert(d[d.len() - 1] == b);
    assert(!(!r) == r) by (bit_vector);
    let p = crc32_shift(c, n);
    assert((n + 1 - 1) as nat == n);
    assert((p & 1 == 1) == (p % 2 == 1)) by (bit_vector);
    assert((p >> 1) ^ 0 == p >> 1) by (bit_vector);
}

} // verus!
