//! Slices as sequences of little-endian 16-bit field symbols, and the
//! multiply-and-XOR operation on them.

use crate::galois::{gf_product, lemma_product_one, lemma_product_xor_left, lemma_product_zero};
use vstd::prelude::*;

verus! {

/// The symbol whose little-endian bytes are `lo` and `hi`.
pub open spec fn word(lo: u8, hi: u8) -> u16 {
    (lo as u16) | ((hi as u16) << 8)
}

/// The low byte of a symbol.
pub open spec fn low_byte(w: u16) -> u8 {
    (w & 0xFF) as u8
}

/// The high byte of a symbol.
pub open spec fn high_byte(w: u16) -> u8 {
    (w >> 8) as u8
}

/// Symbol `k` of a buffer.
pub open spec fn symbol(data: Seq<u8>, k: int) -> u16 {
    word(data[2 * k], data[2 * k + 1])
}

/// Byte `i` of the buffer whose symbols are `coeff` times those of `input`.
pub open spec fn product_byte(coeff: u16, input: Seq<u8>, i: int) -> u8 {
    let p = gf_product(coeff, symbol(input, i / 2));
    if i % 2 == 0 {
        low_byte(p)
    } else {
        high_byte(p)
    }
}

/// `output ^ coeff * input`, symbol by symbol.
pub open spec fn mul_xor(coeff: u16, input: Seq<u8>, output: Seq<u8>) -> Seq<u8> {
    Seq::new(output.len(), |i: int| output[i] ^ product_byte(coeff, input, i))
}

/// Byte `i` of the buffer whose symbols are `f` of those of `input`.
pub open spec fn mapped_byte(f: spec_fn(u8, u8) -> u16, input: Seq<u8>, i: int) -> u8 {
    let p = f(input[2 * (i / 2)], input[2 * (i / 2) + 1]);
    if i % 2 == 0 {
        low_byte(p)
    } else {
        high_byte(p)
    }
}

/// `output ^ f(input)`, where `f` takes the bytes of a symbol to a symbol.
pub open spec fn map_xor(f: spec_fn(u8, u8) -> u16, input: Seq<u8>, output: Seq<u8>) -> Seq<u8> {
    Seq::new(output.len(), |i: int| output[i] ^ mapped_byte(f, input, i))
}

/// `map_xor` on the first `done` bytes, the rest of `output` as it was.
pub open spec fn map_xor_prefix(
    f: spec_fn(u8, u8) -> u16,
    input: Seq<u8>,
    output: Seq<u8>,
    done: int,
) -> Seq<u8> {
    Seq::new(
        output.len(),
        |i: int|
            if i < done {
                output[i] ^ mapped_byte(f, input, i)
            } else {
                output[i]
            },
    )
}

/// Multiplication by `coeff`, on the bytes of a symbol.
pub open spec fn times(coeff: u16) -> spec_fn(u8, u8) -> u16 {
    |lo: u8, hi: u8| gf_product(coeff, word(lo, hi))
}

/// A map that multiplies by `coeff` turns `map_xor` into `mul_xor`.
pub proof fn lemma_map_xor_is_mul_xor(
    f: spec_fn(u8, u8) -> u16,
    coeff: u16,
    input: Seq<u8>,
    output: Seq<u8>,
)
    requires
        forall|lo: u8, hi: u8| #[trigger] f(lo, hi) == gf_product(coeff, word(lo, hi)),
    ensures
        map_xor(f, input, output) == mul_xor(coeff, input, output),
{
    assert(map_xor(f, input, output) =~= mul_xor(coeff, input, output));
}

/// Splitting a symbol into bytes and joining them are inverse, and both
/// commute with XOR.
pub proof fn lemma_word_bytes(w: u16, v: u16, lo: u8, hi: u8)
    by (bit_vector)
    ensures
        word(low_byte(w), high_byte(w)) == w,
        low_byte(word(lo, hi)) == lo,
        high_byte(word(lo, hi)) == hi,
        low_byte(w ^ v) == low_byte(w) ^ low_byte(v),
        high_byte(w ^ v) == high_byte(w) ^ high_byte(v),
        low_byte(0) == 0,
        high_byte(0) == 0,
{
}

/// XOR on bytes is an abelian group in which every element is its own inverse.
pub proof fn lemma_xor_group_u8()
    by (bit_vector)
    ensures
        forall|a: u8, b: u8| #[trigger] (a ^ b) == b ^ a,
        forall|a: u8, b: u8, c: u8| #[trigger] ((a ^ b) ^ c) == a ^ (b ^ c),
        forall|a: u8| #[trigger] (a ^ 0u8) == a,
        forall|a: u8| #[trigger] (0u8 ^ a) == a,
        forall|a: u8| #[trigger] (a ^ a) == 0u8,
{
}

/// Multiplying by 0 gives zero bytes, by 1 the bytes themselves.
pub proof fn lemma_product_byte_trivial(input: Seq<u8>, i: int)
    requires
        input.len() % 2 == 0,
        0 <= i < input.len(),
    ensures
        product_byte(0, input, i) == 0,
        product_byte(1, input, i) == input[i],
{
    let w = symbol(input, i / 2);
    lemma_product_zero(w);
    lemma_product_one(w);
    lemma_word_bytes(w, 0, input[2 * (i / 2)], input[2 * (i / 2) + 1]);
}

/// Multiplying by 0 changes nothing.
pub proof fn lemma_mul_xor_zero(input: Seq<u8>, output: Seq<u8>)
    requires
        input.len() == output.len(),
        input.len() % 2 == 0,
    ensures
        mul_xor(0, input, output) == output,
{
    assert forall|i: int| 0 <= i < output.len() implies mul_xor(0, input, output)[i]
        == output[i] by {
        lemma_product_byte_trivial(input, i);
        lemma_xor_group_u8();
    }
    assert(mul_xor(0, input, output) =~= output);
}

/// XOR the image of symbol `k` into a buffer whose earlier bytes are done.
pub(crate) fn xor_symbol(
    f: Ghost<spec_fn(u8, u8) -> u16>,
    input: Ghost<Seq<u8>>,
    start: Ghost<Seq<u8>>,
    k: usize,
    lo: u8,
    hi: u8,
    output: &mut [u8],
)
    requires
        2 * k + 1 < old(output)@.len(),
        start@.len() == old(output)@.len(),
        old(output)@ == map_xor_prefix(f@, input@, start@, 2 * k as int),
        lo == low_byte(f@(input@[2 * k as int], input@[2 * k + 1])),
        hi == high_byte(f@(input@[2 * k as int], input@[2 * k + 1])),
    ensures
        final(output)@ == map_xor_prefix(f@, input@, start@, 2 * k + 2),
{
    output[2 * k] = output[2 * k] ^ lo;
    output[2 * k + 1] = output[2 * k + 1] ^ hi;
    assert(output@ =~= map_xor_prefix(f@, input@, start@, 2 * k + 2));
}

/// XOR `input` into `output`, byte by byte.
pub(crate) fn xor_into(input: &[u8], output: &mut [u8])
    requires
        input@.len() == old(output)@.len(),
        input@.len() % 2 == 0,
    ensures
        final(output)@ == mul_xor(1, input@, old(output)@),
{
    let n: usize = input.len();
    let mut i: usize = 0;
    while i < n
        invariant
            i <= n,
            n == input@.len(),
            n % 2 == 0,
            n == old(output)@.len(),
            n == output@.len(),
            forall|j: int| 0 <= j < i ==> #[trigger] output@[j] == old(output)@[j] ^ input@[j],
            forall|j: int| i <= j < n ==> #[trigger] output@[j] == old(output)@[j],
        decreases n - i,
    {
        output[i] = output[i] ^ input[i];
        i = i + 1;
    }
    proof {
        assert forall|j: int| 0 <= j < n implies output@[j] == mul_xor(
            1,
            input@,
            old(output)@,
        )[j] by {
            lemma_product_byte_trivial(input@, j);
        }
        assert(output@ =~= mul_xor(1, input@, old(output)@));
    }
}

// ---------------------------------------------------------------------------
// Laws
// ---------------------------------------------------------------------------

/// Adding the same product twice cancels: XOR is its own inverse.
pub proof fn law_mul_xor_twice_cancels(coeff: u16, input: Seq<u8>, output: Seq<u8>)
    requires
        input.len() == output.len(),
        input.len() % 2 == 0,
    ensures
        mul_xor(coeff, input, mul_xor(coeff, input, output)) == output,
{
    lemma_xor_group_u8();
    assert(mul_xor(coeff, input, mul_xor(coeff, input, output)) =~= output);
}

/// The order in which two products are added does not matter.
pub proof fn law_mul_xor_commutes(c: u16, x: Seq<u8>, d: u16, y: Seq<u8>, output: Seq<u8>)
    requires
        x.len() == output.len(),
        y.len() == output.len(),
        output.len() % 2 == 0,
    ensures
        mul_xor(c, x, mul_xor(d, y, output)) == mul_xor(d, y, mul_xor(c, x, output)),
{
    lemma_xor_group_u8();
    assert forall|i: int| 0 <= i < output.len() implies mul_xor(c, x, mul_xor(d, y, output))[i]
        == mul_xor(d, y, mul_xor(c, x, output))[i] by {
        let a = product_byte(c, x, i);
        let b = product_byte(d, y, i);
        assert((output[i] ^ b) ^ a == output[i] ^ (b ^ a));
        assert((output[i] ^ a) ^ b == output[i] ^ (a ^ b));
    }
    assert(mul_xor(c, x, mul_xor(d, y, output)) =~= mul_xor(d, y, mul_xor(c, x, output)));
}

/// Adding `c * x` and then `d * x` adds `(c ^ d) * x`.
pub proof fn law_mul_xor_adds_coefficients(c: u16, d: u16, x: Seq<u8>, output: Seq<u8>)
    requires
        x.len() == output.len(),
        output.len() % 2 == 0,
    ensures
        mul_xor(d, x, mul_xor(c, x, output)) == mul_xor(c ^ d, x, output),
{
    assert forall|i: int| 0 <= i < output.len() implies mul_xor(d, x, mul_xor(c, x, output))[i]
        == mul_xor(c ^ d, x, output)[i] by {
        let w = symbol(x, i / 2);
        lemma_xor_group_u8();
        lemma_product_xor_left(c, d, w);
        lemma_word_bytes(gf_product(c, w), gf_product(d, w), 0, 0);
        assert((output[i] ^ product_byte(c, x, i)) ^ product_byte(d, x, i) == output[i] ^ (
        product_byte(c, x, i) ^ product_byte(d, x, i)));
    }
    assert(mul_xor(d, x, mul_xor(c, x, output)) =~= mul_xor(c ^ d, x, output));
}

/// What `mul_xor` does to a symbol.
pub proof fn lemma_mul_xor_symbol(coeff: u16, input: Seq<u8>, output: Seq<u8>, k: int)
    requires
        input.len() == output.len(),
        0 <= k,
        2 * k + 1 < output.len(),
    ensures
        symbol(mul_xor(coeff, input, output), k) == symbol(output, k) ^ gf_product(
            coeff,
            symbol(input, k),
        ),
{
    let w = symbol(output, k);
    let p = gf_product(coeff, symbol(input, k));
    let out = mul_xor(coeff, input, output);
    assert((2 * k) / 2 == k && (2 * k + 1) / 2 == k);
    lemma_word_bytes(w, p, output[2 * k], output[2 * k + 1]);
    assert(out[2 * k] == low_byte(w ^ p));
    assert(out[2 * k + 1] == high_byte(w ^ p));
    lemma_word_bytes(w ^ p, 0, 0, 0);
}

/// Buffers of even length with the same symbols are equal.
pub proof fn lemma_symbols_determine(a: Seq<u8>, b: Seq<u8>)
    requires
        a.len() == b.len(),
        a.len() % 2 == 0,
        forall|k: int| 0 <= k < a.len() / 2 ==> #[trigger] symbol(a, k) == symbol(b, k),
    ensures
        a == b,
{
    assert forall|i: int| 0 <= i < a.len() implies a[i] == b[i] by {
        let k = i / 2;
        assert(symbol(a, k) == symbol(b, k));
        lemma_word_bytes(0, 0, a[2 * k], a[2 * k + 1]);
        lemma_word_bytes(0, 0, b[2 * k], b[2 * k + 1]);
    }
    assert(a =~= b);
}

proof fn lemma_word_value(lo: u8, hi: u8, w: u16)
    by (bit_vector)
    ensures
        word(lo, hi) == lo + 256 * hi,
        low_byte(w) == w % 256,
        high_byte(w) == w / 256,
        low_byte(w) + 256 * high_byte(w) == w,
{
}

/// A symbol is two bytes, the low one first.
pub proof fn law_symbol_value(data: Seq<u8>, k: int, w: u16)
    ensures
        symbol(data, k) == data[2 * k] + 256 * data[2 * k + 1],
        low_byte(w) == w % 256,
        high_byte(w) == w / 256,
{
    lemma_word_value(data[2 * k], data[2 * k + 1], w);
}

/// What multiply-and-XOR does to each symbol, that is to each pair of bytes with
/// the low one first: `x` of the input and `y` of the output become `y ^ c * x`.
pub proof fn law_mul_xor_each_symbol(
    coeff: u16,
    input: Seq<u8>,
    output: Seq<u8>,
    k: int,
    x: u16,
    y: u16,
)
    requires
        input.len() == output.len(),
        0 <= k,
        2 * k + 1 < output.len(),
        x == input[2 * k] + 256 * input[2 * k + 1],
        y == output[2 * k] + 256 * output[2 * k + 1],
    ensures
        mul_xor(coeff, input, output).len() == output.len(),
        mul_xor(coeff, input, output)[2 * k] + 256 * mul_xor(coeff, input, output)[2 * k + 1] == y
            ^ gf_product(coeff, x),
{
    let out = mul_xor(coeff, input, output);
    lemma_mul_xor_symbol(coeff, input, output, k);
    lemma_word_value(input[2 * k], input[2 * k + 1], 0);
    lemma_word_value(output[2 * k], output[2 * k + 1], 0);
    lemma_word_value(out[2 * k], out[2 * k + 1], 0);
}

/// The same for any map of symbols: `f` of the two bytes of a symbol is added to the
/// symbol of the output.
pub proof fn law_map_xor_each_symbol(
    f: spec_fn(u8, u8) -> u16,
    input: Seq<u8>,
    output: Seq<u8>,
    k: int,
    y: u16,
)
    requires
        input.len() == output.len(),
        0 <= k,
        2 * k + 1 < output.len(),
        y == output[2 * k] + 256 * output[2 * k + 1],
    ensures
        map_xor(f, input, output).len() == output.len(),
        map_xor(f, input, output)[2 * k] + 256 * map_xor(f, input, output)[2 * k + 1] == y ^ f(
            input[2 * k],
            input[2 * k + 1],
        ),
{
    let p = f(input[2 * k], input[2 * k + 1]);
    let lo = output[2 * k];
    let hi = output[2 * k + 1];
    lemma_word_value(lo, hi, 0);
    lemma_word_value(lo ^ low_byte(p), hi ^ high_byte(p), 0);
    lemma_xor_of_bytes(lo, hi, p);
    assert((2 * k) / 2 == k && (2 * k + 1) / 2 == k);
}

proof fn lemma_xor_of_bytes(lo: u8, hi: u8, p: u16)
    by (bit_vector)
    ensures
        word(lo ^ low_byte(p), hi ^ high_byte(p)) == word(lo, hi) ^ p,
{
}

} // verus!
