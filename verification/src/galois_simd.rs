//! Fast multiply-and-XOR paths, all with the same result.
//!
//! The hot loop of encoding is `recovery ^= coeff * input`, element by element
//! over 16-bit symbols, for each pair of an input and a recovery block.
//!
//! 1. `gf_mul_xor_scalar` (in `reedsolomon`) works through log and antilog
//!    tables, one symbol at a time.
//! 2. `gf_mul_xor_table_scalar` looks each half of a symbol up in a 256-entry
//!    table made for the coefficient.
//! 3. `gf_mul_xor_neon` and `gf_mul_xor_ssse3` look up nibbles in 16-entry
//!    tables, sixteen symbols per step, laid out the way the vector units of
//!    those names want them.
//! 4. `gf_mul_xor_gfni` and `gf_mul_xor_gfni_avx512` apply 8x8 bit matrices.
//!
//! `gf_mul_xor_dispatch` runs the path it is told to.

pub mod gfni;

use crate::galois::{
    gf_mul, gf_product, lemma_product_xor_right, lemma_xor_group,
};
use crate::galois_simd::gfni::{gf_mul_xor_gfni, gf_mul_xor_gfni_avx512, GfniTables};
use crate::reedsolomon::{gf_mul_xor_scalar, split_bytes};
use crate::symbols::{
    high_byte, law_symbol_value, lemma_map_xor_is_mul_xor, lemma_mul_xor_zero, lemma_word_bytes,
    low_byte, map_xor, map_xor_prefix, mul_xor, times, word, xor_into, xor_symbol,
};
use vstd::prelude::*;

verus! {

/// `f` multiplies symbols by `coeff`.
pub open spec fn multiplies(f: spec_fn(u8, u8) -> u16, coeff: u16) -> bool {
    forall|lo: u8, hi: u8| #[trigger] f(lo, hi) == gf_product(coeff, word(lo, hi))
}

// ---------------------------------------------------------------------------
// Byte tables
// ---------------------------------------------------------------------------

/// Lookup tables of one coefficient, by the halves of a symbol.
///
/// `lo[s]` is the image of the symbol with low byte `s` and high byte 0,
/// `hi[s]` that of the symbol with low byte 0 and high byte `s`. Multiplication
/// is linear over XOR, so the image of a symbol is the XOR of its two halves'.
pub struct CoeffTables {
    pub lo: [u16; 256],
    pub hi: [u16; 256],
}

impl CoeffTables {
    /// The symbol map that the tables hold.
    pub open spec fn map(&self) -> spec_fn(u8, u8) -> u16 {
        |lo: u8, hi: u8| self.lo@[lo as int] ^ self.hi@[hi as int]
    }

    /// The tables of `coeff`.
    pub fn new(coeff: u16) -> (t: Self)
        ensures
            forall|s: u8| #[trigger] t.lo@[s as int] == gf_product(coeff, s as u16),
            forall|s: u8| #[trigger] t.hi@[s as int] == gf_product(coeff, (s as u16) << 8),
            multiplies(t.map(), coeff),
    {
        let mut lo: [u16; 256] = [0u16; 256];
        let mut hi: [u16; 256] = [0u16; 256];
        let mut s: usize = 0;
        while s < 256
            invariant
                s <= 256,
                forall|i: u8| i < s ==> #[trigger] lo@[i as int] == gf_product(coeff, i as u16),
                forall|i: u8|
                    i < s ==> #[trigger] hi@[i as int] == gf_product(coeff, (i as u16) << 8),
            decreases 256 - s,
        {
            lo[s] = gf_mul(coeff, s as u16);
            hi[s] = gf_mul(coeff, (s as u16) << 8);
            s = s + 1;
        }
        let t = CoeffTables { lo, hi };
        proof {
            assert forall|l: u8, h: u8| #[trigger] (t.map())(l, h) == gf_product(
                coeff,
                word(l, h),
            ) by {
                lemma_word_is_xor(l, h);
                lemma_product_xor_right(coeff, l as u16, (h as u16) << 8);
                assert(t.lo@[l as int] == gf_product(coeff, l as u16));
                assert(t.hi@[h as int] == gf_product(coeff, (h as u16) << 8));
            }
        }
        t
    }
}

/// A symbol is the XOR of its nibbles in place.
proof fn lemma_word_is_xor(lo: u8, hi: u8)
    by (bit_vector)
    ensures
        word(lo, hi) == (lo as u16) ^ ((hi as u16) << 8),
        lo as u16 == ((lo & 0xF) as u16) ^ (((lo >> 4) * 16) as u16),
        (hi as u16) << 8 == (((hi & 0xF) as u16) << 8) ^ ((((hi >> 4) * 16) as u16) << 8),
        (lo & 0xF) < 16,
        (lo >> 4) < 16,
        (hi & 0xF) < 16,
        (hi >> 4) < 16,
{
}

/// `output ^= map(input)` with two byte lookups per symbol.
pub fn gf_mul_xor_table_scalar(tables: &CoeffTables, input: &[u8], output: &mut [u8])
    requires
        input@.len() == old(output)@.len(),
        input@.len() % 2 == 0,
    ensures
        final(output)@ == map_xor(tables.map(), input@, old(output)@),
{
    let n: usize = input.len() / 2;
    let mut k: usize = 0;
    let ghost f = tables.map();
    assert(output@ =~= map_xor_prefix(f, input@, output@, 0));
    while k < n
        invariant
            k <= n,
            2 * n == input.len(),
            input@.len() == old(output)@.len(),
            output@.len() == input@.len(),
            f == tables.map(),
            output@ == map_xor_prefix(f, input@, old(output)@, 2 * k as int),
        decreases n - k,
    {
        let lo: u16 = tables.lo[input[2 * k] as usize];
        let hi: u16 = tables.hi[input[2 * k + 1] as usize];
        let (p_lo, p_hi): (u8, u8) = split_bytes(lo ^ hi);
        xor_symbol(Ghost(f), Ghost(input@), Ghost(old(output)@), k, p_lo, p_hi, output);
        k = k + 1;
    }
    assert(output@ =~= map_xor(f, input@, old(output)@));
}

// ---------------------------------------------------------------------------
// Sixteen lanes at a time
// ---------------------------------------------------------------------------

/// A map on symbols that can be evaluated byte by byte.
pub(crate) trait SymbolMap {
    /// The map.
    spec fn image(&self) -> spec_fn(u8, u8) -> u16;

    /// The bytes of the image of one symbol.
    fn apply(&self, lo: u8, hi: u8) -> (r: (u8, u8))
        ensures
            r.0 == low_byte((self.image())(lo, hi)),
            r.1 == high_byte((self.image())(lo, hi)),
    ;
}

/// Split 32 interleaved bytes into the low and the high bytes of 16 symbols.
fn deinterleave(input: &[u8], off: usize) -> (r: ([u8; 16], [u8; 16]))
    requires
        off + 32 <= input@.len(),
    ensures
        forall|j: int| 0 <= j < 16 ==> #[trigger] r.0@[j] == input@[off + 2 * j],
        forall|j: int| 0 <= j < 16 ==> #[trigger] r.1@[j] == input@[off + 2 * j + 1],
{
    let mut low: [u8; 16] = [0u8; 16];
    let mut high: [u8; 16] = [0u8; 16];
    let mut j: usize = 0;
    while j < 16
        invariant
            j <= 16,
            off + 32 <= input.len(),
            forall|i: int| 0 <= i < j ==> #[trigger] low@[i] == input@[off + 2 * i],
            forall|i: int| 0 <= i < j ==> #[trigger] high@[i] == input@[off + 2 * i + 1],
        decreases 16 - j,
    {
        low[j] = input[off + 2 * j];
        high[j] = input[off + 2 * j + 1];
        j = j + 1;
    }
    (low, high)
}

/// Interleave the product bytes of 16 symbols and XOR them into the 32 bytes
/// from `off` on.
fn xor_interleaved(
    f: Ghost<spec_fn(u8, u8) -> u16>,
    input: Ghost<Seq<u8>>,
    start: Ghost<Seq<u8>>,
    off: usize,
    lo: &[u8; 16],
    hi: &[u8; 16],
    output: &mut [u8],
)
    requires
        off % 2 == 0,
        off + 32 <= old(output)@.len(),
        start@.len() == old(output)@.len(),
        old(output)@ == map_xor_prefix(f@, input@, start@, off as int),
        forall|j: int|
            0 <= j < 16 ==> #[trigger] lo@[j] == low_byte(
                f@(input@[off + 2 * j], input@[off + 2 * j + 1]),
            ),
        forall|j: int|
            0 <= j < 16 ==> #[trigger] hi@[j] == high_byte(
                f@(input@[off + 2 * j], input@[off + 2 * j + 1]),
            ),
    ensures
        final(output)@ == map_xor_prefix(f@, input@, start@, off + 32),
{
    let mut j: usize = 0;
    while j < 16
        invariant
            j <= 16,
            off % 2 == 0,
            off + 32 <= output.len(),
            start@.len() == output@.len(),
            output@ == map_xor_prefix(f@, input@, start@, off + 2 * j),
            forall|j: int|
                0 <= j < 16 ==> #[trigger] lo@[j] == low_byte(
                    f@(input@[off + 2 * j], input@[off + 2 * j + 1]),
                ),
            forall|j: int|
                0 <= j < 16 ==> #[trigger] hi@[j] == high_byte(
                    f@(input@[off + 2 * j], input@[off + 2 * j + 1]),
                ),
        decreases 16 - j,
    {
        assert(2 * (off / 2 + j) == off + 2 * j);
        xor_symbol(f, input, start, off / 2 + j, lo[j], hi[j], output);
        j = j + 1;
    }
}

/// One step of a vector kernel: 16 symbols from `off` on.
pub(crate) fn xor_chunk<M: SymbolMap>(
    map: &M,
    start: Ghost<Seq<u8>>,
    off: usize,
    input: &[u8],
    output: &mut [u8],
)
    requires
        off % 2 == 0,
        off + 32 <= input@.len(),
        input@.len() == old(output)@.len(),
        start@.len() == old(output)@.len(),
        old(output)@ == map_xor_prefix(map.image(), input@, start@, off as int),
    ensures
        final(output)@ == map_xor_prefix(map.image(), input@, start@, off + 32),
{
    let (low, high): ([u8; 16], [u8; 16]) = deinterleave(input, off);
    let mut lo: [u8; 16] = [0u8; 16];
    let mut hi: [u8; 16] = [0u8; 16];
    let ghost f = map.image();
    let mut j: usize = 0;
    while j < 16
        invariant
            j <= 16,
            f == map.image(),
            forall|i: int| 0 <= i < j ==> #[trigger] lo@[i] == low_byte(f(low@[i], high@[i])),
            forall|i: int| 0 <= i < j ==> #[trigger] hi@[i] == high_byte(f(low@[i], high@[i])),
        decreases 16 - j,
    {
        let (l, h): (u8, u8) = map.apply(low[j], high[j]);
        lo[j] = l;
        hi[j] = h;
        j = j + 1;
    }
    xor_interleaved(Ghost(f), Ghost(input@), start, off, &lo, &hi, output);
}

/// The symbols from `off` to the end, one at a time.
pub(crate) fn xor_tail<M: SymbolMap>(
    map: &M,
    start: Ghost<Seq<u8>>,
    off: usize,
    input: &[u8],
    output: &mut [u8],
)
    requires
        off % 2 == 0,
        off <= input@.len(),
        input@.len() % 2 == 0,
        input@.len() == old(output)@.len(),
        start@.len() == old(output)@.len(),
        old(output)@ == map_xor_prefix(map.image(), input@, start@, off as int),
    ensures
        final(output)@ == map_xor(map.image(), input@, start@),
{
    let ghost f = map.image();
    let n: usize = input.len() / 2;
    let mut k: usize = off / 2;
    while k < n
        invariant
            k <= n,
            2 * n == input.len(),
            input@.len() == output@.len(),
            start@.len() == output@.len(),
            f == map.image(),
            output@ == map_xor_prefix(f, input@, start@, 2 * k as int),
        decreases n - k,
    {
        let (lo, hi): (u8, u8) = map.apply(input[2 * k], input[2 * k + 1]);
        xor_symbol(Ghost(f), Ghost(input@), start, k, lo, hi, output);
        k = k + 1;
    }
    assert(output@ =~= map_xor(f, input@, start@));
}

/// All whole 32-byte chunks of the buffers; returns how many bytes they cover.
pub(crate) fn xor_chunks<M: SymbolMap>(map: &M, input: &[u8], output: &mut [u8]) -> (done: usize)
    requires
        input@.len() == old(output)@.len(),
    ensures
        done % 2 == 0,
        done <= input@.len(),
        input@.len() - done < 32,
        final(output)@ == map_xor_prefix(map.image(), input@, old(output)@, done as int),
{
    let chunks: usize = input.len() / 32;
    let mut c: usize = 0;
    assert(output@ =~= map_xor_prefix(map.image(), input@, output@, 0));
    while c < chunks
        invariant
            c <= chunks,
            32 * chunks <= input.len(),
            input@.len() == old(output)@.len(),
            input@.len() == output@.len(),
            output@ == map_xor_prefix(map.image(), input@, old(output)@, 32 * c as int),
        decreases chunks - c,
    {
        xor_chunk(map, Ghost(old(output)@), c * 32, input, output);
        c = c + 1;
    }
    chunks * 32
}

// ---------------------------------------------------------------------------
// Nibble tables
// ---------------------------------------------------------------------------

/// Nibble tables for the NEON path.
///
/// A byte is split into nibbles, and there are eight 16-byte tables: one for
/// each combination of the position of the byte in its symbol, the position of
/// the nibble in its byte, and the byte of the product.
///
/// - `lo_lo`, `lo_hi`: low and high byte of `c * n`;
/// - `lo_lo_n16`, `lo_hi_n16`: of `c * (n << 4)`;
/// - `hi_lo`, `hi_hi`: of `c * (n << 8)`;
/// - `hi_lo_n16`, `hi_hi_n16`: of `c * (n << 12)`.
pub struct NeonTables {
    pub lo_lo: [u8; 16],
    pub lo_hi: [u8; 16],
    pub lo_lo_n16: [u8; 16],
    pub lo_hi_n16: [u8; 16],
    pub hi_lo: [u8; 16],
    pub hi_hi: [u8; 16],
    pub hi_lo_n16: [u8; 16],
    pub hi_hi_n16: [u8; 16],
}

/// Four table entries, one for each nibble of a symbol.
pub open spec fn nibble_xor(
    a: Seq<u8>,
    b: Seq<u8>,
    c: Seq<u8>,
    d: Seq<u8>,
    lo: u8,
    hi: u8,
) -> u8 {
    a[(lo & 0xF) as int] ^ b[(lo >> 4) as int] ^ c[(hi & 0xF) as int] ^ d[(hi >> 4) as int]
}

/// `small` and `big` hold one byte of each product of a nibble: `small[n]` that
/// of `table[n]`, `big[n]` that of `table[16 * n]`.
pub open spec fn nibble_split(
    table: Seq<u16>,
    small_lo: Seq<u8>,
    small_hi: Seq<u8>,
    big_lo: Seq<u8>,
    big_hi: Seq<u8>,
    n: int,
) -> bool {
    &&& small_lo[n] == low_byte(table[n])
    &&& small_hi[n] == high_byte(table[n])
    &&& big_lo[n] == low_byte(table[16 * n])
    &&& big_hi[n] == high_byte(table[16 * n])
}

impl NeonTables {
    /// The symbol map that the tables hold.
    pub open spec fn map(&self) -> spec_fn(u8, u8) -> u16 {
        |lo: u8, hi: u8|
            word(
                nibble_xor(
                    self.lo_lo@,
                    self.lo_lo_n16@,
                    self.hi_lo@,
                    self.hi_lo_n16@,
                    lo,
                    hi,
                ),
                nibble_xor(
                    self.lo_hi@,
                    self.lo_hi_n16@,
                    self.hi_hi@,
                    self.hi_hi_n16@,
                    lo,
                    hi,
                ),
            )
    }

    /// The nibble tables are cut out of these byte tables.
    pub open spec fn cut_from(&self, t: &CoeffTables) -> bool {
        &&& forall|n: int|
            0 <= n < 16 ==> #[trigger] nibble_split(
                t.lo@,
                self.lo_lo@,
                self.lo_hi@,
                self.lo_lo_n16@,
                self.lo_hi_n16@,
                n,
            )
        &&& forall|n: int|
            0 <= n < 16 ==> #[trigger] nibble_split(
                t.hi@,
                self.hi_lo@,
                self.hi_hi@,
                self.hi_lo_n16@,
                self.hi_hi_n16@,
                n,
            )
    }

    /// Cut the nibble tables out of byte tables.
    pub fn from_coeff_tables(byte_tables: &CoeffTables) -> (t: Self)
        ensures
            t.cut_from(byte_tables),
            forall|coeff: u16|
                is_table_of(byte_tables, coeff) ==> #[trigger] multiplies(t.map(), coeff),
    {
        let mut t = NeonTables {
            lo_lo: [0; 16],
            lo_hi: [0; 16],
            lo_lo_n16: [0; 16],
            lo_hi_n16: [0; 16],
            hi_lo: [0; 16],
            hi_hi: [0; 16],
            hi_lo_n16: [0; 16],
            hi_hi_n16: [0; 16],
        };
        let mut n: usize = 0;
        while n < 16
            invariant
                n <= 16,
                forall|i: int|
                    0 <= i < n ==> #[trigger] nibble_split(
                        byte_tables.lo@,
                        t.lo_lo@,
                        t.lo_hi@,
                        t.lo_lo_n16@,
                        t.lo_hi_n16@,
                        i,
                    ),
                forall|i: int|
                    0 <= i < n ==> #[trigger] nibble_split(
                        byte_tables.hi@,
                        t.hi_lo@,
                        t.hi_hi@,
                        t.hi_lo_n16@,
                        t.hi_hi_n16@,
                        i,
                    ),
            decreases 16 - n,
        {
            let ghost before = t;
            let low_only: (u8, u8) = split_bytes(byte_tables.lo[n]);
            let low_n16: (u8, u8) = split_bytes(byte_tables.lo[n * 16]);
            let high_only: (u8, u8) = split_bytes(byte_tables.hi[n]);
            let high_n16: (u8, u8) = split_bytes(byte_tables.hi[n * 16]);
            t.lo_lo[n] = low_only.0;
            t.lo_hi[n] = low_only.1;
            t.lo_lo_n16[n] = low_n16.0;
            t.lo_hi_n16[n] = low_n16.1;
            t.hi_lo[n] = high_only.0;
            t.hi_hi[n] = high_only.1;
            t.hi_lo_n16[n] = high_n16.0;
            t.hi_hi_n16[n] = high_n16.1;
            proof {
                assert forall|i: int| 0 <= i < n + 1 implies #[trigger] nibble_split(
                    byte_tables.lo@,
                    t.lo_lo@,
                    t.lo_hi@,
                    t.lo_lo_n16@,
                    t.lo_hi_n16@,
                    i,
                ) by {
                    assert(i < n ==> nibble_split(
                        byte_tables.lo@,
                        before.lo_lo@,
                        before.lo_hi@,
                        before.lo_lo_n16@,
                        before.lo_hi_n16@,
                        i,
                    ));
                }
                assert forall|i: int| 0 <= i < n + 1 implies #[trigger] nibble_split(
                    byte_tables.hi@,
                    t.hi_lo@,
                    t.hi_hi@,
                    t.hi_lo_n16@,
                    t.hi_hi_n16@,
                    i,
                ) by {
                    assert(i < n ==> nibble_split(
                        byte_tables.hi@,
                        before.hi_lo@,
                        before.hi_hi@,
                        before.hi_lo_n16@,
                        before.hi_hi_n16@,
                        i,
                    ));
                }
            }
            n = n + 1;
        }
        proof {
            assert forall|coeff: u16| is_table_of(byte_tables, coeff) implies #[trigger] multiplies(
                t.map(),
                coeff,
            ) by {
                assert forall|lo: u8, hi: u8| #[trigger] (t.map())(lo, hi) == gf_product(
                    coeff,
                    word(lo, hi),
                ) by {
                    lemma_word_is_xor(lo, hi);
                    assert(nibble_split(byte_tables.lo@, t.lo_lo@, t.lo_hi@, t.lo_lo_n16@,
                        t.lo_hi_n16@, (lo & 0xF) as int));
                    assert(nibble_split(byte_tables.lo@, t.lo_lo@, t.lo_hi@, t.lo_lo_n16@,
                        t.lo_hi_n16@, (lo >> 4) as int));
                    assert(nibble_split(byte_tables.hi@, t.hi_lo@, t.hi_hi@, t.hi_lo_n16@,
                        t.hi_hi_n16@, (hi & 0xF) as int));
                    assert(nibble_split(byte_tables.hi@, t.hi_lo@, t.hi_hi@, t.hi_lo_n16@,
                        t.hi_hi_n16@, (hi >> 4) as int));
                    lemma_nibble_product(byte_tables, coeff, lo, hi);
                }
            }
        }
        t
    }
}

/// Each entry of the byte tables is the product of `coeff` with its index.
pub open spec fn is_table_of(t: &CoeffTables, coeff: u16) -> bool {
    &&& forall|s: u8| #[trigger] t.lo@[s as int] == gf_product(coeff, s as u16)
    &&& forall|s: u8| #[trigger] t.hi@[s as int] == gf_product(coeff, (s as u16) << 8)
}

/// A product is the XOR of the products of its four nibbles.
proof fn lemma_nibble_product(t: &CoeffTables, coeff: u16, lo: u8, hi: u8)
    requires
        is_table_of(t, coeff),
    ensures
        ({
            let a = t.lo@[(lo & 0xF) as int];
            let b = t.lo@[16 * (lo >> 4)];
            let c = t.hi@[(hi & 0xF) as int];
            let d = t.hi@[16 * (hi >> 4)];
            word(
                low_byte(a) ^ low_byte(b) ^ low_byte(c) ^ low_byte(d),
                high_byte(a) ^ high_byte(b) ^ high_byte(c) ^ high_byte(d),
            ) == gf_product(coeff, word(lo, hi))
        }),
{
    let a = t.lo@[(lo & 0xF) as int];
    let b = t.lo@[16 * (lo >> 4)];
    let c = t.hi@[(hi & 0xF) as int];
    let d = t.hi@[16 * (hi >> 4)];
    let l0 = lo & 0xF;
    let l1 = ((lo >> 4) * 16) as u8;
    let h0 = hi & 0xF;
    let h1 = ((hi >> 4) * 16) as u8;
    lemma_word_is_xor(lo, hi);
    assert(l1 as int == 16 * (lo >> 4) && h1 as int == 16 * (hi >> 4));
    assert(a == gf_product(coeff, l0 as u16));
    assert(b == gf_product(coeff, l1 as u16));
    assert(c == gf_product(coeff, (h0 as u16) << 8));
    assert(d == gf_product(coeff, (h1 as u16) << 8));
    lemma_product_xor_right(coeff, lo as u16, (hi as u16) << 8);
    lemma_product_xor_right(coeff, l0 as u16, l1 as u16);
    lemma_product_xor_right(coeff, (h0 as u16) << 8, (h1 as u16) << 8);
    let p = a ^ b ^ c ^ d;
    lemma_xor_group();
    assert((a ^ b) ^ (c ^ d) == p);
    lemma_word_bytes(a, b, 0, 0);
    lemma_word_bytes(a ^ b, c, 0, 0);
    lemma_word_bytes(a ^ b ^ c, d, 0, 0);
    lemma_word_bytes(p, 0, 0, 0);
}

impl SymbolMap for NeonTables {
    open spec fn image(&self) -> spec_fn(u8, u8) -> u16 {
        self.map()
    }

    fn apply(&self, lo: u8, hi: u8) -> (r: (u8, u8)) {
        proof {
            lemma_word_is_xor(lo, hi);
        }
        let lo_lo: usize = (lo & 0xF) as usize;
        let lo_hi: usize = (lo >> 4) as usize;
        let hi_lo: usize = (hi & 0xF) as usize;
        let hi_hi: usize = (hi >> 4) as usize;
        let p_lo: u8 = self.lo_lo[lo_lo] ^ self.lo_lo_n16[lo_hi] ^ self.hi_lo[hi_lo]
            ^ self.hi_lo_n16[hi_hi];
        let p_hi: u8 = self.lo_hi[lo_lo] ^ self.lo_hi_n16[lo_hi] ^ self.hi_hi[hi_lo]
            ^ self.hi_hi_n16[hi_hi];
        proof {
            lemma_word_bytes(0, 0, p_lo, p_hi);
        }
        (p_lo, p_hi)
    }
}

/// `output ^= map(input)` by nibble lookups in the layout of the NEON unit:
/// 32-byte chunks first, the rest symbol by symbol.
pub fn gf_mul_xor_neon(tables: &NeonTables, input: &[u8], output: &mut [u8])
    requires
        input@.len() == old(output)@.len(),
        input@.len() % 2 == 0,
    ensures
        final(output)@ == map_xor(tables.map(), input@, old(output)@),
{
    let ghost start = output@;
    let done: usize = xor_chunks(tables, input, output);
    gf_mul_xor_table_scalar_from_neon_tables(tables, Ghost(start), done, input, output);
}

/// The bytes after the last whole chunk, from the same nibble tables.
fn gf_mul_xor_table_scalar_from_neon_tables(
    nt: &NeonTables,
    start: Ghost<Seq<u8>>,
    consumed: usize,
    input: &[u8],
    output: &mut [u8],
)
    requires
        consumed % 2 == 0,
        consumed <= input@.len(),
        input@.len() % 2 == 0,
        input@.len() == old(output)@.len(),
        start@.len() == old(output)@.len(),
        old(output)@ == map_xor_prefix(nt.map(), input@, start@, consumed as int),
    ensures
        final(output)@ == map_xor(nt.map(), input@, start@),
{
    xor_tail(nt, start, consumed, input, output);
}

/// Nibble tables for the SSSE3 path, with the fields of `NeonTables`.
pub struct X86Tables {
    pub lo_lo: [u8; 16],
    pub lo_hi: [u8; 16],
    pub lo_lo_n16: [u8; 16],
    pub lo_hi_n16: [u8; 16],
    pub hi_lo: [u8; 16],
    pub hi_hi: [u8; 16],
    pub hi_lo_n16: [u8; 16],
    pub hi_hi_n16: [u8; 16],
}

impl X86Tables {
    /// The symbol map that the tables hold.
    pub open spec fn map(&self) -> spec_fn(u8, u8) -> u16 {
        |lo: u8, hi: u8|
            word(
                nibble_xor(
                    self.lo_lo@,
                    self.lo_lo_n16@,
                    self.hi_lo@,
                    self.hi_lo_n16@,
                    lo,
                    hi,
                ),
                nibble_xor(
                    self.lo_hi@,
                    self.lo_hi_n16@,
                    self.hi_hi@,
                    self.hi_hi_n16@,
                    lo,
                    hi,
                ),
            )
    }

    /// The nibble tables are cut out of these byte tables.
    pub open spec fn cut_from(&self, t: &CoeffTables) -> bool {
        &&& forall|n: int|
            0 <= n < 16 ==> #[trigger] nibble_split(
                t.lo@,
                self.lo_lo@,
                self.lo_hi@,
                self.lo_lo_n16@,
                self.lo_hi_n16@,
                n,
            )
        &&& forall|n: int|
            0 <= n < 16 ==> #[trigger] nibble_split(
                t.hi@,
                self.hi_lo@,
                self.hi_hi@,
                self.hi_lo_n16@,
                self.hi_hi_n16@,
                n,
            )
    }

    /// Cut the nibble tables out of byte tables.
    pub fn from_coeff_tables(byte_tables: &CoeffTables) -> (t: Self)
        ensures
            t.cut_from(byte_tables),
            forall|coeff: u16|
                is_table_of(byte_tables, coeff) ==> #[trigger] multiplies(t.map(), coeff),
    {
        let n = NeonTables::from_coeff_tables(byte_tables);
        let t = X86Tables {
            lo_lo: n.lo_lo,
            lo_hi: n.lo_hi,
            lo_lo_n16: n.lo_lo_n16,
            lo_hi_n16: n.lo_hi_n16,
            hi_lo: n.hi_lo,
            hi_hi: n.hi_hi,
            hi_lo_n16: n.hi_lo_n16,
            hi_hi_n16: n.hi_hi_n16,
        };
        proof {
            assert forall|coeff: u16| is_table_of(byte_tables, coeff) implies #[trigger] multiplies(
                t.map(),
                coeff,
            ) by {
                assert(multiplies(n.map(), coeff));
                assert forall|lo: u8, hi: u8| #[trigger] (t.map())(lo, hi) == gf_product(
                    coeff,
                    word(lo, hi),
                ) by {
                    assert((n.map())(lo, hi) == gf_product(coeff, word(lo, hi)));
                }
            }
        }
        t
    }
}

impl SymbolMap for X86Tables {
    open spec fn image(&self) -> spec_fn(u8, u8) -> u16 {
        self.map()
    }

    fn apply(&self, lo: u8, hi: u8) -> (r: (u8, u8)) {
        proof {
            lemma_word_is_xor(lo, hi);
        }
        let p_lo: u8 = self.lo_lo[(lo & 0xF) as usize] ^ self.lo_lo_n16[(lo >> 4) as usize]
            ^ self.hi_lo[(hi & 0xF) as usize] ^ self.hi_lo_n16[(hi >> 4) as usize];
        let p_hi: u8 = self.lo_hi[(lo & 0xF) as usize] ^ self.lo_hi_n16[(lo >> 4) as usize]
            ^ self.hi_hi[(hi & 0xF) as usize] ^ self.hi_hi_n16[(hi >> 4) as usize];
        proof {
            lemma_word_bytes(0, 0, p_lo, p_hi);
        }
        (p_lo, p_hi)
    }
}

/// `output ^= map(input)` by nibble lookups in the layout of the SSSE3 unit:
/// 32-byte chunks first, the rest symbol by symbol.
pub fn gf_mul_xor_ssse3(tables: &X86Tables, input: &[u8], output: &mut [u8])
    requires
        input@.len() == old(output)@.len(),
        input@.len() % 2 == 0,
    ensures
        final(output)@ == map_xor(tables.map(), input@, old(output)@),
{
    let ghost start = output@;
    let done: usize = xor_chunks(tables, input, output);
    gf_mul_xor_table_scalar_from_x86_tables(tables, Ghost(start), done, input, output);
}

/// The bytes after the last whole chunk, from the same nibble tables.
fn gf_mul_xor_table_scalar_from_x86_tables(
    nt: &X86Tables,
    start: Ghost<Seq<u8>>,
    consumed: usize,
    input: &[u8],
    output: &mut [u8],
)
    requires
        consumed % 2 == 0,
        consumed <= input@.len(),
        input@.len() % 2 == 0,
        input@.len() == old(output)@.len(),
        start@.len() == old(output)@.len(),
        old(output)@ == map_xor_prefix(nt.map(), input@, start@, consumed as int),
    ensures
        final(output)@ == map_xor(nt.map(), input@, start@),
{
    xor_tail(nt, start, consumed, input, output);
}

// ---------------------------------------------------------------------------
// Dispatch
// ---------------------------------------------------------------------------

/// The multiply-and-XOR paths.
#[derive(Copy, Clone, Debug, PartialEq, Eq, Structural)]
pub enum Dispatch {
    /// Log and antilog tables.
    Scalar,
    /// 256-entry tables by byte.
    TableScalar,
    /// 16-entry tables by nibble, NEON layout.
    Neon,
    /// 16-entry tables by nibble, SSSE3 layout.
    Ssse3,
    /// Bit matrices, 16 symbols per step.
    Gfni,
    /// Bit matrices, 64 symbols per step.
    GfniAvx512,
}

/// The instruction sets of a processor that the choice of a path depends on.
#[derive(Copy, Clone, Debug, PartialEq, Eq, Structural)]
pub struct CpuFeatures {
    pub neon: bool,
    pub ssse3: bool,
    pub gfni: bool,
    pub avx512f: bool,
    pub avx512bw: bool,
}

/// The fastest path for a processor with these instruction sets.
pub open spec fn fastest_path(cpu: CpuFeatures) -> Dispatch {
    if cpu.neon {
        Dispatch::Neon
    } else if cpu.gfni && cpu.avx512f && cpu.avx512bw {
        Dispatch::GfniAvx512
    } else if cpu.gfni && cpu.ssse3 {
        Dispatch::Gfni
    } else if cpu.ssse3 {
        Dispatch::Ssse3
    } else {
        Dispatch::TableScalar
    }
}

/// Select the fastest path for a processor.
pub fn detect_dispatch(cpu: CpuFeatures) -> (d: Dispatch)
    ensures
        d == fastest_path(cpu),
{
    if cpu.neon {
        return Dispatch::Neon;
    }
    if cpu.gfni && cpu.avx512f && cpu.avx512bw {
        return Dispatch::GfniAvx512;
    }
    if cpu.gfni && cpu.ssse3 {
        return Dispatch::Gfni;
    }
    if cpu.ssse3 {
        return Dispatch::Ssse3;
    }
    Dispatch::TableScalar
}

/// The selected path needs no instruction set that the processor lacks.
pub proof fn law_selected_path_is_supported(cpu: CpuFeatures)
    ensures
        fastest_path(cpu) != Dispatch::Scalar,
        fastest_path(cpu) == Dispatch::Neon ==> cpu.neon,
        fastest_path(cpu) == Dispatch::Ssse3 ==> cpu.ssse3,
        fastest_path(cpu) == Dispatch::Gfni ==> cpu.gfni && cpu.ssse3,
        fastest_path(cpu) == Dispatch::GfniAvx512 ==> cpu.gfni && cpu.avx512f && cpu.avx512bw,
{
}

/// `output ^= coeff * input` by the given path.
pub fn gf_mul_xor_dispatch(dispatch: Dispatch, coeff: u16, input: &[u8], output: &mut [u8])
    requires
        input@.len() == old(output)@.len(),
        input@.len() % 2 == 0,
    ensures
        final(output)@ == mul_xor(coeff, input@, old(output)@),
{
    let tables = CoeffSimdTables::new(dispatch, coeff);
    gf_mul_xor_with_tables(&tables, input, output);
    proof {
        lemma_map_xor_is_mul_xor(tables.map(), coeff, input@, old(output)@);
    }
}

/// The tables of one coefficient for one path. Encoding reuses a coefficient's
/// tables over a whole slice.
pub enum CoeffSimdTables {
    /// Coefficient 0 or 1: needs no table.
    Trivial(u16),
    /// Coefficient for the log and antilog path.
    Scalar(u16),
    /// Byte tables, boxed because they are much larger than the others.
    TableScalar(Box<CoeffTables>),
    /// Nibble tables, NEON layout.
    Neon(NeonTables),
    /// Nibble tables, SSSE3 layout.
    Ssse3(X86Tables),
    /// Bit matrices, 16 symbols per step.
    Gfni(GfniTables),
    /// Bit matrices, 64 symbols per step.
    GfniAvx512(GfniTables),
}

impl CoeffSimdTables {
    /// The trivial variant holds 0 or 1.
    pub open spec fn wf(&self) -> bool {
        match self {
            CoeffSimdTables::Trivial(c) => *c == 0 || *c == 1,
            _ => true,
        }
    }

    /// The symbol map that the tables hold.
    pub open spec fn map(&self) -> spec_fn(u8, u8) -> u16 {
        match self {
            CoeffSimdTables::Trivial(c) => times(*c),
            CoeffSimdTables::Scalar(c) => times(*c),
            CoeffSimdTables::TableScalar(t) => t.map(),
            CoeffSimdTables::Neon(t) => t.map(),
            CoeffSimdTables::Ssse3(t) => t.map(),
            CoeffSimdTables::Gfni(t) => t.map(),
            CoeffSimdTables::GfniAvx512(t) => t.map(),
        }
    }

    /// The path that the tables are for; coefficients 0 and 1 need none.
    pub open spec fn path(&self) -> Option<Dispatch> {
        match self {
            CoeffSimdTables::Trivial(_) => None,
            CoeffSimdTables::Scalar(_) => Some(Dispatch::Scalar),
            CoeffSimdTables::TableScalar(_) => Some(Dispatch::TableScalar),
            CoeffSimdTables::Neon(_) => Some(Dispatch::Neon),
            CoeffSimdTables::Ssse3(_) => Some(Dispatch::Ssse3),
            CoeffSimdTables::Gfni(_) => Some(Dispatch::Gfni),
            CoeffSimdTables::GfniAvx512(_) => Some(Dispatch::GfniAvx512),
        }
    }

    /// Build the tables that a path needs for `coeff`.
    pub fn new(dispatch: Dispatch, coeff: u16) -> (t: Self)
        ensures
            t.wf(),
            t.path() == (if coeff == 0 || coeff == 1 { None } else { Some(dispatch) }),
            multiplies(t.map(), coeff),
    {
        if coeff == 0 || coeff == 1 {
            return CoeffSimdTables::Trivial(coeff);
        }
        match dispatch {
            Dispatch::Scalar => CoeffSimdTables::Scalar(coeff),
            Dispatch::TableScalar => {
                CoeffSimdTables::TableScalar(Box::new(CoeffTables::new(coeff)))
            },
            Dispatch::Neon => {
                let byte_tables = CoeffTables::new(coeff);
                assert(is_table_of(&byte_tables, coeff));
                CoeffSimdTables::Neon(NeonTables::from_coeff_tables(&byte_tables))
            },
            Dispatch::Ssse3 => {
                let byte_tables = CoeffTables::new(coeff);
                assert(is_table_of(&byte_tables, coeff));
                CoeffSimdTables::Ssse3(X86Tables::from_coeff_tables(&byte_tables))
            },
            Dispatch::Gfni => CoeffSimdTables::Gfni(GfniTables::from_coeff(coeff)),
            Dispatch::GfniAvx512 => CoeffSimdTables::GfniAvx512(GfniTables::from_coeff(coeff)),
        }
    }
}

/// `output ^= map(input)` with tables that are already built.
pub fn gf_mul_xor_with_tables(tables: &CoeffSimdTables, input: &[u8], output: &mut [u8])
    requires
        tables.wf(),
        input@.len() == old(output)@.len(),
        input@.len() % 2 == 0,
    ensures
        final(output)@ == map_xor(tables.map(), input@, old(output)@),
        forall|coeff: u16| #[trigger]
            multiplies(tables.map(), coeff) ==> final(output)@ == mul_xor(
                coeff,
                input@,
                old(output)@,
            ),
{
    match tables {
        CoeffSimdTables::Trivial(c) => {
            if *c == 1 {
                xor_into(input, output);
            } else {
                proof {
                    lemma_mul_xor_zero(input@, output@);
                }
            }
            proof {
                lemma_map_xor_is_mul_xor(tables.map(), *c, input@, old(output)@);
            }
        },
        CoeffSimdTables::Scalar(c) => {
            gf_mul_xor_scalar(*c, input, output);
            proof {
                lemma_map_xor_is_mul_xor(tables.map(), *c, input@, old(output)@);
            }
        },
        CoeffSimdTables::TableScalar(t) => {
            gf_mul_xor_table_scalar(t, input, output);
        },
        CoeffSimdTables::Neon(t) => {
            gf_mul_xor_neon(t, input, output);
        },
        CoeffSimdTables::Ssse3(t) => {
            gf_mul_xor_ssse3(t, input, output);
        },
        CoeffSimdTables::Gfni(t) => {
            gf_mul_xor_gfni(t, input, output);
        },
        CoeffSimdTables::GfniAvx512(t) => {
            gf_mul_xor_gfni_avx512(t, input, output);
        },
    }
    proof {
        assert forall|coeff: u16| #[trigger] multiplies(tables.map(), coeff) implies output@
            == mul_xor(coeff, input@, old(output)@) by {
            lemma_map_xor_is_mul_xor(tables.map(), coeff, input@, old(output)@);
        }
    }
}

/// Every path gives the bytes of the scalar reference: tables built for the same
/// coefficient by any two paths act alike on any buffers.
pub proof fn law_paths_agree(
    a: &CoeffSimdTables,
    b: &CoeffSimdTables,
    coeff: u16,
    input: Seq<u8>,
    output: Seq<u8>,
)
    requires
        multiplies(a.map(), coeff),
        multiplies(b.map(), coeff),
    ensures
        map_xor(a.map(), input, output) == map_xor(b.map(), input, output),
        map_xor(a.map(), input, output) == mul_xor(coeff, input, output),
{
    lemma_map_xor_is_mul_xor(a.map(), coeff, input, output);
    lemma_map_xor_is_mul_xor(b.map(), coeff, input, output);
}

/// Which path is taken: NEON where there is one; else bit matrices, in wide
/// registers if there are any; else nibble tables; else byte tables.
pub proof fn law_fastest_path(cpu: CpuFeatures)
    ensures
        fastest_path(cpu) == Dispatch::Neon <==> cpu.neon,
        fastest_path(cpu) == Dispatch::GfniAvx512 <==> !cpu.neon && cpu.gfni && cpu.avx512f
            && cpu.avx512bw,
        fastest_path(cpu) == Dispatch::Gfni <==> !cpu.neon && cpu.gfni && cpu.ssse3
            && !(cpu.avx512f && cpu.avx512bw),
        fastest_path(cpu) == Dispatch::Ssse3 <==> !cpu.neon && cpu.ssse3 && !cpu.gfni,
        fastest_path(cpu) == Dispatch::TableScalar <==> !cpu.neon && !cpu.ssse3 && !(cpu.gfni
            && cpu.avx512f && cpu.avx512bw),
{
}

/// Tables of a coefficient map a symbol, given as its low and its high byte, to its
/// product with the coefficient.
pub proof fn law_tables_multiply(f: spec_fn(u8, u8) -> u16, coeff: u16, lo: u8, hi: u8, x: u16)
    requires
        multiplies(f, coeff),
        x == lo + 256 * hi,
    ensures
        f(lo, hi) == gf_product(coeff, x),
{
    law_symbol_value(seq![lo, hi], 0, 0);
    assert(word(lo, hi) == x);
}

/// What the nibble tables hold in the NEON layout: for each nibble the low and the high byte of its
/// product, where it is the low or the high nibble (`n16`) of the low or the high
/// byte of a symbol.
pub proof fn law_neon_tables(t: NeonTables, bytes: CoeffTables, n: int)
    requires
        t.cut_from(&bytes),
        0 <= n < 16,
    ensures
        t.lo_lo@[n] + 256 * t.lo_hi@[n] == bytes.lo@[n],
        t.lo_lo_n16@[n] + 256 * t.lo_hi_n16@[n] == bytes.lo@[16 * n],
        t.hi_lo@[n] + 256 * t.hi_hi@[n] == bytes.hi@[n],
        t.hi_lo_n16@[n] + 256 * t.hi_hi_n16@[n] == bytes.hi@[16 * n],
{
    assert(nibble_split(bytes.lo@, t.lo_lo@, t.lo_hi@, t.lo_lo_n16@, t.lo_hi_n16@, n));
    assert(nibble_split(bytes.hi@, t.hi_lo@, t.hi_hi@, t.hi_lo_n16@, t.hi_hi_n16@, n));
    law_symbol_value(seq![0u8, 0], 0, bytes.lo@[n]);
    law_symbol_value(seq![0u8, 0], 0, bytes.lo@[16 * n]);
    law_symbol_value(seq![0u8, 0], 0, bytes.hi@[n]);
    law_symbol_value(seq![0u8, 0], 0, bytes.hi@[16 * n]);
}

/// What the nibble tables hold in the SSSE3 layout: for each nibble the low and the high byte of its
/// product, where it is the low or the high nibble (`n16`) of the low or the high
/// byte of a symbol.
pub proof fn law_x86_tables(t: X86Tables, bytes: CoeffTables, n: int)
    requires
        t.cut_from(&bytes),
        0 <= n < 16,
    ensures
        t.lo_lo@[n] + 256 * t.lo_hi@[n] == bytes.lo@[n],
        t.lo_lo_n16@[n] + 256 * t.lo_hi_n16@[n] == bytes.lo@[16 * n],
        t.hi_lo@[n] + 256 * t.hi_hi@[n] == bytes.hi@[n],
        t.hi_lo_n16@[n] + 256 * t.hi_hi_n16@[n] == bytes.hi@[16 * n],
{
    assert(nibble_split(bytes.lo@, t.lo_lo@, t.lo_hi@, t.lo_lo_n16@, t.lo_hi_n16@, n));
    assert(nibble_split(bytes.hi@, t.hi_lo@, t.hi_hi@, t.hi_lo_n16@, t.hi_hi_n16@, n));
    law_symbol_value(seq![0u8, 0], 0, bytes.lo@[n]);
    law_symbol_value(seq![0u8, 0], 0, bytes.lo@[16 * n]);
    law_symbol_value(seq![0u8, 0], 0, bytes.hi@[n]);
    law_symbol_value(seq![0u8, 0], 0, bytes.hi@[16 * n]);
}

} // verus!
