//! Multiplication by bit matrices, in the packing of the GF2P8AFFINEQB
//! instruction.
//!
//! Multiplication by a fixed coefficient `c` is a 16x16 matrix over GF(2) on the
//! bits of a symbol; column `j` is `c * 2^j`. It is cut into four 8x8 blocks by
//! the byte of the product and the byte of the symbol:
//!
//! | block    | product bits | symbol bits |
//! |----------|--------------|-------------|
//! | `mat_ll` | 0..8         | 0..8        |
//! | `mat_lh` | 0..8         | 8..16       |
//! | `mat_hl` | 8..16        | 0..8        |
//! | `mat_hh` | 8..16        | 8..16       |
//!
//! A block is packed into a `u64`: row `i` is byte `7 - i` (byte 7 being the
//! most significant), and entry `k` of a row is bit `k` of that byte. Applying
//! a block to a byte gives, as bit `i`, the parity of row `i` AND that byte.

use crate::galois::{
    gf_mul, gf_product, lemma_product_xor_right, lemma_product_zero,
};
use crate::galois_simd::{multiplies, xor_chunk, xor_chunks, xor_tail, SymbolMap};
use crate::symbols::{
    high_byte, lemma_word_bytes, low_byte, map_xor, map_xor_prefix, word,
};
use vstd::prelude::*;

verus! {

/// 1 if an odd number of bits is set, else 0.
pub open spec fn parity(v: u8) -> u8 {
    (v ^ (v >> 1) ^ (v >> 2) ^ (v >> 3) ^ (v >> 4) ^ (v >> 5) ^ (v >> 6) ^ (v >> 7)) & 1
}

/// The packed 8x8 matrix `mat` applied to the bits of `x`.
pub open spec fn affine(mat: u64, x: u8) -> u8 {
    parity((mat >> 56) as u8 & x) | (parity((mat >> 48) as u8 & x) << 1) | (parity(
        (mat >> 40) as u8 & x,
    ) << 2) | (parity((mat >> 32) as u8 & x) << 3) | (parity((mat >> 24) as u8 & x) << 4) | (parity(
        (mat >> 16) as u8 & x,
    ) << 5) | (parity((mat >> 8) as u8 & x) << 6) | (parity(mat as u8 & x) << 7)
}

/// Bit `out` of each of eight columns, as one row of a matrix.
pub open spec fn matrix_row(
    c0: u16,
    c1: u16,
    c2: u16,
    c3: u16,
    c4: u16,
    c5: u16,
    c6: u16,
    c7: u16,
    out: u16,
) -> u8 {
    ((c0 >> out) & 1) as u8 | (((c1 >> out) & 1) as u8) << 1 | (((c2 >> out) & 1) as u8) << 2 | (((c3
        >> out) & 1) as u8) << 3 | (((c4 >> out) & 1) as u8) << 4 | (((c5 >> out) & 1) as u8) << 5
        | (((c6 >> out) & 1) as u8) << 6 | (((c7 >> out) & 1) as u8) << 7
}

/// The packed block of the bits `base..base + 8` of eight columns.
pub open spec fn matrix_block(
    c0: u16,
    c1: u16,
    c2: u16,
    c3: u16,
    c4: u16,
    c5: u16,
    c6: u16,
    c7: u16,
    base: u16,
) -> u64 {
    (matrix_row(c0, c1, c2, c3, c4, c5, c6, c7, base) as u64) << 56 | (matrix_row(
        c0,
        c1,
        c2,
        c3,
        c4,
        c5,
        c6,
        c7,
        (base + 1) as u16,
    ) as u64) << 48 | (matrix_row(c0, c1, c2, c3, c4, c5, c6, c7, (base + 2) as u16) as u64) << 40
        | (matrix_row(c0, c1, c2, c3, c4, c5, c6, c7, (base + 3) as u16) as u64) << 32
        | (matrix_row(c0, c1, c2, c3, c4, c5, c6, c7, (base + 4) as u16) as u64) << 24
        | (matrix_row(c0, c1, c2, c3, c4, c5, c6, c7, (base + 5) as u16) as u64) << 16
        | (matrix_row(c0, c1, c2, c3, c4, c5, c6, c7, (base + 6) as u16) as u64) << 8
        | (matrix_row(c0, c1, c2, c3, c4, c5, c6, c7, (base + 7) as u16) as u64)
}

/// The block of the matrix of `coeff` that takes the symbol bits from
/// `in_base` on to the product bits from `out_base` on.
pub open spec fn coeff_block(coeff: u16, out_base: u16, in_base: u16) -> u64 {
    let b = 1u16 << in_base;
    matrix_block(
        gf_product(coeff, b),
        gf_product(coeff, b << 1),
        gf_product(coeff, b << 2),
        gf_product(coeff, b << 3),
        gf_product(coeff, b << 4),
        gf_product(coeff, b << 5),
        gf_product(coeff, b << 6),
        gf_product(coeff, b << 7),
        out_base,
    )
}

/// `v` if bit `k` of `x` is set, else 0.
pub open spec fn select(x: u8, k: u8, v: u16) -> u16 {
    if (x >> k) & 1 == 1 {
        v
    } else {
        0u16
    }
}

/// The XOR of the columns that the bits of `x` select.
pub open spec fn selected(
    x: u8,
    c0: u16,
    c1: u16,
    c2: u16,
    c3: u16,
    c4: u16,
    c5: u16,
    c6: u16,
    c7: u16,
) -> u16 {
    select(x, 0, c0) ^ select(x, 1, c1) ^ select(x, 2, c2) ^ select(x, 3, c3) ^ select(x, 4, c4)
        ^ select(x, 5, c5) ^ select(x, 6, c6) ^ select(x, 7, c7)
}

/// A packed block computes its byte of the XOR of the selected columns.
proof fn lemma_block_selects(
    x: u8,
    c0: u16,
    c1: u16,
    c2: u16,
    c3: u16,
    c4: u16,
    c5: u16,
    c6: u16,
    c7: u16,
)
    by (bit_vector)
    ensures
        affine(matrix_block(c0, c1, c2, c3, c4, c5, c6, c7, 0), x) == low_byte(
            selected(x, c0, c1, c2, c3, c4, c5, c6, c7),
        ),
        affine(matrix_block(c0, c1, c2, c3, c4, c5, c6, c7, 8), x) == high_byte(
            selected(x, c0, c1, c2, c3, c4, c5, c6, c7),
        ),
{
}

/// The bits of a byte, each in place, in the low or in the high half of a symbol.
proof fn lemma_byte_is_selected(x: u8)
    by (bit_vector)
    ensures
        selected(x, 0x1, 0x2, 0x4, 0x8, 0x10, 0x20, 0x40, 0x80) == x as u16,
        selected(x, 0x100, 0x200, 0x400, 0x800, 0x1000, 0x2000, 0x4000, 0x8000) == (x as u16) << 8,
        word(x, 0) == x as u16,
        word(0, x) == (x as u16) << 8,
        1u16 << 0u16 == 0x1,
        0x1u16 << 1 == 0x2 && 0x1u16 << 2 == 0x4 && 0x1u16 << 3 == 0x8 && 0x1u16 << 4 == 0x10,
        0x1u16 << 5 == 0x20 && 0x1u16 << 6 == 0x40 && 0x1u16 << 7 == 0x80,
        1u16 << 8u16 == 0x100,
        0x100u16 << 1 == 0x200 && 0x100u16 << 2 == 0x400 && 0x100u16 << 3 == 0x800 && 0x100u16 << 4
            == 0x1000,
        0x100u16 << 5 == 0x2000 && 0x100u16 << 6 == 0x4000 && 0x100u16 << 7 == 0x8000,
{
}

/// A symbol is the XOR of its halves in place.
proof fn lemma_word_halves(lo: u8, hi: u8)
    by (bit_vector)
    ensures
        word(lo, hi) == (lo as u16) ^ ((hi as u16) << 8),
{
}

/// Multiplication goes into the selection.
proof fn lemma_product_select(coeff: u16, x: u8, k: u8, v: u16)
    ensures
        gf_product(coeff, select(x, k, v)) == select(x, k, gf_product(coeff, v)),
{
    lemma_product_zero(coeff);
}

/// Multiplication goes into the XOR of selected columns.
proof fn lemma_product_selected(
    coeff: u16,
    x: u8,
    c0: u16,
    c1: u16,
    c2: u16,
    c3: u16,
    c4: u16,
    c5: u16,
    c6: u16,
    c7: u16,
)
    ensures
        gf_product(coeff, selected(x, c0, c1, c2, c3, c4, c5, c6, c7)) == selected(
            x,
            gf_product(coeff, c0),
            gf_product(coeff, c1),
            gf_product(coeff, c2),
            gf_product(coeff, c3),
            gf_product(coeff, c4),
            gf_product(coeff, c5),
            gf_product(coeff, c6),
            gf_product(coeff, c7),
        ),
{
    let s0 = select(x, 0, c0);
    let s1 = s0 ^ select(x, 1, c1);
    let s2 = s1 ^ select(x, 2, c2);
    let s3 = s2 ^ select(x, 3, c3);
    let s4 = s3 ^ select(x, 4, c4);
    let s5 = s4 ^ select(x, 5, c5);
    let s6 = s5 ^ select(x, 6, c6);
    lemma_product_xor_right(coeff, s6, select(x, 7, c7));
    lemma_product_xor_right(coeff, s5, select(x, 6, c6));
    lemma_product_xor_right(coeff, s4, select(x, 5, c5));
    lemma_product_xor_right(coeff, s3, select(x, 4, c4));
    lemma_product_xor_right(coeff, s2, select(x, 3, c3));
    lemma_product_xor_right(coeff, s1, select(x, 2, c2));
    lemma_product_xor_right(coeff, s0, select(x, 1, c1));
    lemma_product_select(coeff, x, 0, c0);
    lemma_product_select(coeff, x, 1, c1);
    lemma_product_select(coeff, x, 2, c2);
    lemma_product_select(coeff, x, 3, c3);
    lemma_product_select(coeff, x, 4, c4);
    lemma_product_select(coeff, x, 5, c5);
    lemma_product_select(coeff, x, 6, c6);
    lemma_product_select(coeff, x, 7, c7);
}

/// The blocks of `coeff` compute the bytes of a product with one half of a symbol.
proof fn lemma_coeff_blocks(coeff: u16, x: u8)
    ensures
        affine(coeff_block(coeff, 0, 0), x) == low_byte(gf_product(coeff, x as u16)),
        affine(coeff_block(coeff, 8, 0), x) == high_byte(gf_product(coeff, x as u16)),
        affine(coeff_block(coeff, 0, 8), x) == low_byte(gf_product(coeff, (x as u16) << 8)),
        affine(coeff_block(coeff, 8, 8), x) == high_byte(gf_product(coeff, (x as u16) << 8)),
{
    lemma_byte_is_selected(x);
    lemma_product_selected(coeff, x, 0x1, 0x2, 0x4, 0x8, 0x10, 0x20, 0x40, 0x80);
    lemma_product_selected(
        coeff,
        x,
        0x100,
        0x200,
        0x400,
        0x800,
        0x1000,
        0x2000,
        0x4000,
        0x8000,
    );
    lemma_block_selects(
        x,
        gf_product(coeff, 0x1),
        gf_product(coeff, 0x2),
        gf_product(coeff, 0x4),
        gf_product(coeff, 0x8),
        gf_product(coeff, 0x10),
        gf_product(coeff, 0x20),
        gf_product(coeff, 0x40),
        gf_product(coeff, 0x80),
    );
    lemma_block_selects(
        x,
        gf_product(coeff, 0x100),
        gf_product(coeff, 0x200),
        gf_product(coeff, 0x400),
        gf_product(coeff, 0x800),
        gf_product(coeff, 0x1000),
        gf_product(coeff, 0x2000),
        gf_product(coeff, 0x4000),
        gf_product(coeff, 0x8000),
    );
}

/// The four matrices of one coefficient.
#[derive(Clone, Copy, Debug)]
pub struct GfniTables {
    /// Low product byte from low symbol byte.
    pub(in crate::galois_simd) mat_ll: u64,
    /// Low product byte from high symbol byte.
    pub(in crate::galois_simd) mat_lh: u64,
    /// High product byte from low symbol byte.
    pub(in crate::galois_simd) mat_hl: u64,
    /// High product byte from high symbol byte.
    pub(in crate::galois_simd) mat_hh: u64,
}

impl GfniTables {
    /// Low product byte from low symbol byte, packed.
    pub closed spec fn ll(&self) -> u64 {
        self.mat_ll
    }

    /// Low product byte from high symbol byte, packed.
    pub closed spec fn lh(&self) -> u64 {
        self.mat_lh
    }

    /// High product byte from low symbol byte, packed.
    pub closed spec fn hl(&self) -> u64 {
        self.mat_hl
    }

    /// High product byte from high symbol byte, packed.
    pub closed spec fn hh(&self) -> u64 {
        self.mat_hh
    }

    /// The symbol map that the matrices hold.
    pub open spec fn map(&self) -> spec_fn(u8, u8) -> u16 {
        |lo: u8, hi: u8|
            word(
                affine(self.ll(), lo) ^ affine(self.lh(), hi),
                affine(self.hl(), lo) ^ affine(self.hh(), hi),
            )
    }

    /// The matrices of multiplication by `coeff`.
    pub fn from_coeff(coeff: u16) -> (t: Self)
        ensures
            t.ll() == coeff_block(coeff, 0, 0),
            t.lh() == coeff_block(coeff, 0, 8),
            t.hl() == coeff_block(coeff, 8, 0),
            t.hh() == coeff_block(coeff, 8, 8),
            multiplies(t.map(), coeff),
    {
        proof {
            lemma_byte_is_selected(0);
        }
        let low: [u16; 8] = columns(coeff, 0x1);
        let high: [u16; 8] = columns(coeff, 0x100);
        let t = GfniTables {
            mat_ll: pack_block(&low, 0),
            mat_lh: pack_block(&high, 0),
            mat_hl: pack_block(&low, 8),
            mat_hh: pack_block(&high, 8),
        };
        proof {
            assert forall|lo: u8, hi: u8| #[trigger] (t.map())(lo, hi) == gf_product(
                coeff,
                word(lo, hi),
            ) by {
                let a = gf_product(coeff, lo as u16);
                let b = gf_product(coeff, (hi as u16) << 8);
                lemma_coeff_blocks(coeff, lo);
                lemma_coeff_blocks(coeff, hi);
                lemma_word_halves(lo, hi);
                lemma_product_xor_right(coeff, lo as u16, (hi as u16) << 8);
                lemma_word_bytes(a, b, 0, 0);
                lemma_word_bytes(a ^ b, 0, 0, 0);
            }
        }
        t
    }

    /// One symbol through the four matrices.
    pub fn apply_scalar(&self, lo: u8, hi: u8) -> (r: (u8, u8))
        ensures
            r.0 == affine(self.ll(), lo) ^ affine(self.lh(), hi),
            r.1 == affine(self.hl(), lo) ^ affine(self.hh(), hi),
    {
        let out_lo: u8 = affine_apply(self.mat_ll, lo) ^ affine_apply(self.mat_lh, hi);
        let out_hi: u8 = affine_apply(self.mat_hl, lo) ^ affine_apply(self.mat_hh, hi);
        (out_lo, out_hi)
    }
}

/// The images of eight neighbouring bits, the lowest of which is `bit`.
fn columns(coeff: u16, bit: u16) -> (cols: [u16; 8])
    ensures
        cols@[0] == gf_product(coeff, bit),
        cols@[1] == gf_product(coeff, bit << 1),
        cols@[2] == gf_product(coeff, bit << 2),
        cols@[3] == gf_product(coeff, bit << 3),
        cols@[4] == gf_product(coeff, bit << 4),
        cols@[5] == gf_product(coeff, bit << 5),
        cols@[6] == gf_product(coeff, bit << 6),
        cols@[7] == gf_product(coeff, bit << 7),
{
    [
        gf_mul(coeff, bit),
        gf_mul(coeff, bit << 1),
        gf_mul(coeff, bit << 2),
        gf_mul(coeff, bit << 3),
        gf_mul(coeff, bit << 4),
        gf_mul(coeff, bit << 5),
        gf_mul(coeff, bit << 6),
        gf_mul(coeff, bit << 7),
    ]
}

/// One row of a block, entry `k` in bit `k`.
fn pack_row(c: &[u16; 8], out: u16) -> (row: u8)
    requires
        out < 16,
    ensures
        row == matrix_row(c@[0], c@[1], c@[2], c@[3], c@[4], c@[5], c@[6], c@[7], out),
{
    ((c[0] >> out) & 1) as u8 | (((c[1] >> out) & 1) as u8) << 1 | (((c[2] >> out) & 1) as u8) << 2
        | (((c[3] >> out) & 1) as u8) << 3 | (((c[4] >> out) & 1) as u8) << 4 | (((c[5] >> out) & 1)
        as u8) << 5 | (((c[6] >> out) & 1) as u8) << 6 | (((c[7] >> out) & 1) as u8) << 7
}

/// The block of the product bits from `base` on, row `i` in byte `7 - i`.
fn pack_block(c: &[u16; 8], base: u16) -> (mat: u64)
    requires
        base <= 8,
    ensures
        mat == matrix_block(c@[0], c@[1], c@[2], c@[3], c@[4], c@[5], c@[6], c@[7], base),
{
    (pack_row(c, base) as u64) << 56 | (pack_row(c, base + 1) as u64) << 48 | (pack_row(c, base + 2)
        as u64) << 40 | (pack_row(c, base + 3) as u64) << 32 | (pack_row(c, base + 4) as u64) << 24
        | (pack_row(c, base + 5) as u64) << 16 | (pack_row(c, base + 6) as u64) << 8 | (pack_row(
        c,
        base + 7,
    ) as u64)
}

/// Parity of the set bits of a byte.
fn parity_of(v: u8) -> (p: u8)
    ensures
        p == parity(v),
{
    let h: u8 = v ^ (v >> 4);
    let q: u8 = h ^ (h >> 2);
    let r: u8 = q ^ (q >> 1);
    assert(r & 1 == parity(v)) by (bit_vector)
        requires
            h == v ^ (v >> 4),
            q == h ^ (h >> 2),
            r == q ^ (q >> 1),
    ;
    r & 1
}

/// A packed matrix applied to a byte: bit `i` is the parity of row `i` AND `x`.
pub fn affine_apply(mat: u64, x: u8) -> (y: u8)
    ensures
        y == affine(mat, x),
{
    parity_of((mat >> 56) as u8 & x) | (parity_of((mat >> 48) as u8 & x) << 1) | (parity_of(
        (mat >> 40) as u8 & x,
    ) << 2) | (parity_of((mat >> 32) as u8 & x) << 3) | (parity_of((mat >> 24) as u8 & x) << 4) | (
    parity_of((mat >> 16) as u8 & x) << 5) | (parity_of((mat >> 8) as u8 & x) << 6) | (parity_of(
        mat as u8 & x,
    ) << 7)
}

impl SymbolMap for GfniTables {
    open spec fn image(&self) -> spec_fn(u8, u8) -> u16 {
        self.map()
    }

    fn apply(&self, lo: u8, hi: u8) -> (r: (u8, u8)) {
        let r: (u8, u8) = self.apply_scalar(lo, hi);
        proof {
            lemma_word_bytes(0, 0, r.0, r.1);
        }
        r
    }
}

/// `output ^= map(input)` by bit matrices: 32-byte chunks, then symbol by
/// symbol.
pub fn gf_mul_xor_gfni(t: &GfniTables, input: &[u8], output: &mut [u8])
    requires
        input@.len() == old(output)@.len(),
        input@.len() % 2 == 0,
    ensures
        final(output)@ == map_xor(t.map(), input@, old(output)@),
{
    let ghost start = output@;
    let done: usize = xor_chunks(t, input, output);
    xor_tail(t, Ghost(start), done, input, output);
}

/// `output ^= map(input)` by bit matrices: 128-byte chunks of four 16-symbol
/// lanes, then 32-byte chunks, then symbol by symbol.
pub fn gf_mul_xor_gfni_avx512(t: &GfniTables, input: &[u8], output: &mut [u8])
    requires
        input@.len() == old(output)@.len(),
        input@.len() % 2 == 0,
    ensures
        final(output)@ == map_xor(t.map(), input@, old(output)@),
{
    let ghost start = output@;
    let chunks: usize = input.len() / 128;
    let mut c: usize = 0;
    assert(output@ =~= map_xor_prefix(t.map(), input@, start, 0));
    while c < chunks
        invariant
            c <= chunks,
            128 * chunks <= input.len(),
            input@.len() == output@.len(),
            start.len() == output@.len(),
            output@ == map_xor_prefix(t.map(), input@, start, 128 * c as int),
        decreases chunks - c,
    {
        let off: usize = c * 128;
        xor_chunk(t, Ghost(start), off, input, output);
        xor_chunk(t, Ghost(start), off + 32, input, output);
        xor_chunk(t, Ghost(start), off + 64, input, output);
        xor_chunk(t, Ghost(start), off + 96, input, output);
        c = c + 1;
    }
    let mut off: usize = chunks * 128;
    while input.len() - off >= 32
        invariant
            off % 2 == 0,
            off <= input.len(),
            input@.len() == output@.len(),
            start.len() == output@.len(),
            output@ == map_xor_prefix(t.map(), input@, start, off as int),
        decreases input.len() - off,
    {
        xor_chunk(t, Ghost(start), off, input, output);
        off = off + 32;
    }
    xor_tail(t, Ghost(start), off, input, output);
}

proof fn lemma_parity_adds(r: u8, x: u8, y: u8)
    by (bit_vector)
    ensures
        parity(r & (x ^ y)) == parity(r & x) ^ parity(r & y),
        parity(r & x) <= 1,
        parity(r & y) <= 1,
{
}

/// Eight bits, put into one byte.
spec fn gathered(a: u8, b: u8, c: u8, d: u8, e: u8, f: u8, g: u8, h: u8) -> u8 {
    a | (b << 1) | (c << 2) | (d << 3) | (e << 4) | (f << 5) | (g << 6) | (h << 7)
}

proof fn lemma_gathered_adds(
    a: u8,
    b: u8,
    c: u8,
    d: u8,
    e: u8,
    f: u8,
    g: u8,
    h: u8,
    p: u8,
    q: u8,
    r: u8,
    s: u8,
    t: u8,
    u: u8,
    v: u8,
    w: u8,
)
    by (bit_vector)
    requires
        a <= 1 && b <= 1 && c <= 1 && d <= 1 && e <= 1 && f <= 1 && g <= 1 && h <= 1,
        p <= 1 && q <= 1 && r <= 1 && s <= 1 && t <= 1 && u <= 1 && v <= 1 && w <= 1,
    ensures
        gathered(a ^ p, b ^ q, c ^ r, d ^ s, e ^ t, f ^ u, g ^ v, h ^ w) == gathered(
            a,
            b,
            c,
            d,
            e,
            f,
            g,
            h,
        ) ^ gathered(p, q, r, s, t, u, v, w),
{
}

proof fn lemma_affine_adds(mat: u64, x: u8, y: u8)
    ensures
        affine(mat, x ^ y) == affine(mat, x) ^ affine(mat, y),
{
    let r0 = (mat >> 56) as u8;
    let r1 = (mat >> 48) as u8;
    let r2 = (mat >> 40) as u8;
    let r3 = (mat >> 32) as u8;
    let r4 = (mat >> 24) as u8;
    let r5 = (mat >> 16) as u8;
    let r6 = (mat >> 8) as u8;
    let r7 = mat as u8;
    lemma_parity_adds(r0, x, y);
    lemma_parity_adds(r1, x, y);
    lemma_parity_adds(r2, x, y);
    lemma_parity_adds(r3, x, y);
    lemma_parity_adds(r4, x, y);
    lemma_parity_adds(r5, x, y);
    lemma_parity_adds(r6, x, y);
    lemma_parity_adds(r7, x, y);
    lemma_gathered_adds(
        parity(r0 & x),
        parity(r1 & x),
        parity(r2 & x),
        parity(r3 & x),
        parity(r4 & x),
        parity(r5 & x),
        parity(r6 & x),
        parity(r7 & x),
        parity(r0 & y),
        parity(r1 & y),
        parity(r2 & y),
        parity(r3 & y),
        parity(r4 & y),
        parity(r5 & y),
        parity(r6 & y),
        parity(r7 & y),
    );
}

/// A packed matrix acts linearly, and on a single bit it picks a column: entry `k`
/// of row `i`, which is bit `k` of byte `7 - i`.
pub proof fn law_affine(mat: u64, x: u8, y: u8, i: u64, k: u64)
    requires
        i < 8,
        k < 8,
    ensures
        affine(mat, x ^ y) == affine(mat, x) ^ affine(mat, y),
        (affine(mat, (1u8 << k)) >> i) & 1 == 1 <==> (mat >> ((8 * (7 - i) + k) as u64)) & 1 == 1,
{
    lemma_affine_adds(mat, x, y);
    let s = (8 * (7 - i) + k) as u64;
    assert((affine(mat, (1u8 << k)) >> i) & 1 == 1 <==> (mat >> s) & 1 == 1) by (bit_vector)
        requires
            i < 8,
            k < 8,
            s == 8 * (7 - i) + k,
    ;
}

} // verus!
