//! Arithmetic in GF(2^16), the field PAR2 encodes over.
//!
//! An element is a polynomial over GF(2) of degree below 16, its coefficient of
//! `x^i` held in bit `i` of a `u16`. Products are reduced modulo the generator
//! `x^16 + x^12 + x^3 + x + 1`, which PAR2 writes as `0x1100B`. Addition and
//! subtraction are both XOR.

pub use crate::galois_order::{gf16_tables, Gf16Tables};
use vstd::prelude::*;

verus! {

/// Number of non-zero field elements, and the order of the generator element 2.
pub const FIELD_LIMIT: u32 = 65535;

/// The low 16 bits of the generator polynomial `0x1100B`: what `x^16` reduces to.
pub const REDUCTION: u16 = 0x100B;

/// The product of `a` with `x`.
pub open spec fn xtime(a: u16) -> u16 {
    (a << 1) ^ (if a & 0x8000 != 0 { REDUCTION } else { 0u16 })
}

/// The field product: the sum of `a * x^i` over the bits `i` set in `b`, in
/// Horner form.
pub open spec fn gf_product(a: u16, b: u16) -> u16
    decreases b,
{
    if b == 0 {
        0u16
    } else {
        (if b % 2 == 1 { a } else { 0u16 }) ^ xtime(gf_product(a, b / 2))
    }
}

/// `a` raised to the power `n` in the field; `0^0` is 1.
pub open spec fn gf_power(a: u16, n: nat) -> u16
    decreases n,
{
    if n == 0 {
        1u16
    } else {
        gf_product(a, gf_power(a, (n - 1) as nat))
    }
}

// ---------------------------------------------------------------------------
// XOR
// ---------------------------------------------------------------------------

/// XOR on symbols is an abelian group in which every element is its own inverse.
pub proof fn lemma_xor_group()
    by (bit_vector)
    ensures
        forall|a: u16, b: u16| #[trigger] (a ^ b) == b ^ a,
        forall|a: u16, b: u16, c: u16| #[trigger] ((a ^ b) ^ c) == a ^ (b ^ c),
        forall|a: u16| #[trigger] (a ^ 0u16) == a,
        forall|a: u16| #[trigger] (0u16 ^ a) == a,
        forall|a: u16| #[trigger] (a ^ a) == 0u16,
        forall|a: u16, b: u16| (#[trigger] (a ^ b) == 0u16) == (a == b),
{
}

/// Regrouping of four XOR terms.
pub proof fn lemma_xor_swap(a: u16, b: u16, c: u16, d: u16)
    by (bit_vector)
    ensures
        (a ^ b) ^ (c ^ d) == (a ^ c) ^ (b ^ d),
{
}

/// Multiplication by `x` is XOR-linear and injective.
proof fn lemma_xtime(a: u16, b: u16)
    by (bit_vector)
    ensures
        xtime(a ^ b) == xtime(a) ^ xtime(b),
        xtime(0) == 0,
        xtime(a) == 0 ==> a == 0,
        xtime(a) == xtime(b) ==> a == b,
        a == (if a % 2 == 1 { 1u16 } else { 0u16 }) ^ xtime(a / 2),
{
}

/// Different elements stay different when multiplied by `x`.
pub proof fn lemma_xtime_injective(a: u16, b: u16)
    ensures
        xtime(a) == xtime(b) ==> a == b,
{
    lemma_xtime(a, b);
}

// ---------------------------------------------------------------------------
// Ring laws
// ---------------------------------------------------------------------------

/// Nothing times `b` is nothing.
pub proof fn lemma_product_zero(b: u16)
    ensures
        gf_product(0, b) == 0,
        gf_product(b, 0) == 0,
    decreases b,
{
    if b != 0 {
        lemma_product_zero(b / 2);
        lemma_xtime(0, 0);
        lemma_xor_group();
    }
}

/// Multiplication distributes over XOR, on the left.
pub proof fn lemma_product_xor_left(a: u16, b: u16, c: u16)
    ensures
        gf_product(a ^ b, c) == gf_product(a, c) ^ gf_product(b, c),
    decreases c,
{
    lemma_xor_group();
    if c != 0 {
        let pa = gf_product(a, c / 2);
        let pb = gf_product(b, c / 2);
        lemma_product_xor_left(a, b, c / 2);
        lemma_xtime(pa, pb);
        if c % 2 == 1 {
            lemma_xor_swap(a, b, xtime(pa), xtime(pb));
        }
    }
}

/// A factor `x` moves out of the left operand.
proof fn lemma_product_xtime_left(a: u16, b: u16)
    ensures
        gf_product(xtime(a), b) == xtime(gf_product(a, b)),
    decreases b,
{
    lemma_xor_group();
    lemma_xtime(0, 0);
    if b != 0 {
        let p = gf_product(a, b / 2);
        lemma_product_xtime_left(a, b / 2);
        lemma_xtime(if b % 2 == 1 { a } else { 0u16 }, xtime(p));
    }
}

/// Multiplication is commutative.
pub proof fn lemma_product_commutes(a: u16, b: u16)
    ensures
        gf_product(a, b) == gf_product(b, a),
    decreases b,
{
    lemma_product_zero(a);
    if b != 0 {
        let low = if b % 2 == 1 { 1u16 } else { 0u16 };
        lemma_xtime(b, 0);
        lemma_product_xor_left(low, xtime(b / 2), a);
        lemma_product_xtime_left(b / 2, a);
        lemma_product_commutes(a, b / 2);
        lemma_product_one(a);
    }
}

/// 1 is the neutral element.
pub proof fn lemma_product_one(a: u16)
    ensures
        gf_product(1, a) == a,
        gf_product(a, 1) == a,
    decreases a,
{
    lemma_xor_group();
    lemma_xtime(a, 0);
    assert(gf_product(a, 1) == a) by {
        assert(gf_product(a, 1) == a ^ xtime(gf_product(a, 0)));
    }
    if a != 0 {
        lemma_product_one(a / 2);
    }
}

/// Multiplication distributes over XOR, on the right.
pub proof fn lemma_product_xor_right(a: u16, b: u16, c: u16)
    ensures
        gf_product(a, b ^ c) == gf_product(a, b) ^ gf_product(a, c),
{
    lemma_product_commutes(a, b ^ c);
    lemma_product_commutes(a, b);
    lemma_product_commutes(a, c);
    lemma_product_xor_left(b, c, a);
}

/// The element 2 stands for `x`.
pub proof fn lemma_product_two(a: u16)
    ensures
        gf_product(2, a) == xtime(a),
        gf_product(a, 2) == xtime(a),
{
    lemma_product_one(a);
    lemma_product_commutes(a, 2);
    lemma_xor_group();
    assert(2u16 / 2 == 1u16);
    assert(gf_product(a, 2) == 0u16 ^ xtime(gf_product(a, 1)));
}

/// Multiplication is associative.
pub proof fn lemma_product_associative(a: u16, b: u16, c: u16)
    ensures
        gf_product(gf_product(a, b), c) == gf_product(a, gf_product(b, c)),
    decreases c,
{
    lemma_product_zero(a);
    if c != 0 {
        let low = if c % 2 == 1 { b } else { 0u16 };
        let rest = gf_product(b, c / 2);
        lemma_product_associative(a, b, c / 2);
        lemma_product_xor_right(a, low, xtime(rest));
        lemma_product_commutes(a, xtime(rest));
        lemma_product_xtime_left(rest, a);
        lemma_product_commutes(a, rest);
    }
}

// ---------------------------------------------------------------------------
// Powers
// ---------------------------------------------------------------------------

/// The first powers.
pub proof fn lemma_power_small(a: u16)
    ensures
        gf_power(a, 0) == 1,
        gf_power(a, 1) == a,
        gf_power(a, 2) == gf_product(a, a),
{
    lemma_product_one(a);
    assert(gf_power(a, 1) == gf_product(a, gf_power(a, 0)));
    assert(gf_power(a, 2) == gf_product(a, gf_power(a, 1)));
}

/// Exponents add.
pub proof fn lemma_power_add(a: u16, m: nat, n: nat)
    ensures
        gf_power(a, m + n) == gf_product(gf_power(a, m), gf_power(a, n)),
    decreases m,
{
    if m == 0 {
        lemma_product_one(gf_power(a, n));
    } else {
        let k = (m - 1) as nat;
        lemma_power_add(a, k, n);
        assert((m + n - 1) as nat == k + n);
        lemma_product_associative(a, gf_power(a, k), gf_power(a, n));
    }
}

/// Powers of 1 are 1.
pub proof fn lemma_power_of_one(n: nat)
    ensures
        gf_power(1, n) == 1,
    decreases n,
{
    if n > 0 {
        lemma_power_of_one((n - 1) as nat);
        lemma_product_one(1);
    }
}

/// Exponents multiply.
pub proof fn lemma_power_mul(a: u16, m: nat, n: nat)
    ensures
        gf_power(gf_power(a, m), n) == gf_power(a, m * n),
    decreases n,
{
    if n == 0 {
        assert(m * n == 0) by (nonlinear_arith)
            requires
                n == 0,
        ;
    } else {
        let k = (n - 1) as nat;
        lemma_power_mul(a, m, k);
        assert(m * n == m + m * k) by (nonlinear_arith)
            requires
                n == k + 1,
        ;
        lemma_power_add(a, m, m * k);
    }
}

/// The power of a product is the product of the powers.
pub proof fn lemma_power_of_product(a: u16, b: u16, n: nat)
    ensures
        gf_power(gf_product(a, b), n) == gf_product(gf_power(a, n), gf_power(b, n)),
    decreases n,
{
    if n == 0 {
        lemma_product_one(1);
    } else {
        let k = (n - 1) as nat;
        let pa = gf_power(a, k);
        let pb = gf_power(b, k);
        lemma_power_of_product(a, b, k);
        lemma_product_associative(a, b, gf_product(pa, pb));
        lemma_product_associative(b, pa, pb);
        lemma_product_commutes(b, pa);
        lemma_product_associative(pa, b, pb);
        lemma_product_associative(a, pa, gf_product(b, pb));
    }
}

// ---------------------------------------------------------------------------
// Executable arithmetic
// ---------------------------------------------------------------------------

/// Multiply by `x`.
#[inline]
pub(crate) fn times_x(a: u16) -> (r: u16)
    ensures
        r == xtime(a),
{
    if a & 0x8000 != 0 {
        (a << 1) ^ REDUCTION
    } else {
        assert((a << 1) ^ 0u16 == a << 1) by (bit_vector);
        a << 1
    }
}

/// The product of `a` and `b` in GF(2^16).
pub fn gf_mul(a: u16, b: u16) -> (r: u16)
    ensures
        r == gf_product(a, b),
{
    let mut shifted: u16 = a;
    let mut rest: u16 = b;
    let mut acc: u16 = 0;
    proof {
        lemma_xor_group();
    }
    while rest != 0
        invariant
            gf_product(a, b) == acc ^ gf_product(shifted, rest),
        decreases rest,
    {
        proof {
            lemma_xor_group();
            lemma_product_xtime_left(shifted, rest / 2);
            let low = if rest % 2 == 1 { shifted } else { 0u16 };
            assert(gf_product(shifted, rest) == low ^ gf_product(xtime(shifted), rest / 2));
        }
        if rest % 2 == 1 {
            acc = acc ^ shifted;
        }
        shifted = times_x(shifted);
        rest = rest / 2;
    }
    proof {
        lemma_xor_group();
    }
    acc
}

/// `base` raised to `exp` in GF(2^16); `gf_pow(0, 0)` is 1.
pub fn gf_pow(base: u16, exp: u32) -> (r: u16)
    ensures
        r == gf_power(base, exp as nat),
{
    let mut square: u16 = base;
    let mut rest: u32 = exp;
    let mut acc: u16 = 1;
    proof {
        lemma_product_one(gf_power(base, exp as nat));
    }
    while rest != 0
        invariant
            gf_power(base, exp as nat) == gf_product(acc, gf_power(square, rest as nat)),
        decreases rest,
    {
        proof {
            let half = (rest / 2) as nat;
            lemma_power_small(square);
            lemma_power_mul(square, 2, half);
            if rest % 2 == 1 {
                assert(rest as nat == 1 + 2 * half);
                lemma_power_add(square, 1, 2 * half);
                lemma_product_associative(acc, square, gf_power(square, 2 * half));
            } else {
                assert(rest as nat == 2 * half);
            }
        }
        if rest % 2 == 1 {
            acc = gf_mul(acc, square);
        }
        square = gf_mul(square, square);
        rest = rest / 2;
    }
    proof {
        lemma_product_one(acc);
    }
    acc
}

// ---------------------------------------------------------------------------
// What pins the field down
// ---------------------------------------------------------------------------

proof fn lemma_xtime_value(a: u16)
    by (bit_vector)
    ensures
        a < 0x8000 ==> xtime(a) == 2 * a,
        a >= 0x8000 ==> xtime(a) == ((2 * a - 0x10000) as u16) ^ 0x100B,
{
}

/// Multiplication by 2 doubles, and takes what overflows back modulo `0x1100B`.
pub proof fn law_times_two(a: u16)
    ensures
        a < 0x8000 ==> gf_product(2, a) == 2 * a,
        a >= 0x8000 ==> gf_product(2, a) == ((2 * a - 0x10000) as u16) ^ 0x100B,
{
    lemma_product_two(a);
    lemma_xtime_value(a);
}

/// Products are those of a commutative ring with XOR as its sum. With the product
/// by 2, that leaves one product only.
pub proof fn law_product_is_of_a_ring(a: u16, b: u16, c: u16)
    ensures
        gf_product(a, 0) == 0,
        gf_product(a, 1) == a,
        gf_product(a, b) == gf_product(b, a),
        gf_product(gf_product(a, b), c) == gf_product(a, gf_product(b, c)),
        gf_product(a, b ^ c) == gf_product(a, b) ^ gf_product(a, c),
{
    lemma_product_zero(a);
    lemma_product_one(a);
    lemma_product_commutes(a, b);
    lemma_product_associative(a, b, c);
    lemma_product_xor_right(a, b, c);
}

/// A power is a product of as many equal factors.
pub proof fn law_power_is_repeated_product(a: u16, n: nat)
    ensures
        gf_power(a, 0) == 1,
        gf_power(a, n + 1) == gf_product(gf_power(a, n), a),
{
    lemma_product_commutes(a, gf_power(a, n));
    assert((n + 1 - 1) as nat == n);
}

} // verus!
