//! The multiplicative structure of GF(2^16): the element 2 generates every
//! non-zero element, so each has a discrete logarithm and an inverse.

use crate::coprime::{coprime, divides, gcd_of, lemma_gcd_is_greatest, lemma_proper_divisor};
use crate::galois::{
    gf_power, gf_product, lemma_power_add, lemma_power_mul, lemma_power_of_one, lemma_power_small,
    lemma_product_associative, lemma_product_commutes, lemma_product_one, lemma_product_two,
    lemma_product_zero, lemma_xtime_injective, times_x,
};
use vstd::arithmetic::div_mod::lemma_fundamental_div_mod;
use vstd::prelude::*;
use vstd::set_lib::{lemma_int_range, lemma_map_size, lemma_subset_equality, set_int_range};

verus! {

/// `2^n`.
pub open spec fn alpha(n: nat) -> u16 {
    gf_power(2, n)
}

/// Successive squares of 2, and the products that show no proper divisor of
/// 65535 to be its order.
proof fn lemma_square_chain()
    by (bit_vector)
    ensures
        gf_product(2, 2) == 4u16,
        gf_product(4, 4) == 0x10u16,
        gf_product(0x10, 0x10) == 0x100u16,
        gf_product(0x100, 0x100) == 0x100bu16,
        gf_product(0x100b, 0x100b) == 0x1bfeu16,
        gf_product(0x1bfe, 0x1bfe) == 0x5c24u16,
        gf_product(0x5c24, 0x5c24) == 0xe647u16,
        gf_product(0xe647, 0xe647) == 0x0b2fu16,
        gf_product(0x0b2f, 0x0b2f) == 0x169eu16,
        gf_product(0x169e, 0x169e) == 0x0a78u16,
        gf_product(0x0a78, 0x0a78) == 0x1780u16,
        gf_product(0x1780, 0x1780) == 0x1b27u16,
        gf_product(0x1b27, 0x1b27) == 0x0d65u16,
        gf_product(0x0d65, 0x0d65) == 0x564du16,
        gf_product(0x564d, 0x564d) == 0xf0c6u16,
        gf_product(0xf0c6, 0xf0c6) == 2u16,
        gf_product(0x0b2f, 2) == 0x165eu16,
        gf_product(0x1b27, 0x100b) == 0x0be9u16,
        gf_product(0x0be9, 0x165e) == 0x1au16,
        gf_product(0x1a, 0x1a) == 0x144u16,
        gf_product(0x144, 0x144) == 0x1bu16,
        gf_product(0x144, 0x1a) == 0x1ce8u16,
        gf_product(0x1b, 0x1a) == 0x15eu16,
{
}

proof fn lemma_alpha_doubles(n: nat)
    ensures
        alpha(2 * n) == gf_product(alpha(n), alpha(n)),
{
    lemma_power_add(2, n, n);
}

/// The powers of 2 that the order argument needs.
proof fn lemma_alpha_values()
    ensures
        alpha(1) == 2,
        alpha(256) == 0x0b2f,
        alpha(257) == 0x165e,
        alpha(4112) == 0x0be9,
        alpha(13107) == 0x1ce8,
        alpha(21845) == 0x15e,
        alpha(65536) == 2,
{
    lemma_square_chain();
    lemma_power_small(2);
    lemma_alpha_doubles(1);
    lemma_alpha_doubles(2);
    lemma_alpha_doubles(4);
    lemma_alpha_doubles(8);
    lemma_alpha_doubles(16);
    lemma_alpha_doubles(32);
    lemma_alpha_doubles(64);
    lemma_alpha_doubles(128);
    lemma_alpha_doubles(256);
    lemma_alpha_doubles(512);
    lemma_alpha_doubles(1024);
    lemma_alpha_doubles(2048);
    lemma_alpha_doubles(4096);
    lemma_alpha_doubles(8192);
    lemma_alpha_doubles(16384);
    lemma_alpha_doubles(32768);
    lemma_power_add(2, 256, 1);
    lemma_power_add(2, 4096, 16);
    lemma_power_add(2, 4112, 257);
    lemma_alpha_doubles(4369);
    lemma_alpha_doubles(8738);
    lemma_power_add(2, 8738, 4369);
    lemma_power_add(2, 17476, 4369);
}

/// 2 has an order that divides 65535, and none of the maximal proper divisors
/// is a period.
proof fn lemma_alpha_periods()
    ensures
        alpha(65535) == 1,
        alpha(21845) != 1,
        alpha(13107) != 1,
        alpha(3855) != 1,
        alpha(255) != 1,
{
    lemma_alpha_values();
    lemma_product_two(alpha(65535));
    lemma_product_two(1);
    lemma_product_one(2);
    lemma_xtime_injective(alpha(65535), 1);
    assert(alpha(65536) == gf_product(2, alpha(65535)));
    assert(alpha(256) == gf_product(2, alpha(255)));
    lemma_power_add(2, 3855, 257);
    lemma_product_one(alpha(257));
}

/// If two exponents give 1, so does their greatest common divisor.
proof fn lemma_periods_gcd(a: u16, m: nat, n: nat)
    requires
        gf_power(a, m) == 1,
        gf_power(a, n) == 1,
    ensures
        gf_power(a, gcd_of(m, n)) == 1,
    decreases n,
{
    if n > 0 {
        let q = m / n;
        let r = m % n;
        lemma_fundamental_div_mod(m as int, n as int);
        lemma_power_mul(a, n, q);
        lemma_power_of_one(q);
        lemma_power_add(a, n * q, r);
        lemma_product_one(gf_power(a, r));
        assert(m == n * q + r);
        lemma_periods_gcd(a, n, r);
    }
}

/// No positive exponent below 65535 brings 2 back to 1.
proof fn lemma_alpha_order(d: nat)
    requires
        0 < d < 65535,
    ensures
        alpha(d) != 1,
{
    lemma_alpha_periods();
    if alpha(d) == 1 {
        let g = gcd_of(65535, d);
        lemma_periods_gcd(2, 65535, d);
        lemma_gcd_is_greatest(65535, d);
        assert(g < 65535) by {
            let q = choose|q: nat| d == #[trigger] (g * q);
            assert(g <= d) by (nonlinear_arith)
                requires
                    d == g * q,
                    d > 0,
            ;
        }
        lemma_proper_divisor(g);
        let m: nat = if divides(g, 21845) {
            21845
        } else if divides(g, 13107) {
            13107
        } else if divides(g, 3855) {
            3855
        } else {
            255
        };
        let q = choose|q: nat| m == #[trigger] (g * q);
        lemma_power_mul(2, g, q);
        lemma_power_of_one(q);
        assert(false);
    }
}

/// 2 generates a cycle: exponents count modulo 65535.
pub proof fn lemma_alpha_cycle(n: nat)
    ensures
        alpha(n) == alpha(n % 65535),
{
    let q = n / 65535;
    lemma_alpha_periods();
    lemma_power_mul(2, 65535, q);
    lemma_power_of_one(q);
    lemma_power_add(2, 65535 * q, n % 65535);
    lemma_product_one(alpha(n % 65535));
    assert(n == 65535 * q + n % 65535);
}

/// No power of 2 is zero.
pub proof fn lemma_alpha_nonzero(n: nat)
    ensures
        alpha(n) != 0,
    decreases n,
{
    if n > 0 {
        lemma_alpha_nonzero((n - 1) as nat);
        lemma_product_two(alpha((n - 1) as nat));
        lemma_product_two(0);
        lemma_product_zero(2);
        lemma_xtime_injective(alpha((n - 1) as nat), 0);
    }
}

/// Dividing out a power of 2 leaves the rest unchanged.
proof fn lemma_alpha_cancels(n: nat, a: u16, b: u16)
    requires
        gf_product(alpha(n), a) == gf_product(alpha(n), b),
    ensures
        a == b,
    decreases n,
{
    lemma_product_one(a);
    lemma_product_one(b);
    if n > 0 {
        let k = (n - 1) as nat;
        lemma_product_associative(2, alpha(k), a);
        lemma_product_associative(2, alpha(k), b);
        lemma_product_two(gf_product(alpha(k), a));
        lemma_product_two(gf_product(alpha(k), b));
        lemma_xtime_injective(gf_product(alpha(k), a), gf_product(alpha(k), b));
        lemma_alpha_cancels(k, a, b);
    }
}

/// The powers of 2 with exponents below 65535 are all different.
pub proof fn lemma_alpha_distinct(i: nat, j: nat)
    requires
        i < 65535,
        j < 65535,
        alpha(i) == alpha(j),
    ensures
        i == j,
{
    if i != j {
        let (lo, hi) = if i < j { (i, j) } else { (j, i) };
        let d = (hi - lo) as nat;
        lemma_power_add(2, lo, d);
        lemma_product_one(alpha(lo));
        lemma_alpha_cancels(lo, alpha(d), 1);
        lemma_alpha_order(d);
    }
}

/// Every non-zero element is a power of 2.
pub proof fn lemma_every_element_is_power(a: u16)
    requires
        a != 0,
    ensures
        exists|i: nat| i < 65535 && #[trigger] alpha(i) == a,
{
    let f = |i: int| alpha(i as nat) as int;
    let dom = set_int_range(0, 65535);
    let all = set_int_range(1, 65536);
    let img = dom.map(f);
    lemma_int_range(0, 65535);
    lemma_int_range(1, 65536);
    assert forall|x1: int, x2: int|
        dom.contains(x1) && dom.contains(x2) && #[trigger] f(x1) == #[trigger] f(x2) implies x1
        == x2 by {
        lemma_alpha_distinct(x1 as nat, x2 as nat);
    }
    lemma_map_size(dom, img, f);
    assert forall|v: int| img.contains(v) implies all.contains(v) by {
        let i = choose|i: int| dom.contains(i) && v == f(i);
        lemma_alpha_nonzero(i as nat);
    }
    lemma_subset_equality(img, all);
    assert(all.contains(a as int));
    assert(img.contains(a as int));
    let i = choose|i: int| dom.contains(i) && a as int == f(i);
    assert(alpha(i as nat) == a);
}

/// The discrete logarithm: the exponent below 65535 that takes 2 to `a`.
pub open spec fn discrete_log(a: u16) -> nat
    recommends
        a != 0,
{
    choose|i: nat| i < 65535 && #[trigger] alpha(i) == a
}

/// The discrete logarithm of a non-zero element exists.
pub proof fn lemma_discrete_log(a: u16)
    requires
        a != 0,
    ensures
        discrete_log(a) < 65535,
        alpha(discrete_log(a)) == a,
{
    lemma_every_element_is_power(a);
}

/// Products of non-zero elements add their logarithms modulo 65535.
pub proof fn lemma_product_by_logs(a: u16, b: u16)
    requires
        a != 0,
        b != 0,
    ensures
        gf_product(a, b) == alpha((discrete_log(a) + discrete_log(b)) % 65535),
{
    lemma_discrete_log(a);
    lemma_discrete_log(b);
    lemma_power_add(2, discrete_log(a), discrete_log(b));
    lemma_alpha_cycle(discrete_log(a) + discrete_log(b));
}

/// The field has no zero divisors.
pub proof fn lemma_no_zero_divisors(a: u16, b: u16)
    requires
        gf_product(a, b) == 0,
    ensures
        a == 0 || b == 0,
{
    if a != 0 && b != 0 {
        lemma_product_by_logs(a, b);
        lemma_alpha_nonzero((discrete_log(a) + discrete_log(b)) % 65535);
    }
}

/// Every non-zero element has a multiplicative inverse.
pub proof fn law_inverse_exists(a: u16)
    requires
        a != 0,
    ensures
        exists|b: u16| #[trigger] gf_product(a, b) == 1,
{
    let i = discrete_log(a);
    let b = alpha((65535 - i) as nat);
    lemma_discrete_log(a);
    lemma_power_add(2, i, (65535 - i) as nat);
    lemma_alpha_periods();
    assert(gf_product(a, b) == 1);
}

/// An element whose logarithm is coprime to 65535 generates the whole field:
/// its powers below 65535 are all different.
pub proof fn lemma_coprime_log_generates(log: nat, i: nat, j: nat)
    requires
        coprime(65535, log),
        i < 65535,
        j < 65535,
        gf_power(alpha(log), i) == gf_power(alpha(log), j),
    ensures
        i == j,
{
    if i != j {
        let (lo, hi) = if i < j { (i, j) } else { (j, i) };
        let d = (hi - lo) as nat;
        lemma_power_mul(2, log, lo);
        lemma_power_mul(2, log, hi);
        assert(log * hi == log * lo + log * d) by (nonlinear_arith)
            requires
                hi == lo + d,
        ;
        lemma_power_add(2, log * lo, log * d);
        lemma_product_one(alpha(log * lo));
        lemma_alpha_cancels(log * lo, alpha(log * d), 1);
        // alpha(d)^log == 1 and alpha(d)^65535 == 1, so alpha(d) == 1.
        assert(log * d == d * log) by (nonlinear_arith);
        lemma_power_mul(2, d, log);
        lemma_alpha_periods();
        lemma_power_mul(2, d, 65535);
        lemma_power_mul(2, 65535, d);
        lemma_power_of_one(d);
        assert(d * 65535 == 65535 * d);
        lemma_periods_gcd(alpha(d), 65535, log);
        lemma_power_small(alpha(d));
        lemma_alpha_order(d);
    }
}

// ---------------------------------------------------------------------------
// Log and antilog tables
// ---------------------------------------------------------------------------

/// Discrete logarithm and exponential tables.
///
/// `antilog[i]` is `2^i` and `log` inverts it. Zero has no logarithm: `log[0]`
/// is 65535, and `antilog[65535]` is 0.
pub struct Gf16Tables {
    pub log: Vec<u16>,
    pub antilog: Vec<u16>,
}

impl Gf16Tables {
    /// Both tables are complete.
    pub open spec fn wf(&self) -> bool {
        &&& self.log.len() == 65536
        &&& self.antilog.len() == 65536
        &&& forall|i: int| 0 <= i < 65535 ==> #[trigger] self.antilog@[i] == alpha(i as nat)
        &&& forall|a: u16| a != 0 ==> #[trigger] self.log@[a as int] == discrete_log(a)
        &&& self.log@[0] == 65535
        &&& self.antilog@[65535] == 0
    }
}

/// Build the log and antilog tables.
pub fn gf16_tables() -> (t: Gf16Tables)
    ensures
        t.wf(),
{
    let mut log: Vec<u16> = vec![0u16; 65536];
    let mut antilog: Vec<u16> = vec![0u16; 65536];
    let mut b: u16 = 1;
    let mut l: u32 = 0;
    while l < 65535
        invariant
            l <= 65535,
            log.len() == 65536,
            antilog.len() == 65536,
            b == alpha(l as nat),
            forall|i: int| 0 <= i < l ==> #[trigger] antilog@[i] == alpha(i as nat),
            forall|i: nat| i < l ==> log@[#[trigger] alpha(i) as int] == i,
        decreases 65535 - l,
    {
        let ghost before = log@;
        log.set(b as usize, l as u16);
        antilog.set(l as usize, b);
        proof {
            assert forall|i: nat| i < l + 1 implies log@[#[trigger] alpha(i) as int] == i by {
                if alpha(i) == b {
                    lemma_alpha_distinct(i, l as nat);
                } else {
                    assert(log@[alpha(i) as int] == before[alpha(i) as int]);
                }
            }
            lemma_product_two(b);
            lemma_product_commutes(2, b);
        }
        b = times_x(b);
        l = l + 1;
    }
    log.set(0, 65535);
    antilog.set(65535, 0);
    proof {
        assert forall|a: u16| a != 0 implies #[trigger] log@[a as int] == discrete_log(a) by {
            lemma_discrete_log(a);
        }
    }
    Gf16Tables { log, antilog }
}

/// What the tables hold: powers of 2, one after the other, and for every power
/// where it stands.
pub proof fn law_tables(t: Gf16Tables, i: int)
    requires
        t.wf(),
        0 <= i < 65535,
    ensures
        t.log@.len() == 65536,
        t.antilog@.len() == 65536,
        t.antilog@[0] == 1,
        i < 65534 ==> t.antilog@[i + 1] == gf_product(2, t.antilog@[i]),
        t.log@[t.antilog@[i] as int] == i,
        t.log@[0] == 65535,
        t.antilog@[65535] == 0,
{
    assert(t.antilog@[0] == alpha(0));
    assert(t.antilog@[i] == alpha(i as nat));
    if i < 65534 {
        assert(t.antilog@[i + 1] == alpha((i + 1) as nat));
        assert((i + 1 - 1) as nat == i as nat);
    }
    let a = alpha(i as nat);
    lemma_alpha_nonzero(i as nat);
    lemma_discrete_log(a);
    lemma_alpha_distinct(discrete_log(a), i as nat);
}

} // verus!
