//! Greatest common divisors, and how many numbers below 65535 share no factor
//! with it.

use vstd::arithmetic::div_mod::{
    lemma_fundamental_div_mod, lemma_fundamental_div_mod_converse, lemma_mod_multiples_basic,
    lemma_mod_multiples_vanish,
};
use vstd::prelude::*;

verus! {

/// `d` divides `n`.
pub open spec fn divides(d: nat, n: nat) -> bool {
    exists|q: nat| n == #[trigger] (d * q)
}

/// The greatest common divisor, by Euclid's recursion.
pub open spec fn gcd_of(a: nat, b: nat) -> nat
    decreases b,
{
    if b == 0 {
        a
    } else {
        gcd_of(b, a % b)
    }
}

/// No number but 1 divides both.
pub open spec fn coprime(a: nat, b: nat) -> bool {
    gcd_of(a, b) == 1
}

proof fn lemma_divides_linear(d: nat, a: nat, b: nat)
    requires
        b > 0,
    ensures
        divides(d, b) && divides(d, a % b) ==> divides(d, a),
        divides(d, b) && divides(d, a) ==> divides(d, a % b),
{
    lemma_fundamental_div_mod(a as int, b as int);
    let k = a / b;
    if divides(d, b) && divides(d, a % b) {
        let q = choose|q: nat| b == #[trigger] (d * q);
        let r = choose|r: nat| a % b == #[trigger] (d * r);
        assert(a == d * (q * k + r)) by (nonlinear_arith)
            requires
                a == b * k + a % b,
                b == d * q,
                a % b == d * r,
        ;
    }
    if divides(d, b) && divides(d, a) {
        let q = choose|q: nat| b == #[trigger] (d * q);
        let r = choose|r: nat| a == #[trigger] (d * r);
        if d == 0 {
            assert(d * q == 0) by (nonlinear_arith)
                requires
                    d == 0,
            ;
        } else {
            let m = a % b;
            assert(m == d * (r - q * k)) by (nonlinear_arith)
                requires
                    a == b * k + m,
                    b == d * q,
                    a == d * r,
            ;
            assert(r - q * k >= 0) by (nonlinear_arith)
                requires
                    d > 0,
                    d * (r - q * k) >= 0,
            ;
            let w = (r - q * k) as nat;
            assert(a % b == d * w);
        }
    }
}

/// `gcd_of(a, b)` divides both numbers, and every common divisor divides it.
pub proof fn lemma_gcd_is_greatest(a: nat, b: nat)
    ensures
        divides(gcd_of(a, b), a),
        divides(gcd_of(a, b), b),
        forall|d: nat| divides(d, a) && divides(d, b) ==> #[trigger] divides(d, gcd_of(a, b)),
        a > 0 || b > 0 ==> gcd_of(a, b) > 0,
    decreases b,
{
    if b == 0 {
        assert(a == a * 1);
        assert(0nat == a * 0nat);
    } else {
        let g = gcd_of(b, a % b);
        lemma_gcd_is_greatest(b, a % b);
        lemma_divides_linear(g, a, b);
        assert forall|d: nat| divides(d, a) && divides(d, b) implies #[trigger] divides(d, g) by {
            lemma_divides_linear(d, a, b);
        }
    }
}

/// Number of `i` in `0..n` for which `f` holds.
pub open spec fn count_where(f: spec_fn(int) -> bool, n: nat) -> nat
    decreases n,
{
    if n == 0 {
        0
    } else {
        count_where(f, (n - 1) as nat) + (if f(n - 1) { 1nat } else { 0nat })
    }
}

/// Predicates that agree below `n` have the same count.
proof fn lemma_count_agree(f: spec_fn(int) -> bool, g: spec_fn(int) -> bool, n: nat)
    requires
        forall|i: int| 0 <= i < n ==> #[trigger] f(i) == g(i),
    ensures
        count_where(f, n) == count_where(g, n),
    decreases n,
{
    if n > 0 {
        lemma_count_agree(f, g, (n - 1) as nat);
    }
}

/// A predicate of period `m` holds equally often in each stretch of `m`.
proof fn lemma_count_shift(f: spec_fn(int) -> bool, m: nat, n: nat)
    requires
        forall|i: int| 0 <= i ==> #[trigger] f(i + m) == f(i),
    ensures
        count_where(f, m + n) == count_where(f, m) + count_where(f, n),
    decreases n,
{
    if n > 0 {
        lemma_count_shift(f, m, (n - 1) as nat);
        assert(f((n - 1) + m) == f(n - 1));
        assert((m + n - 1) as nat == m + (n - 1) as nat);
    }
}

/// A predicate of period `m` holds `k` times as often in `k` periods as in one.
proof fn lemma_count_periods(f: spec_fn(int) -> bool, m: nat, k: nat)
    requires
        forall|i: int| 0 <= i ==> #[trigger] f(i + m) == f(i),
    ensures
        count_where(f, m * k) == k * count_where(f, m),
    decreases k,
{
    if k == 0 {
        assert(m * k == 0) by (nonlinear_arith)
            requires
                k == 0,
        ;
        assert(k * count_where(f, m) == 0) by (nonlinear_arith)
            requires
                k == 0,
        ;
    } else {
        let j = (k - 1) as nat;
        let c = count_where(f, m);
        lemma_count_periods(f, m, j);
        assert(m * k == m + m * j) by (nonlinear_arith)
            requires
                k == j + 1,
        ;
        assert(k * c == c + j * c) by (nonlinear_arith)
            requires
                k == j + 1,
        ;
        lemma_count_shift(f, m, m * j);
    }
}

/// Leaving out the multiples of `p` below `p * n + e` leaves out one for each
/// multiple at which `f` holds.
proof fn lemma_count_without_multiples(f: spec_fn(int) -> bool, p: nat, n: nat, e: nat)
    requires
        p > 0,
        e < p,
    ensures
        count_where(|i: int| f(i) && i % (p as int) != 0, p * n + e) + count_where(
            |j: int| f(p * j),
            if e == 0 { n } else { n + 1 },
        ) == count_where(f, p * n + e),
    decreases n, e,
{
    let h = |i: int| f(i) && i % (p as int) != 0;
    let s = |j: int| f(p * j);
    if e == 0 && n == 0 {
        assert(p * n == 0) by (nonlinear_arith)
            requires
                n == 0,
        ;
    } else {
        let n1 = if e == 0 { (n - 1) as nat } else { n };
        let e1 = if e == 0 { (p - 1) as nat } else { (e - 1) as nat };
        let last = (p * n1 + e1) as int;
        assert(p * n + e == last + 1) by (nonlinear_arith)
            requires
                e == 0 ==> n == n1 + 1 && p == e1 + 1,
                e != 0 ==> n == n1 && e == e1 + 1,
                last == p * n1 + e1,
        ;
        lemma_count_without_multiples(f, p, n1, e1);
        assert(last == n1 * p + e1) by (nonlinear_arith)
            requires
                last == p * n1 + e1,
        ;
        lemma_fundamental_div_mod_converse(last, p as int, n1 as int, e1 as int);
        assert(last % (p as int) == e1);
        if e1 == 0 {
            assert(s(n1 as int) == f(last));
            assert(!h(last));
        } else {
            assert(h(last) == f(last));
        }
    }
}

/// Dropping the multiples of `p` from a predicate of period `m` that does not
/// change under multiplication by `p` keeps `p - 1` of every `p`.
proof fn lemma_count_sieve_step(f: spec_fn(int) -> bool, m: nat, p: nat)
    requires
        p > 0,
        forall|i: int| 0 <= i ==> #[trigger] f(i + m) == f(i),
        forall|j: int| 0 <= j ==> f(p * j) == #[trigger] f(j),
    ensures
        count_where(|i: int| f(i) && i % (p as int) != 0, m * p) == (p - 1) * count_where(f, m),
{
    let s = |j: int| f(p * j);
    assert(p * m + 0 == m * p) by (nonlinear_arith);
    lemma_count_without_multiples(f, p, m, 0);
    lemma_count_periods(f, m, p);
    lemma_count_agree(f, s, m);
    assert(p * count_where(f, m) - count_where(f, m) == (p - 1) * count_where(f, m))
        by (nonlinear_arith);
}

/// `n` is a multiple of none of the primes 3, 5, 17 and 257 of 65535.
pub open spec fn free_of_65535(n: int) -> bool {
    n % 3 != 0 && n % 5 != 0 && n % 17 != 0 && n % 257 != 0
}

/// A factor `p` that leaves 2 modulo an odd `q` does not change whether `q`
/// divides.
proof fn lemma_scaling_keeps_multiples(j: int, p: int, q: int)
    requires
        q > 2,
        q % 2 == 1,
        p % q == 2,
    ensures
        (p * j) % q == 0 <==> j % q == 0,
{
    let t = p / q;
    lemma_fundamental_div_mod(p, q);
    assert(p * j == q * (t * j) + 2 * j) by (nonlinear_arith)
        requires
            p == q * t + 2,
    ;
    lemma_mod_multiples_vanish(t * j, 2 * j, q);
    if j % q == 0 {
        lemma_fundamental_div_mod(j, q);
        let w = j / q;
        assert(2 * j == (2 * w) * q) by (nonlinear_arith)
            requires
                j == q * w,
        ;
        lemma_mod_multiples_basic(2 * w, q);
    }
    if (2 * j) % q == 0 {
        lemma_fundamental_div_mod(2 * j, q);
        let w = (2 * j) / q;
        let u = q / 2;
        assert(j == (j - u * w) * q) by (nonlinear_arith)
            requires
                2 * j == q * w,
                q == 2 * u + 1,
        ;
        lemma_mod_multiples_basic(j - u * w, q);
    }
}

/// Adding a multiple of `q` does not change the residue modulo `q`.
proof fn lemma_period(n: int, m: int, q: int)
    requires
        q > 0,
        m % q == 0,
    ensures
        (n + m) % q == n % q,
{
    lemma_fundamental_div_mod(m, q);
    lemma_mod_multiples_vanish(m / q, n, q);
}

/// Of the numbers below 3, two are no multiples of 3.
proof fn lemma_count_free_of_3()
    ensures
        count_where(|n: int| n % 3 != 0, 3) == 2,
{
    let f = |n: int| n % 3 != 0;
    reveal_with_fuel(count_where, 4);
    assert(!f(0) && f(1) && f(2));
}

/// Below 15 there are 8 multiples of neither 3 nor 5.
proof fn lemma_count_free_of_15()
    ensures
        count_where(|n: int| n % 3 != 0 && n % 5 != 0, 15) == 8,
{
    let f = |n: int| n % 3 != 0;
    assert forall|n: int| 0 <= n implies #[trigger] f(n + 3nat) == f(n) by {
        lemma_period(n, 3, 3);
    }
    assert forall|j: int| 0 <= j implies f(5nat * j) == #[trigger] f(j) by {
        lemma_scaling_keeps_multiples(j, 5, 3);
    }
    lemma_count_free_of_3();
    lemma_count_sieve_step(f, 3, 5);
    lemma_count_agree(
        |n: int| f(n) && n % (5nat as int) != 0,
        |n: int| n % 3 != 0 && n % 5 != 0,
        15,
    );
}

/// Below 255 there are 128 multiples of none of 3, 5 and 17.
proof fn lemma_count_free_of_255()
    ensures
        count_where(|n: int| n % 3 != 0 && n % 5 != 0 && n % 17 != 0, 255) == 128,
{
    let f = |n: int| n % 3 != 0 && n % 5 != 0;
    assert forall|n: int| 0 <= n implies #[trigger] f(n + 15nat) == f(n) by {
        lemma_period(n, 15, 3);
        lemma_period(n, 15, 5);
    }
    assert forall|j: int| 0 <= j implies f(17nat * j) == #[trigger] f(j) by {
        lemma_scaling_keeps_multiples(j, 17, 3);
        lemma_scaling_keeps_multiples(j, 17, 5);
    }
    lemma_count_free_of_15();
    lemma_count_sieve_step(f, 15, 17);
    lemma_count_agree(
        |n: int| f(n) && n % (17nat as int) != 0,
        |n: int| n % 3 != 0 && n % 5 != 0 && n % 17 != 0,
        255,
    );
}

/// Below 65535 there are 32768 numbers free of its prime factors.
proof fn lemma_count_free()
    ensures
        count_where(|n: int| free_of_65535(n), 65535) == 32768,
{
    let f = |n: int| n % 3 != 0 && n % 5 != 0 && n % 17 != 0;
    assert forall|n: int| 0 <= n implies #[trigger] f(n + 255nat) == f(n) by {
        lemma_period(n, 255, 3);
        lemma_period(n, 255, 5);
        lemma_period(n, 255, 17);
    }
    assert forall|j: int| 0 <= j implies f(257nat * j) == #[trigger] f(j) by {
        lemma_scaling_keeps_multiples(j, 257, 3);
        lemma_scaling_keeps_multiples(j, 257, 5);
        lemma_scaling_keeps_multiples(j, 257, 17);
    }
    lemma_count_free_of_255();
    lemma_count_sieve_step(f, 255, 257);
    lemma_count_agree(
        |n: int| f(n) && n % (257nat as int) != 0,
        |n: int| free_of_65535(n),
        65535,
    );
}

/// A divisor of 65535 above 1 is a multiple of one of its four primes.
proof fn lemma_divisor_has_prime(g: u32)
    by (bit_vector)
    requires
        1 < g <= 65535,
        65535u32 % g == 0,
    ensures
        g % 3u32 == 0 || g % 5u32 == 0 || g % 17u32 == 0 || g % 257u32 == 0,
{
}

/// A divisor of 65535 below it divides 65535 with one prime taken out.
proof fn lemma_proper_divisor_bits(g: u32)
    by (bit_vector)
    requires
        0 < g < 65535,
        65535u32 % g == 0,
    ensures
        21845u32 % g == 0 || 13107u32 % g == 0 || 3855u32 % g == 0 || 255u32 % g == 0,
{
}

/// Division without remainder, as `divides`.
pub proof fn lemma_divides_mod(d: nat, n: nat)
    requires
        d > 0,
    ensures
        divides(d, n) <==> n % d == 0,
{
    if divides(d, n) {
        let q = choose|q: nat| n == #[trigger] (d * q);
        vstd::arithmetic::mul::lemma_mul_is_commutative(d as int, q as int);
        lemma_mod_multiples_basic(q as int, d as int);
    }
    if n % d == 0 {
        lemma_fundamental_div_mod(n as int, d as int);
        let q = n / d;
        assert(n == d * q);
    }
}

/// A divisor of 65535 below it divides 65535 with one prime taken out.
pub proof fn lemma_proper_divisor(g: nat)
    requires
        0 < g < 65535,
        divides(g, 65535),
    ensures
        divides(g, 21845) || divides(g, 13107) || divides(g, 3855) || divides(g, 255),
{
    lemma_divides_mod(g, 65535);
    lemma_proper_divisor_bits(g as u32);
    lemma_divides_mod(g, 21845);
    lemma_divides_mod(g, 13107);
    lemma_divides_mod(g, 3855);
    lemma_divides_mod(g, 255);
}

proof fn lemma_divides_trans(a: nat, b: nat, c: nat)
    requires
        divides(a, b),
        divides(b, c),
    ensures
        divides(a, c),
{
    let q = choose|q: nat| b == #[trigger] (a * q);
    let r = choose|r: nat| c == #[trigger] (b * r);
    assert(c == a * (q * r)) by (nonlinear_arith)
        requires
            b == a * q,
            c == b * r,
    ;
}

/// Being coprime to 65535 is being free of its primes.
proof fn lemma_coprime_is_free(n: nat)
    ensures
        coprime(65535, n) <==> free_of_65535(n as int),
{
    let g = gcd_of(65535, n);
    lemma_gcd_is_greatest(65535, n);
    lemma_divides_mod(g, 65535);
    lemma_divides_mod(3, n);
    lemma_divides_mod(5, n);
    lemma_divides_mod(17, n);
    lemma_divides_mod(257, n);
    if !free_of_65535(n as int) {
        let p: nat = if n % 3 == 0 {
            3
        } else if n % 5 == 0 {
            5
        } else if n % 17 == 0 {
            17
        } else {
            257
        };
        lemma_divides_mod(p, 65535);
        assert(divides(p, g));
        let q = choose|q: nat| g == #[trigger] (p * q);
        assert(g != 1) by (nonlinear_arith)
            requires
                g == p * q,
                p > 1,
        ;
    } else if g != 1 {
        assert(g <= 65535) by {
            let q = choose|q: nat| 65535 == #[trigger] (g * q);
            assert(g <= 65535) by (nonlinear_arith)
                requires
                    65535 == g * q,
                    g > 0,
            ;
        }
        lemma_divisor_has_prime(g as u32);
        lemma_divides_mod(3, g);
        lemma_divides_mod(5, g);
        lemma_divides_mod(17, g);
        lemma_divides_mod(257, g);
        let p: nat = if g % 3 == 0 {
            3
        } else if g % 5 == 0 {
            5
        } else if g % 17 == 0 {
            17
        } else {
            257
        };
        lemma_divides_trans(p, g, n);
        assert(false);
    }
}

/// The numbers below `limit` that are coprime to 65535, in increasing order.
pub open spec fn coprime_logs(limit: nat) -> Seq<nat>
    decreases limit,
{
    if limit == 0 {
        Seq::empty()
    } else {
        let before = coprime_logs((limit - 1) as nat);
        if coprime(65535, (limit - 1) as nat) {
            before.push((limit - 1) as nat)
        } else {
            before
        }
    }
}

proof fn lemma_coprime_logs_count(limit: nat)
    ensures
        coprime_logs(limit).len() == count_where(|n: int| free_of_65535(n), limit),
    decreases limit,
{
    if limit > 0 {
        lemma_coprime_logs_count((limit - 1) as nat);
        lemma_coprime_is_free((limit - 1) as nat);
    }
}

/// Exactly 32768 numbers below 65535 are coprime to it: as many as PAR2 allows
/// input blocks.
pub proof fn lemma_coprime_logs_total()
    ensures
        coprime_logs(65535).len() == 32768,
{
    lemma_coprime_logs_count(65535);
    lemma_count_free();
}

/// A longer walk only appends.
pub proof fn lemma_coprime_logs_prefix(a: nat, b: nat)
    requires
        a <= b,
    ensures
        coprime_logs(a).len() <= coprime_logs(b).len(),
        coprime_logs(a) == coprime_logs(b).subrange(0, coprime_logs(a).len() as int),
    decreases b,
{
    if a < b {
        lemma_coprime_logs_prefix(a, (b - 1) as nat);
        let s = coprime_logs((b - 1) as nat);
        assert(coprime_logs(b).subrange(0, coprime_logs(a).len() as int) =~= s.subrange(
            0,
            coprime_logs(a).len() as int,
        ));
    } else {
        assert(coprime_logs(b).subrange(0, coprime_logs(a).len() as int) =~= coprime_logs(a));
    }
}

/// The numbers walked are below the limit, coprime to 65535 and increasing.
pub proof fn lemma_coprime_logs_sorted(limit: nat)
    ensures
        forall|i: int|
            0 <= i < coprime_logs(limit).len() ==> #[trigger] coprime_logs(limit)[i] < limit
                && coprime(65535, coprime_logs(limit)[i]),
        forall|i: int, j: int|
            0 <= i < j < coprime_logs(limit).len() ==> #[trigger] coprime_logs(limit)[i]
                < #[trigger] coprime_logs(limit)[j],
    decreases limit,
{
    if limit > 0 {
        let all = coprime_logs(limit);
        let before = coprime_logs((limit - 1) as nat);
        lemma_coprime_logs_sorted((limit - 1) as nat);
        assert forall|i: int| 0 <= i < all.len() implies #[trigger] all[i] < limit && coprime(
            65535,
            all[i],
        ) by {
            if i < before.len() {
                assert(all[i] == before[i]);
            }
        }
        assert forall|i: int, j: int| 0 <= i < j < all.len() implies #[trigger] all[i]
            < #[trigger] all[j] by {
            assert(all[i] == before[i]);
            if j < before.len() {
                assert(all[j] == before[j]);
            }
        }
    }
}

/// The greatest common divisor of two numbers.
pub fn gcd(a: u32, b: u32) -> (g: u32)
    ensures
        g == gcd_of(a as nat, b as nat),
        divides(g as nat, a as nat),
        divides(g as nat, b as nat),
        forall|d: nat|
            divides(d, a as nat) && divides(d, b as nat) ==> #[trigger] divides(d, g as nat),
    decreases b,
{
    proof {
        lemma_gcd_is_greatest(a as nat, b as nat);
    }
    if b == 0 {
        a
    } else {
        gcd(b, a % b)
    }
}

proof fn lemma_divides_is_mod(d: nat, n: nat)
    requires
        d > 0,
    ensures
        divides(d, n) <==> n % d == 0,
{
    if divides(d, n) {
        let q = choose|q: nat| n == #[trigger] (d * q);
        assert(d * q == q * d) by (nonlinear_arith);
        lemma_mod_multiples_basic(q as int, d as int);
    }
    if n % d == 0 {
        lemma_fundamental_div_mod(n as int, d as int);
        let q = n / d;
        assert(n == d * q);
    }
}

/// Two numbers, not both zero, are coprime if nothing above 1 divides both.
pub proof fn law_coprime(a: nat, b: nat)
    requires
        a > 0,
    ensures
        coprime(a, b) <==> forall|d: nat| d > 1 ==> #[trigger] (a % d) != 0 || b % d != 0,
{
    let g = gcd_of(a, b);
    lemma_gcd_is_greatest(a, b);
    if coprime(a, b) {
        assert forall|d: nat| d > 1 implies #[trigger] (a % d) != 0 || b % d != 0 by {
            lemma_divides_is_mod(d, a);
            lemma_divides_is_mod(d, b);
            if a % d == 0 && b % d == 0 {
                assert(divides(d, 1));
                let q = choose|q: nat| 1 == #[trigger] (d * q);
                assert(false) by (nonlinear_arith)
                    requires
                        d > 1,
                        q >= 0,
                        1 == d * q,
                ;
            }
        }
    } else {
        lemma_divides_is_mod(g, a);
        lemma_divides_is_mod(g, b);
        assert(g > 1 && a % g == 0 && b % g == 0);
    }
}

/// Every number below the limit that is coprime to 65535 is among those listed.
pub proof fn lemma_coprime_logs_complete(limit: nat, m: nat)
    requires
        m < limit,
        coprime(65535, m),
    ensures
        exists|i: int| 0 <= i < coprime_logs(limit).len() && #[trigger] coprime_logs(limit)[i] == m,
{
    let upto = coprime_logs(m + 1);
    lemma_coprime_logs_prefix(m + 1, limit);
    assert((m + 1 - 1) as nat == m);
    let i = upto.len() - 1;
    assert(upto[i] == m);
    assert(coprime_logs(limit).subrange(0, upto.len() as int)[i] == coprime_logs(limit)[i]);
    assert(coprime_logs(limit)[i] == m);
}

} // verus!
