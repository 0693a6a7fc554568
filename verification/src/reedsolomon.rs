//! Reed-Solomon encoding for PAR2 over GF(2^16).
//!
//! The matrix is in Vandermonde form: for input block `i` and recovery block
//! `r`,
//!
//! ```text
//! coefficient[r][i] = base[i] ^ exponent[r]
//! ```
//!
//! - `base[i]` is `2^l` for the `i`-th non-negative integer `l` that is coprime
//!   to 65535. Coprimality gives each base multiplicative order 65535, so its
//!   powers stay distinct over the full exponent range.
//! - `exponent[r]` is the consecutive integer assigned to recovery block `r`.
//!
//! Recovery slices are built from pairs of bytes, taken as little-endian field
//! symbols, so buffers have even length.

use crate::coprime::{
    coprime_logs, gcd, law_coprime, lemma_coprime_logs_complete, lemma_coprime_logs_prefix,
    lemma_coprime_logs_sorted, lemma_coprime_logs_total,
};
use crate::galois::{
    gf_pow, gf_power, gf_product, lemma_product_associative, lemma_product_commutes,
    lemma_product_xor_left, lemma_product_xor_right, lemma_product_zero, lemma_xor_group,
    lemma_xor_swap, FIELD_LIMIT,
};
use crate::galois_order::{
    alpha, discrete_log, gf16_tables, lemma_alpha_distinct, lemma_alpha_nonzero,
    lemma_coprime_log_generates, lemma_discrete_log, lemma_no_zero_divisors, lemma_product_by_logs,
    Gf16Tables,
};
use crate::symbols::{
    high_byte, law_symbol_value, lemma_map_xor_is_mul_xor, lemma_mul_xor_symbol, lemma_mul_xor_zero,
    lemma_symbols_determine, lemma_word_bytes, low_byte, map_xor, map_xor_prefix, mul_xor, symbol,
    times, word, xor_into, xor_symbol,
};
use vstd::prelude::*;

verus! {

/// Most input blocks a recovery set can have: as many as there are bases.
pub const MAX_INPUT_BLOCKS: u32 = 32768;

/// The base of input block `i`.
pub open spec fn input_base(i: int) -> u16 {
    alpha(coprime_logs(65535)[i])
}

/// The bases of the first `count` input blocks.
pub open spec fn input_bases(count: nat) -> Seq<u16> {
    Seq::new(count, |i: int| input_base(i))
}

/// `len` zero bytes.
pub open spec fn zeros(len: nat) -> Seq<u8> {
    Seq::new(len, |i: int| 0u8)
}

/// The recovery slice with exponent `e` after the first `n` of the input slices
/// have been added to it.
pub open spec fn recovery_slice(
    bases: Seq<u16>,
    e: nat,
    inputs: Seq<Seq<u8>>,
    n: nat,
    len: nat,
) -> Seq<u8>
    decreases n,
{
    if n == 0 {
        zeros(len)
    } else {
        mul_xor(
            gf_power(bases[n - 1], e),
            inputs[n - 1],
            recovery_slice(bases, e, inputs, (n - 1) as nat, len),
        )
    }
}

/// Holder of the encoding matrix.
pub struct RsEncoder {
    /// `base[i]` for each input block.
    pub input_bases: Vec<u16>,
    /// Exponent of each recovery block.
    pub recovery_exponents: Vec<u16>,
}

impl RsEncoder {
    /// Build the input bases and the recovery exponents of a create job.
    ///
    /// `input_count` is the number of source blocks over all files. The
    /// exponents are `first_exponent` and the integers that follow it.
    pub fn new(input_count: u32, first_exponent: u16, recovery_count: u32) -> (rs: Self)
        requires
            input_count <= MAX_INPUT_BLOCKS,
            first_exponent + recovery_count <= 65536,
        ensures
            rs.input_bases@ == input_bases(input_count as nat),
            rs.recovery_exponents@ == Seq::new(
                recovery_count as nat,
                |r: int| (first_exponent + r) as u16,
            ),
    {
        let input_bases: Vec<u16> = generate_input_bases(input_count as usize);
        let mut recovery_exponents: Vec<u16> = Vec::new();
        let mut r: u32 = 0;
        while r < recovery_count
            invariant
                r <= recovery_count,
                first_exponent + recovery_count <= 65536,
                recovery_exponents@ == Seq::new(r as nat, |r: int| (first_exponent + r) as u16),
            decreases recovery_count - r,
        {
            recovery_exponents.push((first_exponent as u32 + r) as u16);
            r = r + 1;
            assert(recovery_exponents@ =~= Seq::new(
                r as nat,
                |r: int| (first_exponent + r) as u16,
            ));
        }
        RsEncoder { input_bases, recovery_exponents }
    }

    /// The matrix coefficient at (recovery row, input column).
    pub fn coefficient(&self, recovery_idx: usize, input_idx: usize) -> (c: u16)
        requires
            recovery_idx < self.recovery_exponents.len(),
            input_idx < self.input_bases.len(),
        ensures
            c == gf_power(
                self.input_bases@[input_idx as int],
                self.recovery_exponents@[recovery_idx as int] as nat,
            ),
    {
        let base: u16 = self.input_bases[input_idx];
        let exp: u32 = self.recovery_exponents[recovery_idx] as u32;
        gf_pow(base, exp)
    }

    /// XOR `coefficient * input` into `output`.
    pub fn accumulate(
        &self,
        recovery_idx: usize,
        input_idx: usize,
        input: &[u8],
        output: &mut [u8],
    )
        requires
            recovery_idx < self.recovery_exponents.len(),
            input_idx < self.input_bases.len(),
            input@.len() == old(output)@.len(),
            input@.len() % 2 == 0,
        ensures
            final(output)@ == mul_xor(
                gf_power(
                    self.input_bases@[input_idx as int],
                    self.recovery_exponents@[recovery_idx as int] as nat,
                ),
                input@,
                old(output)@,
            ),
    {
        let coeff: u16 = self.coefficient(recovery_idx, input_idx);
        gf_mul_xor_scalar(coeff, input, output);
    }
}

/// The product of two symbols by table lookup.
fn log_product(t: &Gf16Tables, log_coeff: u32, coeff: Ghost<u16>, sym: u16) -> (p: u16)
    requires
        t.wf(),
        coeff@ != 0,
        log_coeff == discrete_log(coeff@),
    ensures
        p == gf_product(coeff@, sym),
{
    if sym == 0 {
        proof {
            lemma_product_zero(coeff@);
        }
        0
    } else {
        proof {
            lemma_discrete_log(coeff@);
            lemma_discrete_log(sym);
            lemma_product_by_logs(coeff@, sym);
        }
        let sum: u32 = log_coeff + t.log[sym as usize] as u32;
        let idx: u32 = if sum >= FIELD_LIMIT { sum - FIELD_LIMIT } else { sum };
        t.antilog[idx as usize]
    }
}

/// Scalar multiply-and-XOR: `output ^= coeff * input` over consecutive
/// little-endian symbols, through the log and antilog tables.
pub fn gf_mul_xor_scalar(coeff: u16, input: &[u8], output: &mut [u8])
    requires
        input@.len() == old(output)@.len(),
        input@.len() % 2 == 0,
    ensures
        final(output)@ == mul_xor(coeff, input@, old(output)@),
{
    if coeff == 0 {
        proof {
            lemma_mul_xor_zero(input@, output@);
        }
        return;
    }
    if coeff == 1 {
        xor_into(input, output);
        return;
    }
    let t: Gf16Tables = gf16_tables();
    proof {
        lemma_discrete_log(coeff);
    }
    let log_coeff: u32 = t.log[coeff as usize] as u32;
    let n: usize = input.len() / 2;
    let mut k: usize = 0;
    let ghost f = times(coeff);
    assert(output@ =~= map_xor_prefix(f, input@, output@, 0));
    while k < n
        invariant
            k <= n,
            2 * n == input.len(),
            input@.len() == old(output)@.len(),
            output@.len() == input@.len(),
            t.wf(),
            coeff != 0,
            log_coeff == discrete_log(coeff),
            f == times(coeff),
            output@ == map_xor_prefix(f, input@, old(output)@, 2 * k as int),
        decreases n - k,
    {
        let sym: u16 = join_bytes(input[2 * k], input[2 * k + 1]);
        let product: u16 = log_product(&t, log_coeff, Ghost(coeff), sym);
        let (lo, hi): (u8, u8) = split_bytes(product);
        xor_symbol(Ghost(f), Ghost(input@), Ghost(old(output)@), k, lo, hi, output);
        k = k + 1;
    }
    assert(output@ =~= map_xor(f, input@, old(output)@));
    proof {
        lemma_map_xor_is_mul_xor(f, coeff, input@, old(output)@);
    }
}

/// Little-endian bytes to a symbol.
#[inline]
pub(crate) fn join_bytes(lo: u8, hi: u8) -> (w: u16)
    ensures
        w == word(lo, hi),
{
    (lo as u16) | ((hi as u16) << 8)
}

/// A symbol to its little-endian bytes.
#[inline]
pub(crate) fn split_bytes(w: u16) -> (r: (u8, u8))
    ensures
        r.0 == low_byte(w),
        r.1 == high_byte(w),
{
    ((w & 0xFF) as u8, (w >> 8) as u8)
}

/// The first `count` input bases: powers of 2 whose exponents, taken in
/// increasing order, are coprime to 65535.
pub fn generate_input_bases(count: usize) -> (bases: Vec<u16>)
    requires
        count <= MAX_INPUT_BLOCKS,
    ensures
        bases@ == input_bases(count as nat),
{
    let t: Gf16Tables = gf16_tables();
    let mut bases: Vec<u16> = Vec::new();
    let mut logbase: u32 = 0;
    proof {
        lemma_coprime_logs_total();
    }
    while bases.len() < count
        invariant
            t.wf(),
            count <= 32768,
            coprime_logs(65535).len() == 32768,
            logbase <= 65535,
            bases.len() <= count,
            bases.len() < count ==> coprime_logs(logbase as nat).len() == bases.len(),
            forall|i: int| 0 <= i < bases.len() ==> #[trigger] bases@[i] == input_base(i),
        decreases 65536 - logbase,
    {
        proof {
            assert(logbase < 65535);
            lemma_coprime_logs_prefix((logbase + 1) as nat, 65535);
        }
        if gcd(FIELD_LIMIT, logbase) == 1 {
            proof {
                let n = bases.len() as int;
                let upto = coprime_logs((logbase + 1) as nat);
                assert(upto[n] == logbase);
                assert(coprime_logs(65535).subrange(0, upto.len() as int)[n]
                    == coprime_logs(65535)[n]);
                assert(t.antilog@[logbase as int] == input_base(n));
            }
            bases.push(t.antilog[logbase as usize]);
        }
        logbase = logbase + 1;
    }
    assert(bases@ =~= input_bases(count as nat));
    bases
}

// ---------------------------------------------------------------------------
// Laws of the encoding matrix
// ---------------------------------------------------------------------------

/// Different input blocks have different bases, and none is zero.
pub proof fn law_bases_distinct(i: int, j: int)
    requires
        0 <= i < 32768,
        0 <= j < 32768,
    ensures
        input_base(i) != 0,
        i != j ==> input_base(i) != input_base(j),
{
    lemma_coprime_logs_total();
    lemma_coprime_logs_sorted(65535);
    lemma_alpha_nonzero(coprime_logs(65535)[i]);
    if i != j && input_base(i) == input_base(j) {
        lemma_alpha_distinct(coprime_logs(65535)[i], coprime_logs(65535)[j]);
    }
}

/// Each base has order 65535: its powers with exponents below 65535 are all
/// different.
pub proof fn law_base_powers_distinct(i: int, m: nat, n: nat)
    requires
        0 <= i < 32768,
        m < 65535,
        n < 65535,
        m != n,
    ensures
        gf_power(input_base(i), m) != gf_power(input_base(i), n),
{
    lemma_coprime_logs_total();
    lemma_coprime_logs_sorted(65535);
    if gf_power(input_base(i), m) == gf_power(input_base(i), n) {
        lemma_coprime_log_generates(coprime_logs(65535)[i], m, n);
    }
}

/// The bases of fewer blocks begin those of more: adding a file does not change
/// the bases of the blocks before it.
pub proof fn law_bases_prefix(m: nat, n: nat)
    requires
        m <= n,
    ensures
        input_bases(n).subrange(0, m as int) == input_bases(m),
{
    assert(input_bases(n).subrange(0, m as int) =~= input_bases(m));
}

/// `sum over i < n of bases[i]^e * v[i]`.
pub open spec fn weighted_sum(bases: Seq<u16>, e: nat, v: Seq<u16>, n: nat) -> u16
    decreases n,
{
    if n == 0 {
        0u16
    } else {
        weighted_sum(bases, e, v, (n - 1) as nat) ^ gf_product(gf_power(bases[n - 1], e), v[n - 1])
    }
}

/// Eliminating the base `b` between two neighbouring exponents.
proof fn lemma_eliminate(bases: Seq<u16>, e: nat, v: Seq<u16>, b: u16, n: nat)
    requires
        n <= v.len(),
        v.len() == bases.len(),
    ensures
        weighted_sum(bases, e + 1, v, n) ^ gf_product(b, weighted_sum(bases, e, v, n))
            == weighted_sum(
            bases,
            e,
            Seq::new(v.len(), |i: int| gf_product(bases[i] ^ b, v[i])),
            n,
        ),
    decreases n,
{
    let w = Seq::new(v.len(), |i: int| gf_product(bases[i] ^ b, v[i]));
    lemma_xor_group();
    if n == 0 {
        lemma_product_zero(b);
    } else {
        let m = (n - 1) as nat;
        let bi = bases[m as int];
        let vi = v[m as int];
        let p = gf_power(bi, e);
        let s1 = weighted_sum(bases, e + 1, v, m);
        let s0 = weighted_sum(bases, e, v, m);
        lemma_eliminate(bases, e, v, b, m);
        assert(gf_power(bi, e + 1) == gf_product(bi, p));
        lemma_product_xor_right(b, s0, gf_product(p, vi));
        lemma_xor_swap(
            s1,
            gf_product(gf_product(bi, p), vi),
            gf_product(b, s0),
            gf_product(b, gf_product(p, vi)),
        );
        // (bi*p)*vi ^ b*(p*vi) == p*((bi^b)*vi)
        lemma_product_associative(bi, p, vi);
        lemma_product_xor_left(bi, b, gf_product(p, vi));
        lemma_product_associative(bi ^ b, p, vi);
        lemma_product_commutes(bi ^ b, p);
        lemma_product_associative(p, bi ^ b, vi);
        assert(w[m as int] == gf_product(bi ^ b, vi));
    }
}

/// A sum with at most one non-zero value is that value's term.
proof fn lemma_single_term(bases: Seq<u16>, e: nat, v: Seq<u16>, j: int, n: nat)
    requires
        n <= v.len(),
        0 <= j < v.len(),
        forall|i: int| 0 <= i < v.len() && i != j ==> #[trigger] v[i] == 0,
    ensures
        weighted_sum(bases, e, v, n) == if j < n {
            gf_product(gf_power(bases[j], e), v[j])
        } else {
            0u16
        },
    decreases n,
{
    lemma_xor_group();
    if n > 0 {
        let m = (n - 1) as nat;
        lemma_single_term(bases, e, v, j, m);
        if m != j {
            assert(v[m as int] == 0);
            lemma_product_zero(gf_power(bases[m as int], e));
        }
    }
}

/// A power of a non-zero element is non-zero.
proof fn lemma_power_nonzero(a: u16, n: nat)
    requires
        a != 0,
    ensures
        gf_power(a, n) != 0,
    decreases n,
{
    if n > 0 {
        lemma_power_nonzero(a, (n - 1) as nat);
        if gf_power(a, n) == 0 {
            lemma_no_zero_divisors(a, gf_power(a, (n - 1) as nat));
        }
    }
}

/// Values that vanish outside `lost` and whose weighted sums vanish for as many
/// consecutive exponents as `lost` has members are all zero.
proof fn lemma_sums_determine(bases: Seq<u16>, e0: nat, v: Seq<u16>, lost: Set<int>)
    requires
        v.len() == bases.len(),
        forall|i: int| 0 <= i < bases.len() ==> #[trigger] bases[i] != 0,
        forall|i: int, j: int|
            0 <= i < j < bases.len() ==> #[trigger] bases[i] != #[trigger] bases[j],
        lost.finite(),
        forall|i: int| 0 <= i < v.len() && #[trigger] v[i] != 0 ==> lost.contains(i),
        forall|t: nat|
            t < lost.len() ==> #[trigger] weighted_sum(bases, e0 + t, v, v.len()) == 0,
    ensures
        forall|i: int| 0 <= i < v.len() ==> #[trigger] v[i] == 0,
    decreases lost.len(),
{
    if exists|j: int| 0 <= j < v.len() && v[j] != 0 {
        let j = choose|j: int| 0 <= j < v.len() && v[j] != 0;
        let b = bases[j];
        let w = Seq::new(v.len(), |i: int| gf_product(bases[i] ^ b, v[i]));
        let rest = lost.remove(j);
        lemma_xor_group();
        assert(lost.contains(j));
        vstd::set::axiom_set_remove_len(lost, j);
        assert(lost.len() == rest.len() + 1);
        assert forall|i: int| 0 <= i < w.len() && #[trigger] w[i] != 0 implies rest.contains(i) by {
            lemma_product_zero(bases[i] ^ b);
            if i == j {
                lemma_product_zero(v[j]);
            }
            assert(v[i] != 0);
        }
        assert forall|t: nat| t < rest.len() implies #[trigger] weighted_sum(
            bases,
            e0 + t,
            w,
            w.len(),
        ) == 0 by {
            lemma_eliminate(bases, e0 + t, v, b, v.len());
            assert(weighted_sum(bases, e0 + t, v, v.len()) == 0);
            assert(e0 + t + 1 == e0 + (t + 1));
            assert(weighted_sum(bases, e0 + (t + 1), v, v.len()) == 0);
            lemma_product_zero(b);
        }
        lemma_sums_determine(bases, e0, w, rest);
        assert forall|i: int| 0 <= i < v.len() && i != j implies #[trigger] v[i] == 0 by {
            assert(w[i] == 0);
            lemma_no_zero_divisors(bases[i] ^ b, v[i]);
            assert(bases[i] != bases[j]);
        }
        lemma_single_term(bases, e0, v, j, v.len());
        assert(weighted_sum(bases, e0 + 0, v, v.len()) == 0);
        lemma_power_nonzero(b, e0);
        lemma_no_zero_divisors(gf_power(b, e0), v[j]);
        assert(false);
    }
}

/// A symbol of a recovery slice is the weighted sum of the input symbols.
pub proof fn lemma_recovery_symbol(
    bases: Seq<u16>,
    e: nat,
    inputs: Seq<Seq<u8>>,
    n: nat,
    len: nat,
    k: int,
)
    requires
        n <= inputs.len(),
        forall|i: int| 0 <= i < inputs.len() ==> #[trigger] inputs[i].len() == len,
        0 <= k,
        2 * k + 1 < len,
    ensures
        recovery_slice(bases, e, inputs, n, len).len() == len,
        symbol(recovery_slice(bases, e, inputs, n, len), k) == weighted_sum(
            bases,
            e,
            Seq::new(inputs.len(), |i: int| symbol(inputs[i], k)),
            n,
        ),
    decreases n,
{
    if n == 0 {
        lemma_word_bytes(0, 0, 0, 0);
    } else {
        let m = (n - 1) as nat;
        lemma_recovery_symbol(bases, e, inputs, m, len, k);
        lemma_mul_xor_symbol(
            gf_power(bases[n - 1], e),
            inputs[n - 1],
            recovery_slice(bases, e, inputs, m, len),
            k,
        );
    }
}

/// Weighted sums are linear in the values.
proof fn lemma_weighted_sum_xor(bases: Seq<u16>, e: nat, a: Seq<u16>, b: Seq<u16>, n: nat)
    requires
        n <= a.len(),
        a.len() == b.len(),
    ensures
        weighted_sum(bases, e, a, n) ^ weighted_sum(bases, e, b, n) == weighted_sum(
            bases,
            e,
            Seq::new(a.len(), |i: int| a[i] ^ b[i]),
            n,
        ),
    decreases n,
{
    lemma_xor_group();
    if n > 0 {
        let m = (n - 1) as nat;
        let p = gf_power(bases[n - 1], e);
        lemma_weighted_sum_xor(bases, e, a, b, m);
        lemma_product_xor_right(p, a[n - 1], b[n - 1]);
        lemma_xor_swap(
            weighted_sum(bases, e, a, m),
            gf_product(p, a[n - 1]),
            weighted_sum(bases, e, b, m),
            gf_product(p, b[n - 1]),
        );
    }
}

/// What recovery blocks are for: as many consecutive recovery slices as input
/// slices were lost determine the lost slices.
///
/// `a` and `b` are two families of input slices that agree outside `lost`. If
/// their recovery slices agree for `lost.len()` consecutive exponents from `e0`
/// on, the families are equal: there is only one way to fill the gaps.
pub proof fn law_recovery_determines_lost(
    a: Seq<Seq<u8>>,
    b: Seq<Seq<u8>>,
    e0: nat,
    len: nat,
    lost: Set<int>,
)
    requires
        a.len() == b.len(),
        a.len() <= 32768,
        len % 2 == 0,
        forall|i: int| 0 <= i < a.len() ==> #[trigger] a[i].len() == len,
        forall|i: int| 0 <= i < b.len() ==> #[trigger] b[i].len() == len,
        lost.finite(),
        forall|i: int| 0 <= i < a.len() && !lost.contains(i) ==> #[trigger] a[i] == b[i],
        forall|t: nat|
            t < lost.len() ==> #[trigger] recovery_slice(
                input_bases(a.len()),
                e0 + t,
                a,
                a.len(),
                len,
            ) == recovery_slice(input_bases(a.len()), e0 + t, b, b.len(), len),
    ensures
        a == b,
{
    let bases = input_bases(a.len());
    assert forall|i: int| 0 <= i < bases.len() implies #[trigger] bases[i] != 0 by {
        law_bases_distinct(i, i);
    }
    assert forall|i: int, j: int| 0 <= i < j < bases.len() implies #[trigger] bases[i]
        != #[trigger] bases[j] by {
        law_bases_distinct(i, j);
    }
    assert forall|i: int| 0 <= i < a.len() implies #[trigger] a[i] == b[i] by {
        assert forall|k: int| 0 <= k < len / 2 implies #[trigger] symbol(a[i], k) == symbol(
            b[i],
            k,
        ) by {
            let sa = Seq::new(a.len(), |i: int| symbol(a[i], k));
            let sb = Seq::new(b.len(), |i: int| symbol(b[i], k));
            let v = Seq::new(a.len(), |i: int| sa[i] ^ sb[i]);
            lemma_xor_group();
            assert forall|i: int| 0 <= i < v.len() && #[trigger] v[i] != 0 implies lost.contains(
                i,
            ) by {
                assert(a[i] != b[i]);
            }
            assert forall|t: nat| t < lost.len() implies #[trigger] weighted_sum(
                bases,
                e0 + t,
                v,
                v.len(),
            ) == 0 by {
                lemma_recovery_symbol(bases, e0 + t, a, a.len(), len, k);
                lemma_recovery_symbol(bases, e0 + t, b, b.len(), len, k);
                lemma_weighted_sum_xor(bases, e0 + t, sa, sb, a.len());
            }
            lemma_sums_determine(bases, e0, v, lost);
            assert(v[i] == 0);
        }
        lemma_symbols_determine(a[i], b[i]);
    }
    assert(a =~= b);
}

// ---------------------------------------------------------------------------
// What pins the encoding down
// ---------------------------------------------------------------------------

/// Each base is 2 to a power that shares no divisor above 1 with 65535.
pub proof fn law_bases_are_coprime_powers(count: nat, i: int)
    requires
        count <= 32768,
        0 <= i < count,
    ensures
        input_bases(count).len() == count,
        exists|m: nat|
            m < 65535 && #[trigger] gf_power(2, m) == input_bases(count)[i] && forall|d: nat|
                d > 1 ==> 65535nat % d != 0 || #[trigger] (m % d) != 0,
{
    let m = coprime_logs(65535)[i];
    lemma_coprime_logs_total();
    lemma_coprime_logs_sorted(65535);
    law_coprime(65535, m);
    assert forall|d: nat| d > 1 implies 65535nat % d != 0 || #[trigger] (m % d) != 0 by {
        assert(65535nat % d != 0 || m % d != 0);
    }
    assert(gf_power(2, m) == input_bases(count)[i]);
}

/// The exponents of the bases increase from block to block.
pub proof fn law_bases_increase(count: nat, i: int, j: int, m: nat, n: nat)
    requires
        count <= 32768,
        0 <= i < j < count,
        m < 65535,
        n < 65535,
        gf_power(2, m) == input_bases(count)[i],
        gf_power(2, n) == input_bases(count)[j],
    ensures
        m < n,
{
    lemma_coprime_logs_total();
    lemma_coprime_logs_sorted(65535);
    assert(coprime_logs(65535)[i] < coprime_logs(65535)[j]);
    lemma_alpha_distinct(m, coprime_logs(65535)[i]);
    lemma_alpha_distinct(n, coprime_logs(65535)[j]);
}

/// No exponent is left out: one that shares no divisor above 1 with 65535 and is
/// not above that of block `i` is that of block `i` or of one before it. So the
/// base of block `i` is 2 to the `i`-th smallest such exponent.
pub proof fn law_no_base_is_left_out(count: nat, i: int, l: nat, m: nat)
    requires
        count <= 32768,
        0 <= i < count,
        l < 65535,
        gf_power(2, l) == input_bases(count)[i],
        m <= l,
        forall|d: nat| d > 1 ==> 65535nat % d != 0 || #[trigger] (m % d) != 0,
    ensures
        exists|j: int| 0 <= j <= i && #[trigger] input_bases(count)[j] == gf_power(2, m),
{
    let logs = coprime_logs(65535);
    lemma_coprime_logs_total();
    lemma_coprime_logs_sorted(65535);
    lemma_alpha_distinct(l, logs[i]);
    law_coprime(65535, m);
    assert forall|d: nat| d > 1 implies #[trigger] (65535nat % d) != 0 || m % d != 0 by {
        assert(65535nat % d != 0 || m % d != 0);
    }
    lemma_coprime_logs_complete(65535, m);
    let j = choose|j: int| 0 <= j < logs.len() && #[trigger] logs[j] == m;
    if j > i {
        assert(logs[i] < logs[j]);
    }
    assert(input_bases(count)[j] == gf_power(2, m));
}

/// All exponents below 65535 that share no divisor above 1 with it are taken when
/// there are as many input blocks as there can be.
pub proof fn law_all_bases_are_taken(m: nat)
    requires
        m < 65535,
        forall|d: nat| d > 1 ==> 65535nat % d != 0 || #[trigger] (m % d) != 0,
    ensures
        exists|j: int|
            0 <= j < 32768 && #[trigger] input_bases(32768)[j] == gf_power(2, m),
{
    let logs = coprime_logs(65535);
    lemma_coprime_logs_total();
    law_coprime(65535, m);
    assert forall|d: nat| d > 1 implies #[trigger] (65535nat % d) != 0 || m % d != 0 by {
        assert(65535nat % d != 0 || m % d != 0);
    }
    lemma_coprime_logs_complete(65535, m);
    let j = choose|j: int| 0 <= j < logs.len() && #[trigger] logs[j] == m;
    assert(input_bases(32768)[j] == gf_power(2, m));
}

proof fn lemma_zero_symbols(data: Seq<u8>, k: int)
    requires
        0 <= k,
        2 * k + 1 < data.len(),
        forall|p: int| 0 <= p < data.len() ==> #[trigger] data[p] == 0,
    ensures
        symbol(data, k) == 0,
{
    lemma_word_bytes(0, 0, 0, 0);
    assert(data[2 * k] == 0 && data[2 * k + 1] == 0);
}

/// What one input slice brings to a recovery slice: where all other slices are
/// zero, each symbol of the recovery slice is the base of the slice to the power of
/// the exponent, times the symbol of the slice.
pub proof fn law_recovery_of_one_slice(
    bases: Seq<u16>,
    e: nat,
    inputs: Seq<Seq<u8>>,
    j: int,
    len: nat,
    k: int,
    x: u16,
)
    requires
        0 <= j < inputs.len(),
        forall|i: int| 0 <= i < inputs.len() ==> #[trigger] inputs[i].len() == len,
        forall|i: int, p: int|
            0 <= i < inputs.len() && i != j && 0 <= p < len ==> #[trigger] inputs[i][p] == 0,
        0 <= k,
        2 * k + 1 < len,
        x == inputs[j][2 * k] + 256 * inputs[j][2 * k + 1],
    ensures
        ({
            let r = recovery_slice(bases, e, inputs, inputs.len(), len);
            r.len() == len && r[2 * k] + 256 * r[2 * k + 1] == gf_product(gf_power(bases[j], e), x)
        }),
{
    let r = recovery_slice(bases, e, inputs, inputs.len(), len);
    let v = Seq::new(inputs.len(), |i: int| symbol(inputs[i], k));
    lemma_recovery_symbol(bases, e, inputs, inputs.len(), len, k);
    assert forall|i: int| 0 <= i < v.len() && i != j implies #[trigger] v[i] == 0 by {
        assert forall|p: int| 0 <= p < inputs[i].len() implies #[trigger] inputs[i][p] == 0 by {
        }
        lemma_zero_symbols(inputs[i], k);
    }
    lemma_single_term(bases, e, v, j, v.len());
    law_symbol_value(inputs[j], k, 0);
    law_symbol_value(r, k, 0);
}

/// Recovery is linear: the recovery slice of the byte-wise XOR of two families of
/// slices is the byte-wise XOR of their recovery slices. With what one slice
/// brings, that fixes every recovery slice.
pub proof fn law_recovery_adds(
    bases: Seq<u16>,
    e: nat,
    a: Seq<Seq<u8>>,
    b: Seq<Seq<u8>>,
    c: Seq<Seq<u8>>,
    len: nat,
    p: int,
)
    requires
        a.len() == b.len(),
        a.len() == c.len(),
        len % 2 == 0,
        forall|i: int|
            0 <= i < a.len() ==> (#[trigger] a[i]).len() == len && b[i].len() == len && c[i].len()
                == len,
        forall|i: int, q: int|
            0 <= i < a.len() && 0 <= q < len ==> #[trigger] c[i][q] == a[i][q] ^ b[i][q],
        0 <= p < len,
    ensures
        recovery_slice(bases, e, c, c.len(), len)[p] == recovery_slice(bases, e, a, a.len(), len)[p]
            ^ recovery_slice(bases, e, b, b.len(), len)[p],
{
    let k = p / 2;
    let ra = recovery_slice(bases, e, a, a.len(), len);
    let rb = recovery_slice(bases, e, b, b.len(), len);
    let rc = recovery_slice(bases, e, c, c.len(), len);
    let va = Seq::new(a.len(), |i: int| symbol(a[i], k));
    let vb = Seq::new(b.len(), |i: int| symbol(b[i], k));
    let vc = Seq::new(c.len(), |i: int| symbol(c[i], k));
    assert forall|i: int| 0 <= i < c.len() implies #[trigger] c[i].len() == len by {
        assert(a[i].len() == len);
    }
    assert forall|i: int| 0 <= i < b.len() implies #[trigger] b[i].len() == len by {
        assert(a[i].len() == len);
    }
    lemma_recovery_symbol(bases, e, a, a.len(), len, k);
    lemma_recovery_symbol(bases, e, b, b.len(), len, k);
    lemma_recovery_symbol(bases, e, c, c.len(), len, k);
    lemma_weighted_sum_xor(bases, e, va, vb, a.len());
    assert forall|i: int| 0 <= i < vc.len() implies vc[i] == va[i] ^ vb[i] by {
        assert(c[i][2 * k] == a[i][2 * k] ^ b[i][2 * k]);
        assert(c[i][2 * k + 1] == a[i][2 * k + 1] ^ b[i][2 * k + 1]);
        lemma_word_xor(a[i][2 * k], a[i][2 * k + 1], b[i][2 * k], b[i][2 * k + 1]);
    }
    assert(vc =~= Seq::new(a.len(), |i: int| va[i] ^ vb[i]));
    lemma_word_bytes(symbol(ra, k), symbol(rb, k), ra[2 * k], ra[2 * k + 1]);
    lemma_word_bytes(symbol(ra, k), symbol(rb, k), rb[2 * k], rb[2 * k + 1]);
    lemma_word_bytes(symbol(ra, k), symbol(rb, k), rc[2 * k], rc[2 * k + 1]);
    assert(p == 2 * k || p == 2 * k + 1);
}

proof fn lemma_word_xor(a: u8, b: u8, c: u8, d: u8)
    by (bit_vector)
    ensures
        word(a ^ c, b ^ d) == word(a, b) ^ word(c, d),
{
}

} // verus!
