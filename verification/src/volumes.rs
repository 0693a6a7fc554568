//! How recovery blocks are distributed over volume files.

use crate::error::{Par2Error, Result};
use crate::text::{decimal, put_decimal, put_text, text};
use vstd::arithmetic::power2::{lemma2_to64, lemma_pow2_pos, lemma_pow2_unfold, pow2};
use vstd::prelude::*;

verus! {

/// How to distribute recovery blocks over volume files.
#[derive(Debug, PartialEq, Eq)]
pub enum VolumeScheme {
    /// All recovery blocks go into one volume.
    Single,
    /// Volumes of 1, 1, 2, 4, 8, ... blocks, the last one taking what is left.
    Exponential,
    /// `count` volumes as even as possible; the last one takes the remainder.
    Uniform { count: u32 },
    /// The volumes of `inner`, those above the cap split into volumes of the cap.
    Limited { max_blocks_per_volume: u32, inner: Box<VolumeScheme> },
    /// These volumes; their sum must be the number of recovery blocks.
    Explicit(Vec<u32>),
}

impl Default for VolumeScheme {
    /// One volume.
    fn default() -> (scheme: Self)
        ensures
            scheme == VolumeScheme::Single,
    {
        VolumeScheme::Single
    }
}

/// The same scheme, with the same sizes where they are given.
pub open spec fn same_scheme(a: VolumeScheme, b: VolumeScheme) -> bool
    decreases a,
{
    match (a, b) {
        (VolumeScheme::Single, VolumeScheme::Single) => true,
        (VolumeScheme::Exponential, VolumeScheme::Exponential) => true,
        (VolumeScheme::Uniform { count: m }, VolumeScheme::Uniform { count: n }) => m == n,
        (
            VolumeScheme::Limited { max_blocks_per_volume: m, inner: x },
            VolumeScheme::Limited { max_blocks_per_volume: n, inner: y },
        ) => m == n && same_scheme(*x, *y),
        (VolumeScheme::Explicit(m), VolumeScheme::Explicit(n)) => m@ == n@,
        _ => false,
    }
}

/// A copy of a scheme.
fn copy_scheme(scheme: &VolumeScheme) -> (copy: VolumeScheme)
    ensures
        same_scheme(*scheme, copy),
    decreases *scheme,
{
    match scheme {
        VolumeScheme::Single => VolumeScheme::Single,
        VolumeScheme::Exponential => VolumeScheme::Exponential,
        VolumeScheme::Uniform { count } => VolumeScheme::Uniform { count: *count },
        VolumeScheme::Limited { max_blocks_per_volume, inner } => VolumeScheme::Limited {
            max_blocks_per_volume: *max_blocks_per_volume,
            inner: Box::new(copy_scheme(inner)),
        },
        VolumeScheme::Explicit(sizes) => {
            let copy: Vec<u32> = sizes.clone();
            assert(copy@ =~= sizes@);
            VolumeScheme::Explicit(copy)
        },
    }
}

impl Clone for VolumeScheme {
    fn clone(&self) -> (copy: Self)
        ensures
            same_scheme(*self, copy),
    {
        copy_scheme(self)
    }
}

// ---------------------------------------------------------------------------
// Model
// ---------------------------------------------------------------------------

/// The sum of the first `n` sizes.
pub open spec fn sum_to(sizes: Seq<u32>, n: nat) -> int
    decreases n,
{
    if n == 0 {
        0
    } else {
        sum_to(sizes, (n - 1) as nat) + sizes[n - 1]
    }
}

/// The sum of all sizes.
pub open spec fn sum_of(sizes: Seq<u32>) -> int {
    sum_to(sizes, sizes.len())
}

/// Volume `i` of the exponential layout starts at block 0 if it is the first,
/// else at block `2^(i - 1)`.
pub open spec fn exponential_start(i: nat) -> nat {
    if i == 0 {
        0
    } else {
        pow2((i - 1) as nat)
    }
}

/// Volume `i` of the exponential layout holds the blocks from its start up to
/// the start of the next one, as far as there are any.
pub open spec fn exponential_size(i: nat, total: nat) -> int {
    (if pow2(i) <= total {
        pow2(i)
    } else {
        total
    }) - exponential_start(i)
}

/// The exponential layout of `total` blocks, with as many volumes as it takes.
pub open spec fn is_exponential(sizes: Seq<u32>, total: nat) -> bool {
    &&& forall|i: nat|
        i < sizes.len() ==> #[trigger] exponential_start(i) < total && sizes[i as int]
            == exponential_size(i, total)
    &&& total <= exponential_start(sizes.len())
}

/// The uniform layout of `total` blocks over `count` volumes.
pub open spec fn uniform_sizes(total: int, count: int) -> Seq<u32> {
    Seq::new(
        count as nat,
        |i: int|
            if i < count - 1 {
                (total / count) as u32
            } else {
                (total / count + total % count) as u32
            },
    )
}

/// `n` blocks as volumes of at most `cap`.
pub open spec fn capped(n: int, cap: int) -> Seq<u32>
    decreases n,
{
    if n <= cap || cap <= 0 {
        seq![n as u32]
    } else {
        seq![cap as u32] + capped(n - cap, cap)
    }
}

/// The first `n` volumes, each split into volumes of at most `cap`.
pub open spec fn capped_sizes(sizes: Seq<u32>, cap: int, n: nat) -> Seq<u32>
    decreases n,
{
    if n == 0 {
        Seq::empty()
    } else {
        capped_sizes(sizes, cap, (n - 1) as nat) + capped(sizes[n - 1] as int, cap)
    }
}

/// Why a uniform layout is refused, if it is.
pub open spec fn uniform_refusal(total: u32, count: u32) -> Option<Seq<char>> {
    if count == 0 {
        Some("Uniform scheme requires count > 0"@)
    } else if count > total {
        Some(
            "Uniform scheme count ("@ + decimal(count as nat)
                + ") exceeds recovery block total ("@ + decimal(total as nat) + ")"@,
        )
    } else {
        None
    }
}

/// Why an explicit layout is refused, if it is.
pub open spec fn explicit_refusal(sizes: Seq<u32>, total: u32) -> Option<Seq<char>> {
    if sizes.len() == 0 {
        Some("explicit scheme requires at least one volume"@)
    } else if sizes.contains(0) {
        Some("explicit scheme volumes must each have >0 recovery blocks"@)
    } else if sum_of(sizes) != total {
        Some(
            "explicit volume sizes sum to "@ + decimal(sum_of(sizes) as nat) + ", expected "@
                + decimal(total as nat),
        )
    } else {
        None
    }
}

/// Why a layout is refused, if it is.
pub open spec fn refusal(scheme: VolumeScheme, total: u32) -> Option<Seq<char>>
    decreases scheme,
{
    match scheme {
        VolumeScheme::Single => None,
        VolumeScheme::Exponential => None,
        VolumeScheme::Uniform { count } => uniform_refusal(total, count),
        VolumeScheme::Limited { max_blocks_per_volume, inner } => {
            if max_blocks_per_volume == 0 {
                Some("Limited scheme requires max_blocks_per_volume > 0"@)
            } else {
                refusal(*inner, total)
            }
        },
        VolumeScheme::Explicit(sizes) => explicit_refusal(sizes@, total),
    }
}

/// Why a scheme is refused where no recovery blocks are asked for, if it is:
/// explicit sizes must sum to the number of recovery blocks then too. The other
/// schemes have nothing to distribute.
pub open spec fn refusal_of_none(scheme: VolumeScheme) -> Option<Seq<char>>
    decreases scheme,
{
    match scheme {
        VolumeScheme::Limited { max_blocks_per_volume: _, inner } => refusal_of_none(*inner),
        VolumeScheme::Explicit(sizes) => if sum_of(sizes@) != 0 {
            explicit_refusal(sizes@, 0)
        } else {
            None
        },
        _ => None,
    }
}

/// Why `total` recovery blocks cannot be distributed, if they cannot.
pub open spec fn distribution_refusal(scheme: VolumeScheme, total: u32) -> Option<Seq<char>> {
    if total == 0 {
        refusal_of_none(scheme)
    } else {
        refusal(scheme, total)
    }
}

/// The volumes over which `total` recovery blocks are distributed, where they
/// can be: none for none.
pub open spec fn distribution(scheme: VolumeScheme, total: u32) -> Seq<u32> {
    if total == 0 {
        Seq::empty()
    } else {
        layout(scheme, total)
    }
}

/// The exponential layout of `total` blocks.
pub open spec fn exponential_layout(total: nat) -> Seq<u32> {
    choose|sizes: Seq<u32>| is_exponential(sizes, total)
}

/// The layout that a scheme stands for, where it is not refused.
pub open spec fn layout(scheme: VolumeScheme, total: u32) -> Seq<u32>
    decreases scheme,
{
    match scheme {
        VolumeScheme::Single => seq![total],
        VolumeScheme::Exponential => exponential_layout(total as nat),
        VolumeScheme::Uniform { count } => uniform_sizes(total as int, count as int),
        VolumeScheme::Limited { max_blocks_per_volume, inner } => {
            let of = layout(*inner, total);
            capped_sizes(of, max_blocks_per_volume as int, of.len())
        },
        VolumeScheme::Explicit(given) => given@,
    }
}

/// The outcome is the refusal with its reason, or the layout.
pub open spec fn resolves(scheme: VolumeScheme, total: u32, r: Result<Vec<u32>>) -> bool {
    match refusal(scheme, total) {
        Some(reason) => r is Err && r->Err_0 is InvalidVolumeScheme
            && r->Err_0->InvalidVolumeScheme_0@ == reason,
        None => r is Ok && r->Ok_0@ == layout(scheme, total),
    }
}

// ---------------------------------------------------------------------------
// Sums
// ---------------------------------------------------------------------------

/// A sum depends on the summands only.
pub proof fn lemma_sum_prefix(a: Seq<u32>, b: Seq<u32>, n: nat)
    requires
        n <= a.len(),
        n <= b.len(),
        forall|i: int| 0 <= i < n ==> a[i] == b[i],
    ensures
        sum_to(a, n) == sum_to(b, n),
    decreases n,
{
    if n > 0 {
        lemma_sum_prefix(a, b, (n - 1) as nat);
    }
}

/// The sum of a concatenation.
pub proof fn lemma_sum_concat(a: Seq<u32>, b: Seq<u32>)
    ensures
        sum_of(a + b) == sum_of(a) + sum_of(b),
    decreases b.len(),
{
    if b.len() == 0 {
        assert(a + b =~= a);
    } else {
        let c = b.drop_last();
        lemma_sum_concat(a, c);
        lemma_sum_prefix(a + b, a + c, (a + c).len());
        lemma_sum_prefix(b, c, c.len());
    }
}

/// The sum of one size.
pub proof fn lemma_sum_one(n: u32)
    ensures
        sum_of(seq![n]) == n,
{
    reveal_with_fuel(sum_to, 2);
}

/// Larger prefixes have larger sums.
pub proof fn lemma_sum_monotone(sizes: Seq<u32>, m: nat, n: nat)
    requires
        m <= n,
        n <= sizes.len(),
    ensures
        0 <= sum_to(sizes, m) <= sum_to(sizes, n),
    decreases n,
{
    if n > 0 {
        if m < n {
            lemma_sum_monotone(sizes, m, (n - 1) as nat);
        } else {
            lemma_sum_monotone(sizes, (n - 1) as nat, (n - 1) as nat);
        }
    }
}

// ---------------------------------------------------------------------------
// The exponential layout
// ---------------------------------------------------------------------------

/// There is one exponential layout only.
pub proof fn lemma_exponential_unique(a: Seq<u32>, b: Seq<u32>, total: nat)
    requires
        is_exponential(a, total),
        is_exponential(b, total),
    ensures
        a == b,
{
    if a.len() < b.len() {
        assert(exponential_start(a.len()) < total);
    }
    if b.len() < a.len() {
        assert(exponential_start(b.len()) < total);
    }
    assert forall|i: int| 0 <= i < a.len() implies a[i] == b[i] by {
        assert(exponential_start(i as nat) < total);
    }
    assert(a =~= b);
}

proof fn lemma_pow2_exceeds(k: nat)
    ensures
        pow2(k) > k,
    decreases k,
{
    if k == 0 {
        lemma2_to64();
    } else {
        lemma_pow2_exceeds((k - 1) as nat);
        lemma_pow2_unfold(k);
    }
}

/// Some volume starts at or after the last block.
proof fn lemma_exponential_end(total: nat, i: nat)
    requires
        forall|k: nat| k < i ==> #[trigger] exponential_start(k) < total,
        i <= total + 1,
    ensures
        exists|n: nat|
            #[trigger] exponential_start(n) >= total && forall|k: nat|
                k < n ==> #[trigger] exponential_start(k) < total,
    decreases total + 1 - i,
{
    if exponential_start(i) < total {
        if i > 0 {
            lemma_pow2_exceeds((i - 1) as nat);
        }
        lemma_exponential_end(total, i + 1);
    }
}

/// There is an exponential layout.
pub proof fn lemma_exponential_exists(total: u32)
    ensures
        is_exponential(exponential_layout(total as nat), total as nat),
{
    lemma_exponential_end(total as nat, 0);
    let n = choose|n: nat|
        #[trigger] exponential_start(n) >= total && forall|k: nat|
            k < n ==> #[trigger] exponential_start(k) < total;
    let sizes = Seq::new(n, |i: int| exponential_size(i as nat, total as nat) as u32);
    assert forall|i: nat| i < sizes.len() implies #[trigger] exponential_start(i) < total
        && sizes[i as int] == exponential_size(i, total as nat) by {
        lemma_exponential_start_increases(i);
    }
    assert(is_exponential(sizes, total as nat));
}

/// The starts of the exponential layout increase.
proof fn lemma_exponential_start_increases(i: nat)
    ensures
        exponential_start(i) < pow2(i),
{
    lemma_pow2_pos(i);
    if i > 0 {
        lemma_pow2_unfold(i);
        lemma_pow2_pos((i - 1) as nat);
    }
}

// ---------------------------------------------------------------------------
// Splits
// ---------------------------------------------------------------------------

/// Volumes of 1, 1, 2, 4, 8, ... blocks, the last one taking what is left. No
/// volumes for no blocks.
pub fn exponential_split(total: u32) -> (sizes: Vec<u32>)
    ensures
        is_exponential(sizes@, total as nat),
        sizes@ == exponential_layout(total as nat),
{
    let mut sizes: Vec<u32> = Vec::new();
    let mut remaining: u32 = total;
    let mut next: u32 = 1;
    proof {
        lemma2_to64();
    }
    while remaining > 0
        invariant
            remaining <= total,
            sizes@.len() <= 33,
            forall|i: nat|
                i < sizes@.len() ==> #[trigger] exponential_start(i) < total && sizes@[i as int]
                    == exponential_size(i, total as nat),
            remaining > 0 ==> total - remaining == exponential_start(sizes@.len()),
            remaining > 0 ==> next + exponential_start(sizes@.len()) == pow2(sizes@.len()),
            remaining == 0 ==> total <= exponential_start(sizes@.len()),
            pow2(0) == 1,
            pow2(32) == 0x1_0000_0000,
        decreases remaining,
    {
        let ghost n = sizes@.len();
        let take: u32 = if next < remaining { next } else { remaining };
        proof {
            lemma_pow2_pos(n);
            lemma_pow2_unfold(n + 1);
            if n > 0 {
                lemma_pow2_unfold(n);
                lemma_pow2_pos((n - 1) as nat);
            }
            assert(n < 33);
        }
        sizes.push(take);
        proof {
            assert(exponential_start(n) < total);
            assert(exponential_start(n + 1) == pow2(n));
            assert(take == exponential_size(n, total as nat));
        }
        remaining = remaining - take;
        if sizes.len() >= 2 {
            next = if next <= u32::MAX / 2 { next * 2 } else { u32::MAX };
        }
    }
    proof {
        lemma_exponential_unique(sizes@, exponential_layout(total as nat), total as nat);
    }
    sizes
}

/// `count` volumes as even as possible: all but the last hold `total / count`
/// blocks, and the last one takes the remainder.
pub fn uniform_split(total: u32, count: u32) -> (r: Result<Vec<u32>>)
    ensures
        resolves(VolumeScheme::Uniform { count }, total, r),
{
    if count == 0 {
        return Err(Par2Error::InvalidVolumeScheme(text("Uniform scheme requires count > 0")));
    }
    if count > total {
        let mut reason: String = text("Uniform scheme count (");
        put_decimal(&mut reason, count as u128);
        put_text(&mut reason, ") exceeds recovery block total (");
        put_decimal(&mut reason, total as u128);
        put_text(&mut reason, ")");
        return Err(Par2Error::InvalidVolumeScheme(reason));
    }
    let base: u32 = total / count;
    let remainder: u32 = total % count;
    proof {
        vstd::arithmetic::div_mod::lemma_fundamental_div_mod(total as int, count as int);
        assert(base + remainder <= total) by (nonlinear_arith)
            requires
                total == count * base + remainder,
                count >= 1,
        ;
    }
    let mut sizes: Vec<u32> = Vec::new();
    let mut i: u32 = 0;
    while i < count - 1
        invariant
            count > 0,
            i <= count - 1,
            sizes@.len() == i,
            forall|j: int| 0 <= j < i ==> #[trigger] sizes@[j] == base,
        decreases count - i,
    {
        sizes.push(base);
        i = i + 1;
    }
    sizes.push(base + remainder);
    assert(sizes@ =~= uniform_sizes(total as int, count as int));
    Ok(sizes)
}

/// Split every volume above `cap` into volumes of `cap` and a last one with what
/// is left.
pub fn cap_volume_sizes(sizes: &[u32], cap: u32) -> (out: Vec<u32>)
    requires
        cap > 0,
    ensures
        out@ == capped_sizes(sizes@, cap as int, sizes@.len()),
{
    let mut out: Vec<u32> = Vec::new();
    let mut i: usize = 0;
    while i < sizes.len()
        invariant
            cap > 0,
            i <= sizes@.len(),
            out@ == capped_sizes(sizes@, cap as int, i as nat),
        decreases sizes@.len() - i,
    {
        let mut remaining: u32 = sizes[i];
        let ghost before = out@;
        while remaining > cap
            invariant
                cap > 0,
                i < sizes@.len(),
                out@ + capped(remaining as int, cap as int) == before + capped(
                    sizes@[i as int] as int,
                    cap as int,
                ),
            decreases remaining,
        {
            let ghost sofar = out@;
            let ghost left = remaining as int;
            out.push(cap);
            remaining = remaining - cap;
            assert(out@ + capped(remaining as int, cap as int) =~= sofar + capped(
                left,
                cap as int,
            ));
        }
        out.push(remaining);
        i = i + 1;
        assert(out@ =~= before + capped(sizes@[i - 1] as int, cap as int));
    }
    out
}

/// Whether one of the sizes is 0.
fn has_zero(sizes: &Vec<u32>) -> (r: bool)
    ensures
        r == sizes@.contains(0),
{
    let mut i: usize = 0;
    while i < sizes.len()
        invariant
            i <= sizes@.len(),
            forall|j: int| 0 <= j < i ==> sizes@[j] != 0,
        decreases sizes@.len() - i,
    {
        if sizes[i] == 0 {
            return true;
        }
        i = i + 1;
    }
    false
}

/// The sum of the sizes.
fn sum_sizes(sizes: &Vec<u32>) -> (sum: u128)
    ensures
        sum == sum_of(sizes@),
{
    let mut sum: u128 = 0;
    let mut i: usize = 0;
    while i < sizes.len()
        invariant
            i <= sizes@.len(),
            sum == sum_to(sizes@, i as nat),
            sum <= i * 0xFFFF_FFFF,
        decreases sizes@.len() - i,
    {
        sum = sum + sizes[i] as u128;
        i = i + 1;
    }
    sum
}

/// Why an explicit layout is refused, if it is.
fn explicit_problem(sizes: &Vec<u32>, total: u32) -> (r: Option<String>)
    ensures
        match explicit_refusal(sizes@, total) {
            Some(reason) => r is Some && r->0@ == reason,
            None => r is None,
        },
{
    if sizes.len() == 0 {
        return Some(text("explicit scheme requires at least one volume"));
    }
    if has_zero(sizes) {
        return Some(text("explicit scheme volumes must each have >0 recovery blocks"));
    }
    let sum: u128 = sum_sizes(sizes);
    if sum != total as u128 {
        let mut reason: String = text("explicit volume sizes sum to ");
        put_decimal(&mut reason, sum);
        put_text(&mut reason, ", expected ");
        put_decimal(&mut reason, total as u128);
        return Some(reason);
    }
    None
}

/// Why a scheme is refused where no recovery blocks are asked for, if it is.
fn problem_of_none(scheme: &VolumeScheme) -> (r: Option<String>)
    ensures
        match refusal_of_none(*scheme) {
            Some(reason) => r is Some && r->0@ == reason,
            None => r is None,
        },
    decreases *scheme,
{
    match scheme {
        VolumeScheme::Limited { max_blocks_per_volume: _, inner } => problem_of_none(inner),
        VolumeScheme::Explicit(sizes) => if sum_sizes(sizes) != 0 {
            explicit_problem(sizes, 0)
        } else {
            None
        },
        _ => None,
    }
}

/// Distribute `total` recovery blocks over volumes, or say why that cannot be.
pub fn distribute(scheme: &VolumeScheme, total: u32) -> (r: Result<Vec<u32>>)
    ensures
        match distribution_refusal(*scheme, total) {
            Some(reason) => r is Err && r->Err_0 is InvalidVolumeScheme
                && r->Err_0->InvalidVolumeScheme_0@ == reason,
            None => r is Ok && r->Ok_0@ == distribution(*scheme, total),
        },
{
    if total == 0 {
        match problem_of_none(scheme) {
            Some(reason) => Err(Par2Error::InvalidVolumeScheme(reason)),
            None => Ok(Vec::new()),
        }
    } else {
        resolve_volume_sizes(scheme, total)
    }
}

/// The layout that a scheme stands for, or why it is refused.
pub fn resolve_volume_sizes(scheme: &VolumeScheme, total: u32) -> (r: Result<Vec<u32>>)
    ensures
        resolves(*scheme, total, r),
    decreases *scheme,
{
    match scheme {
        VolumeScheme::Single => {
            let mut sizes: Vec<u32> = Vec::new();
            sizes.push(total);
            assert(sizes@ =~= seq![total]);
            Ok(sizes)
        },
        VolumeScheme::Exponential => Ok(exponential_split(total)),
        VolumeScheme::Uniform { count } => uniform_split(total, *count),
        VolumeScheme::Limited { max_blocks_per_volume, inner } => {
            if *max_blocks_per_volume == 0 {
                return Err(
                    Par2Error::InvalidVolumeScheme(
                        text("Limited scheme requires max_blocks_per_volume > 0"),
                    ),
                );
            }
            match resolve_volume_sizes(inner, total) {
                Err(e) => Err(e),
                Ok(of) => Ok(cap_volume_sizes(&of, *max_blocks_per_volume)),
            }
        },
        VolumeScheme::Explicit(sizes) => {
            if let Some(reason) = explicit_problem(sizes, total) {
                return Err(Par2Error::InvalidVolumeScheme(reason));
            }
            let copy: Vec<u32> = sizes.clone();
            assert(copy@ =~= sizes@);
            Ok(copy)
        },
    }
}

// ---------------------------------------------------------------------------
// Laws
// ---------------------------------------------------------------------------

/// The first `n` volumes of the exponential layout hold the blocks before the
/// start of volume `n`.
proof fn lemma_exponential_sum(sizes: Seq<u32>, total: nat, n: nat)
    requires
        is_exponential(sizes, total),
        n <= sizes.len(),
    ensures
        sum_to(sizes, n) == if exponential_start(n) <= total {
            exponential_start(n)
        } else {
            total
        },
    decreases n,
{
    if n > 0 {
        let m = (n - 1) as nat;
        lemma_exponential_sum(sizes, total, m);
        assert(exponential_start(m) < total);
    }
}

/// Splitting a volume keeps its blocks, and makes no volume empty or larger than
/// the cap.
proof fn lemma_capped(n: int, cap: int)
    requires
        0 <= n <= u32::MAX,
        0 < cap <= u32::MAX,
    ensures
        sum_of(capped(n, cap)) == n,
        n > 0 ==> forall|i: int| 0 <= i < capped(n, cap).len() ==> 0 < #[trigger] capped(n, cap)[i]
            <= cap,
    decreases n,
{
    if n <= cap {
        lemma_sum_one(n as u32);
    } else {
        lemma_capped(n - cap, cap);
        lemma_sum_one(cap as u32);
        lemma_sum_concat(seq![cap as u32], capped(n - cap, cap));
    }
}

proof fn lemma_capped_sizes(sizes: Seq<u32>, cap: int, n: nat)
    requires
        0 < cap <= u32::MAX,
        n <= sizes.len(),
    ensures
        sum_of(capped_sizes(sizes, cap, n)) == sum_to(sizes, n),
        (forall|i: int| 0 <= i < n ==> #[trigger] sizes[i] > 0) ==> forall|i: int|
            0 <= i < capped_sizes(sizes, cap, n).len() ==> 0 < #[trigger] capped_sizes(
                sizes,
                cap,
                n,
            )[i] <= cap,
    decreases n,
{
    if n > 0 {
        let m = (n - 1) as nat;
        lemma_capped_sizes(sizes, cap, m);
        lemma_capped(sizes[n - 1] as int, cap);
        lemma_sum_concat(capped_sizes(sizes, cap, m), capped(sizes[n - 1] as int, cap));
    }
}

proof fn lemma_uniform_sum(total: int, count: int, n: nat)
    requires
        0 < count <= total <= u32::MAX,
        n <= count,
    ensures
        0 < total / count <= total / count + total % count <= total,
        sum_to(uniform_sizes(total, count), n) == if n < count {
            n * (total / count)
        } else {
            total
        },
    decreases n,
{
    let base = total / count;
    let rest = total % count;
    vstd::arithmetic::div_mod::lemma_fundamental_div_mod(total, count);
    assert(0 < base && base + rest <= total) by (nonlinear_arith)
        requires
            total == count * base + rest,
            0 <= rest < count,
            0 < count <= total,
    ;
    if n == 0 {
        assert(n * base == 0) by (nonlinear_arith)
            requires
                n == 0,
        ;
    } else {
        lemma_uniform_sum(total, count, (n - 1) as nat);
        assert(n * base == (n - 1) * base + base) by (nonlinear_arith);
        if n == count {
            assert((n - 1) * base + base + rest == total) by (nonlinear_arith)
                requires
                    n == count,
                    total == count * base + rest,
            ;
        }
    }
}

/// Every layout holds exactly the recovery blocks asked for, and none of its
/// volumes is empty.
pub proof fn law_layout_holds_all_blocks(scheme: VolumeScheme, total: u32)
    requires
        refusal(scheme, total) is None,
        total > 0,
    ensures
        sum_of(layout(scheme, total)) == total,
        forall|i: int|
            0 <= i < layout(scheme, total).len() ==> #[trigger] layout(scheme, total)[i] > 0,
    decreases scheme,
{
    let sizes = layout(scheme, total);
    match scheme {
        VolumeScheme::Single => {
            lemma_sum_one(total);
        },
        VolumeScheme::Exponential => {
            lemma_exponential_exists(total);
            lemma_exponential_sum(sizes, total as nat, sizes.len());
            assert forall|i: int| 0 <= i < sizes.len() implies #[trigger] sizes[i] > 0 by {
                assert(exponential_start(i as nat) < total);
                lemma_exponential_start_increases(i as nat);
            }
        },
        VolumeScheme::Uniform { count } => {
            lemma_uniform_sum(total as int, count as int, count as nat);
        },
        VolumeScheme::Limited { max_blocks_per_volume, inner } => {
            let of = layout(*inner, total);
            law_layout_holds_all_blocks(*inner, total);
            lemma_capped_sizes(of, max_blocks_per_volume as int, of.len());
        },
        VolumeScheme::Explicit(given) => {
            assert forall|i: int| 0 <= i < sizes.len() implies #[trigger] sizes[i] > 0 by {
                assert(sizes.contains(sizes[i]));
            }
        },
    }
}

/// Capping a layout keeps its number of recovery blocks.
pub proof fn law_capping_keeps_blocks(sizes: Seq<u32>, cap: u32)
    requires
        cap > 0,
    ensures
        sum_of(capped_sizes(sizes, cap as int, sizes.len())) == sum_of(sizes),
{
    lemma_capped_sizes(sizes, cap as int, sizes.len());
}

proof fn lemma_capped_below(n: int, cap: int, i: int)
    requires
        0 <= n,
        0 < cap <= u32::MAX,
        0 <= i < capped(n, cap).len(),
    ensures
        capped(n, cap)[i] <= cap,
    decreases n,
{
    if n > cap && i > 0 {
        lemma_capped_below(n - cap, cap, i - 1);
    }
}

proof fn lemma_all_below(sizes: Seq<u32>, cap: int, n: nat, i: int)
    requires
        0 < cap <= u32::MAX,
        n <= sizes.len(),
        0 <= i < capped_sizes(sizes, cap, n).len(),
    ensures
        capped_sizes(sizes, cap, n)[i] <= cap,
    decreases n,
{
    let before = capped_sizes(sizes, cap, (n - 1) as nat);
    if i < before.len() {
        lemma_all_below(sizes, cap, (n - 1) as nat, i);
    } else {
        lemma_capped_below(sizes[n - 1] as int, cap, i - before.len());
    }
}

proof fn lemma_nothing_to_cap(sizes: Seq<u32>, cap: int, n: nat)
    requires
        n <= sizes.len(),
        forall|i: int| 0 <= i < sizes.len() ==> #[trigger] sizes[i] <= cap,
    ensures
        capped_sizes(sizes, cap, n) == sizes.take(n as int),
    decreases n,
{
    if n > 0 {
        lemma_nothing_to_cap(sizes, cap, (n - 1) as nat);
        assert(sizes[n - 1] <= cap);
        assert(capped_sizes(sizes, cap, n) =~= sizes.take(n as int));
    } else {
        assert(sizes.take(0) =~= Seq::empty());
    }
}

/// Capping twice is capping once.
pub proof fn law_capping_is_idempotent(sizes: Seq<u32>, cap: u32)
    requires
        cap > 0,
    ensures
        ({
            let once = capped_sizes(sizes, cap as int, sizes.len());
            capped_sizes(once, cap as int, once.len()) == once
        }),
{
    let once = capped_sizes(sizes, cap as int, sizes.len());
    assert forall|i: int| 0 <= i < once.len() implies #[trigger] once[i] <= cap by {
        lemma_all_below(sizes, cap as int, sizes.len(), i);
    }
    lemma_nothing_to_cap(once, cap as int, once.len());
    assert(once.take(once.len() as int) =~= once);
}

/// A copy of a scheme is refused for the same reasons and stands for the same
/// layout.
pub proof fn law_copies_act_alike(a: VolumeScheme, b: VolumeScheme, total: u32)
    requires
        same_scheme(a, b),
    ensures
        refusal(a, total) == refusal(b, total),
        refusal_of_none(a) == refusal_of_none(b),
        distribution_refusal(a, total) == distribution_refusal(b, total),
        layout(a, total) == layout(b, total),
        distribution(a, total) == distribution(b, total),
    decreases a,
{
    match (a, b) {
        (
            VolumeScheme::Limited { max_blocks_per_volume: _, inner: x },
            VolumeScheme::Limited { max_blocks_per_volume: _, inner: y },
        ) => {
            law_copies_act_alike(*x, *y, total);
        },
        _ => {},
    }
}

/// Explicit sizes that do not sum to the number of recovery blocks are refused,
/// whatever that number is.
pub proof fn law_explicit_sum_must_match(sizes: Vec<u32>, total: u32)
    requires
        sum_of(sizes@) != total,
    ensures
        distribution_refusal(VolumeScheme::Explicit(sizes), total) is Some,
{
}

/// No volume of a limited layout is larger than the cap.
pub proof fn law_limited_layout_respects_cap(cap: u32, inner: Box<VolumeScheme>, total: u32)
    requires
        total > 0,
        refusal(VolumeScheme::Limited { max_blocks_per_volume: cap, inner }, total) is None,
    ensures
        ({
            let sizes = layout(VolumeScheme::Limited { max_blocks_per_volume: cap, inner }, total);
            forall|i: int| 0 <= i < sizes.len() ==> 0 < #[trigger] sizes[i] <= cap
        }),
{
    let of = layout(*inner, total);
    law_layout_holds_all_blocks(*inner, total);
    lemma_capped_sizes(of, cap as int, of.len());
}

/// The exponents of the volumes partition those of all recovery blocks: each
/// exponent below the total lies in exactly one volume.
pub proof fn law_volumes_partition_exponents(sizes: Seq<u32>, e: int)
    requires
        0 <= e < sum_of(sizes),
    ensures
        exists|v: int|
            0 <= v < sizes.len() && #[trigger] sum_to(sizes, v as nat) <= e < sum_to(
                sizes,
                (v + 1) as nat,
            ),
        forall|v: int, w: int|
            0 <= v < sizes.len() && 0 <= w < sizes.len() && #[trigger] sum_to(sizes, v as nat) <= e
                < sum_to(sizes, (v + 1) as nat) && #[trigger] sum_to(sizes, w as nat) <= e < sum_to(
                sizes,
                (w + 1) as nat,
            ) ==> v == w,
{
    lemma_volume_of(sizes, e, sizes.len());
    assert forall|v: int, w: int|
        0 <= v < sizes.len() && 0 <= w < sizes.len() && #[trigger] sum_to(sizes, v as nat) <= e
            < sum_to(sizes, (v + 1) as nat) && #[trigger] sum_to(sizes, w as nat) <= e < sum_to(
            sizes,
            (w + 1) as nat,
        ) implies v == w by {
        if v < w {
            lemma_sum_monotone(sizes, (v + 1) as nat, w as nat);
        }
        if w < v {
            lemma_sum_monotone(sizes, (w + 1) as nat, v as nat);
        }
    }
}

proof fn lemma_volume_of(sizes: Seq<u32>, e: int, n: nat)
    requires
        n <= sizes.len(),
        0 <= e < sum_to(sizes, n),
    ensures
        exists|v: int|
            0 <= v < n && #[trigger] sum_to(sizes, v as nat) <= e < sum_to(sizes, (v + 1) as nat),
    decreases n,
{
    let m = (n - 1) as nat;
    if e < sum_to(sizes, m) {
        lemma_volume_of(sizes, e, m);
    } else {
        assert(sum_to(sizes, (n - 1) as nat) <= e < sum_to(sizes, ((n - 1) + 1) as nat));
    }
}

// ---------------------------------------------------------------------------
// What pins the layouts down
// ---------------------------------------------------------------------------

/// Sums add up one size after the other.
pub proof fn law_sums(sizes: Seq<u32>, n: nat)
    ensures
        sum_to(sizes, 0) == 0,
        sum_to(sizes, n + 1) == sum_to(sizes, n) + sizes[n as int],
        sum_of(sizes) == sum_to(sizes, sizes.len()),
{
    assert((n + 1 - 1) as nat == n);
}

/// One volume holds everything, and given volumes are taken as they are.
pub proof fn law_plain_layouts(total: u32, given: Vec<u32>)
    ensures
        layout(VolumeScheme::Single, total) == seq![total],
        layout(VolumeScheme::Explicit(given), total) == given@,
        refusal(VolumeScheme::Single, total) is None,
        refusal(VolumeScheme::Exponential, total) is None,
{
}

/// Volumes grow: the first holds one block, each of the others but the last as many
/// as all before it together, and the last what is left, which is no more.
pub proof fn law_exponential_layout(total: u32, i: int)
    ensures
        ({
            let sizes = layout(VolumeScheme::Exponential, total);
            let n = sizes.len();
            &&& total == 0 ==> n == 0
            &&& total > 0 ==> n > 0 && sizes[0] == 1
            &&& 1 <= i < n - 1 ==> sizes[i] == sum_to(sizes, i as nat)
            &&& n > 1 ==> 0 < sizes[n - 1] <= sum_to(sizes, (n - 1) as nat)
            &&& total > 0 ==> sum_to(sizes, n) == total
        }),
{
    let sizes = layout(VolumeScheme::Exponential, total);
    let n = sizes.len();
    lemma_exponential_exists(total);
    lemma2_to64();
    assert(exponential_start(0) == 0);
    if total > 0 {
        law_layout_holds_all_blocks(VolumeScheme::Exponential, total);
        if n == 0 {
            assert(total <= exponential_start(0));
        }
        assert(exponential_start(0) < total && sizes[0] == exponential_size(0, total as nat));
    } else if n > 0 {
        assert(exponential_start(0) < total);
    }
    if 1 <= i < n - 1 {
        lemma_exponential_sum(sizes, total as nat, i as nat);
        lemma_exponential_sum(sizes, total as nat, (i + 1) as nat);
        lemma_pow2_unfold(i as nat);
        assert(exponential_start(i as nat) < total);
        assert(exponential_start((i + 1) as nat) < total);
        assert(sizes[i] == exponential_size(i as nat, total as nat));
    }
    if n > 1 {
        let l = (n - 1) as nat;
        lemma_exponential_sum(sizes, total as nat, l);
        lemma_pow2_unfold(l);
        lemma_exponential_start_increases(l);
        assert(exponential_start(l) < total);
        assert(sizes[l as int] == exponential_size(l, total as nat));
    }
}

/// Uniform volumes: as many as asked for, each but the last with the whole part of
/// its share, and all blocks in them.
pub proof fn law_uniform_layout(total: u32, count: u32, i: int)
    requires
        0 < count <= total,
    ensures
        ({
            let sizes = layout(VolumeScheme::Uniform { count }, total);
            &&& sizes.len() == count
            &&& 0 <= i < count - 1 ==> sizes[i] * count <= total < (sizes[i] + 1) * count
            &&& sum_to(sizes, count as nat) == total
        }),
{
    let sizes = layout(VolumeScheme::Uniform { count }, total);
    let base = total as int / count as int;
    lemma_uniform_sum(total as int, count as int, count as nat);
    vstd::arithmetic::div_mod::lemma_fundamental_div_mod(total as int, count as int);
    if 0 <= i < count - 1 {
        assert(sizes[i] == base);
        assert(base * count <= total < (base + 1) * count) by (nonlinear_arith)
            requires
                total == count * base + total as int % count as int,
                0 <= total as int % (count as int) < count,
        ;
    }
}

proof fn lemma_capped_pieces(n: int, cap: int, i: int)
    requires
        0 <= n <= u32::MAX,
        0 < cap <= u32::MAX,
        0 <= i < capped(n, cap).len(),
    ensures
        i < capped(n, cap).len() - 1 ==> capped(n, cap)[i] == cap,
        n > 0 ==> capped(n, cap)[i] > 0,
    decreases n,
{
    if n > cap && i > 0 {
        lemma_capped_pieces(n - cap, cap, i - 1);
    }
}

/// A volume above the cap becomes volumes of the cap and one with what is left; one
/// below it stays as it is.
pub proof fn law_capping_of_one(n: u32, cap: u32, i: int)
    requires
        cap > 0,
    ensures
        ({
            let pieces = capped_sizes(seq![n], cap as int, 1);
            &&& pieces.len() > 0
            &&& n <= cap ==> pieces == seq![n]
            &&& sum_of(pieces) == n
            &&& 0 <= i < pieces.len() - 1 ==> pieces[i] == cap
            &&& 0 <= i < pieces.len() ==> pieces[i] <= cap && (n > 0 ==> pieces[i] > 0)
        }),
{
    let pieces = capped_sizes(seq![n], cap as int, 1);
    assert(capped_sizes(seq![n], cap as int, 0) == Seq::<u32>::empty());
    assert(pieces =~= capped(n as int, cap as int));
    lemma_capped(n as int, cap as int);
    if n <= cap {
        assert(pieces =~= seq![n]);
    } else {
        assert(pieces.len() > 0);
    }
    if 0 <= i < pieces.len() {
        lemma_capped_pieces(n as int, cap as int, i);
        lemma_capped_below(n as int, cap as int, i);
    }
}

proof fn lemma_capping_joins(a: Seq<u32>, b: Seq<u32>, cap: int, n: nat)
    requires
        n <= b.len(),
    ensures
        capped_sizes(a + b, cap, a.len() + n) == capped_sizes(a, cap, a.len()) + capped_sizes(
            b,
            cap,
            n,
        ),
    decreases n,
{
    if n == 0 {
        lemma_capping_prefix(a, a + b, cap, a.len());
        assert(capped_sizes(a, cap, a.len()) + capped_sizes(b, cap, 0) =~= capped_sizes(
            a,
            cap,
            a.len(),
        ));
    } else {
        let m = (n - 1) as nat;
        lemma_capping_joins(a, b, cap, m);
        assert((a.len() + n - 1) as nat == a.len() + m);
        assert((a + b)[a.len() + n - 1] == b[n - 1]);
        assert(capped_sizes(a + b, cap, a.len() + n) =~= capped_sizes(a, cap, a.len())
            + capped_sizes(b, cap, n));
    }
}

proof fn lemma_capping_prefix(a: Seq<u32>, all: Seq<u32>, cap: int, n: nat)
    requires
        n <= a.len() <= all.len(),
        forall|i: int| 0 <= i < a.len() ==> a[i] == all[i],
    ensures
        capped_sizes(a, cap, n) == capped_sizes(all, cap, n),
    decreases n,
{
    if n > 0 {
        lemma_capping_prefix(a, all, cap, (n - 1) as nat);
    }
}

/// Volumes are capped one by one: the capped volumes of a list are those of its
/// parts, one after the other. A limited layout is its inner layout, capped.
pub proof fn law_capping_joins(
    a: Seq<u32>,
    b: Seq<u32>,
    cap: u32,
    inner: Box<VolumeScheme>,
    total: u32,
)
    ensures
        capped_sizes(Seq::<u32>::empty(), cap as int, 0) == Seq::<u32>::empty(),
        capped_sizes(a + b, cap as int, a.len() + b.len()) == capped_sizes(
            a,
            cap as int,
            a.len(),
        ) + capped_sizes(b, cap as int, b.len()),
        layout(VolumeScheme::Limited { max_blocks_per_volume: cap, inner }, total) == capped_sizes(
            layout(*inner, total),
            cap as int,
            layout(*inner, total).len(),
        ),
{
    lemma_capping_joins(a, b, cap as int, b.len());
}

/// Which layouts are refused, and in what words: uniform ones with no volumes or
/// more than blocks, limited ones without room or whose inner layout is refused,
/// and explicit ones without volumes, with an empty volume, or with another sum.
pub proof fn law_refusals(
    total: u32,
    count: u32,
    cap: u32,
    inner: Box<VolumeScheme>,
    given: Vec<u32>,
    i: int,
)
    ensures
        refusal(VolumeScheme::Uniform { count }, total) == if count == 0 {
            Some("Uniform scheme requires count > 0"@)
        } else if count > total {
            Some(
                "Uniform scheme count ("@ + decimal(count as nat)
                    + ") exceeds recovery block total ("@ + decimal(total as nat) + ")"@,
            )
        } else {
            None
        },
        refusal(VolumeScheme::Limited { max_blocks_per_volume: cap, inner }, total) == if cap == 0 {
            Some("Limited scheme requires max_blocks_per_volume > 0"@)
        } else {
            refusal(*inner, total)
        },
        given@.len() == 0 ==> refusal(VolumeScheme::Explicit(given), total) == Some(
            "explicit scheme requires at least one volume"@,
        ),
        0 <= i < given@.len() && given@[i] == 0 ==> refusal(VolumeScheme::Explicit(given), total)
            == Some("explicit scheme volumes must each have >0 recovery blocks"@),
        given@.len() > 0 && (forall|j: int| 0 <= j < given@.len() ==> #[trigger] given@[j] > 0)
            ==> refusal(VolumeScheme::Explicit(given), total) == if sum_of(given@) == total {
            None
        } else {
            Some(
                "explicit volume sizes sum to "@ + decimal(sum_of(given@) as nat) + ", expected "@
                    + decimal(total as nat),
            )
        },
{
    if 0 <= i < given@.len() && given@[i] == 0 {
        assert(given@.contains(0));
    }
    if given@.contains(0) {
        let j = choose|j: int| 0 <= j < given@.len() && given@[j] == 0;
        assert(!(given@[j] > 0));
    }
}

/// No recovery blocks need no volumes, and some are distributed as the scheme says.
/// Without recovery blocks only explicit sizes that sum to more are refused.
pub proof fn law_distribution(scheme: VolumeScheme, total: u32)
    ensures
        distribution(scheme, 0) == Seq::<u32>::empty(),
        total > 0 ==> distribution(scheme, total) == layout(scheme, total),
        total > 0 ==> distribution_refusal(scheme, total) == refusal(scheme, total),
        scheme is Single || scheme is Exponential || scheme is Uniform ==> distribution_refusal(
            scheme,
            0,
        ) is None,
        scheme is Limited ==> distribution_refusal(scheme, 0) == distribution_refusal(
            *scheme->inner,
            0,
        ),
        scheme matches VolumeScheme::Explicit(given) ==> distribution_refusal(scheme, 0) == if sum_of(
            given@,
        ) == 0 {
            None
        } else {
            refusal(scheme, 0)
        },
{
}

/// What resolving a scheme comes to: the reason if it is refused, else its layout.
pub proof fn law_resolution(scheme: VolumeScheme, total: u32, r: Result<Vec<u32>>)
    requires
        resolves(scheme, total, r),
    ensures
        r is Ok <==> refusal(scheme, total) is None,
        r is Ok ==> r->Ok_0@ == layout(scheme, total),
        r is Err ==> r->Err_0 is InvalidVolumeScheme && r->Err_0->InvalidVolumeScheme_0@ == refusal(
            scheme,
            total,
        )->0,
{
}

/// A copy of a scheme is the same kind of scheme with the same numbers in it.
pub proof fn law_copies_are_the_same(a: VolumeScheme, b: VolumeScheme)
    requires
        same_scheme(a, b),
    ensures
        a is Single <==> b is Single,
        a is Exponential <==> b is Exponential,
        a is Uniform ==> b is Uniform && a->count == b->count,
        a is Limited ==> b is Limited && a->max_blocks_per_volume == b->max_blocks_per_volume
            && same_scheme(*a->inner, *b->inner),
        a is Explicit ==> b is Explicit && a->Explicit_0@ == b->Explicit_0@,
{
}

} // verus!
