//! Which slice size to suggest for files that have too many slices.

use crate::creator::{block_count, byte_count, lemma_counts_monotone};
use crate::reedsolomon::MAX_INPUT_BLOCKS;
use crate::source::{ceil_div, lemma_ceil_div, SourceFile};
use vstd::prelude::*;

verus! {

/// Number of slices of `slice_size` bytes of the first `n` files.
pub open spec fn slices_at(sources: Seq<SourceFile>, n: nat, slice_size: int) -> int
    decreases n,
{
    if n == 0 {
        0
    } else {
        slices_at(sources, (n - 1) as nat, slice_size) + ceil_div(
            sources[n - 1].length as int,
            slice_size,
        )
    }
}

/// A valid slice size with which the files have no more slices than a recovery
/// set can have.
pub open spec fn suffices(sources: Seq<SourceFile>, slice_size: int) -> bool {
    &&& slice_size > 0
    &&& slice_size % 4 == 0
    &&& slices_at(sources, sources.len(), slice_size) <= MAX_INPUT_BLOCKS
}

/// The smallest slice size that suffices.
pub open spec fn is_smallest(sources: Seq<SourceFile>, slice_size: int) -> bool {
    &&& suffices(sources, slice_size)
    &&& forall|t: int| 0 < t < slice_size ==> !(#[trigger] suffices(sources, t))
}

/// The smallest slice size with which the files have no more slices than a
/// recovery set can have.
pub open spec fn suggested_slice_size(sources: Seq<SourceFile>) -> int {
    choose|s: int| is_smallest(sources, s)
}

/// There is one smallest slice size only.
pub proof fn lemma_smallest_unique(sources: Seq<SourceFile>, s: int, t: int)
    requires
        is_smallest(sources, s),
        is_smallest(sources, t),
    ensures
        s == t,
{
    assert(suffices(sources, s) && suffices(sources, t));
}

/// Larger slices are no more.
proof fn lemma_ceil_div_monotone(a: int, s: int, t: int)
    requires
        a >= 0,
        0 < s <= t,
    ensures
        ceil_div(a, t) <= ceil_div(a, s),
{
    let p = ceil_div(a, s);
    let q = ceil_div(a, t);
    lemma_ceil_div(a, s);
    lemma_ceil_div(a, t);
    assert(q <= p) by (nonlinear_arith)
        requires
            a <= p * s,
            q * t < a + t,
            0 < s <= t,
            p >= 0,
    ;
}

proof fn lemma_slices_monotone(sources: Seq<SourceFile>, n: nat, s: int, t: int)
    requires
        n <= sources.len(),
        0 < s <= t,
    ensures
        slices_at(sources, n, t) <= slices_at(sources, n, s),
    decreases n,
{
    if n > 0 {
        lemma_slices_monotone(sources, (n - 1) as nat, s, t);
        lemma_ceil_div_monotone(sources[n - 1].length as int, s, t);
    }
}

/// There are no more slices than bytes.
proof fn lemma_slices_at_most_bytes(sources: Seq<SourceFile>, n: nat, s: int)
    requires
        n <= sources.len(),
        s > 0,
    ensures
        0 <= slices_at(sources, n, s) <= byte_count(sources, n),
    decreases n,
{
    if n > 0 {
        lemma_slices_at_most_bytes(sources, (n - 1) as nat, s);
        lemma_ceil_div(sources[n - 1].length as int, s);
    }
}

/// With the largest slice size there is, every file has one slice, or almost
/// all bytes are in one file.
proof fn lemma_slices_at_top(sources: Seq<SourceFile>, n: nat)
    requires
        n <= sources.len(),
    ensures
        slices_at(sources, n, 0xFFFF_FFFF_FFFF_FFFC) <= n || slices_at(
            sources,
            n,
            0xFFFF_FFFF_FFFF_FFFC,
        ) <= byte_count(sources, n) - 0xFFFF_FFFF_FFFF_FFFC + 1,
    decreases n,
{
    if n > 0 {
        let len = sources[n - 1].length as int;
        lemma_slices_at_top(sources, (n - 1) as nat);
        lemma_slices_at_most_bytes(sources, (n - 1) as nat, 0xFFFF_FFFF_FFFF_FFFC);
        lemma_ceil_div(len, 0xFFFF_FFFF_FFFF_FFFC);
        assert(ceil_div(len, 0xFFFF_FFFF_FFFF_FFFC) <= 2);
        assert(len <= 0xFFFF_FFFF_FFFF_FFFC ==> ceil_div(len, 0xFFFF_FFFF_FFFF_FFFC) <= 1);
    }
}

/// Number of slices of `slice_size` bytes of all files.
fn count_slices_at(sources: &[SourceFile], slice_size: u64) -> (n: u64)
    requires
        slice_size > 0,
        byte_count(sources@, sources@.len()) <= u64::MAX,
    ensures
        n == slices_at(sources@, sources@.len(), slice_size as int),
{
    let mut n: u64 = 0;
    let mut i: usize = 0;
    while i < sources.len()
        invariant
            slice_size > 0,
            i <= sources@.len(),
            n == slices_at(sources@, i as nat, slice_size as int),
            byte_count(sources@, sources@.len()) <= u64::MAX,
        decreases sources@.len() - i,
    {
        proof {
            lemma_slices_at_most_bytes(sources@, (i + 1) as nat, slice_size as int);
            lemma_counts_monotone(sources@, (i + 1) as nat, sources@.len());
            lemma_slices_at_most_bytes(sources@, i as nat, slice_size as int);
            lemma_ceil_div(sources@[i as int].length as int, slice_size as int);
        }
        let len: u64 = sources[i].length;
        n = n + (if len % slice_size == 0 { len / slice_size } else { len / slice_size + 1 });
        i = i + 1;
    }
    n
}

/// The smallest slice size with which the files have no more slices than a
/// recovery set can have.
pub fn suggest_slice_size(sources: &[SourceFile]) -> (s: u64)
    requires
        sources@.len() <= MAX_INPUT_BLOCKS,
        byte_count(sources@, sources@.len()) <= u64::MAX,
    ensures
        is_smallest(sources@, s as int),
        s == suggested_slice_size(sources@),
{
    let mut low: u64 = 0;
    let mut high: u64 = 0x3FFF_FFFF_FFFF_FFFF;
    proof {
        lemma_slices_at_top(sources@, sources@.len());
        assert(suffices(sources@, 4 * high));
    }
    while high - low > 1
        invariant
            low < high <= 0x3FFF_FFFF_FFFF_FFFF,
            low > 0 ==> !suffices(sources@, 4 * low),
            suffices(sources@, 4 * high),
            byte_count(sources@, sources@.len()) <= u64::MAX,
        decreases high - low,
    {
        let mid: u64 = low + (high - low) / 2;
        if count_slices_at(sources, 4 * mid) <= MAX_INPUT_BLOCKS as u64 {
            high = mid;
        } else {
            low = mid;
        }
    }
    let s: u64 = 4 * high;
    proof {
        assert forall|t: int| 0 < t < s implies !(#[trigger] suffices(sources@, t)) by {
            if suffices(sources@, t) {
                assert(t <= 4 * low);
                lemma_slices_monotone(sources@, sources@.len(), t, 4 * low);
                assert(suffices(sources@, 4 * low));
            }
        }
        assert(is_smallest(sources@, s as int));
        lemma_smallest_unique(sources@, s as int, suggested_slice_size(sources@));
    }
    s
}

/// There is a smallest slice size for any files that a recovery set can have.
pub proof fn lemma_suggestion_exists(sources: Seq<SourceFile>)
    requires
        sources.len() <= MAX_INPUT_BLOCKS,
        byte_count(sources, sources.len()) <= u64::MAX,
    ensures
        is_smallest(sources, suggested_slice_size(sources)),
{
    lemma_slices_at_top(sources, sources.len());
    assert(suffices(sources, 0xFFFF_FFFF_FFFF_FFFC));
    lemma_least_exists(sources, 0xFFFF_FFFF_FFFF_FFFC);
}

proof fn lemma_least_exists(sources: Seq<SourceFile>, s: int)
    requires
        suffices(sources, s),
    ensures
        exists|t: int| is_smallest(sources, t),
    decreases s,
{
    if exists|t: int| 0 < t < s && #[trigger] suffices(sources, t) {
        let t = choose|t: int| 0 < t < s && #[trigger] suffices(sources, t);
        lemma_least_exists(sources, t);
    } else {
        assert(is_smallest(sources, s));
    }
}

/// Each file has as many checksums as it has slices of this size.
pub open spec fn scanned_at(sources: Seq<SourceFile>, slice_size: int) -> bool {
    forall|i: int|
        0 <= i < sources.len() ==> (#[trigger] sources[i]).slice_checksums@.len() == ceil_div(
            sources[i].length as int,
            slice_size,
        )
}

proof fn lemma_scanned_count(sources: Seq<SourceFile>, slice_size: int, n: nat)
    requires
        scanned_at(sources, slice_size),
        n <= sources.len(),
    ensures
        block_count(sources, n) == slices_at(sources, n, slice_size),
    decreases n,
{
    if n > 0 {
        lemma_scanned_count(sources, slice_size, (n - 1) as nat);
        assert(sources[n - 1].slice_checksums@.len() == ceil_div(
            sources[n - 1].length as int,
            slice_size,
        ));
    }
}

/// A suggestion helps: files that were scanned at a slice size with which they
/// have too many slices are suggested a larger one, and scanned again at that
/// size they have no more slices than a recovery set can have.
pub proof fn law_suggestion_helps(
    sources: Seq<SourceFile>,
    slice_size: int,
    again: Seq<SourceFile>,
)
    requires
        sources.len() <= MAX_INPUT_BLOCKS,
        byte_count(sources, sources.len()) <= u64::MAX,
        slice_size > 0,
        slice_size % 4 == 0,
        scanned_at(sources, slice_size),
        block_count(sources, sources.len()) > MAX_INPUT_BLOCKS,
        again.len() == sources.len(),
        forall|i: int|
            0 <= i < sources.len() ==> (#[trigger] again[i]).length == sources[i].length,
        scanned_at(again, suggested_slice_size(sources)),
    ensures
        suggested_slice_size(sources) > slice_size,
        block_count(again, again.len()) <= MAX_INPUT_BLOCKS,
{
    let s = suggested_slice_size(sources);
    lemma_suggestion_exists(sources);
    lemma_scanned_count(sources, slice_size, sources.len());
    if s <= slice_size {
        lemma_slices_monotone(sources, sources.len(), s, slice_size);
    }
    lemma_scanned_count(again, s, again.len());
    lemma_same_lengths(sources, again, s, sources.len());
}

proof fn lemma_same_lengths(a: Seq<SourceFile>, b: Seq<SourceFile>, s: int, n: nat)
    requires
        a.len() == b.len(),
        n <= a.len(),
        forall|i: int| 0 <= i < a.len() ==> (#[trigger] b[i]).length == a[i].length,
    ensures
        slices_at(a, n, s) == slices_at(b, n, s),
    decreases n,
{
    if n > 0 {
        lemma_same_lengths(a, b, s, (n - 1) as nat);
        assert(b[n - 1].length == a[n - 1].length);
    }
}

/// No smaller valid slice size would do.
pub proof fn law_suggestion_is_smallest(sources: Seq<SourceFile>, t: int)
    requires
        sources.len() <= MAX_INPUT_BLOCKS,
        byte_count(sources, sources.len()) <= u64::MAX,
        0 < t < suggested_slice_size(sources),
        t % 4 == 0,
    ensures
        slices_at(sources, sources.len(), t) > MAX_INPUT_BLOCKS,
{
    lemma_suggestion_exists(sources);
    assert(!suffices(sources, t));
}

/// Slices add up file by file, and each file has as many as it takes to hold it.
pub proof fn law_slices_add_up(sources: Seq<SourceFile>, n: nat, slice_size: int)
    requires
        n < sources.len(),
        slice_size > 0,
    ensures
        slices_at(sources, 0, slice_size) == 0,
        ({
            let more = slices_at(sources, n + 1, slice_size) - slices_at(sources, n, slice_size);
            &&& more * slice_size >= sources[n as int].length
            &&& (more - 1) * slice_size < sources[n as int].length
        }),
{
    let more = ceil_div(sources[n as int].length as int, slice_size);
    assert((n + 1 - 1) as nat == n);
    lemma_ceil_div(sources[n as int].length as int, slice_size);
    assert((more - 1) * slice_size == more * slice_size - slice_size) by (nonlinear_arith);
}

/// The slice size that is suggested is valid, fits into 64 bits and gives at most
/// 32768 slices.
pub proof fn law_suggestion_suffices(sources: Seq<SourceFile>)
    requires
        sources.len() <= 32768,
        byte_count(sources, sources.len()) <= u64::MAX,
    ensures
        0 < suggested_slice_size(sources) <= u64::MAX,
        suggested_slice_size(sources) % 4 == 0,
        slices_at(sources, sources.len(), suggested_slice_size(sources)) <= 32768,
{
    lemma_suggestion_exists(sources);
    lemma_slices_at_top(sources, sources.len());
    assert(suffices(sources, 0xFFFF_FFFF_FFFF_FFFC));
}

} // verus!
