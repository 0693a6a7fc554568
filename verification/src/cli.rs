//! The decisions behind the command line: sizes, redundancy, volume layout, and
//! lists of input files.

use crate::creator::{block_count, count_blocks, MAX_RECOVERY_BLOCKS};
use crate::error::{Par2Error, Result};
use crate::source::{ceil_div, lemma_ceil_div, SourceFile};
use crate::text::{decimal, digit, digit_value, put_decimal, put_text, text};
use crate::volumes::{law_limited_layout_respects_cap, layout, refusal, VolumeScheme};
use std::str::FromStr;
use vstd::prelude::*;
use vstd::slice::slice_subrange;
use vstd::string::StrSliceExecFns;

verus! {

// ---------------------------------------------------------------------------
// Numbers
// ---------------------------------------------------------------------------

/// A decimal digit.
pub open spec fn is_digit(c: char) -> bool {
    '0' <= c <= '9'
}

/// All characters are decimal digits.
pub open spec fn all_digits(s: Seq<char>) -> bool {
    forall|i: int| 0 <= i < s.len() ==> is_digit(#[trigger] s[i])
}

/// The number that decimal digits stand for.
pub open spec fn digits_value(s: Seq<char>) -> int
    decreases s.len(),
{
    if s.len() == 0 {
        0
    } else {
        10 * digits_value(s.drop_last()) + digit_value(s.last())
    }
}

/// A number without the `+` that may stand before it.
pub open spec fn unsigned_part(s: Seq<char>) -> Seq<char> {
    if s.len() > 0 && s[0] == '+' {
        s.skip(1)
    } else {
        s
    }
}

/// The number that a text stands for, if it is one and not above `max`: digits,
/// at least one, which a `+` may precede.
pub open spec fn parsed_number(s: Seq<char>, max: int) -> Option<int> {
    let d = unsigned_part(s);
    if d.len() == 0 || !all_digits(d) || digits_value(d) > max {
        None
    } else {
        Some(digits_value(d))
    }
}

/// Taking more digits gives no smaller number.
proof fn lemma_digits_monotone(s: Seq<char>, n: int)
    requires
        0 <= n <= s.len(),
        all_digits(s),
    ensures
        0 <= digits_value(s.take(n)) <= digits_value(s),
    decreases s.len() - n,
{
    if n < s.len() {
        lemma_digits_monotone(s, n + 1);
        lemma_digits_nonnegative(s.take(n));
        assert(s.take(n + 1).drop_last() =~= s.take(n));
        assert(s.take(n + 1).last() == s[n]);
        assert(is_digit(s[n]));
    } else {
        assert(s.take(n) =~= s);
        lemma_digits_nonnegative(s);
    }
}

proof fn lemma_digits_nonnegative(s: Seq<char>)
    requires
        all_digits(s),
    ensures
        0 <= digits_value(s),
    decreases s.len(),
{
    if s.len() > 0 {
        assert(all_digits(s.drop_last()));
        lemma_digits_nonnegative(s.drop_last());
        assert(is_digit(s.last()));
    }
}

/// The characters of a string.
fn chars_of(s: &str) -> (chars: Vec<char>)
    ensures
        chars@ == s@,
{
    let mut chars: Vec<char> = Vec::new();
    for c in it: s.chars()
        invariant
            it.seq() == s@,
            chars@ == s@.take(it.index() as int),
    {
        chars.push(c);
        assert(chars@ =~= s@.take(it.index() + 1));
    }
    assert(s@.take(s@.len() as int) =~= s@);
    chars
}

/// Parse an unsigned number of at most `max`.
fn parse_number(s: &[char], max: u64) -> (r: Option<u64>)
    ensures
        match r {
            Some(n) => parsed_number(s@, max as int) == Some(n as int),
            None => parsed_number(s@, max as int) is None,
        },
{
    let from: usize = if s.len() > 0 && s[0] == '+' { 1 } else { 0 };
    let d: &[char] = slice_subrange(s, from, s.len());
    assert(d@ =~= unsigned_part(s@));
    if d.len() == 0 {
        return None;
    }
    let mut value: u128 = 0;
    let mut i: usize = 0;
    while i < d.len()
        invariant
            d@ == unsigned_part(s@),
            d@.len() > 0,
            i <= d@.len(),
            value <= max,
            all_digits(d@.take(i as int)),
            value == digits_value(d@.take(i as int)),
        decreases d@.len() - i,
    {
        let c: char = d[i];
        if c < '0' || c > '9' {
            assert(!is_digit(d@[i as int]));
            return None;
        }
        value = 10 * value + (c as u128 - '0' as u128);
        proof {
            assert(d@.take(i + 1).drop_last() =~= d@.take(i as int));
            assert(d@.take(i + 1).last() == c);
            if value > max && all_digits(d@) {
                lemma_digits_monotone(d@, i + 1);
            }
        }
        if value > max as u128 {
            return None;
        }
        i = i + 1;
    }
    assert(d@.take(d@.len() as int) =~= d@);
    Some(value as u64)
}

// ---------------------------------------------------------------------------
// Slice sizes
// ---------------------------------------------------------------------------

/// The factor that a unit letter stands for, if it is one.
pub open spec fn unit_factor(c: char) -> Option<int> {
    if c == 'k' || c == 'K' {
        Some(1024)
    } else if c == 'm' || c == 'M' {
        Some(0x10_0000)
    } else if c == 'g' || c == 'G' {
        Some(0x4000_0000)
    } else {
        None
    }
}

/// The number and the factor of a slice size: a `b` at the end means bytes.
pub open spec fn split_unit(s: Seq<char>) -> (Seq<char>, int) {
    if s.last() == 'b' || s.last() == 'B' {
        (s.drop_last(), 1)
    } else {
        match unit_factor(s.last()) {
            Some(f) => (s.drop_last(), f),
            None => (s, 1),
        }
    }
}

/// What a slice size argument stands for, or why it stands for nothing.
pub open spec fn slice_size_value(s: Seq<char>) -> std::result::Result<int, Seq<char>> {
    if s.len() == 0 {
        Err("slice size is empty"@)
    } else {
        let (digits, factor) = split_unit(s);
        if digits.len() == 0 {
            Err("slice size '"@ + s + "' is missing a numeric value"@)
        } else {
            match parsed_number(digits, u64::MAX as int) {
                None => Err("slice size '"@ + s + "' has invalid number '"@ + digits + "'"@),
                Some(n) => if n * factor > u64::MAX {
                    Err("slice size '"@ + s + "' overflows u64"@)
                } else {
                    Ok(n * factor)
                },
            }
        }
    }
}

/// The factor that a unit letter stands for, if it is one.
fn factor_of(c: char) -> (f: Option<u64>)
    ensures
        match f {
            Some(n) => unit_factor(c) == Some(n as int),
            None => unit_factor(c) is None,
        },
        f is Some ==> f->0 <= 0x4000_0000,
{
    if c == 'k' || c == 'K' {
        Some(1024)
    } else if c == 'm' || c == 'M' {
        Some(0x10_0000)
    } else if c == 'g' || c == 'G' {
        Some(0x4000_0000)
    } else {
        None
    }
}

/// `{before}{s}{after}`.
fn quoted(before: &str, s: &str, after: &str) -> (out: String)
    ensures
        out@ == before@ + s@ + after@,
{
    let mut out: String = text(before);
    put_text(&mut out, s);
    put_text(&mut out, after);
    out
}

/// Parse a slice size: a number of bytes, or a number with a unit behind it:
/// `b` for bytes, `k`, `m` and `g` for KiB, MiB and GiB, in either case.
pub fn parse_slice_size(s: &str) -> (r: std::result::Result<u64, String>)
    ensures
        match slice_size_value(s@) {
            Ok(n) => r is Ok && r->Ok_0 == n,
            Err(reason) => r is Err && r->Err_0@ == reason,
        },
{
    let chars: Vec<char> = chars_of(s);
    let n: usize = chars.len();
    if n == 0 {
        return Err(text("slice size is empty"));
    }
    let last: char = chars[n - 1];
    let (end, factor): (usize, u64) = if last == 'b' || last == 'B' {
        (n - 1, 1)
    } else {
        match factor_of(last) {
            Some(f) => (n - 1, f),
            None => (n, 1),
        }
    };
    let digits: &[char] = slice_subrange(&chars, 0, end);
    assert(digits@ =~= split_unit(s@).0);
    if digits.len() == 0 {
        return Err(quoted("slice size '", s, "' is missing a numeric value"));
    }
    match parse_number(digits, u64::MAX) {
        None => {
            let mut reason: String = quoted("slice size '", s, "' has invalid number '");
            put_text(&mut reason, s.substring_char(0, end));
            put_text(&mut reason, "'");
            assert(s@.subrange(0, end as int) =~= digits@);
            Err(reason)
        },
        Some(value) => match value.checked_mul(factor) {
            Some(bytes) => Ok(bytes),
            None => Err(quoted("slice size '", s, "' overflows u64")),
        },
    }
}

// ---------------------------------------------------------------------------
// Redundancy
// ---------------------------------------------------------------------------

/// How much recovery data to make.
#[derive(Debug, Clone, Copy, PartialEq, Eq, Structural)]
pub enum Redundancy {
    /// A percentage of the number of input blocks.
    Percent(u32),
    /// An amount of recovery data in bytes.
    TargetBytes(u64),
}

/// What a redundancy argument stands for, or why it stands for nothing.
pub open spec fn redundancy_value(s: Seq<char>) -> std::result::Result<Redundancy, Seq<char>> {
    if s.len() == 0 {
        Err("redundancy value is empty"@)
    } else {
        match unit_factor(s[0]) {
            Some(factor) => {
                let rest = s.skip(1);
                if rest.len() == 0 {
                    Err("redundancy '"@ + s + "' is missing a numeric value"@)
                } else {
                    match parsed_number(rest, u64::MAX as int) {
                        None => Err(
                            "redundancy '"@ + s + "' has invalid number '"@ + rest + "'"@,
                        ),
                        Some(n) => if n * factor > u64::MAX {
                            Err("redundancy '"@ + s + "' overflows u64"@)
                        } else {
                            Ok(Redundancy::TargetBytes((n * factor) as u64))
                        },
                    }
                }
            },
            None => match parsed_number(s, u32::MAX as int) {
                None => Err("redundancy '"@ + s + "' is not a percentage or [gmk]N value"@),
                Some(n) => Ok(Redundancy::Percent(n as u32)),
            },
        }
    }
}

/// Parse a redundancy argument: a percentage, or an amount with its unit before
/// it: `k`, `m` and `g` for KiB, MiB and GiB, in either case.
pub fn parse_redundancy(s: &str) -> (r: std::result::Result<Redundancy, String>)
    ensures
        match redundancy_value(s@) {
            Ok(value) => r is Ok && r->Ok_0 == value,
            Err(reason) => r is Err && r->Err_0@ == reason,
        },
{
    let chars: Vec<char> = chars_of(s);
    let n: usize = chars.len();
    if n == 0 {
        return Err(text("redundancy value is empty"));
    }
    match factor_of(chars[0]) {
        Some(factor) => {
            let rest: &[char] = slice_subrange(&chars, 1, n);
            assert(rest@ =~= s@.skip(1));
            if rest.len() == 0 {
                return Err(quoted("redundancy '", s, "' is missing a numeric value"));
            }
            match parse_number(rest, u64::MAX) {
                None => {
                    let mut reason: String = quoted("redundancy '", s, "' has invalid number '");
                    put_text(&mut reason, s.substring_char(1, n));
                    put_text(&mut reason, "'");
                    assert(s@.subrange(1, n as int) =~= rest@);
                    Err(reason)
                },
                Some(value) => match value.checked_mul(factor) {
                    Some(bytes) => Ok(Redundancy::TargetBytes(bytes)),
                    None => Err(quoted("redundancy '", s, "' overflows u64")),
                },
            }
        },
        None => match parse_number(&chars, u32::MAX as u64) {
            None => Err(quoted("redundancy '", s, "' is not a percentage or [gmk]N value")),
            Some(value) => Ok(Redundancy::Percent(value as u32)),
        },
    }
}

impl FromStr for Redundancy {
    type Err = String;

    /// The same as [`parse_redundancy`].
    fn from_str(s: &str) -> (r: std::result::Result<Self, String>)
        ensures
            match redundancy_value(s@) {
                Ok(value) => r is Ok && r->Ok_0 == value,
                Err(reason) => r is Err && r->Err_0@ == reason,
            },
    {
        parse_redundancy(s)
    }
}

/// The number of recovery blocks that a redundancy asks for, before limits.
pub open spec fn redundancy_blocks(r: Redundancy, input_blocks: nat, slice_size: u64) -> int {
    match r {
        Redundancy::Percent(p) => ceil_div(
            if input_blocks * p > u64::MAX {
                u64::MAX as int
            } else {
                input_blocks * p
            },
            100,
        ),
        Redundancy::TargetBytes(b) => ceil_div(
            b as int,
            if slice_size == 0 {
                1
            } else {
                slice_size as int
            },
        ),
    }
}

/// A redundancy as it stands in a message.
pub open spec fn redundancy_text(r: Redundancy) -> Seq<char> {
    match r {
        Redundancy::Percent(p) => "Percent("@ + decimal(p as nat) + ")"@,
        Redundancy::TargetBytes(b) => "TargetBytes("@ + decimal(b as nat) + ")"@,
    }
}

/// `a / b`, rounded up.
fn div_up(a: u64, b: u64) -> (q: u64)
    requires
        b > 0,
    ensures
        q == ceil_div(a as int, b as int),
{
    proof {
        lemma_ceil_div(a as int, b as int);
    }
    if a % b == 0 {
        a / b
    } else {
        a / b + 1
    }
}

/// The number of recovery blocks that a redundancy asks for. Asking for none is
/// an error; more than `u32::MAX` count as `u32::MAX`.
pub fn resolve_redundancy(r: Redundancy, sources: &[SourceFile], slice_size: u64) -> (res: Result<
    u32,
>)
    requires
        block_count(sources@, sources@.len()) <= u64::MAX,
    ensures
        ({
            let blocks = redundancy_blocks(r, block_count(sources@, sources@.len()), slice_size);
            if blocks == 0 {
                &&& res is Err
                &&& res->Err_0 is InvalidVolumeScheme
                &&& res->Err_0->InvalidVolumeScheme_0@ == "-r "@ + redundancy_text(r)
                    + " resolves to 0 recovery blocks (input is too small or value too low)"@
            } else {
                res is Ok && res->Ok_0 == if blocks > u32::MAX {
                    u32::MAX as int
                } else {
                    blocks
                }
            }
        }),
{
    let total: u64 = count_blocks(sources);
    let blocks: u64 = match r {
        Redundancy::Percent(p) => {
            let numerator: u64 = match total.checked_mul(p as u64) {
                Some(n) => n,
                None => u64::MAX,
            };
            div_up(numerator, 100)
        },
        Redundancy::TargetBytes(b) => div_up(b, if slice_size == 0 { 1 } else { slice_size }),
    };
    if blocks == 0 {
        let mut reason: String = text("-r ");
        match r {
            Redundancy::Percent(p) => {
                put_text(&mut reason, "Percent(");
                put_decimal(&mut reason, p as u128);
            },
            Redundancy::TargetBytes(b) => {
                put_text(&mut reason, "TargetBytes(");
                put_decimal(&mut reason, b as u128);
            },
        }
        put_text(&mut reason, ")");
        put_text(
            &mut reason,
            " resolves to 0 recovery blocks (input is too small or value too low)",
        );
        assert(reason@ =~= "-r "@ + redundancy_text(r)
            + " resolves to 0 recovery blocks (input is too small or value too low)"@);
        return Err(Par2Error::InvalidVolumeScheme(reason));
    }
    if blocks > u32::MAX as u64 {
        Ok(u32::MAX)
    } else {
        Ok(blocks as u32)
    }
}

/// The number of recovery blocks to make: what the redundancy asks for if one is
/// given, else the count; at most 65535.
pub fn choose_recovery_count(
    redundancy: Option<Redundancy>,
    recovery_count: u32,
    sources: &[SourceFile],
    slice_size: u64,
) -> (res: Result<u32>)
    requires
        block_count(sources@, sources@.len()) <= u64::MAX,
    ensures
        ({
            let asked = match redundancy {
                Some(r) => redundancy_blocks(
                    r,
                    block_count(sources@, sources@.len()),
                    slice_size,
                ),
                None => recovery_count as int,
            };
            if redundancy is Some && asked == 0 {
                &&& res is Err
                &&& res->Err_0 is InvalidVolumeScheme
                &&& res->Err_0->InvalidVolumeScheme_0@ == "-r "@ + redundancy_text(redundancy->0)
                    + " resolves to 0 recovery blocks (input is too small or value too low)"@
            } else if asked > MAX_RECOVERY_BLOCKS {
                res == Err::<u32, Par2Error>(
                    Par2Error::TooManyRecoveryBlocks(
                        if asked > u32::MAX {
                            u32::MAX
                        } else {
                            asked as u32
                        },
                    ),
                )
            } else {
                res is Ok && res->Ok_0 == asked
            }
        }),
{
    let count: u32 = match redundancy {
        Some(r) => match resolve_redundancy(r, sources, slice_size) {
            Err(e) => {
                return Err(e);
            },
            Ok(n) => n,
        },
        None => recovery_count,
    };
    if count > MAX_RECOVERY_BLOCKS {
        return Err(Par2Error::TooManyRecoveryBlocks(count));
    }
    Ok(count)
}

// ---------------------------------------------------------------------------
// Volume layout
// ---------------------------------------------------------------------------

/// The number of uniform volumes where none is given: as many as there are
/// recovery blocks, but at least 1 and at most 15.
pub open spec fn uniform_default(recovery_count: u32) -> u32 {
    if recovery_count < 1 {
        1
    } else if recovery_count > 15 {
        15
    } else {
        recovery_count
    }
}

/// The number of uniform volumes where none is given.
pub fn default_uniform_count(recovery_count: u32) -> (n: u32)
    ensures
        n == uniform_default(recovery_count),
{
    if recovery_count < 1 {
        1
    } else if recovery_count > 15 {
        15
    } else {
        recovery_count
    }
}

/// The arguments that choose a volume layout.
#[derive(Debug, Clone, Copy)]
pub struct VolumeFlags {
    /// All recovery blocks in one volume.
    pub single_volume: bool,
    /// Volumes of the same size.
    pub uniform: bool,
    /// No volume larger than the largest source file.
    pub limit_size: bool,
    /// Number of uniform volumes.
    pub volume_count: Option<u32>,
    /// Slice size in bytes.
    pub slice_size: u64,
}

/// The length of the longest of the first `n` files; 0 if there are none.
pub open spec fn largest_of(sources: Seq<SourceFile>, n: nat) -> u64
    decreases n,
{
    if n == 0 {
        0
    } else {
        let before = largest_of(sources, (n - 1) as nat);
        if sources[n - 1].length > before {
            sources[n - 1].length
        } else {
            before
        }
    }
}

/// The recovery blocks that fit into a file of the given length: at least 1.
pub open spec fn volume_cap(largest: u64, slice_size: u64) -> int {
    let whole = largest as int / slice_size as int;
    if whole < 1 {
        1
    } else if whole > u32::MAX {
        u32::MAX as int
    } else {
        whole
    }
}

/// The layout that the flags choose, or why they are refused.
pub open spec fn chosen_scheme(
    flags: VolumeFlags,
    sources: Seq<SourceFile>,
    recovery_count: u32,
) -> std::result::Result<VolumeScheme, Seq<char>> {
    if flags.single_volume && (flags.uniform || flags.limit_size || flags.volume_count is Some) {
        Err("--single-volume cannot be combined with -u, -l, or -n"@)
    } else if flags.single_volume {
        Ok(VolumeScheme::Single)
    } else if flags.volume_count is Some && !flags.uniform {
        Err("-n/--volume-count currently requires -u/--uniform"@)
    } else {
        let inner = if flags.uniform {
            VolumeScheme::Uniform {
                count: match flags.volume_count {
                    Some(n) => n,
                    None => uniform_default(recovery_count),
                },
            }
        } else {
            VolumeScheme::Exponential
        };
        let largest = largest_of(sources, sources.len());
        if !flags.limit_size {
            Ok(inner)
        } else if largest == 0 {
            Err("-l/--limit-size requires at least one non-empty source file"@)
        } else {
            Ok(
                VolumeScheme::Limited {
                    max_blocks_per_volume: volume_cap(largest, flags.slice_size) as u32,
                    inner: Box::new(inner),
                },
            )
        }
    }
}

/// The layout depends on how many slices the largest file has.
pub open spec fn divides_by_slice_size(flags: VolumeFlags, sources: Seq<SourceFile>) -> bool {
    &&& flags.limit_size
    &&& !flags.single_volume
    &&& flags.uniform || flags.volume_count is None
    &&& largest_of(sources, sources.len()) > 0
}

/// The length of the longest file.
fn largest_source(sources: &[SourceFile]) -> (n: u64)
    ensures
        n == largest_of(sources@, sources@.len()),
{
    let mut n: u64 = 0;
    let mut i: usize = 0;
    while i < sources.len()
        invariant
            i <= sources@.len(),
            n == largest_of(sources@, i as nat),
        decreases sources@.len() - i,
    {
        if sources[i].length > n {
            n = sources[i].length;
        }
        i = i + 1;
    }
    n
}

/// Choose a volume layout.
pub fn build_volume_scheme(flags: &VolumeFlags, sources: &[SourceFile], recovery_count: u32) -> (res:
    Result<VolumeScheme>)
    requires
        divides_by_slice_size(*flags, sources@) ==> flags.slice_size > 0,
    ensures
        match chosen_scheme(*flags, sources@, recovery_count) {
            Ok(scheme) => res is Ok && res->Ok_0 == scheme,
            Err(reason) => res is Err && res->Err_0 is InvalidVolumeScheme
                && res->Err_0->InvalidVolumeScheme_0@ == reason,
        },
{
    if flags.single_volume && (flags.uniform || flags.limit_size || flags.volume_count.is_some()) {
        return Err(
            Par2Error::InvalidVolumeScheme(
                text("--single-volume cannot be combined with -u, -l, or -n"),
            ),
        );
    }
    if flags.single_volume {
        return Ok(VolumeScheme::Single);
    }
    if flags.volume_count.is_some() && !flags.uniform {
        return Err(
            Par2Error::InvalidVolumeScheme(
                text("-n/--volume-count currently requires -u/--uniform"),
            ),
        );
    }
    let inner: VolumeScheme = if flags.uniform {
        let count: u32 = match flags.volume_count {
            Some(n) => n,
            None => default_uniform_count(recovery_count),
        };
        VolumeScheme::Uniform { count }
    } else {
        VolumeScheme::Exponential
    };
    if !flags.limit_size {
        return Ok(inner);
    }
    let largest: u64 = largest_source(sources);
    if largest == 0 {
        return Err(
            Par2Error::InvalidVolumeScheme(
                text("-l/--limit-size requires at least one non-empty source file"),
            ),
        );
    }
    let whole: u64 = largest / flags.slice_size;
    let cap: u32 = if whole < 1 {
        1
    } else if whole > u32::MAX as u64 {
        u32::MAX
    } else {
        whole as u32
    };
    Ok(VolumeScheme::Limited { max_blocks_per_volume: cap, inner: Box::new(inner) })
}

// ---------------------------------------------------------------------------
// Lists of input files
// ---------------------------------------------------------------------------

/// The lines of a list before position `n` that have ended there and are not
/// empty, and the unfinished line after them.
pub open spec fn lines_to(data: Seq<u8>, n: nat) -> (Seq<Seq<u8>>, Seq<u8>)
    decreases n,
{
    if n == 0 {
        (Seq::empty(), Seq::empty())
    } else {
        let (lines, open) = lines_to(data, (n - 1) as nat);
        if data[n - 1] != 0x0A {
            (lines, open.push(data[n - 1]))
        } else if open.len() > 0 {
            (lines.push(open), Seq::empty())
        } else {
            (lines, open)
        }
    }
}

/// The non-empty lines of a list.
pub open spec fn lines_of(data: Seq<u8>) -> Seq<Seq<u8>> {
    let (lines, open) = lines_to(data, data.len());
    if open.len() > 0 {
        lines.push(open)
    } else {
        lines
    }
}

/// The entries of a newline-separated list; empty lines count for nothing.
pub fn split_input_list(data: &[u8]) -> (lines: Vec<Vec<u8>>)
    ensures
        lines@.map_values(|l: Vec<u8>| l@) == lines_of(data@),
{
    let mut lines: Vec<Vec<u8>> = Vec::new();
    let mut open: Vec<u8> = Vec::new();
    let mut i: usize = 0;
    assert(lines@.map_values(|l: Vec<u8>| l@) =~= Seq::empty());
    while i < data.len()
        invariant
            i <= data@.len(),
            lines@.map_values(|l: Vec<u8>| l@) == lines_to(data@, i as nat).0,
            open@ == lines_to(data@, i as nat).1,
        decreases data@.len() - i,
    {
        let ghost before = lines@.map_values(|l: Vec<u8>| l@);
        let b: u8 = data[i];
        if b != 0x0A {
            open.push(b);
        } else if open.len() > 0 {
            let ghost line = open@;
            lines.push(open);
            open = Vec::new();
            assert(lines@.map_values(|l: Vec<u8>| l@) =~= before.push(line));
            assert(open@ =~= Seq::empty());
        }
        i = i + 1;
    }
    if open.len() > 0 {
        let ghost before = lines@.map_values(|l: Vec<u8>| l@);
        let ghost line = open@;
        lines.push(open);
        assert(lines@.map_values(|l: Vec<u8>| l@) =~= before.push(line));
    }
    lines
}

// ---------------------------------------------------------------------------
// Laws
// ---------------------------------------------------------------------------

/// A number in decimal has digits only and stands for itself.
proof fn lemma_decimal_value(n: nat)
    ensures
        decimal(n).len() > 0,
        all_digits(decimal(n)),
        digits_value(decimal(n)) == n,
    decreases n,
{
    let s = decimal(n);
    if n < 10 {
        assert(s.drop_last() =~= Seq::empty());
        assert(digits_value(s.drop_last()) == 0);
        assert(s.last() == digit(n as int));
    } else {
        lemma_decimal_value(n / 10);
        assert(s.drop_last() =~= decimal(n / 10));
        assert(s.last() == digit((n % 10) as int));
        assert forall|i: int| 0 <= i < s.len() implies is_digit(#[trigger] s[i]) by {
            if i < s.len() - 1 {
                assert(s[i] == decimal(n / 10)[i]);
            }
        }
    }
}

/// A number of bytes is accepted as a slice size as it stands, and with `b`
/// behind it.
pub proof fn law_plain_slice_size(n: u64)
    ensures
        slice_size_value(decimal(n as nat)) == Ok::<int, Seq<char>>(n as int),
        slice_size_value(decimal(n as nat).push('b')) == Ok::<int, Seq<char>>(n as int),
{
    let s = decimal(n as nat);
    lemma_decimal_value(n as nat);
    assert(is_digit(s.last()));
    assert(is_digit(s[0]));
    assert(s.push('b').drop_last() =~= s);
}

/// A percentage gives the smallest number of recovery blocks that is at least
/// that percentage of the input blocks.
pub proof fn law_percentage_rounds_up(p: u32, input_blocks: nat, slice_size: u64)
    requires
        input_blocks * p <= u64::MAX,
    ensures
        ({
            let blocks = redundancy_blocks(Redundancy::Percent(p), input_blocks, slice_size);
            100 * blocks >= input_blocks * p && 100 * (blocks - 1) < input_blocks * p
        }),
{
    lemma_ceil_div((input_blocks * p) as int, 100);
}

/// An amount of bytes gives the smallest number of recovery blocks that hold at
/// least that much.
pub proof fn law_amount_rounds_up(b: u64, input_blocks: nat, slice_size: u64)
    requires
        slice_size > 0,
    ensures
        ({
            let blocks = redundancy_blocks(Redundancy::TargetBytes(b), input_blocks, slice_size);
            blocks * slice_size >= b && (blocks - 1) * slice_size < b
        }),
{
    let blocks = redundancy_blocks(Redundancy::TargetBytes(b), input_blocks, slice_size);
    lemma_ceil_div(b as int, slice_size as int);
    assert((blocks - 1) * slice_size == blocks * slice_size - slice_size) by (nonlinear_arith);
}

/// The recovery data of a volume under the cap is not larger than the largest
/// file, unless that is shorter than one slice.
pub proof fn law_cap_fits_largest(largest: u64, slice_size: u64)
    requires
        slice_size > 0,
        slice_size <= largest,
    ensures
        volume_cap(largest, slice_size) * slice_size <= largest,
{
    let whole = largest as int / slice_size as int;
    vstd::arithmetic::div_mod::lemma_fundamental_div_mod(largest as int, slice_size as int);
    let rest = largest as int % slice_size as int;
    let cap = volume_cap(largest, slice_size);
    assert(whole >= 1) by (nonlinear_arith)
        requires
            largest == slice_size * whole + rest,
            rest < slice_size,
            slice_size <= largest,
    ;
    assert(cap * slice_size <= largest) by (nonlinear_arith)
        requires
            cap <= whole,
            largest == slice_size * whole + rest,
            rest >= 0,
            slice_size > 0,
    ;
}

/// With `-l`, no volume has more recovery data than the largest file is long,
/// unless that file is shorter than one slice.
pub proof fn law_limited_volumes_fit(
    flags: VolumeFlags,
    sources: Seq<SourceFile>,
    recovery_count: u32,
    v: int,
)
    requires
        flags.limit_size,
        chosen_scheme(flags, sources, recovery_count) is Ok,
        0 < flags.slice_size <= largest_of(sources, sources.len()),
        recovery_count > 0,
        refusal(chosen_scheme(flags, sources, recovery_count)->Ok_0, recovery_count) is None,
        0 <= v < layout(
            chosen_scheme(flags, sources, recovery_count)->Ok_0,
            recovery_count,
        ).len(),
    ensures
        layout(chosen_scheme(flags, sources, recovery_count)->Ok_0, recovery_count)[v]
            * flags.slice_size <= largest_of(sources, sources.len()),
{
    let scheme = chosen_scheme(flags, sources, recovery_count)->Ok_0;
    let largest = largest_of(sources, sources.len());
    let cap = volume_cap(largest, flags.slice_size);
    let size = layout(scheme, recovery_count)[v];
    law_cap_fits_largest(largest, flags.slice_size);
    assert(scheme is Limited);
    law_limited_layout_respects_cap(
        scheme->max_blocks_per_volume,
        scheme->inner,
        recovery_count,
    );
    assert(size <= cap);
    assert(size * flags.slice_size <= cap * flags.slice_size) by (nonlinear_arith)
        requires
            size <= cap,
    ;
}

/// The default layout of `-u` is never refused: there are at least as many
/// recovery blocks as volumes.
pub proof fn law_default_uniform_is_accepted(recovery_count: u32)
    requires
        recovery_count > 0,
    ensures
        refusal(
            VolumeScheme::Uniform { count: uniform_default(recovery_count) },
            recovery_count,
        ) is None,
{
}

/// One digit stands for its distance from `0`.
pub proof fn law_parsed_digit(c: char, max: int)
    requires
        '0' <= c <= '9',
        max >= 9,
    ensures
        parsed_number(seq![c], max) == Some(c as int - '0' as int),
{
    let s = seq![c];
    assert(unsigned_part(s) =~= s);
    assert(s.drop_last().len() == 0);
    assert(digits_value(s.drop_last()) == 0);
    assert(s.last() == c);
}

/// A digit more makes a number ten times as large, plus the digit. What is above
/// the limit stays above it.
pub proof fn law_parsed_digit_more(s: Seq<char>, c: char, max: int)
    requires
        s.len() > 0,
        forall|i: int| 0 <= i < s.len() ==> '0' <= #[trigger] s[i] <= '9',
        '0' <= c <= '9',
        max >= 0,
    ensures
        parsed_number(s.push(c), max) == match parsed_number(s, max) {
            Some(n) => if 10 * n + (c as int - '0' as int) <= max {
                Some(10 * n + (c as int - '0' as int))
            } else {
                None
            },
            None => None,
        },
{
    let t = s.push(c);
    assert(s[0] != '+' && t[0] == s[0]);
    assert(unsigned_part(s) =~= s);
    assert(unsigned_part(t) =~= t);
    assert(t.drop_last() =~= s);
    assert(all_digits(s));
    assert forall|i: int| 0 <= i < t.len() implies is_digit(#[trigger] t[i]) by {
        if i < s.len() {
            assert(t[i] == s[i]);
        }
    }
    lemma_digits_nonnegative(s);
}

/// A `+` before a number changes nothing; two are one too many.
pub proof fn law_parsed_plus(s: Seq<char>, max: int)
    ensures
        parsed_number(seq!['+'] + s, max) == if s.len() > 0 && s[0] == '+' {
            None
        } else {
            parsed_number(s, max)
        },
{
    let t = seq!['+'] + s;
    assert(unsigned_part(t) =~= s);
    if s.len() > 0 && s[0] == '+' {
        assert(!is_digit(s[0]));
    }
}

/// Nothing, and nothing but a `+`, is no number, and neither is anything with a
/// character that is no digit, but for a `+` at the start.
pub proof fn law_parsed_only_digits(s: Seq<char>, max: int, i: int)
    requires
        s.len() == 0 || (s.len() == 1 && s[0] == '+') || (0 <= i < s.len() && !('0' <= s[i]
            <= '9') && !(i == 0 && s[0] == '+')),
    ensures
        parsed_number(s, max) is None,
{
    let d = unsigned_part(s);
    if s.len() > 1 || (s.len() == 1 && s[0] != '+') {
        if s[0] == '+' {
            assert(d[i - 1] == s[i]);
            assert(!is_digit(d[i - 1]));
        } else {
            assert(!is_digit(d[i]));
        }
    }
}

proof fn lemma_parsed_decimal(n: nat, max: int)
    ensures
        parsed_number(decimal(n), max) == if n <= max {
            Some(n as int)
        } else {
            None
        },
        '0' <= decimal(n)[0] <= '9',
        '0' <= decimal(n).last() <= '9',
{
    let s = decimal(n);
    lemma_decimal_value(n);
    assert(is_digit(s[0]));
    assert(is_digit(s.last()));
    assert(unsigned_part(s) =~= s);
}

/// A number in decimal is the percentage it stands for, if that fits into 32 bits.
pub proof fn law_redundancy_of_number(n: nat)
    ensures
        redundancy_value(decimal(n)) == if n <= u32::MAX {
            Ok::<Redundancy, Seq<char>>(Redundancy::Percent(n as u32))
        } else {
            Err(
                "redundancy '"@ + decimal(n) + "' is not a percentage or [gmk]N value"@,
            )
        },
{
    lemma_decimal_value(n);
    lemma_parsed_decimal(n, u32::MAX as int);
}

/// A number in decimal after `k`, `m` or `g`, in either case, is that many KiB,
/// MiB or GiB, if that fits into 64 bits.
pub proof fn law_redundancy_of_amount(letter: char, factor: int, n: nat)
    requires
        ((letter == 'k' || letter == 'K') && factor == 1024) || ((letter == 'm' || letter == 'M')
            && factor == 1024 * 1024) || ((letter == 'g' || letter == 'G') && factor == 1024 * 1024
            * 1024),
        n <= u64::MAX,
    ensures
        redundancy_value(seq![letter] + decimal(n)) == if n * factor <= u64::MAX {
            Ok::<Redundancy, Seq<char>>(Redundancy::TargetBytes((n * factor) as u64))
        } else {
            Err("redundancy '"@ + (seq![letter] + decimal(n)) + "' overflows u64"@)
        },
{
    let s = seq![letter] + decimal(n);
    lemma_decimal_value(n);
    lemma_parsed_decimal(n, u64::MAX as int);
    assert(s.skip(1) =~= decimal(n));
}

/// What a redundancy argument can be: a number that fits into 32 bits, as a
/// percentage; or a unit letter and a number of such units, as an amount. Each of
/// the others is refused with its reason.
pub proof fn law_redundancy_forms(s: Seq<char>)
    ensures
        redundancy_value(Seq::<char>::empty()) == Err::<Redundancy, Seq<char>>(
            "redundancy value is empty"@,
        ),
        s.len() > 0 ==> {
            let c = s[0];
            let letter = c == 'k' || c == 'K' || c == 'm' || c == 'M' || c == 'g' || c == 'G';
            let number = parsed_number(s.skip(1), u64::MAX as int);
            &&& !letter && parsed_number(s, u32::MAX as int) is Some ==> redundancy_value(s)
                == Ok::<Redundancy, Seq<char>>(
                Redundancy::Percent(parsed_number(s, u32::MAX as int)->0 as u32),
            )
            &&& !letter && parsed_number(s, u32::MAX as int) is None ==> redundancy_value(s)
                == Err::<Redundancy, Seq<char>>(
                "redundancy '"@ + s + "' is not a percentage or [gmk]N value"@,
            )
            &&& letter && s.len() == 1 ==> redundancy_value(s) == Err::<Redundancy, Seq<char>>(
                "redundancy '"@ + s + "' is missing a numeric value"@,
            )
            &&& letter && s.len() > 1 && number is None ==> redundancy_value(s) == Err::<
                Redundancy,
                Seq<char>,
            >("redundancy '"@ + s + "' has invalid number '"@ + s.skip(1) + "'"@)
            &&& letter && s.len() > 1 && number is Some ==> {
                let bytes = number->0 * (if c == 'k' || c == 'K' {
                    1024
                } else if c == 'm' || c == 'M' {
                    1024 * 1024
                } else {
                    1024 * 1024 * 1024
                });
                redundancy_value(s) == if bytes <= u64::MAX {
                    Ok::<Redundancy, Seq<char>>(Redundancy::TargetBytes(bytes as u64))
                } else {
                    Err("redundancy '"@ + s + "' overflows u64"@)
                }
            }
        },
{
}

/// A number in decimal is accepted as a slice size as it stands, and before `b`,
/// `k`, `m` or `g`, in either case, as that many bytes, KiB, MiB or GiB, if that
/// fits into 64 bits.
pub proof fn law_slice_size_of_number(n: nat, letter: char, factor: int)
    requires
        ((letter == 'b' || letter == 'B') && factor == 1) || ((letter == 'k' || letter == 'K')
            && factor == 1024) || ((letter == 'm' || letter == 'M') && factor == 1024 * 1024) || ((
        letter == 'g' || letter == 'G') && factor == 1024 * 1024 * 1024),
        n <= u64::MAX,
    ensures
        slice_size_value(decimal(n)) == Ok::<int, Seq<char>>(n as int),
        slice_size_value(decimal(n).push(letter)) == if n * factor <= u64::MAX {
            Ok::<int, Seq<char>>(n * factor)
        } else {
            Err("slice size '"@ + decimal(n).push(letter) + "' overflows u64"@)
        },
{
    let s = decimal(n).push(letter);
    lemma_decimal_value(n);
    lemma_parsed_decimal(n, u64::MAX as int);
    assert(s.drop_last() =~= decimal(n));
    assert(s.last() == letter);
}

/// What a slice size argument can be: a number that fits into 64 bits, or one with
/// a unit letter behind it. Each of the others is refused with its reason.
pub proof fn law_slice_size_forms(s: Seq<char>)
    ensures
        slice_size_value(Seq::<char>::empty()) == Err::<int, Seq<char>>("slice size is empty"@),
        s.len() > 0 ==> {
            let c = s.last();
            let letter = c == 'b' || c == 'B' || c == 'k' || c == 'K' || c == 'm' || c == 'M' || c
                == 'g' || c == 'G';
            let digits = if letter {
                s.drop_last()
            } else {
                s
            };
            let number = parsed_number(digits, u64::MAX as int);
            &&& letter && s.len() == 1 ==> slice_size_value(s) == Err::<int, Seq<char>>(
                "slice size '"@ + s + "' is missing a numeric value"@,
            )
            &&& digits.len() > 0 && number is None ==> slice_size_value(s) == Err::<
                int,
                Seq<char>,
            >("slice size '"@ + s + "' has invalid number '"@ + digits + "'"@)
            &&& digits.len() > 0 && number is Some ==> {
                let bytes = number->0 * (if c == 'k' || c == 'K' {
                    1024
                } else if c == 'm' || c == 'M' {
                    1024 * 1024
                } else if c == 'g' || c == 'G' {
                    1024 * 1024 * 1024
                } else {
                    1nat
                });
                slice_size_value(s) == if bytes <= u64::MAX {
                    Ok::<int, Seq<char>>(bytes)
                } else {
                    Err("slice size '"@ + s + "' overflows u64"@)
                }
            }
        },
{
}

/// A percentage of more input blocks than can be multiplied counts as one of the
/// largest number there is; an amount without a slice size counts in bytes.
pub proof fn law_redundancy_at_the_limits(p: u32, b: u64, input_blocks: nat, slice_size: u64)
    ensures
        input_blocks * p > u64::MAX ==> redundancy_blocks(
            Redundancy::Percent(p),
            input_blocks,
            slice_size,
        ) == 184467440737095517,
        redundancy_blocks(Redundancy::TargetBytes(b), input_blocks, 0) == b,
{
    lemma_ceil_div(u64::MAX as int, 100);
    lemma_ceil_div(b as int, 1);
}

/// How a redundancy is written in a message.
pub proof fn law_redundancy_text(p: u32, b: u64)
    ensures
        redundancy_text(Redundancy::Percent(p)) == "Percent("@ + decimal(p as nat) + ")"@,
        redundancy_text(Redundancy::TargetBytes(b)) == "TargetBytes("@ + decimal(b as nat) + ")"@,
{
}

/// The longest file: no file is longer, and one is as long.
pub proof fn law_largest(sources: Seq<SourceFile>, n: nat)
    requires
        n <= sources.len(),
    ensures
        forall|i: int| 0 <= i < n ==> (#[trigger] sources[i]).length <= largest_of(sources, n),
        n == 0 ==> largest_of(sources, n) == 0,
        n > 0 ==> exists|i: int|
            0 <= i < n && (#[trigger] sources[i]).length == largest_of(sources, n),
    decreases n,
{
    if n > 0 {
        let m = (n - 1) as nat;
        law_largest(sources, m);
        assert(sources[n - 1].length == largest_of(sources, n) || largest_of(sources, m)
            == largest_of(sources, n));
        if sources[n - 1].length != largest_of(sources, n) {
            if m > 0 {
                let i = choose|i: int|
                    0 <= i < m && (#[trigger] sources[i]).length == largest_of(sources, m);
                assert(sources[i].length == largest_of(sources, n));
            }
        }
    }
}

/// As many recovery blocks as fit into the longest file: one more would not, and
/// there is at least one.
pub proof fn law_cap_is_largest(largest: u64, slice_size: u64)
    requires
        slice_size > 0,
    ensures
        1 <= volume_cap(largest, slice_size) <= u32::MAX,
        volume_cap(largest, slice_size) < u32::MAX ==> (volume_cap(largest, slice_size) + 1)
            * slice_size > largest,
        volume_cap(largest, slice_size) > 1 ==> volume_cap(largest, slice_size) * slice_size
            <= largest,
{
    let size = slice_size as int;
    let whole = largest as int / size;
    let rest = largest as int % size;
    let cap = volume_cap(largest, slice_size);
    vstd::arithmetic::div_mod::lemma_fundamental_div_mod(largest as int, size);
    if cap < u32::MAX {
        assert((cap + 1) * slice_size > largest) by (nonlinear_arith)
            requires
                cap >= whole,
                largest == slice_size * whole + rest,
                rest < slice_size,
        ;
    }
    if cap > 1 {
        assert(cap * slice_size <= largest) by (nonlinear_arith)
            requires
                cap <= whole,
                largest == slice_size * whole + rest,
                rest >= 0,
        ;
    }
}

/// The default number of uniform volumes: one for each recovery block, but at
/// least 1 and at most 15.
pub proof fn law_default_uniform_count(recovery_count: u32)
    ensures
        1 <= uniform_default(recovery_count) <= 15,
        1 <= recovery_count <= 15 ==> uniform_default(recovery_count) == recovery_count,
        recovery_count == 0 ==> uniform_default(recovery_count) == 1,
        recovery_count > 15 ==> uniform_default(recovery_count) == 15,
{
}

/// What the flags choose. `--single-volume` stands alone and gives one volume. A
/// number of volumes needs `-u`, which gives that many or the default. Without
/// flags the volumes grow. `-l` caps either kind at the recovery blocks that fit
/// into the longest file, which must not be empty.
pub proof fn law_flags_choose(flags: VolumeFlags, sources: Seq<SourceFile>, recovery_count: u32)
    ensures
        ({
            let chosen = chosen_scheme(flags, sources, recovery_count);
            let plain = chosen_scheme(
                VolumeFlags { limit_size: false, ..flags },
                sources,
                recovery_count,
            );
            let longest = largest_of(sources, sources.len());
            &&& flags.single_volume && (flags.uniform || flags.limit_size || flags.volume_count
                is Some) ==> chosen == Err::<VolumeScheme, Seq<char>>(
                "--single-volume cannot be combined with -u, -l, or -n"@,
            )
            &&& flags.single_volume && chosen is Ok ==> chosen->Ok_0 == VolumeScheme::Single
            &&& flags.single_volume && !flags.uniform && !flags.limit_size && flags.volume_count
                is None ==> chosen is Ok
            &&& !flags.single_volume && !flags.uniform && flags.volume_count is Some ==> chosen
                == Err::<VolumeScheme, Seq<char>>(
                "-n/--volume-count currently requires -u/--uniform"@,
            )
            &&& !flags.single_volume && !flags.uniform && flags.volume_count is None ==> plain
                == Ok::<VolumeScheme, Seq<char>>(VolumeScheme::Exponential)
            &&& !flags.single_volume && flags.uniform ==> plain is Ok && plain->Ok_0 is Uniform
                && plain->Ok_0->count == (if flags.volume_count is Some {
                flags.volume_count->0
            } else {
                uniform_default(recovery_count)
            })
            &&& flags.limit_size && !flags.single_volume && plain is Ok && longest == 0 ==> chosen
                == Err::<VolumeScheme, Seq<char>>(
                "-l/--limit-size requires at least one non-empty source file"@,
            )
            &&& flags.limit_size && !flags.single_volume && plain is Ok && longest > 0
                && flags.slice_size > 0 ==> {
                &&& chosen is Ok
                &&& chosen->Ok_0 is Limited
                &&& chosen->Ok_0->max_blocks_per_volume == volume_cap(longest, flags.slice_size)
                &&& *chosen->Ok_0->inner == plain->Ok_0
            }
        }),
{
    if flags.slice_size > 0 {
        law_cap_is_largest(largest_of(sources, sources.len()), flags.slice_size);
    }
}

proof fn lemma_lines_after_newline(a: Seq<u8>, b: Seq<u8>, n: nat)
    requires
        n <= b.len(),
    ensures
        ({
            let all = a + seq![0x0Au8] + b;
            let (lines, open) = lines_to(all, a.len() + 1 + n);
            &&& lines == lines_of(a) + lines_to(b, n).0
            &&& open == lines_to(b, n).1
        }),
    decreases n,
{
    let all = a + seq![0x0Au8] + b;
    if n == 0 {
        lemma_lines_prefix(a, all, a.len());
        assert(all[a.len() as int] == 0x0A);
        assert((a.len() + 1 - 1) as nat == a.len());
        assert(lines_of(a) + lines_to(b, 0).0 =~= lines_of(a));
        assert(lines_to(all, a.len() + 1).0 =~= lines_of(a));
        assert(lines_to(all, a.len() + 1).1 =~= Seq::empty());
    } else {
        let m = (n - 1) as nat;
        lemma_lines_after_newline(a, b, m);
        assert((a.len() + 1 + n - 1) as nat == a.len() + 1 + m);
        assert(all[a.len() + 1 + n - 1] == b[n - 1]);
        let (lines, open) = lines_to(b, m);
        assert((lines_of(a) + lines).push(open) =~= lines_of(a) + lines.push(open));
    }
}

proof fn lemma_lines_prefix(a: Seq<u8>, all: Seq<u8>, n: nat)
    requires
        n <= a.len() <= all.len(),
        forall|i: int| 0 <= i < a.len() ==> a[i] == all[i],
    ensures
        lines_to(a, n) == lines_to(all, n),
    decreases n,
{
    if n > 0 {
        lemma_lines_prefix(a, all, (n - 1) as nat);
    }
}

/// A newline parts a list: the lines before it and the lines after it are the
/// lines of the whole.
pub proof fn law_lines_part_at_newline(a: Seq<u8>, b: Seq<u8>)
    ensures
        lines_of(a + seq![0x0Au8] + b) == lines_of(a) + lines_of(b),
{
    let all = a + seq![0x0Au8] + b;
    lemma_lines_after_newline(a, b, b.len());
    assert(all.len() == a.len() + 1 + b.len());
    let (lines, open) = lines_to(b, b.len());
    assert((lines_of(a) + lines).push(open) =~= lines_of(a) + lines.push(open));
}

/// Bytes without a newline are one line, if there are any.
pub proof fn law_line_without_newline(data: Seq<u8>)
    requires
        forall|i: int| 0 <= i < data.len() ==> #[trigger] data[i] != 0x0A,
    ensures
        lines_of(data) == if data.len() == 0 {
            Seq::<Seq<u8>>::empty()
        } else {
            seq![data]
        },
{
    lemma_open_line(data, data.len());
    assert(data.take(data.len() as int) =~= data);
    assert(Seq::<Seq<u8>>::empty().push(data) =~= seq![data]);
}

proof fn lemma_open_line(data: Seq<u8>, n: nat)
    requires
        n <= data.len(),
        forall|i: int| 0 <= i < data.len() ==> #[trigger] data[i] != 0x0A,
    ensures
        lines_to(data, n) == (Seq::<Seq<u8>>::empty(), data.take(n as int)),
    decreases n,
{
    if n > 0 {
        lemma_open_line(data, (n - 1) as nat);
        assert(data[n - 1] != 0x0A);
        assert(data.take(n - 1).push(data[n - 1]) =~= data.take(n as int));
    } else {
        assert(data.take(0) =~= Seq::empty());
    }
}

} // verus!
