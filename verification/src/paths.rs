//! Names of volume files, names in packets, and long Windows paths, as plain
//! text and bytes.

use crate::bytes::put_bytes;
use crate::text::{decimal, lemma_decimal_injective, put_decimal, put_text, text};
use vstd::prelude::*;

verus! {

/// `{stem}.vol{first}+{count}.{extension}`.
pub open spec fn volume_name(
    stem: Seq<char>,
    first_exponent: u16,
    count: u32,
    extension: Seq<char>,
) -> Seq<char> {
    stem + ".vol"@ + decimal(first_exponent as nat) + "+"@ + decimal(count as nat) + "."@ + extension
}

/// The name of a volume file, from the stem and the extension of the index file.
/// An index file without a readable stem counts as `par2rust`, one without a
/// readable extension as `par2`.
pub fn derive_volume_filename(
    stem: Option<&str>,
    extension: Option<&str>,
    first_exponent: u16,
    count: u32,
) -> (name: String)
    ensures
        name@ == volume_name(
            match stem {
                Some(s) => s@,
                None => "par2rust"@,
            },
            first_exponent,
            count,
            match extension {
                Some(e) => e@,
                None => "par2"@,
            },
        ),
{
    let stem: &str = match stem {
        Some(s) => s,
        None => "par2rust",
    };
    let extension: &str = match extension {
        Some(e) => e,
        None => "par2",
    };
    let mut name: String = text(stem);
    put_text(&mut name, ".vol");
    put_decimal(&mut name, first_exponent as u128);
    put_text(&mut name, "+");
    put_decimal(&mut name, count as u128);
    put_text(&mut name, ".");
    put_text(&mut name, extension);
    name
}

/// The bytes to record as a file's name: its last component, or the whole path
/// where there is none.
pub fn display_name_for(file_name: Option<&[u8]>, whole: &[u8]) -> (name: Vec<u8>)
    ensures
        name@ == match file_name {
            Some(n) => n@,
            None => whole@,
        },
{
    let mut name: Vec<u8> = Vec::new();
    match file_name {
        Some(n) => put_bytes(&mut name, n),
        None => put_bytes(&mut name, whole),
    }
    let ghost expected = match file_name {
        Some(n) => n@,
        None => whole@,
    };
    assert(name@ =~= expected);
    name
}

/// `\\?\`, the prefix that lifts the length limit of Windows paths.
pub const VERBATIM_PREFIX: [u8; 4] = [0x5c, 0x5c, 0x3f, 0x5c];

/// `\\.\`, the prefix of device paths.
pub const DEVICE_PREFIX: [u8; 4] = [0x5c, 0x5c, 0x2e, 0x5c];

/// `s` starts with `prefix`.
pub open spec fn starts_with(s: Seq<u8>, prefix: Seq<u8>) -> bool {
    s.len() >= prefix.len() && s.take(prefix.len() as int) == prefix
}

/// The path with the verbatim prefix: verbatim and device paths stay as they are,
/// relative paths are joined onto the current directory first, absolute paths are
/// prefixed directly. `joined` is the path joined onto the current directory.
pub open spec fn long_path(path: Seq<u8>, relative: bool, joined: Seq<u8>) -> Seq<u8> {
    if starts_with(path, VERBATIM_PREFIX@) || starts_with(path, DEVICE_PREFIX@) {
        path
    } else if relative {
        VERBATIM_PREFIX@ + joined
    } else {
        VERBATIM_PREFIX@ + path
    }
}

/// Whether `s` starts with `prefix`.
fn has_prefix(s: &[u8], prefix: &[u8; 4]) -> (r: bool)
    ensures
        r == starts_with(s@, prefix@),
{
    if s.len() < 4 {
        return false;
    }
    let r: bool = s[0] == prefix[0] && s[1] == prefix[1] && s[2] == prefix[2] && s[3] == prefix[3];
    proof {
        if r {
            assert(s@.take(4) =~= prefix@);
        } else {
            let t = s@.take(4);
            assert(t[0] == s@[0] && t[1] == s@[1] && t[2] == s@[2] && t[3] == s@[3]);
        }
    }
    r
}

/// Prefix a path so that Windows does not limit its length. Whether the path is
/// relative, and what it is joined onto the current directory, depends on the
/// platform. `joined` is looked at only for a relative path without a prefix.
pub fn apply_long_path_prefix(path: &[u8], relative: bool, joined: &[u8]) -> (out: Vec<u8>)
    ensures
        out@ == long_path(path@, relative, joined@),
{
    let mut out: Vec<u8> = Vec::new();
    if has_prefix(path, &VERBATIM_PREFIX) || has_prefix(path, &DEVICE_PREFIX) {
        put_bytes(&mut out, path);
        assert(out@ =~= path@);
    } else {
        put_bytes(&mut out, &VERBATIM_PREFIX);
        put_bytes(&mut out, if relative { joined } else { path });
        assert(out@ =~= VERBATIM_PREFIX@ + (if relative {
            joined@
        } else {
            path@
        }));
    }
    out
}

// ---------------------------------------------------------------------------
// Laws
// ---------------------------------------------------------------------------

/// Prefixing twice is prefixing once, whatever the second time is told of the
/// path.
pub proof fn law_long_path_idempotent(
    path: Seq<u8>,
    relative: bool,
    joined: Seq<u8>,
    relative_again: bool,
    joined_again: Seq<u8>,
)
    ensures
        long_path(long_path(path, relative, joined), relative_again, joined_again) == long_path(
            path,
            relative,
            joined,
        ),
{
    law_long_path_is_prefixed(path, relative, joined);
}

/// A prefixed path starts with the verbatim or the device prefix.
pub proof fn law_long_path_is_prefixed(path: Seq<u8>, relative: bool, joined: Seq<u8>)
    ensures
        starts_with(long_path(path, relative, joined), VERBATIM_PREFIX@) || starts_with(
            long_path(path, relative, joined),
            DEVICE_PREFIX@,
        ),
{
    assert((VERBATIM_PREFIX@ + joined).take(4) =~= VERBATIM_PREFIX@);
    assert((VERBATIM_PREFIX@ + path).take(4) =~= VERBATIM_PREFIX@);
}

/// The current directory does not matter for an absolute path.
pub proof fn law_absolute_path_ignores_directory(path: Seq<u8>, joined: Seq<u8>, other: Seq<u8>)
    ensures
        long_path(path, false, joined) == long_path(path, false, other),
{
}

/// A decimal number has digits only.
proof fn lemma_decimal_digits(n: nat, i: int)
    requires
        0 <= i < decimal(n).len(),
    ensures
        decimal(n)[i] != '+',
    decreases n,
{
    if n >= 10 && i < decimal(n).len() - 1 {
        lemma_decimal_digits(n / 10, i);
    }
}

/// Volumes that start at different exponents have different file names.
pub proof fn law_volume_names_differ(
    stem: Seq<char>,
    extension: Seq<char>,
    first_a: u16,
    count_a: u32,
    first_b: u16,
    count_b: u32,
)
    requires
        volume_name(stem, first_a, count_a, extension) == volume_name(
            stem,
            first_b,
            count_b,
            extension,
        ),
    ensures
        first_a == first_b,
{
    reveal_strlit("+");
    let head = stem + ".vol"@;
    let h = head.len() as int;
    let da = decimal(first_a as nat);
    let db = decimal(first_b as nat);
    let na = volume_name(stem, first_a, count_a, extension);
    let nb = volume_name(stem, first_b, count_b, extension);
    assert(forall|i: int| 0 <= i < da.len() ==> na[h + i] == #[trigger] da[i]);
    assert(forall|i: int| 0 <= i < db.len() ==> nb[h + i] == #[trigger] db[i]);
    assert(na[h + da.len()] == '+');
    assert(nb[h + db.len()] == '+');
    if da.len() < db.len() {
        lemma_decimal_digits(first_b as nat, da.len() as int);
        assert(nb[h + da.len()] == db[da.len() as int]);
    }
    if db.len() < da.len() {
        lemma_decimal_digits(first_a as nat, db.len() as int);
        assert(na[h + db.len()] == da[db.len() as int]);
    }
    assert forall|i: int| 0 <= i < da.len() implies da[i] == db[i] by {
        assert(na[h + i] == da[i]);
        assert(nb[h + i] == db[i]);
    }
    assert(da =~= db);
    lemma_decimal_injective(first_a as nat, first_b as nat);
}

/// Text that was appended after the last separator can be taken off again.
proof fn lemma_last_separator(
    x: Seq<char>,
    c: Seq<char>,
    y: Seq<char>,
    d: Seq<char>,
    separator: char,
)
    requires
        x.push(separator) + c == y.push(separator) + d,
        forall|i: int| 0 <= i < c.len() ==> #[trigger] c[i] != separator,
        forall|i: int| 0 <= i < d.len() ==> #[trigger] d[i] != separator,
    ensures
        x == y,
        c == d,
{
    let a = x.push(separator) + c;
    let b = y.push(separator) + d;
    assert(a.len() == x.len() + 1 + c.len());
    assert(b.len() == y.len() + 1 + d.len());
    assert(a[x.len() as int] == separator);
    assert(b[y.len() as int] == separator);
    if x.len() < y.len() {
        assert(a[y.len() as int] == c[y.len() - x.len() - 1]);
    }
    if y.len() < x.len() {
        assert(b[x.len() as int] == d[x.len() - y.len() - 1]);
    }
    assert forall|i: int| 0 <= i < x.len() implies x[i] == y[i] by {
        assert(a[i] == x[i] && b[i] == y[i]);
    }
    assert forall|i: int| 0 <= i < c.len() implies c[i] == d[i] by {
        assert(a[x.len() + 1 + i] == c[i] && b[y.len() + 1 + i] == d[i]);
    }
    assert(x =~= y);
    assert(c =~= d);
}

/// Only digits are in a decimal number.
proof fn lemma_decimal_only_digits(n: nat, i: int)
    requires
        0 <= i < decimal(n).len(),
    ensures
        '0' <= decimal(n)[i] <= '9',
    decreases n,
{
    if n >= 10 && i < decimal(n).len() - 1 {
        lemma_decimal_only_digits(n / 10, i);
    }
}

/// The name of a volume is the whole stem, `.vol`, the first exponent, `+`, the
/// number of blocks, `.`, and the whole extension.
pub proof fn law_volume_name_parts(
    stem: Seq<char>,
    first_exponent: u16,
    count: u32,
    extension: Seq<char>,
)
    ensures
        ({
            let name = volume_name(stem, first_exponent, count, extension);
            let first = decimal(first_exponent as nat);
            let blocks = decimal(count as nat);
            let s = stem.len() as int;
            let f = first.len() as int;
            let b = blocks.len() as int;
            &&& name.len() == s + f + b + extension.len() + 6
            &&& name.take(s) == stem
            &&& name[s] == '.'
            &&& name[s + 1] == 'v'
            &&& name[s + 2] == 'o'
            &&& name[s + 3] == 'l'
            &&& name.subrange(s + 4, s + 4 + f) == first
            &&& name[s + 4 + f] == '+'
            &&& name.subrange(s + 5 + f, s + 5 + f + b) == blocks
            &&& name[s + 5 + f + b] == '.'
            &&& name.skip(s + 6 + f + b) == extension
        }),
{
    reveal_strlit(".vol");
    reveal_strlit("+");
    reveal_strlit(".");
    let name = volume_name(stem, first_exponent, count, extension);
    let first = decimal(first_exponent as nat);
    let blocks = decimal(count as nat);
    let s = stem.len() as int;
    let f = first.len() as int;
    let b = blocks.len() as int;
    assert(name.take(s) =~= stem);
    assert(name.subrange(s + 4, s + 4 + f) =~= first);
    assert(name.subrange(s + 5 + f, s + 5 + f + b) =~= blocks);
    assert(name.skip(s + 6 + f + b) =~= extension);
}

/// A volume name without its extension, as it is put together.
proof fn lemma_name_without_extension(
    stem: Seq<char>,
    first_exponent: u16,
    count: u32,
    extension: Seq<char>,
)
    ensures
        ({
            let name = volume_name(stem, first_exponent, count, extension);
            let head = (stem + seq!['.', 'v', 'o']).push('l') + decimal(first_exponent as nat);
            name.len() > extension.len() && name.take(name.len() - extension.len() - 1)
                == head.push('+') + decimal(count as nat)
        }),
{
    reveal_strlit(".vol");
    reveal_strlit("+");
    reveal_strlit(".");
    let name = volume_name(stem, first_exponent, count, extension);
    let head = (stem + seq!['.', 'v', 'o']).push('l') + decimal(first_exponent as nat);
    assert(stem + ".vol"@ =~= (stem + seq!['.', 'v', 'o']).push('l'));
    assert(head + "+"@ =~= head.push('+'));
    let front = head.push('+') + decimal(count as nat);
    assert(name == front + "."@ + extension);
    assert(name.take(front.len() as int) =~= front);
}

/// No character but a digit is in a decimal number.
proof fn lemma_decimal_has_no(n: nat, c: char)
    requires
        c < '0' || c > '9',
    ensures
        forall|i: int| 0 <= i < decimal(n).len() ==> #[trigger] decimal(n)[i] != c,
{
    assert forall|i: int| 0 <= i < decimal(n).len() implies #[trigger] decimal(n)[i] != c by {
        lemma_decimal_only_digits(n, i);
    }
}

/// The name of a volume tells its index file and its blocks: volumes with the same
/// extension have the same name only if stem, first exponent and number of blocks
/// are the same.
pub proof fn law_volume_name_is_unique(
    stem_a: Seq<char>,
    first_a: u16,
    count_a: u32,
    stem_b: Seq<char>,
    first_b: u16,
    count_b: u32,
    extension: Seq<char>,
)
    requires
        volume_name(stem_a, first_a, count_a, extension) == volume_name(
            stem_b,
            first_b,
            count_b,
            extension,
        ),
    ensures
        stem_a == stem_b,
        first_a == first_b,
        count_a == count_b,
{
    let fa = decimal(first_a as nat);
    let fb = decimal(first_b as nat);
    let ca = decimal(count_a as nat);
    let cb = decimal(count_b as nat);
    let ha = stem_a + seq!['.', 'v', 'o'];
    let hb = stem_b + seq!['.', 'v', 'o'];
    lemma_name_without_extension(stem_a, first_a, count_a, extension);
    lemma_name_without_extension(stem_b, first_b, count_b, extension);
    lemma_decimal_has_no(count_a as nat, '+');
    lemma_decimal_has_no(count_b as nat, '+');
    lemma_last_separator(ha.push('l') + fa, ca, hb.push('l') + fb, cb, '+');
    lemma_decimal_has_no(first_a as nat, 'l');
    lemma_decimal_has_no(first_b as nat, 'l');
    lemma_last_separator(ha, fa, hb, fb, 'l');
    lemma_decimal_injective(first_a as nat, first_b as nat);
    lemma_decimal_injective(count_a as nat, count_b as nat);
    assert(stem_a =~= ha.take(ha.len() - 3));
    assert(stem_b =~= hb.take(hb.len() - 3));
}

/// Which paths are prefixed, and with what. A path that starts with two
/// backslashes, `?` or `.`, and a backslash stays as it is. Any other path comes
/// after two backslashes, `?` and a backslash, joined onto the current directory
/// if it is relative.
pub proof fn law_long_path_parts(path: Seq<u8>, relative: bool, joined: Seq<u8>)
    ensures
        ({
            let out = long_path(path, relative, joined);
            if path.len() >= 4 && path[0] == 0x5c && path[1] == 0x5c && (path[2] == 0x3f || path[2]
                == 0x2e) && path[3] == 0x5c {
                out == path
            } else {
                &&& out.take(4) == seq![0x5cu8, 0x5c, 0x3f, 0x5c]
                &&& relative ==> out.skip(4) == joined
                &&& !relative ==> out.skip(4) == path
            }
        }),
{
    let out = long_path(path, relative, joined);
    if path.len() >= 4 {
        let t = path.take(4);
        assert(t[0] == path[0] && t[1] == path[1] && t[2] == path[2] && t[3] == path[3]);
        if path[0] == 0x5c && path[1] == 0x5c && path[3] == 0x5c {
            if path[2] == 0x3f {
                assert(t =~= VERBATIM_PREFIX@);
            }
            if path[2] == 0x2e {
                assert(t =~= DEVICE_PREFIX@);
            }
        }
        if t == VERBATIM_PREFIX@ {
            assert(VERBATIM_PREFIX@[0] == 0x5c && VERBATIM_PREFIX@[2] == 0x3f);
            assert(VERBATIM_PREFIX@[1] == 0x5c && VERBATIM_PREFIX@[3] == 0x5c);
        }
        if t == DEVICE_PREFIX@ {
            assert(DEVICE_PREFIX@[0] == 0x5c && DEVICE_PREFIX@[2] == 0x2e);
            assert(DEVICE_PREFIX@[1] == 0x5c && DEVICE_PREFIX@[3] == 0x5c);
        }
    }
    if !starts_with(path, VERBATIM_PREFIX@) && !starts_with(path, DEVICE_PREFIX@) {
        assert(out.take(4) =~= seq![0x5cu8, 0x5c, 0x3f, 0x5c]);
        if relative {
            assert(out.skip(4) =~= joined);
        } else {
            assert(out.skip(4) =~= path);
        }
    }
}

} // verus!
