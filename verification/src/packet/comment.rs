//! Comment packets.
//!
//! Every comment gives an ASCII packet, in which characters outside ASCII become
//! `?`. A comment with such characters gives a Unicode packet too: the MD5 of
//! the ASCII packet, which links the two, and the comment in UTF-16LE.

use crate::bytes::{law_le16, le16, put_bytes, put_le16};
use crate::format::{
    build_packet, law_packet_fields, law_padding, packet, padded4, put_padding4, Md5Hash,
    TYPE_COMMENT_ASCII, TYPE_COMMENT_UNICODE,
};
use crate::md5_impl::{lemma_md5_digest, md5_digest};
use vstd::prelude::*;
use vstd::slice::slice_subrange;
use vstd::utf8::is_ascii_chars;

verus! {

/// A character as one ASCII byte, `?` where it has none.
pub open spec fn ascii_byte(c: char) -> u8 {
    if c <= '\u{7f}' {
        c as u8
    } else {
        0x3Fu8
    }
}

/// A text as ASCII bytes, with `?` for characters outside ASCII.
pub open spec fn ascii_fallback(text: Seq<char>) -> Seq<u8> {
    text.map_values(|c: char| ascii_byte(c))
}

/// The UTF-16 code units of a character, as little-endian bytes.
pub open spec fn utf16le_char(c: char) -> Seq<u8> {
    let v = c as u32;
    if v < 0x10000 {
        le16(v as u16)
    } else {
        le16((0xD800 + (v - 0x10000) / 0x400) as u16) + le16((0xDC00 + (v - 0x10000) % 0x400) as u16)
    }
}

/// A text in UTF-16LE.
pub open spec fn utf16le(text: Seq<char>) -> Seq<u8>
    decreases text.len(),
{
    if text.len() == 0 {
        Seq::empty()
    } else {
        utf16le(text.drop_last()) + utf16le_char(text.last())
    }
}

/// The ASCII packet of a comment.
pub open spec fn ascii_comment_packet(set_id: Seq<u8>, text: Seq<char>) -> Seq<u8> {
    packet(set_id, TYPE_COMMENT_ASCII@, padded4(ascii_fallback(text)))
}

/// The Unicode packet of a comment, with the digest it links to.
pub open spec fn unicode_comment_packet(set_id: Seq<u8>, text: Seq<char>, link: Seq<u8>) -> Seq<
    u8,
> {
    packet(set_id, TYPE_COMMENT_UNICODE@, padded4(link + utf16le(text)))
}

/// The MD5 field of the ASCII packet of a comment.
pub open spec fn ascii_comment_hash(set_id: Seq<u8>, text: Seq<char>) -> Seq<u8> {
    md5_digest(set_id + TYPE_COMMENT_ASCII@ + padded4(ascii_fallback(text)))@
}

/// The packets of one comment.
pub open spec fn comment_packet_pair(set_id: Seq<u8>, text: Seq<char>) -> Seq<u8> {
    if is_ascii_chars(text) {
        ascii_comment_packet(set_id, text)
    } else {
        ascii_comment_packet(set_id, text) + unicode_comment_packet(
            set_id,
            text,
            ascii_comment_hash(set_id, text),
        )
    }
}

/// The packets of the first `n` comments.
pub open spec fn comment_packets(set_id: Seq<u8>, comments: Seq<String>, n: nat) -> Seq<u8>
    decreases n,
{
    if n == 0 {
        Seq::empty()
    } else {
        comment_packets(set_id, comments, (n - 1) as nat) + comment_packet_pair(
            set_id,
            comments[n - 1]@,
        )
    }
}

/// Build the packets of a list of comments, in order.
pub fn build_comment_packets(set_id_hash: &Md5Hash, comments: &[String]) -> (out: Vec<u8>)
    ensures
        out@ == comment_packets(set_id_hash@, comments@, comments@.len()),
{
    let mut out: Vec<u8> = Vec::new();
    let mut i: usize = 0;
    while i < comments.len()
        invariant
            i <= comments@.len(),
            out@ == comment_packets(set_id_hash@, comments@, i as nat),
        decreases comments@.len() - i,
    {
        let pair: Vec<u8> = build_comment_packet_pair(set_id_hash, comments[i].as_str());
        put_bytes(&mut out, &pair);
        i = i + 1;
    }
    out
}

/// Build the packets of one comment.
pub fn build_comment_packet_pair(set_id_hash: &Md5Hash, comment: &str) -> (out: Vec<u8>)
    ensures
        out@ == comment_packet_pair(set_id_hash@, comment@),
{
    let has_non_ascii: bool = !comment.is_ascii();
    let ascii_pkt: Vec<u8> = build_ascii_comment_packet(set_id_hash, comment);
    let mut out: Vec<u8> = Vec::new();
    put_bytes(&mut out, &ascii_pkt);
    assert(out@ =~= ascii_pkt@);
    if has_non_ascii {
        let link: &[u8] = slice_subrange(&ascii_pkt, 16, 32);
        assert(link@ =~= ascii_comment_hash(set_id_hash@, comment@));
        let unicode_pkt: Vec<u8> = build_unicode_comment_packet(set_id_hash, comment, link);
        put_bytes(&mut out, &unicode_pkt);
    }
    out
}

/// A character as one ASCII byte, `?` where it has none.
fn to_ascii(c: char) -> (b: u8)
    ensures
        b == ascii_byte(c),
{
    let v: u32 = c as u32;
    if v < 0x80 {
        v as u8
    } else {
        0x3F
    }
}

/// Build the ASCII packet of a comment.
pub fn build_ascii_comment_packet(set_id_hash: &Md5Hash, comment: &str) -> (out: Vec<u8>)
    ensures
        out@ == ascii_comment_packet(set_id_hash@, comment@),
{
    let mut body: Vec<u8> = Vec::new();
    for ch in it: comment.chars()
        invariant
            it.seq() == comment@,
            body@ == ascii_fallback(comment@.take(it.index() as int)),
    {
        body.push(to_ascii(ch));
        assert(body@ =~= ascii_fallback(comment@.take(it.index() + 1)));
    }
    assert(comment@.take(comment@.len() as int) =~= comment@);
    put_padding4(&mut body);
    build_packet(set_id_hash, &TYPE_COMMENT_ASCII, &body)
}

/// Append a character in UTF-16LE.
fn put_utf16le(out: &mut Vec<u8>, c: char)
    ensures
        final(out)@ == old(out)@ + utf16le_char(c),
{
    let v: u32 = c as u32;
    if v < 0x10000 {
        put_le16(out, v as u16);
    } else {
        let w: u32 = v - 0x10000;
        put_le16(out, (0xD800 + w / 0x400) as u16);
        put_le16(out, (0xDC00 + w % 0x400) as u16);
        assert(out@ =~= old(out)@ + utf16le_char(c));
    }
}

/// Build the Unicode packet of a comment.
pub fn build_unicode_comment_packet(set_id_hash: &Md5Hash, comment: &str, ascii_link: &[u8]) -> (out:
    Vec<u8>)
    ensures
        out@ == unicode_comment_packet(set_id_hash@, comment@, ascii_link@),
{
    let mut body: Vec<u8> = Vec::new();
    put_bytes(&mut body, ascii_link);
    assert(body@ =~= ascii_link@ + utf16le(comment@.take(0)));
    for ch in it: comment.chars()
        invariant
            it.seq() == comment@,
            body@ == ascii_link@ + utf16le(comment@.take(it.index() as int)),
    {
        put_utf16le(&mut body, ch);
        proof {
            let next = comment@.take(it.index() + 1);
            assert(next.drop_last() =~= comment@.take(it.index() as int));
            assert(next.last() == ch);
            assert(body@ =~= ascii_link@ + utf16le(next));
        }
    }
    assert(comment@.take(comment@.len() as int) =~= comment@);
    put_padding4(&mut body);
    build_packet(set_id_hash, &TYPE_COMMENT_UNICODE, &body)
}

// ---------------------------------------------------------------------------
// Laws
// ---------------------------------------------------------------------------

/// What the ASCII packet of a comment holds: the type `PAR 2.0`, NUL, `CommASCI`;
/// a byte for each character, `?` for one outside ASCII; and zeros, fewer than 4.
pub proof fn law_ascii_comment_fields(set_id: Seq<u8>, text: Seq<char>)
    requires
        set_id.len() == 16,
        text.len() <= 0xFFFF_FFFF_FFFF,
    ensures
        ({
            let p = ascii_comment_packet(set_id, text);
            &&& p.len() % 4 == 0
            &&& 64 + text.len() <= p.len() < 68 + text.len()
            &&& p.subrange(32, 48) == set_id
            &&& p.subrange(48, 64) == seq![
                0x50u8, 0x41, 0x52, 0x20, 0x32, 0x2e, 0x30, 0, 0x43, 0x6f, 0x6d, 0x6d, 0x41, 0x53,
                0x43, 0x49,
            ]
            &&& forall|i: int|
                0 <= i < text.len() ==> #[trigger] p[64 + i] == if text[i] <= '\u{7f}' {
                    text[i] as int
                } else {
                    0x3F
                }
            &&& forall|i: int| 64 + text.len() <= i < p.len() ==> #[trigger] p[i] == 0
        }),
{
    let p = ascii_comment_packet(set_id, text);
    let raw = ascii_fallback(text);
    let body = padded4(raw);
    law_padding(raw);
    law_packet_fields(set_id, TYPE_COMMENT_ASCII@, body);
    assert forall|j: int| 64 <= j < p.len() implies #[trigger] p[j] == body[j - 64] by {
        assert(p[j] == p.skip(64)[j - 64]);
    }
    assert(p.subrange(48, 64) =~= seq![
        0x50u8, 0x41, 0x52, 0x20, 0x32, 0x2e, 0x30, 0, 0x43, 0x6f, 0x6d, 0x6d, 0x41, 0x53, 0x43,
        0x49,
    ]);
    assert forall|i: int| 0 <= i < text.len() implies #[trigger] p[64 + i] == if text[i]
        <= '\u{7f}' {
        text[i] as int
    } else {
        0x3F
    } by {
        assert(body.take(raw.len() as int)[i] == raw[i]);
        assert(raw[i] == ascii_byte(text[i]));
        lemma_char(text[i]);
    }
}

/// What the Unicode packet of a comment holds: the type `PAR 2.0`, NUL, `CommUni`,
/// NUL; the digest it links to; the text in UTF-16LE; and zeros, fewer than 4.
pub proof fn law_unicode_comment_fields(set_id: Seq<u8>, text: Seq<char>, link: Seq<u8>)
    requires
        set_id.len() == 16,
        link.len() == 16,
        utf16le(text).len() <= 0xFFFF_FFFF_FFFF,
    ensures
        ({
            let p = unicode_comment_packet(set_id, text, link);
            let n = utf16le(text).len() as int;
            &&& p.len() % 4 == 0
            &&& 80 + n <= p.len() < 84 + n
            &&& p.subrange(32, 48) == set_id
            &&& p.subrange(48, 64) == seq![
                0x50u8, 0x41, 0x52, 0x20, 0x32, 0x2e, 0x30, 0, 0x43, 0x6f, 0x6d, 0x6d, 0x55, 0x6e,
                0x69, 0,
            ]
            &&& p.subrange(64, 80) == link
            &&& p.subrange(80, 80 + n) == utf16le(text)
            &&& forall|i: int| 80 + n <= i < p.len() ==> #[trigger] p[i] == 0
        }),
{
    let p = unicode_comment_packet(set_id, text, link);
    let n = utf16le(text).len() as int;
    let raw = link + utf16le(text);
    let body = padded4(raw);
    law_padding(raw);
    law_packet_fields(set_id, TYPE_COMMENT_UNICODE@, body);
    assert forall|j: int| 64 <= j < p.len() implies #[trigger] p[j] == body[j - 64] by {
        assert(p[j] == p.skip(64)[j - 64]);
    }
    assert forall|j: int| 0 <= j < raw.len() implies #[trigger] body[j] == raw[j] by {
        assert(body.take(raw.len() as int)[j] == raw[j]);
    }
    assert(p.subrange(48, 64) =~= seq![
        0x50u8, 0x41, 0x52, 0x20, 0x32, 0x2e, 0x30, 0, 0x43, 0x6f, 0x6d, 0x6d, 0x55, 0x6e, 0x69, 0,
    ]);
    assert(p.subrange(64, 80) =~= link);
    assert(p.subrange(80, 80 + n) =~= utf16le(text));
}

/// A character in UTF-16LE: one unit that is the character, or a high and a low
/// surrogate that together stand for it.
pub proof fn law_utf16_char(c: char)
    ensures
        ({
            let s = utf16le(seq![c]);
            let v = c as u32;
            if v < 0x10000 {
                s.len() == 2 && s[0] + 0x100 * s[1] == v
            } else {
                let high = s[0] + 0x100 * s[1];
                let low = s[2] + 0x100 * s[3];
                &&& s.len() == 4
                &&& 0xD800 <= high < 0xDC00
                &&& 0xDC00 <= low < 0xE000
                &&& 0x10000 + 0x400 * (high - 0xD800) + (low - 0xDC00) == v
            }
        }),
{
    let v = c as u32;
    let s = utf16le(seq![c]);
    assert(seq![c].drop_last().len() == 0);
    assert(utf16le(seq![c].drop_last()) == Seq::<u8>::empty());
    assert(seq![c].last() == c);
    assert(s =~= utf16le_char(c));
    if v < 0x10000 {
        law_le16(v as u16);
    } else {
        law_le16((0xD800 + (v - 0x10000) / 0x400) as u16);
        law_le16((0xDC00 + (v - 0x10000) % 0x400) as u16);
    }
}

/// A text in UTF-16LE is its parts in UTF-16LE, one after the other.
pub proof fn law_utf16_joins(a: Seq<char>, b: Seq<char>)
    ensures
        utf16le(Seq::<char>::empty()) == Seq::<u8>::empty(),
        utf16le(a + b) == utf16le(a) + utf16le(b),
    decreases b.len(),
{
    if b.len() == 0 {
        assert(a + b =~= a);
        assert(utf16le(a) + utf16le(b) =~= utf16le(a));
    } else {
        law_utf16_joins(a, b.drop_last());
        assert((a + b).drop_last() =~= a + b.drop_last());
        assert(utf16le(a + b) =~= utf16le(a) + utf16le(b));
    }
}

/// The packets of a comment: the ASCII packet, and if there is a character outside
/// ASCII also a Unicode packet that links to it by its MD5 field.
pub proof fn law_packets_of_a_comment(set_id: Seq<u8>, text: String)
    requires
        set_id.len() == 16,
        text@.len() <= 0xFFFF_FFFF_FFFF,
    ensures
        ({
            let ascii = ascii_comment_packet(set_id, text@);
            comment_packets(set_id, seq![text], 1) == if forall|i: int|
                0 <= i < text@.len() ==> #[trigger] text@[i] <= '\u{7f}' {
                ascii
            } else {
                ascii + unicode_comment_packet(set_id, text@, ascii.subrange(16, 32))
            }
        }),
{
    let ascii = ascii_comment_packet(set_id, text@);
    let raw = ascii_fallback(text@);
    law_padding(raw);
    law_packet_fields(set_id, TYPE_COMMENT_ASCII@, padded4(raw));
    lemma_md5_digest(set_id + TYPE_COMMENT_ASCII@ + padded4(raw));
    assert(comment_packets(set_id, seq![text], 0) =~= Seq::empty());
    assert(comment_packets(set_id, seq![text], 1) =~= comment_packet_pair(set_id, text@));
    if is_ascii_chars(text@) {
        assert forall|i: int| 0 <= i < text@.len() implies #[trigger] text@[i] <= '\u{7f}' by {
        }
    } else if forall|i: int| 0 <= i < text@.len() ==> #[trigger] text@[i] <= '\u{7f}' {
        assert forall|i: int| 0 <= i < text@.len() implies '\0' <= #[trigger] text@[i]
            <= '\u{7f}' by {
            lemma_char(text@[i]);
        }
        assert(is_ascii_chars(text@));
    }
}

/// No character is below NUL.
proof fn lemma_char(c: char)
    ensures
        '\0' <= c,
        0 <= c as int,
{
}

/// The packets of a list of comments are those of its parts, one after the other.
pub proof fn law_comment_packets_join(set_id: Seq<u8>, a: Seq<String>, b: Seq<String>)
    ensures
        comment_packets(set_id, Seq::<String>::empty(), 0) == Seq::<u8>::empty(),
        comment_packets(set_id, a + b, a.len() + b.len()) == comment_packets(set_id, a, a.len())
            + comment_packets(set_id, b, b.len()),
{
    lemma_comments_join(set_id, a, b, b.len());
}

proof fn lemma_comments_join(set_id: Seq<u8>, a: Seq<String>, b: Seq<String>, n: nat)
    requires
        n <= b.len(),
    ensures
        comment_packets(set_id, a + b, a.len() + n) == comment_packets(set_id, a, a.len())
            + comment_packets(set_id, b, n),
    decreases n,
{
    let head = comment_packets(set_id, a, a.len());
    if n == 0 {
        lemma_comments_prefix(set_id, a, a + b, a.len());
        lemma_append(head, comment_packets(set_id, b, 0), Seq::empty());
    } else {
        let m = (n - 1) as nat;
        lemma_comments_join(set_id, a, b, m);
        assert((a + b)[(a.len() + m) as int] == b[m as int]);
        lemma_append(
            head,
            comment_packets(set_id, b, m),
            comment_packet_pair(set_id, b[m as int]@),
        );
    }
}

proof fn lemma_append(x: Seq<u8>, y: Seq<u8>, z: Seq<u8>)
    ensures
        (x + y) + z == x + (y + z),
        y.len() == 0 ==> x + y == x,
{
    assert((x + y) + z =~= x + (y + z));
    if y.len() == 0 {
        assert(x + y =~= x);
    }
}

proof fn lemma_comments_prefix(set_id: Seq<u8>, a: Seq<String>, all: Seq<String>, n: nat)
    requires
        n <= a.len() <= all.len(),
        forall|i: int| 0 <= i < a.len() ==> a[i] == all[i],
    ensures
        comment_packets(set_id, a, n) == comment_packets(set_id, all, n),
    decreases n,
{
    if n > 0 {
        lemma_comments_prefix(set_id, a, all, (n - 1) as nat);
    }
}

} // verus!
