//! Four MD5 digests at a time.
//!
//! MD5's rounds depend on each other too tightly to be vectorised within one
//! stream, so the lanes are four independent streams of equal length: each
//! register of the algorithm becomes a vector of four words. Equal length
//! keeps the lanes in step down to the padding; per-slice hashing always has
//! it, because slices are padded to the slice size.
//!
//! Rounds, constants and padding are those of RFC 1321.

use crate::bytes::{law_le32, law_le64, le32, le64, put_bytes, put_le64, put_zeros};
use vstd::prelude::*;
use vstd::slice::slice_subrange;

verus! {

/// `floor(2^32 * abs(sin(i + 1)))`.
pub const T: [u32; 64] = [
    0xd76aa478, 0xe8c7b756, 0x242070db, 0xc1bdceee,
    0xf57c0faf, 0x4787c62a, 0xa8304613, 0xfd469501,
    0x698098d8, 0x8b44f7af, 0xffff5bb1, 0x895cd7be,
    0x6b901122, 0xfd987193, 0xa679438e, 0x49b40821,
    0xf61e2562, 0xc040b340, 0x265e5a51, 0xe9b6c7aa,
    0xd62f105d, 0x02441453, 0xd8a1e681, 0xe7d3fbc8,
    0x21e1cde6, 0xc33707d6, 0xf4d50d87, 0x455a14ed,
    0xa9e3e905, 0xfcefa3f8, 0x676f02d9, 0x8d2a4c8a,
    0xfffa3942, 0x8771f681, 0x6d9d6122, 0xfde5380c,
    0xa4beea44, 0x4bdecfa9, 0xf6bb4b60, 0xbebfbc70,
    0x289b7ec6, 0xeaa127fa, 0xd4ef3085, 0x04881d05,
    0xd9d4d039, 0xe6db99e5, 0x1fa27cf8, 0xc4ac5665,
    0xf4292244, 0x432aff97, 0xab9423a7, 0xfc93a039,
    0x655b59c3, 0x8f0ccc92, 0xffeff47d, 0x85845dd1,
    0x6fa87e4f, 0xfe2ce6e0, 0xa3014314, 0x4e0811a1,
    0xf7537e82, 0xbd3af235, 0x2ad7d2bb, 0xeb86d391,
];

/// Initial value of register `a`.
pub const A_INIT: u32 = 0x67452301;

/// Initial value of register `b`.
pub const B_INIT: u32 = 0xefcdab89;

/// Initial value of register `c`.
pub const C_INIT: u32 = 0x98badcfe;

/// Initial value of register `d`.
pub const D_INIT: u32 = 0x10325476;

// ---------------------------------------------------------------------------
// RFC 1321, one stream
// ---------------------------------------------------------------------------

/// The four registers.
pub struct Registers {
    pub a: u32,
    pub b: u32,
    pub c: u32,
    pub d: u32,
}

/// The registers before the first block.
pub open spec fn initial() -> Registers {
    Registers { a: A_INIT, b: B_INIT, c: C_INIT, d: D_INIT }
}

/// `x` rotated left by `s` bits.
pub open spec fn rotate_left(x: u32, s: u32) -> u32 {
    (x << s) | (x >> ((32 - s) as u32))
}

/// The round function of step `i`.
pub open spec fn round_function(i: int, b: u32, c: u32, d: u32) -> u32 {
    if i < 16 {
        (b & c) | (!b & d)
    } else if i < 32 {
        (d & b) | (!d & c)
    } else if i < 48 {
        b ^ c ^ d
    } else {
        c ^ (b | !d)
    }
}

/// Which message word step `i` takes.
pub open spec fn message_index(i: int) -> int {
    if i < 16 {
        i
    } else if i < 32 {
        (5 * i + 1) % 16
    } else if i < 48 {
        (3 * i + 5) % 16
    } else {
        (7 * i) % 16
    }
}

/// The first, second, third or fourth of four numbers, in turn.
pub open spec fn in_turn(i: int, a: u32, b: u32, c: u32, d: u32) -> u32 {
    if i % 4 == 0 {
        a
    } else if i % 4 == 1 {
        b
    } else if i % 4 == 2 {
        c
    } else {
        d
    }
}

/// By how much step `i` rotates.
pub open spec fn rotation(i: int) -> u32 {
    if i < 16 {
        in_turn(i, 7, 12, 17, 22)
    } else if i < 32 {
        in_turn(i, 5, 9, 14, 20)
    } else if i < 48 {
        in_turn(i, 4, 11, 16, 23)
    } else {
        in_turn(i, 6, 10, 15, 21)
    }
}

/// Step `i` on the message words `m`.
pub open spec fn md5_step(r: Registers, m: Seq<u32>, i: int) -> Registers {
    let sum = r.a.wrapping_add(round_function(i, r.b, r.c, r.d)).wrapping_add(
        m[message_index(i)],
    ).wrapping_add(T[i]);
    Registers {
        a: r.d,
        b: r.b.wrapping_add(rotate_left(sum, rotation(i))),
        c: r.b,
        d: r.c,
    }
}

/// The first `n` steps.
pub open spec fn md5_steps(r: Registers, m: Seq<u32>, n: nat) -> Registers
    decreases n,
{
    if n == 0 {
        r
    } else {
        md5_step(md5_steps(r, m, (n - 1) as nat), m, n - 1)
    }
}

/// One block of sixteen words.
pub open spec fn md5_compress(r: Registers, m: Seq<u32>) -> Registers {
    let s = md5_steps(r, m, 64);
    Registers {
        a: r.a.wrapping_add(s.a),
        b: r.b.wrapping_add(s.b),
        c: r.c.wrapping_add(s.c),
        d: r.d.wrapping_add(s.d),
    }
}

/// The little-endian word at `off`.
pub open spec fn word_at(data: Seq<u8>, off: int) -> u32 {
    (data[off] as u32) | ((data[off + 1] as u32) << 8) | ((data[off + 2] as u32) << 16) | ((data[off
        + 3] as u32) << 24)
}

/// The sixteen words of the block at `off`.
pub open spec fn block_words(data: Seq<u8>, off: int) -> Seq<u32> {
    Seq::new(16, |i: int| word_at(data, off + 4 * i))
}

/// The registers after the first `n` blocks.
pub open spec fn md5_blocks(data: Seq<u8>, n: nat) -> Registers
    decreases n,
{
    if n == 0 {
        initial()
    } else {
        md5_compress(md5_blocks(data, (n - 1) as nat), block_words(data, 64 * (n - 1)))
    }
}

/// What is appended to a message of `len` bytes: a one bit, zeros up to 8 bytes
/// before a multiple of 64, and the length in bits modulo 2^64.
pub open spec fn md5_padding(len: nat) -> Seq<u8> {
    seq![0x80u8] + Seq::new(
        (if len % 64 < 56 { 55 - len % 64 } else { 119 - len % 64 }) as nat,
        |i: int| 0u8,
    ) + le64(((8 * len) % 0x1_0000_0000_0000_0000) as u64)
}

/// The MD5 digest of a message.
#[verifier::opaque]
pub open spec fn rfc1321_digest(data: Seq<u8>) -> Seq<u8> {
    let padded = data + md5_padding(data.len());
    let r = md5_blocks(padded, padded.len() / 64);
    le32(r.a) + le32(r.b) + le32(r.c) + le32(r.d)
}

/// The registers depend on the bytes read only.
proof fn lemma_blocks_prefix(x: Seq<u8>, y: Seq<u8>, n: nat)
    requires
        64 * n <= x.len(),
        64 * n <= y.len(),
        forall|i: int| 0 <= i < 64 * n ==> #[trigger] x[i] == y[i],
    ensures
        md5_blocks(x, n) == md5_blocks(y, n),
    decreases n,
{
    if n > 0 {
        lemma_blocks_prefix(x, y, (n - 1) as nat);
        assert(block_words(x, 64 * (n - 1)) =~= block_words(y, 64 * (n - 1)));
    }
}

// ---------------------------------------------------------------------------
// Four lanes
// ---------------------------------------------------------------------------

/// The registers of four streams.
struct Lanes {
    a: [u32; 4],
    b: [u32; 4],
    c: [u32; 4],
    d: [u32; 4],
}

impl Lanes {
    /// The registers of stream `k`.
    spec fn lane(&self, k: int) -> Registers {
        Registers { a: self.a@[k], b: self.b@[k], c: self.c@[k], d: self.d@[k] }
    }
}

/// Lane-wise wrapping sum.
fn add4(x: [u32; 4], y: [u32; 4]) -> (r: [u32; 4])
    ensures
        forall|k: int| 0 <= k < 4 ==> #[trigger] r@[k] == x@[k].wrapping_add(y@[k]),
{
    [
        x[0].wrapping_add(y[0]),
        x[1].wrapping_add(y[1]),
        x[2].wrapping_add(y[2]),
        x[3].wrapping_add(y[3]),
    ]
}

/// Lane-wise rotation.
fn rotate4(x: [u32; 4], s: u32) -> (r: [u32; 4])
    requires
        0 < s < 32,
    ensures
        forall|k: int| 0 <= k < 4 ==> #[trigger] r@[k] == rotate_left(x@[k], s),
{
    let t: u32 = 32 - s;
    [
        (x[0] << s) | (x[0] >> t),
        (x[1] << s) | (x[1] >> t),
        (x[2] << s) | (x[2] >> t),
        (x[3] << s) | (x[3] >> t),
    ]
}

/// Lane-wise selection: bits of `x` where `mask` is set, of `y` elsewhere.
fn bsl(mask: [u32; 4], x: [u32; 4], y: [u32; 4]) -> (r: [u32; 4])
    ensures
        forall|k: int|
            0 <= k < 4 ==> #[trigger] r@[k] == (mask@[k] & x@[k]) | (!mask@[k] & y@[k]),
{
    [
        (mask[0] & x[0]) | (!mask[0] & y[0]),
        (mask[1] & x[1]) | (!mask[1] & y[1]),
        (mask[2] & x[2]) | (!mask[2] & y[2]),
        (mask[3] & x[3]) | (!mask[3] & y[3]),
    ]
}

/// The round function of step `i` on every lane.
fn round4(i: usize, b: [u32; 4], c: [u32; 4], d: [u32; 4]) -> (r: [u32; 4])
    requires
        i < 64,
    ensures
        forall|k: int|
            0 <= k < 4 ==> #[trigger] r@[k] == round_function(i as int, b@[k], c@[k], d@[k]),
{
    if i < 16 {
        bsl(b, c, d)
    } else if i < 32 {
        bsl(d, b, c)
    } else if i < 48 {
        [b[0] ^ c[0] ^ d[0], b[1] ^ c[1] ^ d[1], b[2] ^ c[2] ^ d[2], b[3] ^ c[3] ^ d[3]]
    } else {
        [
            c[0] ^ (b[0] | !d[0]),
            c[1] ^ (b[1] | !d[1]),
            c[2] ^ (b[2] | !d[2]),
            c[3] ^ (b[3] | !d[3]),
        ]
    }
}

/// The message word that step `i` takes.
fn index_of(i: usize) -> (g: usize)
    requires
        i < 64,
    ensures
        g == message_index(i as int),
        g < 16,
{
    if i < 16 {
        i
    } else if i < 32 {
        (5 * i + 1) % 16
    } else if i < 48 {
        (3 * i + 5) % 16
    } else {
        (7 * i) % 16
    }
}

/// The first, second, third or fourth of four numbers, in turn.
fn pick(i: usize, a: u32, b: u32, c: u32, d: u32) -> (r: u32)
    ensures
        r == in_turn(i as int, a, b, c, d),
{
    let j: usize = i % 4;
    if j == 0 {
        a
    } else if j == 1 {
        b
    } else if j == 2 {
        c
    } else {
        d
    }
}

/// The rotation of step `i`.
fn rotation_of(i: usize) -> (s: u32)
    requires
        i < 64,
    ensures
        s == rotation(i as int),
        0 < s < 32,
{
    if i < 16 {
        pick(i, 7, 12, 17, 22)
    } else if i < 32 {
        pick(i, 5, 9, 14, 20)
    } else if i < 48 {
        pick(i, 4, 11, 16, 23)
    } else {
        pick(i, 6, 10, 15, 21)
    }
}

/// The message words of lane `k`.
spec fn lane_words(m: [[u32; 4]; 16], k: int) -> Seq<u32> {
    Seq::new(16, |i: int| m@[i]@[k])
}

/// One 64-byte block on every lane; lane `k` of `m[i]` is word `i` of stream
/// `k`'s block.
fn md5_block(state: &mut Lanes, m: &[[u32; 4]; 16])
    ensures
        forall|k: int|
            0 <= k < 4 ==> #[trigger] final(state).lane(k) == md5_compress(
                old(state).lane(k),
                lane_words(*m, k),
            ),
{
    let mut a: [u32; 4] = state.a;
    let mut b: [u32; 4] = state.b;
    let mut c: [u32; 4] = state.c;
    let mut d: [u32; 4] = state.d;
    let ghost start = *state;
    let mut i: usize = 0;
    while i < 64
        invariant
            i <= 64,
            forall|k: int|
                0 <= k < 4 ==> (Registers {
                    a: #[trigger] a@[k],
                    b: b@[k],
                    c: c@[k],
                    d: d@[k],
                }) == md5_steps(start.lane(k), lane_words(*m, k), i as nat),
        decreases 64 - i,
    {
        let f: [u32; 4] = round4(i, b, c, d);
        let t: u32 = T[i];
        let g: usize = index_of(i);
        let sum: [u32; 4] = add4(add4(add4(a, f), m[g]), [t, t, t, t]);
        let next: [u32; 4] = add4(b, rotate4(sum, rotation_of(i)));
        proof {
            assert forall|k: int| 0 <= k < 4 implies (Registers {
                a: #[trigger] d@[k],
                b: next@[k],
                c: b@[k],
                d: c@[k],
            }) == md5_steps(start.lane(k), lane_words(*m, k), (i + 1) as nat) by {
                let r = md5_steps(start.lane(k), lane_words(*m, k), i as nat);
                assert(r == Registers { a: a@[k], b: b@[k], c: c@[k], d: d@[k] });
                assert([t, t, t, t]@[k] == t);
                assert(lane_words(*m, k)[message_index(i as int)] == m@[g as int]@[k]);
            }
        }
        a = d;
        d = c;
        c = b;
        b = next;
        i = i + 1;
    }
    state.a = add4(state.a, a);
    state.b = add4(state.b, b);
    state.c = add4(state.c, c);
    state.d = add4(state.d, d);
    proof {
        assert forall|k: int| 0 <= k < 4 implies #[trigger] state.lane(k) == md5_compress(
            start.lane(k),
            lane_words(*m, k),
        ) by {
            assert((Registers { a: a@[k], b: b@[k], c: c@[k], d: d@[k] }) == md5_steps(
                start.lane(k),
                lane_words(*m, k),
                64,
            ));
        }
    }
}

/// The little-endian word at `off`.
fn load_word(data: &[u8], off: usize) -> (w: u32)
    requires
        off + 4 <= data@.len(),
    ensures
        w == word_at(data@, off as int),
{
    (data[off] as u32) | ((data[off + 1] as u32) << 8) | ((data[off + 2] as u32) << 16) | ((data[off
        + 3] as u32) << 24)
}

/// The sixteen message words of the block at `off` in each of four buffers.
fn load_block_message(b0: &[u8], b1: &[u8], b2: &[u8], b3: &[u8], off: usize) -> (m: [[u32; 4]; 16])
    requires
        off + 64 <= b0@.len(),
        off + 64 <= b1@.len(),
        off + 64 <= b2@.len(),
        off + 64 <= b3@.len(),
    ensures
        lane_words(m, 0) == block_words(b0@, off as int),
        lane_words(m, 1) == block_words(b1@, off as int),
        lane_words(m, 2) == block_words(b2@, off as int),
        lane_words(m, 3) == block_words(b3@, off as int),
{
    let mut m: [[u32; 4]; 16] = [[0u32; 4]; 16];
    let mut i: usize = 0;
    while i < 16
        invariant
            i <= 16,
            off + 64 <= b0.len(),
            off + 64 <= b1.len(),
            off + 64 <= b2.len(),
            off + 64 <= b3.len(),
            forall|j: int|
                0 <= j < i ==> (#[trigger] m@[j])@[0] == word_at(b0@, off + 4 * j) && m@[j]@[1]
                    == word_at(b1@, off + 4 * j) && m@[j]@[2] == word_at(b2@, off + 4 * j)
                    && m@[j]@[3] == word_at(b3@, off + 4 * j),
        decreases 16 - i,
    {
        let at: usize = off + 4 * i;
        m[i] = [load_word(b0, at), load_word(b1, at), load_word(b2, at), load_word(b3, at)];
        i = i + 1;
    }
    proof {
        assert(lane_words(m, 0) =~= block_words(b0@, off as int));
        assert(lane_words(m, 1) =~= block_words(b1@, off as int));
        assert(lane_words(m, 2) =~= block_words(b2@, off as int));
        assert(lane_words(m, 3) =~= block_words(b3@, off as int));
    }
    m
}

/// `tail` is what follows the first `from` bytes of the padded message.
#[verifier::opaque]
spec fn is_tail(data: Seq<u8>, from: int, tail: Seq<u8>) -> bool {
    let padded = data + md5_padding(data.len());
    tail == padded.subrange(from, padded.len() as int)
}

/// The last whole or partial blocks of a message: the bytes from `from` on and
/// the padding.
fn padded_tail(data: &[u8], from: usize) -> (tail: Vec<u8>)
    requires
        from <= data@.len(),
        from % 64 == 0,
        data@.len() - from < 64,
    ensures
        is_tail(data@, from as int, tail@),
        tail@.len() == if data@.len() - from < 56 { 64int } else { 128 },
{
    let mut tail: Vec<u8> = Vec::new();
    let len: usize = data.len();
    put_bytes(&mut tail, slice_subrange(data, from, len));
    let rest: usize = len - from;
    tail.push(0x80);
    put_zeros(&mut tail, if rest < 56 { 55 - rest } else { 119 - rest });
    put_le64(&mut tail, (len as u64).wrapping_mul(8));
    proof {
        reveal(is_tail);
        assert(len % 64 == rest);
        assert(tail@ =~= data@.subrange(from as int, len as int) + md5_padding(len as nat));
        assert(tail@ =~= (data@ + md5_padding(data@.len())).subrange(
            from as int,
            (data@ + md5_padding(data@.len())).len() as int,
        ));
    }
    tail
}

/// The bytes of a digest.
fn digest_bytes(a: u32, b: u32, c: u32, d: u32) -> (r: [u8; 16])
    ensures
        r@ == le32(a) + le32(b) + le32(c) + le32(d),
{
    let r: [u8; 16] = [
        (a & 0xFF) as u8,
        ((a >> 8) & 0xFF) as u8,
        ((a >> 16) & 0xFF) as u8,
        ((a >> 24) & 0xFF) as u8,
        (b & 0xFF) as u8,
        ((b >> 8) & 0xFF) as u8,
        ((b >> 16) & 0xFF) as u8,
        ((b >> 24) & 0xFF) as u8,
        (c & 0xFF) as u8,
        ((c >> 8) & 0xFF) as u8,
        ((c >> 16) & 0xFF) as u8,
        ((c >> 24) & 0xFF) as u8,
        (d & 0xFF) as u8,
        ((d >> 8) & 0xFF) as u8,
        ((d >> 16) & 0xFF) as u8,
        ((d >> 24) & 0xFF) as u8,
    ];
    assert(r@ =~= le32(a) + le32(b) + le32(c) + le32(d));
    r
}

/// The registers after one or two last blocks.
#[verifier::opaque]
spec fn after_tail(r: Registers, tail: Seq<u8>) -> Registers {
    let one = md5_compress(r, block_words(tail, 0));
    if tail.len() == 64 {
        one
    } else {
        md5_compress(one, block_words(tail, 64))
    }
}

/// The registers after the padded tail are those after the padded message.
proof fn lemma_tail_blocks(data: Seq<u8>, tail: Seq<u8>, from: nat, r: Registers)
    requires
        from <= data.len(),
        from % 64 == 0,
        data.len() - from < 64,
        is_tail(data, from as int, tail),
        r == md5_blocks(data, from / 64),
    ensures
        ({
            let last = after_tail(r, tail);
            rfc1321_digest(data) == le32(last.a) + le32(last.b) + le32(last.c) + le32(last.d)
        }),
{
    reveal(is_tail);
    reveal(after_tail);
    reveal(rfc1321_digest);
    let padded = data + md5_padding(data.len());
    let n = from / 64;
    lemma_blocks_prefix(data, padded, n);
    assert(data.len() % 64 == data.len() - from);
    assert(block_words(tail, 0) =~= block_words(padded, 64 * n as int));
    assert(md5_blocks(padded, n + 1) == md5_compress(r, block_words(tail, 0)));
    if tail.len() != 64 {
        assert(padded.len() / 64 == n + 2);
        assert(block_words(tail, 64) =~= block_words(padded, 64 * (n + 1) as int));
    } else {
        assert(padded.len() / 64 == n + 1);
    }
}

/// All whole blocks of four buffers of equal length.
fn absorb_blocks(b0: &[u8], b1: &[u8], b2: &[u8], b3: &[u8]) -> (state: Lanes)
    requires
        b1@.len() == b0@.len(),
        b2@.len() == b0@.len(),
        b3@.len() == b0@.len(),
    ensures
        state.lane(0) == md5_blocks(b0@, b0@.len() / 64),
        state.lane(1) == md5_blocks(b1@, b0@.len() / 64),
        state.lane(2) == md5_blocks(b2@, b0@.len() / 64),
        state.lane(3) == md5_blocks(b3@, b0@.len() / 64),
{
    let len: usize = b0.len();
    let mut state = Lanes { a: [A_INIT; 4], b: [B_INIT; 4], c: [C_INIT; 4], d: [D_INIT; 4] };
    let full: usize = len / 64;
    let mut n: usize = 0;
    while n < full
        invariant
            n <= full,
            64 * full <= len,
            len == b0.len(),
            len == b1.len(),
            len == b2.len(),
            len == b3.len(),
            state.lane(0) == md5_blocks(b0@, n as nat),
            state.lane(1) == md5_blocks(b1@, n as nat),
            state.lane(2) == md5_blocks(b2@, n as nat),
            state.lane(3) == md5_blocks(b3@, n as nat),
        decreases full - n,
    {
        let m: [[u32; 4]; 16] = load_block_message(b0, b1, b2, b3, 64 * n);
        md5_block(&mut state, &m);
        n = n + 1;
    }
    state
}

/// The one or two last blocks of four messages.
fn absorb_tails(state: &mut Lanes, t0: &[u8], t1: &[u8], t2: &[u8], t3: &[u8])
    requires
        t0@.len() == 64 || t0@.len() == 128,
        t1@.len() == t0@.len(),
        t2@.len() == t0@.len(),
        t3@.len() == t0@.len(),
    ensures
        final(state).lane(0) == after_tail(old(state).lane(0), t0@),
        final(state).lane(1) == after_tail(old(state).lane(1), t1@),
        final(state).lane(2) == after_tail(old(state).lane(2), t2@),
        final(state).lane(3) == after_tail(old(state).lane(3), t3@),
{
    proof {
        reveal(after_tail);
    }
    let m0: [[u32; 4]; 16] = load_block_message(t0, t1, t2, t3, 0);
    md5_block(state, &m0);
    if t0.len() == 128 {
        let m1: [[u32; 4]; 16] = load_block_message(t0, t1, t2, t3, 64);
        md5_block(state, &m1);
    }
}

/// The MD5 digests of four buffers of equal length.
pub fn digest4(bufs: [&[u8]; 4]) -> (out: [[u8; 16]; 4])
    requires
        bufs@[1]@.len() == bufs@[0]@.len(),
        bufs@[2]@.len() == bufs@[0]@.len(),
        bufs@[3]@.len() == bufs@[0]@.len(),
    ensures
        forall|k: int| 0 <= k < 4 ==> (#[trigger] out@[k])@ == rfc1321_digest(bufs@[k]@),
{
    let b0: &[u8] = bufs[0];
    let b1: &[u8] = bufs[1];
    let b2: &[u8] = bufs[2];
    let b3: &[u8] = bufs[3];
    let mut state: Lanes = absorb_blocks(b0, b1, b2, b3);
    let from: usize = b0.len() / 64 * 64;
    let t0: Vec<u8> = padded_tail(b0, from);
    let t1: Vec<u8> = padded_tail(b1, from);
    let t2: Vec<u8> = padded_tail(b2, from);
    let t3: Vec<u8> = padded_tail(b3, from);
    proof {
        lemma_tail_blocks(b0@, t0@, from as nat, state.lane(0));
        lemma_tail_blocks(b1@, t1@, from as nat, state.lane(1));
        lemma_tail_blocks(b2@, t2@, from as nat, state.lane(2));
        lemma_tail_blocks(b3@, t3@, from as nat, state.lane(3));
    }
    absorb_tails(&mut state, &t0, &t1, &t2, &t3);
    let d0: [u8; 16] = digest_bytes(state.a[0], state.b[0], state.c[0], state.d[0]);
    let d1: [u8; 16] = digest_bytes(state.a[1], state.b[1], state.c[1], state.d[1]);
    let d2: [u8; 16] = digest_bytes(state.a[2], state.b[2], state.c[2], state.d[2]);
    let d3: [u8; 16] = digest_bytes(state.a[3], state.b[3], state.c[3], state.d[3]);
    let out: [[u8; 16]; 4] = [d0, d1, d2, d3];
    assert(out@[0] == d0 && out@[1] == d1 && out@[2] == d2 && out@[3] == d3);
    out
}

// ---------------------------------------------------------------------------
// What pins the digest down
// ---------------------------------------------------------------------------

/// The padded message: the message, a byte `0x80`, zeros, and the number of bits of
/// the message, low byte first, in the last 8 of a whole number of 64-byte blocks;
/// there are no more zeros than that takes.
pub proof fn law_md5_padding(data: Seq<u8>)
    requires
        8 * data.len() <= u64::MAX,
    ensures
        ({
            let p = data + md5_padding(data.len());
            let n = p.len() as int;
            &&& n % 64 == 0
            &&& data.len() + 9 <= n < data.len() + 9 + 64
            &&& p.take(data.len() as int) == data
            &&& p[data.len() as int] == 0x80
            &&& forall|i: int| data.len() < i < n - 8 ==> #[trigger] p[i] == 0
            &&& p[n - 8] + 0x100 * p[n - 7] + 0x1_0000 * p[n - 6] + 0x100_0000 * p[n - 5]
                + 0x1_0000_0000 * p[n - 4] + 0x100_0000_0000 * p[n - 3] + 0x1_0000_0000_0000 * p[n
                - 2] + 0x100_0000_0000_0000 * p[n - 1] == 8 * data.len()
        }),
{
    let p = data + md5_padding(data.len());
    let n = p.len() as int;
    let bits = le64((8 * data.len()) as u64);
    law_le64((8 * data.len()) as u64);
    assert(p.take(data.len() as int) =~= data);
    assert(p.skip(n - 8) =~= bits);
    assert(bits[0] == p.skip(n - 8)[0] && bits[1] == p.skip(n - 8)[1]);
    assert(bits[2] == p.skip(n - 8)[2] && bits[3] == p.skip(n - 8)[3]);
    assert(bits[4] == p.skip(n - 8)[4] && bits[5] == p.skip(n - 8)[5]);
    assert(bits[6] == p.skip(n - 8)[6] && bits[7] == p.skip(n - 8)[7]);
}

/// The digest: the registers after all blocks of the padded message, `a` first and
/// each with its low byte first.
pub proof fn law_md5_digest(data: Seq<u8>)
    ensures
        ({
            let p = data + md5_padding(data.len());
            let r = md5_blocks(p, p.len() / 64);
            let h = rfc1321_digest(data);
            &&& h.len() == 16
            &&& h[0] + 0x100 * h[1] + 0x1_0000 * h[2] + 0x100_0000 * h[3] == r.a
            &&& h[4] + 0x100 * h[5] + 0x1_0000 * h[6] + 0x100_0000 * h[7] == r.b
            &&& h[8] + 0x100 * h[9] + 0x1_0000 * h[10] + 0x100_0000 * h[11] == r.c
            &&& h[12] + 0x100 * h[13] + 0x1_0000 * h[14] + 0x100_0000 * h[15] == r.d
        }),
{
    reveal(rfc1321_digest);
    let p = data + md5_padding(data.len());
    let r = md5_blocks(p, p.len() / 64);
    law_le32(r.a);
    law_le32(r.b);
    law_le32(r.c);
    law_le32(r.d);
}

proof fn lemma_word_at_value(a: u8, b: u8, c: u8, d: u8)
    by (bit_vector)
    ensures
        ((a as u32) | ((b as u32) << 8) | ((c as u32) << 16) | ((d as u32) << 24)) == a + 0x100 * b
            + 0x1_0000 * c + 0x100_0000 * d,
{
}

/// Blocks are chained: each adds to the registers what 64 steps over its sixteen
/// words, low bytes first, make of them.
pub proof fn law_md5_chaining(data: Seq<u8>, n: nat, m: Seq<u32>)
    requires
        m.len() == 16,
        forall|i: int|
            0 <= i < 16 ==> #[trigger] m[i] == data[64 * n + 4 * i] + 0x100 * data[64 * n + 4 * i
                + 1] + 0x1_0000 * data[64 * n + 4 * i + 2] + 0x100_0000 * data[64 * n + 4 * i + 3],
    ensures
        ({
            let before = md5_blocks(data, n);
            let after = md5_blocks(data, n + 1);
            let s = md5_steps(before, m, 64);
            &&& after.a == (before.a + s.a) % 0x1_0000_0000
            &&& after.b == (before.b + s.b) % 0x1_0000_0000
            &&& after.c == (before.c + s.c) % 0x1_0000_0000
            &&& after.d == (before.d + s.d) % 0x1_0000_0000
        }),
        ({
            let start = md5_blocks(data, 0);
            start.a == 0x67452301 && start.b == 0xefcdab89 && start.c == 0x98badcfe && start.d
                == 0x10325476
        }),
{
    let words = block_words(data, 64 * (n + 1 - 1));
    assert((n + 1 - 1) as nat == n);
    assert forall|i: int| 0 <= i < 16 implies words[i] == m[i] by {
        let o = 64 * n + 4 * i;
        lemma_word_at_value(data[o], data[o + 1], data[o + 2], data[o + 3]);
        assert(words[i] == word_at(data, o));
    }
    assert(words =~= m);
}

/// A step turns the registers round: `b` moves to `c`, `c` to `d` and `d` to `a`,
/// and the new `b` is the old one plus a rotated sum of `a`, a function of the
/// others, a message word and a constant.
pub proof fn law_md5_step(r: Registers, m: Seq<u32>, i: nat)
    requires
        i < 64,
    ensures
        md5_steps(r, m, 0) == r,
        ({
            let x = md5_steps(r, m, i);
            let y = md5_steps(r, m, i + 1);
            let f: u32 = if i < 16 {
                (x.b & x.c) | (!x.b & x.d)
            } else if i < 32 {
                (x.b & x.d) | (x.c & !x.d)
            } else if i < 48 {
                x.b ^ x.c ^ x.d
            } else {
                x.c ^ (x.b | !x.d)
            };
            let k: int = if i < 16 {
                i as int
            } else if i < 32 {
                (5 * i + 1) as int % 16
            } else if i < 48 {
                (3 * i + 5) as int % 16
            } else {
                (7 * i) as int % 16
            };
            let turns: Seq<u32> = if i < 16 {
                seq![7, 12, 17, 22]
            } else if i < 32 {
                seq![5, 9, 14, 20]
            } else if i < 48 {
                seq![4, 11, 16, 23]
            } else {
                seq![6, 10, 15, 21]
            };
            let t = turns[(i % 4) as int];
            let sum = ((x.a + f + m[k] + T[i as int]) % 0x1_0000_0000) as u32;
            &&& y.a == x.d
            &&& y.c == x.b
            &&& y.d == x.c
            &&& y.b == (x.b + ((sum << t) | (sum >> ((32 - t) as u32)))) % 0x1_0000_0000
        }),
{
    let x = md5_steps(r, m, i);
    assert((i + 1 - 1) as nat == i);
    let (b, c, d) = (x.b, x.c, x.d);
    assert((d & b) | (!d & c) == (b & d) | (c & !d)) by (bit_vector);
}

} // verus!
