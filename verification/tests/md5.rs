use par2rust::md5_impl::{digest, Md5Ctx};
use par2rust::md5_mb_neon::digest4;

fn scalar(b: &[u8]) -> [u8; 16] {
    digest(b)
}

fn deterministic(seed: u64, len: usize) -> Vec<u8> {
    let mut state = seed.wrapping_mul(0x9E37_79B9_7F4A_7C15);
    let mut out = Vec::with_capacity(len);
    for _ in 0..len {
        state = state.wrapping_mul(6364136223846793005).wrapping_add(1442695040888963407);
        out.push((state >> 33) as u8);
    }
    out
}

#[test]
fn known_md5_vectors() {
    // MD5("") = d41d8cd98f00b204e9800998ecf8427e
    assert_eq!(
        digest(b""),
        [
            0xd4, 0x1d, 0x8c, 0xd9, 0x8f, 0x00, 0xb2, 0x04, 0xe9, 0x80, 0x09, 0x98, 0xec, 0xf8,
            0x42, 0x7e,
        ]
    );
    // MD5("abc") = 900150983cd24fb0d6963f7d28e17f72
    assert_eq!(
        digest(b"abc"),
        [
            0x90, 0x01, 0x50, 0x98, 0x3c, 0xd2, 0x4f, 0xb0, 0xd6, 0x96, 0x3f, 0x7d, 0x28, 0xe1,
            0x7f, 0x72,
        ]
    );
}

#[test]
fn streaming_matches_one_shot() {
    let data = b"the quick brown fox jumps over the lazy dog";
    let one_shot = digest(data);
    let streamed = {
        let mut ctx = Md5Ctx::new();
        // Update in two chunks to exercise the streaming path.
        ctx.update(&data[..15]);
        ctx.update(&data[15..]);
        ctx.finalize()
    };
    assert_eq!(one_shot, streamed);
}

#[test]
fn streaming_matches_one_shot_for_every_cut() {
    let data = deterministic(3, 200);
    let whole = digest(&data);
    for cut in 0..=data.len() {
        let mut ctx = Md5Ctx::new();
        ctx.update(&data[..cut]);
        ctx.update(&[]);
        ctx.update(&data[cut..]);
        assert_eq!(ctx.finalize(), whole);
    }
    assert_eq!(Md5Ctx::new().finalize(), digest(&[]));
}

#[test]
fn rfc1321_empty() {
    // MD5("") = d41d8cd98f00b204e9800998ecf8427e
    let empty = [0u8; 0];
    let bufs = [&empty[..]; 4];
    let digests = digest4(bufs);
    let expected = [
        0xd4, 0x1d, 0x8c, 0xd9, 0x8f, 0x00, 0xb2, 0x04, 0xe9, 0x80, 0x09, 0x98, 0xec, 0xf8, 0x42,
        0x7e,
    ];
    for d in &digests {
        assert_eq!(d, &expected);
    }
}

#[test]
fn rfc1321_abc() {
    // MD5("abc") = 900150983cd24fb0d6963f7d28e17f72
    let abc = b"abc";
    let bufs = [&abc[..]; 4];
    let digests = digest4(bufs);
    let expected = [
        0x90, 0x01, 0x50, 0x98, 0x3c, 0xd2, 0x4f, 0xb0, 0xd6, 0x96, 0x3f, 0x7d, 0x28, 0xe1, 0x7f,
        0x72,
    ];
    for d in &digests {
        assert_eq!(d, &expected);
    }
}

#[test]
fn matches_scalar_across_lengths() {
    // Padding edge cases: exact block boundary, one padding block, two padding
    // blocks, and longer streams.
    let lengths = [
        0usize, 1, 3, 55, 56, 57, 63, 64, 65, 119, 120, 127, 128, 191, 192, 255, 256, 1000, 4096,
        8192, 65536,
    ];
    for &len in &lengths {
        // Each lane gets a different buffer.
        let b0 = deterministic(0x11, len);
        let b1 = deterministic(0x22, len);
        let b2 = deterministic(0x33, len);
        let b3 = deterministic(0x44, len);
        let bufs = [b0.as_slice(), b1.as_slice(), b2.as_slice(), b3.as_slice()];
        let mb = digest4(bufs);
        for (lane, buf) in bufs.iter().enumerate() {
            let scalar_hash = scalar(buf);
            assert_eq!(mb[lane], scalar_hash, "len={len} lane={lane}: lanes diverged from scalar");
        }
    }
}

#[test]
fn distinct_lanes_produce_distinct_digests() {
    let b0 = deterministic(1, 1024);
    let b1 = deterministic(2, 1024);
    let b2 = deterministic(3, 1024);
    let b3 = deterministic(4, 1024);
    let digests = digest4([b0.as_slice(), b1.as_slice(), b2.as_slice(), b3.as_slice()]);
    for i in 0..4 {
        for j in (i + 1)..4 {
            assert_ne!(
                digests[i], digests[j],
                "lanes {i} and {j} collapsed to the same digest"
            );
        }
    }
}
