use par2rust::coprime::gcd;
use par2rust::galois::{gf16_tables, gf_mul, gf_pow};
use par2rust::reedsolomon::{generate_input_bases, gf_mul_xor_scalar, RsEncoder};

#[test]
fn first_input_base_has_logbase_one() {
    // gcd(65535, 0) = 65535, gcd(65535, 1) = 1, so the first base is 2^1.
    let bases = generate_input_bases(3);
    assert_eq!(bases[0], 2);
}

#[test]
fn input_bases_are_all_distinct() {
    let bases = generate_input_bases(1000);
    let mut sorted = bases.clone();
    sorted.sort_unstable();
    sorted.dedup();
    assert_eq!(sorted.len(), bases.len());
}

#[test]
fn input_bases_skip_logs_sharing_factors_with_65535() {
    // 65535 = 3 * 5 * 17 * 257. So logbase=3, 5, 6, 9, 10, 15, 17, 25, 30...
    // should all be skipped.
    let t = gf16_tables();
    let bases = generate_input_bases(2);
    assert_eq!(bases[0], t.antilog[1]);
    assert_eq!(bases[1], t.antilog[2]);

    let bases = generate_input_bases(20);
    let bases_as_logs: Vec<u16> = bases.iter().map(|b| t.log[*b as usize]).collect();
    for skip in [0u16, 3, 5, 6, 9, 10, 15, 17] {
        assert!(!bases_as_logs.contains(&skip), "logbase {skip} should be skipped");
    }
}

#[test]
fn coefficient_matches_explicit_power() {
    let rs = RsEncoder::new(4, 0, 5);
    for r in 0..rs.recovery_exponents.len() {
        for i in 0..rs.input_bases.len() {
            let expected = gf_pow(rs.input_bases[i], rs.recovery_exponents[r] as u32);
            assert_eq!(rs.coefficient(r, i), expected);
        }
    }
}

#[test]
fn coefficient_at_exponent_zero_is_one() {
    let rs = RsEncoder::new(3, 0, 1);
    // Recovery row 0 has exponent 0, so base^0 = 1 for every input.
    for i in 0..3 {
        assert_eq!(rs.coefficient(0, i), 1);
    }
}

#[test]
fn accumulate_with_coeff_zero_is_noop() {
    let mut out = vec![0u8; 8];
    out[0] = 0x11;
    out[7] = 0x77;
    gf_mul_xor_scalar(0, &[0xFFu8; 8], &mut out);
    assert_eq!(out[0], 0x11);
    assert_eq!(out[7], 0x77);
    assert_eq!(&out[1..7], &[0u8; 6]);
}

#[test]
fn accumulate_with_coeff_one_is_xor() {
    let input = [0x12, 0x34, 0x56, 0x78];
    let mut out = [0xAA, 0xBB, 0xCC, 0xDD];
    gf_mul_xor_scalar(1, &input, &mut out);
    assert_eq!(out, [0xAA ^ 0x12, 0xBB ^ 0x34, 0xCC ^ 0x56, 0xDD ^ 0x78]);
}

#[test]
fn accumulate_matches_per_symbol_gf_mul() {
    let coeff: u16 = 0x1234;
    let input = vec![0x11, 0x22, 0xFF, 0x00, 0x99, 0xAB];
    let mut out = vec![0x10, 0x20, 0x30, 0x40, 0x50, 0x60];
    let mut expected = out.clone();

    for k in 0..3 {
        let s = input[2 * k] as u16 | ((input[2 * k + 1] as u16) << 8);
        let p = gf_mul(coeff, s);
        expected[2 * k] ^= p as u8;
        expected[2 * k + 1] ^= (p >> 8) as u8;
    }

    gf_mul_xor_scalar(coeff, &input, &mut out);
    assert_eq!(out, expected);
}

#[test]
fn rs_encode_roundtrip_with_one_redundancy_block() {
    let rs = RsEncoder::new(2, 0, 1);
    let in0: Vec<u8> = (0..16u8).collect();
    let in1: Vec<u8> = (16..32u8).collect();

    let mut out = vec![0u8; 16];
    rs.accumulate(0, 0, &in0, &mut out);
    rs.accumulate(0, 1, &in1, &mut out);

    // Exponent 0: all coefficients are 1.
    let expected: Vec<u8> = in0.iter().zip(in1.iter()).map(|(a, b)| a ^ b).collect();
    assert_eq!(out, expected);
}

#[test]
fn field_values() {
    assert_eq!(gf_mul(0x8000, 2), 0x100B);
    assert_eq!(gf_mul(0x100B, 0x100B), 0x1BFE);
    assert_eq!(gf_mul(0, 0xABCD), 0);
    assert_eq!(gf_mul(1, 0xABCD), 0xABCD);
    assert_eq!(gf_pow(2, 16), 0x100B);
    assert_eq!(gf_pow(2, 65535), 1);
    assert_eq!(gf_pow(2, 255), 0x8D92);
    assert_eq!(gf_pow(0, 0), 1);
    assert_eq!(gf_pow(0, 5), 0);
    assert_eq!(gf_pow(0xABCD, 65535), 1);
}

#[test]
fn multiplication_is_a_field_operation_on_samples() {
    let xs = [0x0001u16, 0x0002, 0x00FF, 0x1234, 0x8000, 0xFFFF];
    for &a in &xs {
        for &b in &xs {
            assert_eq!(gf_mul(a, b), gf_mul(b, a));
            assert_ne!(gf_mul(a, b), 0);
            for &c in &xs {
                assert_eq!(gf_mul(gf_mul(a, b), c), gf_mul(a, gf_mul(b, c)));
                assert_eq!(gf_mul(a, b ^ c), gf_mul(a, b) ^ gf_mul(a, c));
            }
        }
        // a^65534 is the inverse of a.
        assert_eq!(gf_mul(a, gf_pow(a, 65534)), 1);
    }
}

#[test]
fn tables_invert_each_other() {
    let t = gf16_tables();
    assert_eq!(t.log.len(), 65536);
    assert_eq!(t.antilog.len(), 65536);
    for i in 0..65535usize {
        assert_eq!(t.log[t.antilog[i] as usize] as usize, i);
    }
    assert_eq!(t.log[0], 65535);
    assert_eq!(t.antilog[65535], 0);
    assert_eq!(t.antilog[0], 1);
    assert_eq!(t.antilog[16], 0x100B);
}

#[test]
fn gcd_values() {
    assert_eq!(gcd(65535, 0), 65535);
    assert_eq!(gcd(65535, 1), 1);
    assert_eq!(gcd(65535, 2), 1);
    assert_eq!(gcd(65535, 51), 51);
    assert_eq!(gcd(12, 18), 6);
    assert_eq!(gcd(0, 0), 0);
}

#[test]
fn all_bases_can_be_generated() {
    let bases = generate_input_bases(32768);
    assert_eq!(bases.len(), 32768);
    let mut sorted = bases.clone();
    sorted.sort_unstable();
    sorted.dedup();
    assert_eq!(sorted.len(), 32768);
    assert!(!bases.contains(&0));
    // Fewer bases are a prefix of more.
    assert_eq!(generate_input_bases(10)[..], bases[..10]);
    // The last exponent below 65535 that is coprime to it is 65534.
    assert_eq!(bases[32767], gf_pow(2, 65534));
}

#[test]
fn base_powers_are_distinct() {
    let base = generate_input_bases(5)[4];
    let mut seen = vec![false; 65536];
    let mut p = 1u16;
    for _ in 0..65535 {
        assert!(!seen[p as usize]);
        seen[p as usize] = true;
        p = gf_mul(p, base);
    }
    assert_eq!(p, 1);
}

#[test]
fn exponents_are_consecutive() {
    let rs = RsEncoder::new(1, 65530, 6);
    assert_eq!(rs.recovery_exponents, vec![65530, 65531, 65532, 65533, 65534, 65535]);
    assert_eq!(rs.input_bases, vec![2]);
}

/// Two lost slices are found again from two recovery slices by elimination.
#[test]
fn two_lost_slices_are_determined() {
    let rs = RsEncoder::new(3, 5, 2);
    let slices: [Vec<u8>; 3] = [vec![1, 2, 3, 4], vec![0xAA, 0xBB, 0xCC, 0xDD], vec![9, 8, 7, 6]];
    let mut rec = vec![vec![0u8; 4], vec![0u8; 4]];
    for r in 0..2 {
        for i in 0..3 {
            rs.accumulate(r, i, &slices[i], &mut rec[r]);
        }
    }
    // Slices 0 and 2 are lost; take slice 1 out of both recovery slices.
    for r in 0..2 {
        rs.accumulate(r, 1, &slices[1], &mut rec[r]);
    }
    let (a, b) = (rs.coefficient(0, 0), rs.coefficient(0, 2));
    let (c, d) = (rs.coefficient(1, 0), rs.coefficient(1, 2));
    let det = gf_mul(a, d) ^ gf_mul(b, c);
    assert_ne!(det, 0);
    let inv = gf_pow(det, 65534);
    for k in 0..2 {
        let r0 = rec[0][2 * k] as u16 | ((rec[0][2 * k + 1] as u16) << 8);
        let r1 = rec[1][2 * k] as u16 | ((rec[1][2 * k + 1] as u16) << 8);
        let x = gf_mul(inv, gf_mul(d, r0) ^ gf_mul(b, r1));
        let y = gf_mul(inv, gf_mul(a, r1) ^ gf_mul(c, r0));
        assert_eq!(x, slices[0][2 * k] as u16 | ((slices[0][2 * k + 1] as u16) << 8));
        assert_eq!(y, slices[2][2 * k] as u16 | ((slices[2][2 * k + 1] as u16) << 8));
    }
}

#[test]
fn multiply_xor_laws_on_values() {
    let x = vec![1u8, 2, 3, 4];
    let y = vec![7u8, 7, 0, 1];
    let start = vec![0x55u8; 4];
    // Twice the same cancels.
    let mut out = start.clone();
    gf_mul_xor_scalar(0x1357, &x, &mut out);
    gf_mul_xor_scalar(0x1357, &x, &mut out);
    assert_eq!(out, start);
    // The order does not matter.
    let mut ab = start.clone();
    gf_mul_xor_scalar(3, &x, &mut ab);
    gf_mul_xor_scalar(5, &y, &mut ab);
    let mut ba = start.clone();
    gf_mul_xor_scalar(5, &y, &mut ba);
    gf_mul_xor_scalar(3, &x, &mut ba);
    assert_eq!(ab, ba);
    // Coefficients add.
    let mut both = start.clone();
    gf_mul_xor_scalar(3, &x, &mut both);
    gf_mul_xor_scalar(5, &x, &mut both);
    let mut sum = start.clone();
    gf_mul_xor_scalar(3 ^ 5, &x, &mut sum);
    assert_eq!(both, sum);
}
