use par2rust::galois::gf_mul;
use par2rust::galois_simd::gfni::{affine_apply, gf_mul_xor_gfni, gf_mul_xor_gfni_avx512, GfniTables};
use par2rust::galois_simd::{
    detect_dispatch, gf_mul_xor_dispatch, gf_mul_xor_neon, gf_mul_xor_ssse3,
    gf_mul_xor_table_scalar, gf_mul_xor_with_tables, CoeffSimdTables, CoeffTables, CpuFeatures,
    Dispatch, NeonTables, X86Tables,
};
use par2rust::reedsolomon::gf_mul_xor_scalar;

const NO_FEATURES: CpuFeatures = CpuFeatures {
    neon: false,
    ssse3: false,
    gfni: false,
    avx512f: false,
    avx512bw: false,
};

const ALL_PATHS: [Dispatch; 6] = [
    Dispatch::Scalar,
    Dispatch::TableScalar,
    Dispatch::Neon,
    Dispatch::Ssse3,
    Dispatch::Gfni,
    Dispatch::GfniAvx512,
];

fn this_machine() -> CpuFeatures {
    CpuFeatures { ssse3: true, ..NO_FEATURES }
}

fn deterministic(seed: u64, len: usize) -> Vec<u8> {
    let mut state = seed.wrapping_mul(0x9E37_79B9_7F4A_7C15);
    let mut out = Vec::with_capacity(len);
    for _ in 0..len {
        state = state.wrapping_mul(6364136223846793005).wrapping_add(1442695040888963407);
        out.push((state >> 33) as u8);
    }
    out
}

fn check_against_scalar(coeff: u16, input: &[u8], dispatch: Dispatch) {
    let mut out_scalar = vec![0u8; input.len()];
    gf_mul_xor_scalar(coeff, input, &mut out_scalar);

    let mut out_other = vec![0u8; input.len()];
    gf_mul_xor_dispatch(dispatch, coeff, input, &mut out_other);

    assert_eq!(
        out_scalar,
        out_other,
        "dispatch {:?} diverged from scalar for coeff=0x{:04X}, len={}",
        dispatch,
        coeff,
        input.len(),
    );
}

#[test]
fn table_scalar_matches_scalar_for_random_inputs() {
    let coeffs = [0x0001u16, 0x0002, 0x00FF, 0x1234, 0xABCD, 0xFFFF];
    let lengths = [2usize, 4, 16, 30, 32, 34, 64, 256, 4096];
    for &coeff in &coeffs {
        for &len in &lengths {
            let input = deterministic(coeff as u64 ^ len as u64, len);
            check_against_scalar(coeff, &input, Dispatch::TableScalar);
        }
    }
}

#[test]
fn dispatch_zero_is_noop() {
    let input = deterministic(1, 32);
    let mut out = vec![0xAB; 32];
    gf_mul_xor_dispatch(detect_dispatch(this_machine()), 0, &input, &mut out);
    assert!(out.iter().all(|&b| b == 0xAB));
}

#[test]
fn dispatch_one_is_xor() {
    let input = deterministic(7, 64);
    let mut out_dispatch = vec![0x33; 64];
    let mut out_xor = vec![0x33; 64];
    gf_mul_xor_dispatch(detect_dispatch(this_machine()), 1, &input, &mut out_dispatch);
    for (a, b) in out_xor.iter_mut().zip(input.iter()) {
        *a ^= *b;
    }
    assert_eq!(out_dispatch, out_xor);
}

#[test]
fn neon_matches_scalar_for_random_coeffs_and_lengths() {
    let coeffs = [0x0002u16, 0x00FF, 0x0100, 0x1234, 0x8000, 0xABCD, 0xFFFE, 0xFFFF];
    // Mix of clean multiples of 32 and trailing fragments.
    let lengths = [2usize, 4, 16, 30, 32, 34, 62, 64, 96, 100, 1024, 4096, 4098];
    for &coeff in &coeffs {
        for &len in &lengths {
            let input = deterministic((coeff as u64).rotate_left(13) ^ len as u64, len);
            check_against_scalar(coeff, &input, Dispatch::Neon);
        }
    }
}

#[test]
fn ssse3_matches_scalar_when_available() {
    let coeffs = [0x0002u16, 0x1234, 0xABCD, 0xFFFF];
    let lengths = [32usize, 34, 64, 100, 4096];
    for &coeff in &coeffs {
        for &len in &lengths {
            let input = deterministic(coeff as u64 ^ len as u64, len);
            check_against_scalar(coeff, &input, Dispatch::Ssse3);
        }
    }
}

#[test]
fn every_path_matches_scalar() {
    let coeffs = [0x0000u16, 0x0001, 0x0002, 0x8000, 0x1234, 0xFFFF];
    let lengths = [0usize, 2, 30, 32, 34, 126, 128, 130, 160, 162, 256, 300];
    for &d in &ALL_PATHS {
        for &coeff in &coeffs {
            for &len in &lengths {
                let input = deterministic(coeff as u64 + 3 * len as u64, len);
                check_against_scalar(coeff, &input, d);
            }
        }
    }
}

#[test]
fn detection_prefers_the_widest_unit() {
    assert_eq!(detect_dispatch(NO_FEATURES), Dispatch::TableScalar);
    assert_eq!(detect_dispatch(CpuFeatures { ssse3: true, ..NO_FEATURES }), Dispatch::Ssse3);
    assert_eq!(detect_dispatch(CpuFeatures { gfni: true, ..NO_FEATURES }), Dispatch::TableScalar);
    assert_eq!(
        detect_dispatch(CpuFeatures { gfni: true, ssse3: true, ..NO_FEATURES }),
        Dispatch::Gfni
    );
    assert_eq!(
        detect_dispatch(CpuFeatures { gfni: true, ssse3: true, avx512f: true, ..NO_FEATURES }),
        Dispatch::Gfni
    );
    assert_eq!(
        detect_dispatch(CpuFeatures {
            neon: false,
            ssse3: true,
            gfni: true,
            avx512f: true,
            avx512bw: true,
        }),
        Dispatch::GfniAvx512
    );
    assert_eq!(detect_dispatch(CpuFeatures { neon: true, ..NO_FEATURES }), Dispatch::Neon);
}

#[test]
fn byte_tables_hold_products() {
    let t = CoeffTables::new(0x1234);
    for s in 0..256u16 {
        assert_eq!(t.lo[s as usize], gf_mul(0x1234, s));
        assert_eq!(t.hi[s as usize], gf_mul(0x1234, s << 8));
    }
}

#[test]
fn nibble_tables_hold_products() {
    let bytes = CoeffTables::new(0xBEEF);
    let n = NeonTables::from_coeff_tables(&bytes);
    let x = X86Tables::from_coeff_tables(&bytes);
    for k in 0..16usize {
        let p = gf_mul(0xBEEF, k as u16);
        let q = gf_mul(0xBEEF, (k as u16) << 12);
        assert_eq!(n.lo_lo[k], p as u8);
        assert_eq!(n.lo_hi[k], (p >> 8) as u8);
        assert_eq!(n.hi_lo_n16[k], q as u8);
        assert_eq!(n.hi_hi_n16[k], (q >> 8) as u8);
        assert_eq!(x.lo_lo[k], n.lo_lo[k]);
        assert_eq!(x.hi_hi_n16[k], n.hi_hi_n16[k]);
    }
}

#[test]
fn kernels_work_on_tables_directly() {
    let input = deterministic(99, 134);
    let mut expected = deterministic(5, 134);
    let start = expected.clone();
    gf_mul_xor_scalar(0x4321, &input, &mut expected);

    let bytes = CoeffTables::new(0x4321);
    let neon = NeonTables::from_coeff_tables(&bytes);
    let x86 = X86Tables::from_coeff_tables(&bytes);
    let gfni = GfniTables::from_coeff(0x4321);

    let mut out = start.clone();
    gf_mul_xor_table_scalar(&bytes, &input, &mut out);
    assert_eq!(out, expected);
    let mut out = start.clone();
    gf_mul_xor_neon(&neon, &input, &mut out);
    assert_eq!(out, expected);
    let mut out = start.clone();
    gf_mul_xor_ssse3(&x86, &input, &mut out);
    assert_eq!(out, expected);
    let mut out = start.clone();
    gf_mul_xor_gfni(&gfni, &input, &mut out);
    assert_eq!(out, expected);
    let mut out = start.clone();
    gf_mul_xor_gfni_avx512(&gfni, &input, &mut out);
    assert_eq!(out, expected);
}

#[test]
fn gfni_matrices_round_trip_every_byte_pair_sample() {
    for &coeff in &[0x0002u16, 0x00FF, 0x1234, 0x8001, 0xFFFF] {
        let t = GfniTables::from_coeff(coeff);
        for s in (0..=0xFFFFu32).step_by(257) {
            let s = s as u16;
            let (lo, hi) = t.apply_scalar(s as u8, (s >> 8) as u8);
            assert_eq!(lo as u16 | ((hi as u16) << 8), gf_mul(coeff, s));
        }
    }
}

#[test]
fn affine_identity_and_reversal() {
    // Row i in byte 7 - i, entry k in bit k: the identity has bit i in byte 7 - i.
    let identity = 0x0102_0408_1020_4080u64;
    for x in 0..=255u8 {
        assert_eq!(affine_apply(identity, x), x);
    }
    // Rows in reverse order reverse the bits.
    let reversal = 0x8040_2010_0804_0201u64;
    for x in 0..=255u8 {
        assert_eq!(affine_apply(reversal, x), x.reverse_bits());
    }
    // One row of ones is the parity.
    assert_eq!(affine_apply(0xFF00_0000_0000_0000, 0b0111_0000), 1);
    assert_eq!(affine_apply(0xFF00_0000_0000_0000, 0b0110_0000), 0);
}

#[test]
fn tables_can_be_reused() {
    let t = CoeffSimdTables::new(Dispatch::Gfni, 0x0A0B);
    let a = deterministic(1, 64);
    let b = deterministic(2, 64);
    let mut out = vec![0u8; 64];
    gf_mul_xor_with_tables(&t, &a, &mut out);
    gf_mul_xor_with_tables(&t, &b, &mut out);
    gf_mul_xor_with_tables(&t, &a, &mut out);
    let mut expected = vec![0u8; 64];
    gf_mul_xor_scalar(0x0A0B, &b, &mut expected);
    assert_eq!(out, expected);
}
