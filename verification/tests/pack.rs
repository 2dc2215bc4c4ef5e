//! Packing of encoder weights.

use saeitoshi::kernels::gemm::pack::{pack_w_enc, packed_len, panel_count, repack, unpack_w_enc};
use saeitoshi::kernels::gemm::{m_c_runtime, DEFAULT_M_C, DEFAULT_M_R};
use saeitoshi::sae::{EncoderWeights, WeightLayout};

fn lcg_floats(n: usize, seed: u64) -> Vec<u32> {
    let mut s = seed.wrapping_mul(0x9E3779B97F4A7C15).wrapping_add(1);
    (0..n)
        .map(|_| {
            s = s
                .wrapping_mul(6364136223846793005)
                .wrapping_add(1442695040888963407);
            (((s >> 40) as f32 / (1u32 << 24) as f32) * 2.0 - 1.0).to_bits()
        })
        .collect()
}

#[test]
fn pack_then_unpack_roundtrip() {
    for &(d_sae, d_in, m_r) in &[
        (16, 8, 16),
        (17, 8, 16), // padded panel
        (32, 16, 16),
        (33, 11, 8),
        (128, 64, 16),
    ] {
        let w = lcg_floats(d_sae * d_in, 1);
        let packed = pack_w_enc(&w, d_sae, d_in, m_r);
        let unpacked = unpack_w_enc(&packed, d_sae, d_in, m_r);
        assert_eq!(w, unpacked);
    }
}

#[test]
fn packed_indexing_matches_row_major() {
    // The formula `panel(f0) * d_in * m_r + k * m_r + lane` should
    // address the same value as `w_row_major[f * d_in + k]`.
    let d_sae = 35;
    let d_in = 13;
    let m_r = 16;
    let w = lcg_floats(d_sae * d_in, 7);
    let packed = pack_w_enc(&w, d_sae, d_in, m_r);
    for f in 0..d_sae {
        let panel = f / m_r;
        let lane = f % m_r;
        for k in 0..d_in {
            let from_row = w[f * d_in + k];
            let from_packed = packed[panel * d_in * m_r + k * m_r + lane];
            assert_eq!(from_row, from_packed, "f={f} k={k}");
        }
    }
}

#[test]
fn tail_panel_is_zero_padded() {
    // 17 features at m_r = 16 => 2 panels, second panel has 1 used + 15 padded.
    let d_sae = 17;
    let d_in = 4;
    let m_r = 16;
    let w = lcg_floats(d_sae * d_in, 9);
    let packed = pack_w_enc(&w, d_sae, d_in, m_r);
    let panel_base = d_in * m_r; // panel index 1
    for k in 0..d_in {
        // Lane 0 of panel 1 holds w[16, k]. Lanes 1..16 are padding.
        assert_eq!(packed[panel_base + k * m_r], w[16 * d_in + k]);
        for lane in 1..m_r {
            assert_eq!(f32::from_bits(packed[panel_base + k * m_r + lane]), 0.0);
        }
    }
}

#[test]
fn panel_counts_and_lengths() {
    assert_eq!(panel_count(0, 16), 0);
    assert_eq!(panel_count(1, 16), 1);
    assert_eq!(panel_count(16, 16), 1);
    assert_eq!(panel_count(17, 16), 2);
    assert_eq!(packed_len(17, 4, 16), 128);
    assert_eq!(packed_len(0, 4, 16), 0);
    assert_eq!(packed_len(17, 0, 16), 0);
}

#[test]
fn repack_is_idempotent_and_keeps_the_bias() {
    let (d_sae, d_in) = (5, 3);
    let w = lcg_floats(d_sae * d_in, 3);
    let mut enc = EncoderWeights {
        w_enc: w.clone(),
        b_enc: vec![1, 2, 3, 4, 5],
        d_in,
        d_sae,
        layout: WeightLayout::RowMajor,
    };
    repack(&mut enc, DEFAULT_M_R);
    assert_eq!(enc.layout, WeightLayout::PackedPanels { m_r: 16 });
    assert_eq!(enc.w_enc.len(), 48);
    assert_eq!(enc.b_enc, vec![1, 2, 3, 4, 5]);
    let once = enc.w_enc.clone();
    repack(&mut enc, DEFAULT_M_R);
    assert_eq!(enc.w_enc, once);
    assert_eq!(unpack_w_enc(&enc.w_enc, d_sae, d_in, 16), w);
}

#[test]
fn tile_setting_is_parsed_like_a_number() {
    assert_eq!(m_c_runtime(None), DEFAULT_M_C);
    assert_eq!(m_c_runtime(Some("256,8192,512")), 256);
    assert_eq!(m_c_runtime(Some("256")), 256);
    assert_eq!(m_c_runtime(Some("+7,1,1")), 7);
    assert_eq!(m_c_runtime(Some("007,1,1")), 7);
    for bad in ["", ",1,1", "0,1,1", "-3", "12x,1", " 12", "1 2", "+", "++1", "99999999999999999999999"] {
        assert_eq!(m_c_runtime(Some(bad)), DEFAULT_M_C, "{bad:?}");
    }
    assert_eq!(m_c_runtime(Some("18446744073709551615,1")), usize::MAX);
    assert_eq!(m_c_runtime(Some("18446744073709551616,1")), DEFAULT_M_C);
}
