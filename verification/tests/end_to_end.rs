//! End-to-end correctness tests.
//!
//! These tests build SAEs in memory with hand-crafted weights, run them
//! through the public API, and check:
//!   - Identity-like SAE round-trips a known vector to within float rounding.
//!   - JumpReLU output zeros entries at-or-below threshold.
//!   - TopK output preserves exactly k entries with stable tie-breaking.
//!   - The SAELens loader recovers the same SAE that was written.

use std::collections::BTreeMap;

use safetensors::{serialize, tensor::TensorView, Dtype};

use saeitoshi::backends::{AVX2, SCALAR};
use saeitoshi::bits::FloatOp;
use saeitoshi::config::{Architecture, NormalizeMode, SaeConfig, WeightDtype};
use saeitoshi::error::SaeError;
use saeitoshi::kernels::decoder::is_decodable;
use saeitoshi::kernels::topk::TopkFn;
use saeitoshi::loader::saelens::{load_dir, RawCfg};
use saeitoshi::sae::{DecoderWeights, EncoderWeights, Sae, SparseOut, WeightLayout};
use saeitoshi::sit;
use saeitoshi::sit::container::{frame, split};
use saeitoshi::sit::reader::{is_readable, read};
use saeitoshi::sparsify::{Sparsifier, TopKScratch};

fn unit(op: FloatOp) -> u32 {
    let f = f32::from_bits;
    let r: f32 = match op {
        FloatOp::Add(a, b) => f(a) + f(b),
        FloatOp::Sub(a, b) => f(a) - f(b),
        FloatOp::Mul(a, b) => f(a) * f(b),
        FloatOp::Div(a, b) => f(a) / f(b),
        FloatOp::MulAdd(x, w, acc) => f(x).mul_add(f(w), f(acc)),
        FloatOp::Sqrt(a) => f(a).sqrt(),
        FloatOp::FromCount(n) => n as f32,
    };
    r.to_bits()
}

fn bits(v: &[f32]) -> Vec<u32> {
    v.iter().map(|x| x.to_bits()).collect()
}

fn floats(v: &[u32]) -> Vec<f32> {
    v.iter().map(|x| f32::from_bits(*x)).collect()
}

fn identity_encoder(d: usize) -> EncoderWeights {
    let mut w_enc = vec![0.0f32; d * d];
    for f in 0..d {
        w_enc[f * d + f] = 1.0;
    }
    EncoderWeights {
        w_enc: bits(&w_enc),
        b_enc: bits(&vec![0.0; d]),
        d_in: d,
        d_sae: d,
        layout: WeightLayout::RowMajor,
    }
}

fn identity_decoder(d: usize) -> DecoderWeights {
    let enc = identity_encoder(d);
    DecoderWeights { w_dec: enc.w_enc, b_dec: enc.b_enc, d_in: d, d_sae: d }
}

fn identity_config(d: usize, k: usize) -> SaeConfig {
    SaeConfig {
        architecture: Architecture::Topk,
        d_in: d,
        d_sae: d,
        weight_dtype: WeightDtype::F32,
        apply_b_dec_to_input: false,
        normalize_activations: NormalizeMode::Off,
        k: Some(k),
        rescale_by_decoder_norm: false,
    }
}

fn identity_sae(d: usize, k: usize) -> Sae {
    // W_enc and W_dec are identity matrices; b_enc, b_dec are zero.
    // TopK with k=d selects everything → exact round-trip on positive inputs.
    let sparsifier = Sparsifier::TopK { k: k as u32, post_relu: false, rescale: None };
    Sae::from_parts(identity_config(d, k), identity_encoder(d), identity_decoder(d), sparsifier, SCALAR)
        .unwrap()
}

fn identity_with(d: usize, sparsifier: Sparsifier) -> Sae {
    Sae::from_parts(identity_config(d, d), identity_encoder(d), identity_decoder(d), sparsifier, SCALAR)
        .unwrap()
}

fn encode(sae: &Sae, x: &[f32], batch: usize) -> SparseOut {
    let mut z = SparseOut::new(sae.d_sae() as u32);
    sae.encode(&bits(x), batch, &mut z, &unit).unwrap();
    z
}

#[test]
fn identity_sae_roundtrip() {
    let d = 8;
    let sae = identity_sae(d, d);
    let x: Vec<f32> = (1..=d).map(|i| i as f32).collect();
    let mut recon = vec![0u32; d];
    sae.reconstruct(&bits(&x), 1, &mut recon, &unit).unwrap();
    for (a, b) in x.iter().zip(floats(&recon).iter()) {
        assert!((a - b).abs() < 1e-6, "{a} vs {b}");
    }
}

#[test]
fn topk_selects_k_largest() {
    let d = 8;
    let sae = identity_sae(d, 3);
    let z = encode(&sae, &[1.0f32, 5.0, 2.0, 4.0, 3.0, 0.5, 7.0, 6.0], 1);
    assert_eq!(z.batch_size(), 1);
    assert_eq!(z.nnz_in_row(0), 3);
    // top-3 in x are indices {1: 5.0, 6: 7.0, 7: 6.0}; sorted by index ascending.
    assert_eq!(z.row_indices(0), &[1, 6, 7]);
    let vs = floats(z.row_values(0));
    assert!((vs[0] - 5.0).abs() < 1e-6);
    assert!((vs[1] - 7.0).abs() < 1e-6);
    assert!((vs[2] - 6.0).abs() < 1e-6);
}

#[test]
fn topk_tie_break_index_ascending() {
    let d = 4;
    let sae = identity_sae(d, 2);
    // All scores equal: stable tie-break should pick the two lowest indices.
    let z = encode(&sae, &[3.0f32, 3.0, 3.0, 3.0], 1);
    assert_eq!(z.row_indices(0), &[0, 1]);
}

#[test]
fn jumprelu_strict_threshold_and_relu_floor() {
    let d = 4;
    let sae = identity_with(d, Sparsifier::JumpReLU { thresholds: bits(&vec![0.5; d]) });
    let z = encode(&sae, &[-1.0f32, 0.5, 0.6, 1.0], 1);
    // -1.0 → below threshold, drop. 0.5 → not strictly > 0.5, drop. 0.6, 1.0 → pass.
    assert_eq!(z.row_indices(0), &[2, 3]);
    assert!((floats(z.row_values(0))[0] - 0.6).abs() < 1e-6);
    assert!((floats(z.row_values(0))[1] - 1.0).abs() < 1e-6);
}

#[test]
fn relu_drops_nonpositive() {
    let d = 5;
    let sae = identity_with(d, Sparsifier::Relu);
    let z = encode(&sae, &[-1.0f32, 0.0, 2.0, -0.5, 3.0], 1);
    assert_eq!(z.row_indices(0), &[2, 4]);
}

#[test]
fn batched_encode_per_row_independence() {
    let d = 4;
    let sae = identity_sae(d, 2);
    let x = vec![1.0, 2.0, 3.0, 4.0, 4.0, 3.0, 2.0, 1.0]; // 2 batch rows
    let z = encode(&sae, &x, 2);
    assert_eq!(z.batch_size(), 2);
    assert_eq!(z.row_indices(0), &[2, 3]); // top-2 of [1,2,3,4]
    assert_eq!(z.row_indices(1), &[0, 1]); // top-2 of [4,3,2,1]
}

#[test]
fn shape_mismatch_returns_error() {
    let d = 4;
    let sae = identity_sae(d, 2);
    let x = vec![1.0; d - 1]; // wrong length
    let mut z = SparseOut::new(d as u32);
    assert!(sae.encode(&bits(&x), 1, &mut z, &unit).is_err());
}

// ---------- SAELens loader integration ----------

fn saelens_cfg() -> RawCfg {
    RawCfg {
        architecture: Some("topk".to_string()),
        d_in: Some(4),
        d_sae: Some(6),
        d_hidden: None,
        expansion_factor: None,
        dtype: Some("float32".to_string()),
        apply_b_dec_to_input: true,
        normalize_activations: Some("none".to_string()),
        k: Some(2),
        activation_fn_str: None,
        rescale_acts_by_decoder_norm: false,
        activation_fn: None,
    }
}

fn saelens_weights() -> Vec<u8> {
    let d_in = 4;
    let d_sae = 6;

    // SAELens stores W_enc as [d_in, d_sae] in some checkpoints. We write it that
    // way and verify the loader transposes correctly.
    let w_enc: Vec<f32> = (0..d_in * d_sae).map(|i| (i as f32) * 0.01).collect();
    let w_dec: Vec<f32> = (0..d_sae * d_in).map(|i| (i as f32) * 0.02).collect();
    let b_enc: Vec<f32> = vec![0.1; d_sae];
    let b_dec: Vec<f32> = vec![0.2; d_in];

    let mut tensors: BTreeMap<String, TensorView> = BTreeMap::new();
    tensors.insert(
        "W_enc".to_string(),
        TensorView::new(Dtype::F32, vec![d_in, d_sae], bytemuck::cast_slice(&w_enc)).unwrap(),
    );
    tensors.insert(
        "W_dec".to_string(),
        TensorView::new(Dtype::F32, vec![d_sae, d_in], bytemuck::cast_slice(&w_dec)).unwrap(),
    );
    tensors.insert(
        "b_enc".to_string(),
        TensorView::new(Dtype::F32, vec![d_sae], bytemuck::cast_slice(&b_enc)).unwrap(),
    );
    tensors.insert(
        "b_dec".to_string(),
        TensorView::new(Dtype::F32, vec![d_in], bytemuck::cast_slice(&b_dec)).unwrap(),
    );
    serialize(&tensors, &None).unwrap()
}

fn load_saelens() -> Sae {
    load_dir(&saelens_cfg(), "sae/cfg.json", saelens_weights(), SCALAR, &unit).unwrap()
}

#[test]
fn loads_saelens_directory() {
    let sae = load_saelens();
    assert_eq!(sae.d_in(), 4);
    assert_eq!(sae.d_sae(), 6);
    assert!(matches!(sae.sparsifier(), Sparsifier::TopK { k: 2, .. }));

    // Verify the loader transposed W_enc to internal [d_sae, d_in] layout.
    // Internal index [feature=0, d_in_idx=2] corresponds to the on-disk
    // W_enc[d_in_idx=2, feature=0], which is on-disk index 2*6 + 0 = 12 → 0.12.
    let expected = 12.0 * 0.01;
    let feature = 0usize;
    let d_in_idx = 2usize;
    let got = f32::from_bits(sae.encoder().w_enc[feature * 4 + d_in_idx]);
    assert!((got - expected).abs() < 1e-6, "got {got}, expected {expected}");
}

#[test]
fn loader_round_trips_through_encode_decode() {
    let sae = load_saelens();
    let x = bits(&[0.5f32, -0.5, 1.0, 0.25]);
    let mut recon = vec![0u32; sae.d_in()];
    sae.reconstruct(&x, 1, &mut recon, &unit).unwrap();
    // We don't assert a specific value (the weights are arbitrary), only that
    // the pipeline runs without errors and produces finite output.
    for v in floats(&recon) {
        assert!(v.is_finite(), "non-finite reconstruction: {v}");
    }
}

// ---------- .sit format round-trip ----------

/// Write an SAE as the bytes of a `.sit` file and read it back. (The header
/// text is not parsed here: the header goes with it.)
fn through_sit(sae: &Sae) -> Sae {
    let (header, blob) = sit::write(sae);
    let json = b"{\"header\":\"text\"}";
    let bytes = frame(json, &blob);
    let header_len = split("out.sit", &bytes).unwrap();
    assert_eq!(&bytes[16..16 + header_len], json);
    assert!(is_readable("out.sit", &bytes, header_len, &header));
    read("out.sit", &bytes, header_len, &header, SCALAR).unwrap()
}

#[test]
fn sit_round_trip_topk() {
    let sae = load_saelens();
    let loaded = through_sit(&sae);
    assert_eq!(loaded.d_in(), sae.d_in());
    assert_eq!(loaded.d_sae(), sae.d_sae());

    // Same encode on same input → same SparseFeatures.
    let x = [0.5f32, -0.5, 1.0, 0.25];
    let z1 = encode(&sae, &x, 1);
    let z2 = encode(&loaded, &x, 1);
    assert_eq!(z1.indices, z2.indices);
    for (a, b) in floats(&z1.values).iter().zip(floats(&z2.values).iter()) {
        assert!((a - b).abs() < 1e-6, "{a} vs {b}");
    }
}

#[test]
fn sit_round_trip_jumprelu() {
    let d = 8;
    let with_jumprelu = identity_with(d, Sparsifier::JumpReLU { thresholds: bits(&vec![0.5; d]) });
    let loaded = through_sit(&with_jumprelu);
    assert!(matches!(loaded.sparsifier(), Sparsifier::JumpReLU { .. }));

    let z = encode(&loaded, &[-1.0f32, 0.5, 0.6, 1.0, 0.0, 2.0, -0.3, 0.51], 1);
    assert_eq!(z.row_indices(0), &[2, 3, 5, 7]);
}

// ---------- further scenarios ----------

#[test]
fn mismatches_name_what_they_are_about() {
    let d = 4;
    let sae = identity_sae(d, 2);
    let mut z = SparseOut::new(9);
    z.indices.push(7);
    match sae.encode(&bits(&[1.0; 3]), 1, &mut z, &unit) {
        Err(SaeError::ShapeMismatch { name, expected, got }) => {
            assert_eq!((name.as_str(), expected, got), ("x", vec![4], vec![3]));
        }
        other => panic!("{other:?}"),
    }
    // A refused input leaves the output alone.
    assert_eq!((z.d_sae, z.indices.clone()), (9, vec![7]));

    let z = encode(&sae, &[1.0, 2.0, 3.0, 4.0], 1);
    let mut out = vec![5u32; 3];
    match sae.decode(&z, &mut out, &unit) {
        Err(SaeError::ShapeMismatch { name, expected, got }) => {
            assert_eq!((name.as_str(), expected, got), ("out", vec![4], vec![3]));
        }
        other => panic!("{other:?}"),
    }
    assert_eq!(out, vec![5, 5, 5]);
    let mut out = vec![0u32; 4];
    match sae.decode(&SparseOut { d_sae: 9, ..encode(&sae, &[1.0, 2.0, 3.0, 4.0], 1) }, &mut out, &unit) {
        Err(SaeError::ShapeMismatch { name, expected, got }) => {
            assert_eq!((name.as_str(), expected, got), ("z.d_sae", vec![4], vec![9]));
        }
        other => panic!("{other:?}"),
    }
    match sae.reconstruct(&bits(&[1.0; 4]), 1, &mut [0u32; 2], &unit) {
        Err(SaeError::ShapeMismatch { name, .. }) => assert_eq!(name, "out"),
        other => panic!("{other:?}"),
    }
}

#[test]
fn parts_must_fit_together() {
    let name_of = |cfg: SaeConfig, enc: EncoderWeights, dec: DecoderWeights| match Sae::from_parts(
        cfg,
        enc,
        dec,
        Sparsifier::Relu,
        SCALAR,
    ) {
        Err(SaeError::ShapeMismatch { name, expected, got }) => (name, expected, got),
        other => panic!("{other:?}"),
    };
    let d = 3;
    let cfg = identity_config(d, d);
    let enc = || identity_encoder(d);
    let dec = || identity_decoder(d);
    assert_eq!(
        name_of(SaeConfig { d_in: 2, ..cfg }, enc(), dec()),
        ("encoder".to_string(), vec![3, 2], vec![3, 3])
    );
    assert_eq!(
        name_of(cfg, enc(), DecoderWeights { d_sae: 5, ..dec() }),
        ("decoder".to_string(), vec![3, 3], vec![5, 3])
    );
    assert_eq!(
        name_of(cfg, EncoderWeights { w_enc: vec![0; 8], ..enc() }, dec()),
        ("w_enc.len".to_string(), vec![9], vec![8])
    );
    assert_eq!(
        name_of(cfg, enc(), DecoderWeights { w_dec: vec![0; 10], ..dec() }),
        ("w_dec.len".to_string(), vec![9], vec![10])
    );
    assert_eq!(
        name_of(cfg, EncoderWeights { b_enc: vec![0; 2], ..enc() }, dec()),
        ("b_enc".to_string(), vec![3], vec![2])
    );
    assert_eq!(
        name_of(cfg, enc(), DecoderWeights { b_dec: vec![0; 4], ..dec() }),
        ("b_dec".to_string(), vec![3], vec![4])
    );
}

#[test]
fn decoder_bias_is_subtracted_before_and_added_after() {
    let d = 2;
    let mut dec = identity_decoder(d);
    dec.b_dec = bits(&[10.0, 20.0]);
    let cfg = SaeConfig { apply_b_dec_to_input: true, ..identity_config(d, d) };
    let sae = Sae::from_parts(cfg, identity_encoder(d), dec, Sparsifier::Relu, SCALAR).unwrap();
    let z = encode(&sae, &[13.0, 18.0], 1);
    assert_eq!(z.row_indices(0), &[0]);
    assert_eq!(floats(z.row_values(0)), vec![3.0]);
    let mut out = vec![0u32; d];
    sae.decode(&z, &mut out, &unit).unwrap();
    assert_eq!(floats(&out), vec![13.0, 20.0]);
}

#[test]
fn topk_rescales_before_it_selects() {
    let rescale = Some(bits(&[1.0, 10.0, 1.0]));
    let sae = identity_with(3, Sparsifier::TopK { k: 1, post_relu: false, rescale });
    let z = encode(&sae, &[2.0, 1.0, 3.0], 1);
    assert_eq!(z.row_indices(0), &[1]);
    assert_eq!(floats(z.row_values(0)), vec![10.0]);
}

#[test]
fn topk_with_relu_drops_what_is_not_positive() {
    let with = |post_relu| identity_with(4, Sparsifier::TopK { k: 3, post_relu, rescale: None });
    let x = [-1.0f32, 2.0, -3.0, -0.5];
    assert_eq!(encode(&with(true), &x, 1).row_indices(0), &[1]);
    assert_eq!(encode(&with(false), &x, 1).row_indices(0), &[0, 1, 3]);
}

#[test]
fn encode_clears_and_dense_form_reads_back() {
    let d = 3;
    let sae = identity_with(d, Sparsifier::Relu);
    let mut z = SparseOut::new(77);
    for _ in 0..2 {
        sae.encode(&bits(&[1.0, 0.0, -1.0, 0.0, 2.0, 3.0]), 2, &mut z, &unit).unwrap();
        assert_eq!(z.row_offsets, vec![0, 1, 3]);
        assert_eq!(z.d_sae, 3);
        assert_eq!(floats(&z.to_dense()), vec![1.0, 0.0, 0.0, 0.0, 2.0, 3.0]);
    }
    z.clear();
    assert_eq!((z.batch_size(), z.row_offsets.clone()), (0, vec![0]));
}

#[test]
fn a_row_encodes_alike_in_any_batch() {
    let sae = load_saelens();
    let a = [0.5f32, -0.5, 1.0, 0.25];
    let b = [3.0f32, 0.5, -1.0, 2.0];
    let both = encode(&sae, &[a, b].concat(), 2);
    let alone = encode(&sae, &b, 1);
    assert_eq!(both.row_indices(1), alone.row_indices(0));
    assert_eq!(both.row_values(1), alone.row_values(0));
}

#[test]
fn packing_keeps_features() {
    let x = [0.5f32, -0.5, 1.0, 0.25];
    let z = encode(&load_saelens(), &x, 1);
    let packed = load_saelens().repacked();
    assert_eq!(packed.encoder().layout, WeightLayout::PackedPanels { m_r: 16 });
    let zp = encode(&packed, &x, 1);
    assert_eq!(z.indices, zp.indices);
    assert_eq!(z.values, zp.values);
    // A packed SAE is written as the row-major one.
    let (_, blob) = sit::write(&load_saelens());
    let (_, blob_packed) = sit::write(&packed);
    assert_eq!(blob, blob_packed);
}

#[test]
fn accessors_and_overrides() {
    let sae = identity_sae(4, 2);
    assert_eq!(sae.backend_name(), "scalar_tiled");
    assert_eq!(sae.config().k, Some(2));
    assert_eq!(sae.decoder().b_dec, vec![0; 4]);
    let sae = sae.with_backend(saeitoshi::Backend::Avx2);
    assert_eq!(sae.backend_name(), "avx2_tiled");
    let sae = sae.with_topk(saeitoshi::kernels::topk::TopkFn::Legacy);
    assert_eq!(encode(&sae, &[1.0, 5.0, 2.0, 4.0], 1).row_indices(0), &[1, 3]);
}

#[test]
fn outputs_that_cannot_be_decoded_are_told_apart() {
    let sae = identity_sae(4, 2);
    let z = encode(&sae, &[1.0, 2.0, 3.0, 4.0], 1);
    assert!(is_decodable(&z, 4));
    assert!(!is_decodable(&z, 3));
    let short = SparseOut { values: vec![], ..z.clone() };
    assert!(!is_decodable(&short, 4));
    let long = SparseOut { row_offsets: vec![0, 9], ..z.clone() };
    assert!(!is_decodable(&long, 4));
    // A row that ends before it starts is empty.
    let mut falling = SparseOut { row_offsets: vec![2, 0], ..z };
    assert!(is_decodable(&falling, 4));
    let mut out = vec![9u32; 4];
    sae.decode(&falling, &mut out, &unit).unwrap();
    assert_eq!(floats(&out), vec![0.0; 4]);
    falling.row_offsets.clear();
    assert_eq!(falling.batch_size(), 0);
    assert!(is_decodable(&falling, 4));
}

#[test]
fn encoded_rows_are_csr() {
    let d = 6;
    let sae = identity_sae(d, 3);
    let x: Vec<f32> = (0..4 * d).map(|i| ((i * 7) % 11) as f32 - 5.0).collect();
    let z = encode(&sae, &x, 4);
    assert_eq!(z.row_offsets, vec![0, 3, 6, 9, 12]);
    for b in 0..4 {
        let ids = z.row_indices(b);
        assert!(ids.windows(2).all(|w| w[0] < w[1]));
        for (id, v) in ids.iter().zip(z.row_values(b)) {
            assert_eq!(f32::from_bits(*v), x[b * d + *id as usize]);
        }
    }
}

#[test]
fn the_two_zeros_tie_under_topk() {
    // Scaled or not, -0.0 and 0.0 are equal scores: the lower index is kept.
    for rescale in [None, Some(bits(&[2.0, 2.0, 2.0]))] {
        let sparsifier = Sparsifier::TopK { k: 1, post_relu: false, rescale };
        for choice in [TopkFn::Heap, TopkFn::Legacy] {
            let mut row = bits(&[-0.0, 0.0, -1.0]);
            let mut z = SparseOut::new(3);
            let mut scratch = TopKScratch::new();
            sparsifier.apply(&mut row, 1, 3, &mut z, &mut scratch, choice, &unit);
            assert_eq!(z.row_indices(0), &[0]);
            assert_eq!(z.row_values(0), bits(&[-0.0]));
        }
    }
}

fn assert_same(a: &SparseOut, b: &SparseOut) {
    assert_eq!(a.d_sae, b.d_sae);
    assert_eq!(a.row_offsets, b.row_offsets);
    assert_eq!(a.indices, b.indices);
    assert_eq!(a.values, b.values);
}

#[test]
fn outputs_do_not_depend_on_what_they_held() {
    let sae = load_saelens();
    let x = [0.5f32, -0.5, 1.0, 0.25, 3.0, 0.5, -1.0, 2.0];
    let fresh = encode(&sae, &x, 2);
    let mut used = SparseOut::new(1);
    used.indices = vec![9, 9, 9];
    used.row_offsets = vec![7];
    sae.encode(&bits(&x), 2, &mut used, &unit).unwrap();
    assert_same(&fresh, &used);
}

#[test]
fn the_topk_choice_does_not_matter() {
    let x = [0.5f32, -0.5, 1.0, 0.25, 3.0, 0.5, -1.0, 2.0];
    let heap = encode(&load_saelens().with_topk(TopkFn::Heap), &x, 2);
    assert_same(&heap, &encode(&load_saelens().with_topk(TopkFn::Legacy), &x, 2));
}

#[test]
fn a_copy_encodes_as_its_original() {
    let x = [0.5f32, -0.5, 1.0, 0.25, 3.0, 0.5, -1.0, 2.0];
    for backend in [SCALAR, AVX2] {
        let sae = load_saelens().with_backend(backend);
        let copy = through_sit(&sae).with_backend(backend);
        assert_same(&encode(&sae, &x, 2), &encode(&copy, &x, 2));
        // The packed form is written alike, and packs alike once it is read.
        let packed = load_saelens().with_backend(backend).repacked();
        let copy = through_sit(&packed).with_backend(backend).repacked();
        let z = encode(&packed, &x, 2);
        assert_same(&z, &encode(&copy, &x, 2));
        // With scalar arithmetic the copy need not be packed.
        if backend == SCALAR {
            assert_same(&z, &encode(&through_sit(&packed), &x, 2));
        }
        let (mut a, mut b) = (vec![0u32; 8], vec![1u32; 8]);
        packed.decode(&z, &mut a, &unit).unwrap();
        copy.decode(&z, &mut b, &unit).unwrap();
        assert_eq!(a, b);
    }
}

#[test]
fn preparation_comes_first() {
    let d = 4;
    let x = [4.0f32, 2.0, 0.0, 2.0, 1.0, 1.0, 1.0, 5.0];
    let mut dec = identity_decoder(d);
    dec.b_dec = bits(&[0.5, -0.25, 0.125, 1.0]);
    for mode in [
        NormalizeMode::Off,
        NormalizeMode::ExpectedAverageOnlyIn,
        NormalizeMode::ConstantNormRescale,
        NormalizeMode::LayerNorm,
    ] {
        for shift in [false, true] {
            let parts = |mode, shift| {
                let cfg = SaeConfig {
                    normalize_activations: mode,
                    apply_b_dec_to_input: shift,
                    ..identity_config(d, d)
                };
                let dec = DecoderWeights {
                    w_dec: dec.w_dec.clone(),
                    b_dec: dec.b_dec.clone(),
                    d_in: d,
                    d_sae: d,
                };
                Sae::from_parts(cfg, identity_encoder(d), dec, Sparsifier::Relu, SCALAR).unwrap()
            };
            let sae = parts(mode, shift);
            let y = sae.prepare_input(&bits(&x), 2, &unit);
            let z = encode(&sae, &x, 2);
            assert_same(&z, &encode(&parts(NormalizeMode::Off, false), &floats(&y), 2));
        }
    }
    // The mean first (2 and 2), then the bias.
    let cfg = SaeConfig {
        normalize_activations: NormalizeMode::ExpectedAverageOnlyIn,
        apply_b_dec_to_input: true,
        ..identity_config(d, d)
    };
    let sae = Sae::from_parts(cfg, identity_encoder(d), dec, Sparsifier::Relu, SCALAR).unwrap();
    let y = sae.prepare_input(&bits(&x), 2, &unit);
    assert_eq!(floats(&y), vec![1.5, 0.25, -2.125, -1.0, -1.5, -0.75, -1.125, 2.0]);
}
