//! Checkpoint loaders.

use std::collections::BTreeMap;

use safetensors::{serialize, tensor::TensorView, Dtype};

use saeitoshi::backends::{AVX2, SCALAR};
use saeitoshi::bits::FloatOp;
use saeitoshi::config::{Architecture, NormalizeMode, SaeConfig, WeightDtype};
use saeitoshi::error::SaeError;
use saeitoshi::loader::{detect, raw, saelens, sparsify, Format, Probe};
use saeitoshi::sae::{Sae, WeightLayout};
use saeitoshi::sparsify::Sparsifier;

fn unit(op: FloatOp) -> u32 {
    let f = f32::from_bits;
    let r: f32 = match op {
        FloatOp::Add(a, b) => f(a) + f(b),
        FloatOp::Sub(a, b) => f(a) - f(b),
        FloatOp::Mul(a, b) => f(a) * f(b),
        FloatOp::Div(a, b) => f(a) / f(b),
        FloatOp::MulAdd(x, w, acc) => f(x).mul_add(f(w), f(acc)),
        FloatOp::Sqrt(a) => f(a).sqrt(),
        FloatOp::FromCount(n) => n as f32,
    };
    r.to_bits()
}

fn floats(v: &[u32]) -> Vec<f32> {
    v.iter().map(|x| f32::from_bits(*x)).collect()
}

type Tensors = Vec<(&'static str, Vec<usize>, Vec<f32>)>;

fn file(tensors: &Tensors) -> Vec<u8> {
    let bytes: Vec<Vec<u8>> = tensors
        .iter()
        .map(|(_, _, data)| data.iter().flat_map(|v| v.to_le_bytes()).collect())
        .collect();
    let mut map: BTreeMap<String, TensorView> = BTreeMap::new();
    for (i, (name, shape, _)) in tensors.iter().enumerate() {
        map.insert(
            name.to_string(),
            TensorView::new(Dtype::F32, shape.clone(), &bytes[i]).unwrap(),
        );
    }
    serialize(&map, &None).unwrap()
}

/// Two inputs, three features.
fn weights() -> Tensors {
    vec![
        ("W_enc", vec![3, 2], vec![1.0, 2.0, 3.0, 4.0, 5.0, 6.0]),
        ("b_enc", vec![3], vec![0.1, 0.2, 0.3]),
        ("W_dec", vec![3, 2], vec![3.0, 4.0, 0.0, 2.0, 6.0, 8.0]),
        ("b_dec", vec![2], vec![0.5, 0.25]),
    ]
}

fn cfg(architecture: &str) -> saelens::RawCfg {
    saelens::RawCfg {
        architecture: Some(architecture.to_string()),
        d_in: Some(2),
        d_sae: Some(3),
        d_hidden: None,
        expansion_factor: None,
        dtype: None,
        apply_b_dec_to_input: true,
        normalize_activations: None,
        k: None,
        activation_fn_str: None,
        rescale_acts_by_decoder_norm: false,
        activation_fn: None,
    }
}

fn load(raw: &saelens::RawCfg, tensors: &Tensors) -> Result<Sae, SaeError> {
    saelens::load_dir(raw, "dir/cfg.json", file(tensors), SCALAR, &unit)
}

fn invalid(res: Result<Sae, SaeError>) -> (String, String) {
    match res {
        Err(SaeError::InvalidCheckpoint { path, reason }) => (path, reason),
        other => panic!("{other:?}"),
    }
}

fn mismatch(res: Result<Sae, SaeError>) -> (String, Vec<usize>, Vec<usize>) {
    match res {
        Err(SaeError::ShapeMismatch { name, expected, got }) => (name, expected, got),
        other => panic!("{other:?}"),
    }
}

#[test]
fn saelens_standard_is_relu() {
    let sae = load(&cfg("standard"), &weights()).unwrap();
    assert!(matches!(sae.sparsifier(), Sparsifier::Relu));
    assert_eq!(sae.encoder().layout, WeightLayout::RowMajor);
    assert_eq!(floats(&sae.encoder().w_enc), vec![1.0, 2.0, 3.0, 4.0, 5.0, 6.0]);
    assert_eq!(floats(&sae.encoder().b_enc), vec![0.1, 0.2, 0.3]);
    assert_eq!(floats(&sae.decoder().w_dec), vec![3.0, 4.0, 0.0, 2.0, 6.0, 8.0]);
    assert_eq!(floats(&sae.decoder().b_dec), vec![0.5, 0.25]);
    assert_eq!(sae.config().architecture, Architecture::Standard);
    assert_eq!(sae.backend_name(), "scalar_tiled");
}

#[test]
fn both_orientations_load_alike() {
    let mut t = weights();
    t[0] = ("W_enc", vec![2, 3], vec![1.0, 3.0, 5.0, 2.0, 4.0, 6.0]);
    t[2] = ("W_dec", vec![2, 3], vec![3.0, 0.0, 6.0, 4.0, 2.0, 8.0]);
    let a = load(&cfg("standard"), &weights()).unwrap();
    let b = load(&cfg("standard"), &t).unwrap();
    assert_eq!(a.encoder().w_enc, b.encoder().w_enc);
    assert_eq!(a.decoder().w_dec, b.decoder().w_dec);
}

#[test]
fn batch_topk_and_jumprelu_take_the_saved_thresholds() {
    for name in ["batch_topk", "BatchTopK", "jumprelu"] {
        let mut t = weights();
        t.push(("threshold", vec![3], vec![0.5, 0.75, 1.0]));
        t.push(("log_threshold", vec![3], vec![9.0, 9.0, 9.0]));
        match load(&cfg(name), &t).unwrap().sparsifier() {
            Sparsifier::JumpReLU { thresholds } => assert_eq!(floats(thresholds), vec![0.5, 0.75, 1.0]),
            other => panic!("{other:?}"),
        }
    }
    let mut t = weights();
    t.push(("log_threshold", vec![3], vec![0.25, 0.5, 0.75]));
    match load(&cfg("jumprelu"), &t).unwrap().sparsifier() {
        Sparsifier::JumpReLU { thresholds } => assert_eq!(floats(thresholds), vec![0.25, 0.5, 0.75]),
        other => panic!("{other:?}"),
    }
    match load(&cfg("jumprelu"), &weights()) {
        Err(SaeError::MissingTensor(name)) => assert_eq!(name, "log_threshold"),
        other => panic!("{other:?}"),
    }
    let mut t = weights();
    t.push(("threshold", vec![2], vec![0.5, 0.75]));
    assert_eq!(mismatch(load(&cfg("jumprelu"), &t)), ("threshold".to_string(), vec![3], vec![2]));
}

#[test]
fn topk_takes_k_and_decoder_norms() {
    let raw = saelens::RawCfg {
        k: Some(2),
        activation_fn_str: Some("TopK_ReLU".to_string()),
        rescale_acts_by_decoder_norm: true,
        ..cfg("topk")
    };
    match load(&raw, &weights()).unwrap().sparsifier() {
        Sparsifier::TopK { k, post_relu, rescale } => {
            assert_eq!((*k, *post_relu), (2, true));
            // Norms of (3, 4), (0, 2) and (6, 8).
            assert_eq!(floats(rescale.as_ref().unwrap()), vec![5.0, 2.0, 10.0]);
        }
        other => panic!("{other:?}"),
    }
    let raw = saelens::RawCfg { k: Some(2), ..cfg("TOPK") };
    match load(&raw, &weights()).unwrap().sparsifier() {
        Sparsifier::TopK { k: 2, post_relu: false, rescale: None } => {}
        other => panic!("{other:?}"),
    }
    assert_eq!(
        invalid(load(&cfg("topk"), &weights())),
        ("dir/cfg.json".to_string(), "topk arch missing k".to_string())
    );
}

#[test]
fn scaling_factors_are_folded_into_the_decoder() {
    let with = |shape: Vec<usize>, data: Vec<f32>| {
        let mut t = weights();
        t.push(("scaling_factor", shape, data));
        floats(&load(&cfg("standard"), &t).unwrap().decoder().w_dec)
    };
    assert_eq!(with(vec![3], vec![2.0, 3.0, 0.5]), vec![6.0, 8.0, 0.0, 6.0, 3.0, 4.0]);
    let plain = vec![3.0, 4.0, 0.0, 2.0, 6.0, 8.0];
    assert_eq!(with(vec![3], vec![1.0, 1.0, 1.0]), plain);
    // Within the tolerance of one.
    assert_eq!(with(vec![3], vec![1.0, 1.0, 1.0 - 5e-8]), plain);
    // Of another shape.
    assert_eq!(with(vec![1, 3], vec![2.0, 3.0, 0.5]), plain);
    assert_eq!(f32::from_bits(saelens::ONES_TOLERANCE), 1e-7);
}

#[test]
fn saelens_configs_are_read_leniently() {
    let arch = |a: Option<&str>, f: Option<&str>| {
        saelens::parse_architecture(&a.map(str::to_string), &f.map(str::to_string))
    };
    assert_eq!(arch(None, None).unwrap(), Architecture::Standard);
    assert_eq!(arch(None, Some("TopK")).unwrap(), Architecture::Topk);
    assert_eq!(arch(Some("Standard"), Some("topk_relu")).unwrap(), Architecture::Topk);
    assert_eq!(arch(None, Some("jumprelu")).unwrap(), Architecture::Jumprelu);
    assert_eq!(arch(Some("topk"), Some("jumprelu")).unwrap(), Architecture::Topk);
    assert_eq!(arch(Some("batchtopk"), None).unwrap(), Architecture::BatchTopk);
    assert_eq!(arch(Some("GATED"), None).unwrap(), Architecture::Gated);
    match arch(Some("Mystery"), None) {
        Err(SaeError::UnknownArchitecture(name)) => assert_eq!(name, "mystery"),
        other => panic!("{other:?}"),
    }
    let mode = |s: Option<&str>| saelens::parse_normalize(&s.map(str::to_string));
    assert_eq!(mode(None), NormalizeMode::Off);
    assert_eq!(mode(Some("none")), NormalizeMode::Off);
    assert_eq!(mode(Some("Expected_Average_Only_In")), NormalizeMode::ExpectedAverageOnlyIn);
    assert_eq!(mode(Some("constant_norm_rescale")), NormalizeMode::ConstantNormRescale);
    assert_eq!(mode(Some("layer_norm")), NormalizeMode::LayerNorm);
    let dtype = |s: Option<&str>| saelens::parse_dtype(&s.map(str::to_string));
    assert_eq!(dtype(None), WeightDtype::F32);
    assert_eq!(dtype(Some("float32")), WeightDtype::F32);
    assert_eq!(dtype(Some("FLOAT16")), WeightDtype::F16);
    assert_eq!(dtype(Some("f16")), WeightDtype::F16);
    assert_eq!(dtype(Some("bfloat16")), WeightDtype::Bf16);
    assert_eq!(dtype(Some("i8")), WeightDtype::I8);
}

#[test]
fn the_number_of_features_has_three_spellings() {
    let base = || saelens::RawCfg { d_sae: None, ..cfg("standard") };
    let d_sae = |raw: &saelens::RawCfg| saelens::parse_config(raw, "p").unwrap().d_sae;
    assert_eq!(d_sae(&saelens::RawCfg { d_sae: Some(9), d_hidden: Some(5), ..base() }), 9);
    assert_eq!(d_sae(&saelens::RawCfg { d_hidden: Some(5), expansion_factor: Some(8), ..base() }), 5);
    assert_eq!(d_sae(&saelens::RawCfg { expansion_factor: Some(8), ..base() }), 16);
    assert_eq!(
        invalid(load(&base(), &weights())),
        ("dir/cfg.json".to_string(), "missing d_sae / d_hidden / expansion_factor".to_string())
    );
    assert_eq!(
        invalid(load(&saelens::RawCfg { d_in: None, ..base() }, &weights())),
        ("dir/cfg.json".to_string(), "missing d_in".to_string())
    );
}

#[test]
fn saelens_refuses_what_does_not_fit() {
    match load(&cfg("gated"), &weights()) {
        Err(SaeError::UnknownArchitecture(msg)) => {
            assert_eq!(msg, "gated SAEs are not implemented in v0")
        }
        other => panic!("{other:?}"),
    }
    for (i, name, shape, len, expected) in [
        (0usize, "W_enc", vec![3usize, 3], 9usize, vec![3usize, 2]),
        (1, "b_enc", vec![2], 2, vec![3]),
        (2, "W_dec", vec![6], 6, vec![3, 2]),
        (3, "b_dec", vec![2, 1], 2, vec![2]),
    ] {
        let mut t = weights();
        t[i] = (name, shape.clone(), vec![0.0; len]);
        assert_eq!(mismatch(load(&cfg("standard"), &t)), (name.to_string(), expected, shape));
        let mut t = weights();
        t.remove(i);
        match load(&cfg("standard"), &t) {
            Err(SaeError::MissingTensor(missing)) => assert_eq!(missing, name),
            other => panic!("{other:?}"),
        }
    }
    // The first missing tensor is named: W_enc, W_dec, b_enc, b_dec.
    match load(&cfg("standard"), &vec![("W_enc", vec![3, 2], vec![0.0; 6])]) {
        Err(SaeError::MissingTensor(missing)) => assert_eq!(missing, "W_dec"),
        other => panic!("{other:?}"),
    }
    let res = saelens::load_dir(&cfg("standard"), "p", vec![0; 3], SCALAR, &unit);
    assert!(matches!(res, Err(SaeError::Safetensors(_))));
}

#[test]
fn sparsify_checkpoints_load() {
    let raw = |signed| sparsify::RawCfg { d_in: 2, expansion_factor: 3, k: 4, signed };
    let t: Tensors = vec![
        ("encoder.weight", vec![6, 2], (0..12).map(|i| i as f32).collect()),
        ("encoder.bias", vec![6], vec![0.5; 6]),
        ("W_dec", vec![2, 6], (0..12).map(|i| i as f32).collect()),
        ("b_dec", vec![2], vec![0.5, 0.25]),
    ];
    let sae = sparsify::load_dir(&raw(false), file(&t), AVX2).unwrap();
    assert_eq!((sae.d_in(), sae.d_sae()), (2, 6));
    assert_eq!(sae.config().k, Some(4));
    assert!(sae.config().apply_b_dec_to_input);
    assert_eq!(sae.backend_name(), "avx2_tiled");
    assert!(matches!(
        sae.sparsifier(),
        Sparsifier::TopK { k: 4, post_relu: true, rescale: None }
    ));
    assert_eq!(floats(&sae.decoder().w_dec)[..4], [0.0, 6.0, 1.0, 7.0]);
    let sae = sparsify::load_dir(&raw(true), file(&t), SCALAR).unwrap();
    assert!(matches!(sae.sparsifier(), Sparsifier::TopK { post_relu: false, .. }));

    // The SAELens names do too; errors carry the sparsify names.
    let mut named = t.clone();
    named[0].0 = "W_enc";
    named[1].0 = "b_enc";
    assert!(sparsify::load_dir(&raw(false), file(&named), SCALAR).is_ok());
    named[1].1 = vec![2, 3];
    assert_eq!(
        mismatch(sparsify::load_dir(&raw(false), file(&named), SCALAR)),
        ("encoder.bias".to_string(), vec![6], vec![2, 3])
    );
    match sparsify::load_dir(&raw(false), file(&vec![t[0].clone()]), SCALAR) {
        Err(SaeError::MissingTensor(missing)) => assert_eq!(missing, "b_enc"),
        other => panic!("{other:?}"),
    }
}

#[test]
fn bare_files_load_with_a_given_config() {
    let config = |architecture| SaeConfig::new(architecture, 2, 3);
    let load = |cfg: SaeConfig, t: &Tensors| raw::load_safetensors("w.safetensors", cfg, file(t), SCALAR);
    assert!(matches!(
        load(config(Architecture::Standard), &weights()).unwrap().sparsifier(),
        Sparsifier::Relu
    ));
    let topk = SaeConfig { k: Some(7), ..config(Architecture::Topk) };
    assert!(matches!(
        load(topk, &weights()).unwrap().sparsifier(),
        Sparsifier::TopK { k: 7, post_relu: false, rescale: None }
    ));
    assert_eq!(
        invalid(load(config(Architecture::Topk), &weights())),
        ("w.safetensors".to_string(), "topk arch requires `k` in SaeConfig".to_string())
    );
    match load(config(Architecture::Gated), &weights()) {
        Err(SaeError::UnknownArchitecture(msg)) => assert_eq!(msg, "gated SAEs not supported in v0"),
        other => panic!("{other:?}"),
    }
    let mut t = weights();
    t[0].0 = "encoder.weight";
    t[1].0 = "encoder.bias";
    t.push(("threshold", vec![3], vec![0.5, 0.75, 1.0]));
    match load(config(Architecture::BatchTopk), &t).unwrap().sparsifier() {
        Sparsifier::JumpReLU { thresholds } => assert_eq!(floats(thresholds), vec![0.5, 0.75, 1.0]),
        other => panic!("{other:?}"),
    }
    match load(config(Architecture::Jumprelu), &weights()) {
        Err(SaeError::MissingTensor(missing)) => assert_eq!(missing, "threshold"),
        other => panic!("{other:?}"),
    }
}

#[test]
fn weights_files_are_picked_in_order() {
    assert_eq!(saelens::pick_weights_file("d", true, true, true).unwrap(), "sae_weights.safetensors");
    assert_eq!(saelens::pick_weights_file("d", false, true, true).unwrap(), "sae.safetensors");
    assert_eq!(saelens::pick_weights_file("d", false, false, true).unwrap(), "weights.safetensors");
    match saelens::pick_weights_file("d", false, false, false) {
        Err(SaeError::InvalidCheckpoint { path, reason }) => assert_eq!(
            (path.as_str(), reason.as_str()),
            ("d", "no sae_weights.safetensors or sae.safetensors found")
        ),
        other => panic!("{other:?}"),
    }
    assert_eq!(sparsify::pick_weights_file("d", true, true, true).unwrap(), "sae.safetensors");
    assert_eq!(sparsify::pick_weights_file("d", false, true, true).unwrap(), "sae_weights.safetensors");
    assert_eq!(sparsify::pick_weights_file("d", false, false, true).unwrap(), "weights.safetensors");
    match sparsify::pick_weights_file("d", false, false, false) {
        Err(SaeError::InvalidCheckpoint { reason, .. }) => {
            assert_eq!(reason, "no sae.safetensors / sae_weights.safetensors found")
        }
        other => panic!("{other:?}"),
    }
}

#[test]
fn formats_are_detected_from_the_layout() {
    let probe = || Probe {
        is_dir: false,
        has_cfg: false,
        is_sparsify: false,
        is_file: false,
        extension: None,
        has_parent: true,
    };
    let file = |ext: &str| Probe { is_file: true, extension: Some(ext.to_string()), ..probe() };
    assert_eq!(detect("p", &Probe { is_dir: true, has_cfg: true, ..probe() }).unwrap(), Format::SaelensDir);
    assert_eq!(
        detect("p", &Probe { is_dir: true, has_cfg: true, is_sparsify: true, ..probe() }).unwrap(),
        Format::SparsifyDir
    );
    assert_eq!(
        detect("p", &Probe { is_sparsify: true, ..file("json") }).unwrap(),
        Format::SparsifyParent
    );
    assert_eq!(detect("p", &Probe { is_sparsify: true, ..file("sit") }).unwrap(), Format::Sit);
    assert_eq!(detect("p", &file("sit")).unwrap(), Format::Sit);
    assert_eq!(detect("p", &file("SIT")).unwrap(), Format::Sit);
    assert_eq!(detect("p", &file("Json")).unwrap(), Format::SaelensParent);
    let reason = |probe: &Probe| match detect("p", probe) {
        Err(SaeError::InvalidCheckpoint { path, reason }) => {
            assert_eq!(path, "p");
            reason
        }
        other => panic!("{other:?}"),
    };
    assert_eq!(
        reason(&Probe { is_dir: true, is_sparsify: true, ..probe() }),
        "directory does not contain cfg.json"
    );
    let unrecognized = "unrecognized file; pass the SAE directory, .sit file, or a cfg.json";
    assert_eq!(reason(&file("txt")), unrecognized);
    assert_eq!(reason(&Probe { has_parent: false, ..file("json") }), unrecognized);
    assert_eq!(reason(&Probe { is_file: true, ..probe() }), unrecognized);
    assert_eq!(reason(&probe()), "no such path");
}

#[test]
fn a_sparsify_checkpoint_is_recognized_by_its_tensors() {
    let renamed = |from: &str, to: &'static str| {
        let mut t = weights();
        t.iter_mut().filter(|e| e.0 == from).for_each(|e| e.0 = to);
        t
    };
    let sparse = renamed("W_enc", "encoder.weight");
    assert!(sparsify::recognizes(&file(&sparse)));
    assert!(!sparsify::recognizes(&file(&weights())));
    assert!(!sparsify::recognizes(&file(&renamed("W_enc", "encoder"))));
    assert!(!sparsify::recognizes(b"no archive"));
    // Both names: the SAELens loader can read it.
    let mut both = sparse.clone();
    both.push(weights().remove(0));
    assert!(!sparsify::recognizes(&file(&both)));
    // What is recognized loads with the sparsify loader alone.
    match saelens::load_dir(&cfg("standard"), "c", file(&sparse), SCALAR, &unit) {
        Err(SaeError::MissingTensor(name)) => assert_eq!(name, "W_enc"),
        other => panic!("{other:?}"),
    }
}
