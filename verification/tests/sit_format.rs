//! The `.sit` file format.

use saeitoshi::backends::{NEON, SCALAR};
use saeitoshi::config::{Architecture, SaeConfig, WeightDtype};
use saeitoshi::error::SaeError;
use saeitoshi::sae::{DecoderWeights, EncoderWeights, Sae, WeightLayout};
use saeitoshi::sit::container::{frame, split};
use saeitoshi::sit::header::{SitHeader, SparsifierKind};
use saeitoshi::sit::reader::{is_readable, read};
use saeitoshi::sit::{pad_to, FORMAT_VERSION, MAGIC};
use saeitoshi::sparsify::Sparsifier;

/// Two inputs, three features.
fn sae(sparsifier: Sparsifier) -> Sae {
    let enc = EncoderWeights {
        w_enc: vec![1, 2, 3, 4, 5, 6],
        b_enc: vec![7, 8, 9],
        d_in: 2,
        d_sae: 3,
        layout: WeightLayout::RowMajor,
    };
    let dec = DecoderWeights { w_dec: vec![11, 12, 13, 14, 15, 16], b_dec: vec![17, 18], d_in: 2, d_sae: 3 };
    Sae::from_parts(SaeConfig::new(Architecture::Topk, 2, 3), enc, dec, sparsifier, SCALAR).unwrap()
}

fn file(s: &Sae) -> (SitHeader, Vec<u8>) {
    let (header, blob) = saeitoshi::sit::write(s);
    (header, frame(b"{}", &blob))
}

fn reread(header: &SitHeader, bytes: &[u8]) -> Result<Sae, SaeError> {
    assert!(is_readable("f.sit", bytes, 2, header));
    read("f.sit", bytes, 2, header, NEON)
}

fn reason(res: Result<impl Sized, SaeError>) -> String {
    match res {
        Err(SaeError::InvalidCheckpoint { path, reason }) => {
            assert_eq!(path, "f.sit");
            reason
        }
        Err(other) => panic!("{other:?}"),
        Ok(_) => panic!("accepted"),
    }
}

#[test]
fn tensors_are_aligned_and_named() {
    let (header, blob) = saeitoshi::sit::write(&sae(Sparsifier::JumpReLU { thresholds: vec![21, 22, 23] }));
    let entries: Vec<(&str, Vec<usize>, u64, u64)> = header
        .tensors
        .iter()
        .map(|e| {
            assert_eq!((e.dtype.as_str(), e.scale_tensor.is_none()), ("f32", true));
            (e.name.as_str(), e.shape.clone(), e.offset, e.nbytes)
        })
        .collect();
    assert_eq!(
        entries,
        vec![
            ("W_enc", vec![3, 2], 0, 24),
            ("b_enc", vec![3], 64, 12),
            ("W_dec", vec![3, 2], 128, 24),
            ("b_dec", vec![2], 192, 8),
            ("threshold", vec![3], 256, 12),
        ]
    );
    assert_eq!(blob.len(), 268);
    assert_eq!(blob[64..76], [7, 0, 0, 0, 8, 0, 0, 0, 9, 0, 0, 0]);
    assert!(blob[24..64].iter().all(|b| *b == 0));
    assert_eq!(header.sparsifier, SparsifierKind::Jumprelu);
}

#[test]
fn the_frame_is_magic_version_length_header_padding() {
    let bytes = frame(b"{}", &[1, 2, 3]);
    assert_eq!(&bytes[..8], b"SAEITOSI");
    assert_eq!(MAGIC, *b"SAEITOSI");
    assert_eq!(bytes[8..16], [1, 0, 0, 0, 2, 0, 0, 0]);
    assert_eq!(FORMAT_VERSION, 1);
    assert_eq!(&bytes[16..18], b"{}");
    assert!(bytes[18..64].iter().all(|b| *b == 0));
    assert_eq!(bytes[64..], [1, 2, 3]);
    // A header that ends on the boundary needs no padding.
    assert_eq!(frame(&[b' '; 48], &[9])[64..], [9]);
    let gaps: Vec<usize> = [0, 1, 64, 65].iter().map(|&at| pad_to(64, at)).collect();
    assert_eq!(gaps, [0, 63, 0, 63]);
    assert_eq!((pad_to(1, 7), pad_to(10, 7), pad_to(7, 14)), (0, 3, 0));
}

#[test]
fn every_sparsifier_reads_back() {
    for s in [
        Sparsifier::Relu,
        Sparsifier::JumpReLU { thresholds: vec![21, 22, 23] },
        Sparsifier::TopK { k: 2, post_relu: true, rescale: None },
        Sparsifier::TopK { k: 5, post_relu: false, rescale: Some(vec![31, 32, 33]) },
    ] {
        let original = sae(s);
        let (header, bytes) = file(&original);
        let copy = reread(&header, &bytes).unwrap();
        assert_eq!(copy.config(), original.config());
        assert_eq!(copy.encoder().w_enc, original.encoder().w_enc);
        assert_eq!(copy.encoder().b_enc, original.encoder().b_enc);
        assert_eq!(copy.decoder().w_dec, original.decoder().w_dec);
        assert_eq!(copy.decoder().b_dec, original.decoder().b_dec);
        assert_eq!(format!("{:?}", copy.sparsifier()), format!("{:?}", original.sparsifier()));
        assert_eq!(copy.backend_name(), "neon_tiled");
    }
}

#[test]
fn broken_frames_are_refused() {
    let (_, bytes) = file(&sae(Sparsifier::Relu));
    assert_eq!(split("f.sit", &bytes).unwrap(), 2);
    assert_eq!(reason(split("f.sit", &bytes[..15])), "file too small for sit header");
    let mut broken = bytes.clone();
    broken[3] = b'x';
    assert_eq!(reason(split("f.sit", &broken)), "missing SAEITOSI magic");
    let mut broken = bytes.clone();
    broken[9] = 1;
    assert_eq!(reason(split("f.sit", &broken)), "unsupported sit version 257 (expected 1)");
    assert_eq!(reason(split("f.sit", &bytes[..17])), "header_len exceeds file size");
    let mut broken = bytes.clone();
    broken[15] = 255;
    assert_eq!(reason(split("f.sit", &broken)), "header_len exceeds file size");
}

#[test]
fn broken_headers_are_refused() {
    let original = sae(Sparsifier::JumpReLU { thresholds: vec![21, 22, 23] });
    let (mut header, bytes) = file(&original);
    header.config.weight_dtype = WeightDtype::Bf16;
    match reread(&header, &bytes) {
        Err(SaeError::UnsupportedDtype(msg)) => {
            assert_eq!(msg, "v0 sit reader only handles f32, got Bf16")
        }
        other => panic!("{other:?}"),
    }

    let (mut header, bytes) = file(&original);
    header.tensors[2].dtype = "f16".to_string();
    match reread(&header, &bytes) {
        Err(SaeError::UnsupportedDtype(msg)) => assert_eq!(msg, "f16"),
        other => panic!("{other:?}"),
    }

    let (mut header, bytes) = file(&original);
    header.tensors.truncate(4);
    match reread(&header, &bytes) {
        Err(SaeError::MissingTensor(name)) => assert_eq!(name, "threshold"),
        other => panic!("{other:?}"),
    }

    let (mut header, bytes) = file(&original);
    header.tensors[3].nbytes = 12_000;
    assert_eq!(reason(reread(&header, &bytes)), "tensor b_dec extends past EOF");
    header.tensors[3].offset = u64::MAX;
    assert_eq!(reason(reread(&header, &bytes)), "tensor b_dec extends past EOF");

    let (mut header, bytes) = file(&original);
    header.tensors[1].nbytes = 8;
    match reread(&header, &bytes) {
        Err(SaeError::ShapeMismatch { name, expected, got }) => {
            assert_eq!((name.as_str(), expected, got), ("b_enc", vec![3], vec![2]))
        }
        other => panic!("{other:?}"),
    }
}

#[test]
fn files_that_cannot_be_read_are_told_apart() {
    let (mut header, bytes) = file(&sae(Sparsifier::Relu));
    assert!(is_readable("f.sit", &bytes, 2, &header));
    // A tensor that is not made of whole words.
    header.tensors[0].nbytes = 23;
    assert!(!is_readable("f.sit", &bytes, 2, &header));
    // It is not reached if something before it is wrong.
    header.config.weight_dtype = WeightDtype::F16;
    assert!(is_readable("f.sit", &bytes, 2, &header));
    let (mut header, _) = file(&sae(Sparsifier::Relu));
    header.tensors[1].nbytes = 3;
    header.tensors[0].name = "other".to_string();
    assert!(is_readable("f.sit", &bytes, 2, &header));
    assert!(!is_readable("f.sit", &bytes, usize::MAX, &header));
    let (mut header, _) = file(&sae(Sparsifier::Relu));
    header.config.d_sae = usize::MAX;
    assert!(!is_readable("f.sit", &bytes, 2, &header));
}

#[test]
fn the_first_entry_of_a_name_counts() {
    let (mut header, bytes) = file(&sae(Sparsifier::Relu));
    let last = header.tensors.remove(3);
    header.tensors.insert(0, last);
    header.tensors[1].name = "b_dec".to_string();
    // W_enc is gone, and b_dec is the entry that comes first.
    match reread(&header, &bytes) {
        Err(SaeError::MissingTensor(name)) => assert_eq!(name, "W_enc"),
        other => panic!("{other:?}"),
    }
    header.tensors[1].name = "W_enc".to_string();
    let copy = reread(&header, &bytes).unwrap();
    assert_eq!(copy.decoder().b_dec, vec![17, 18]);
}
