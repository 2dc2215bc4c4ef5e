//! Bytes, safetensors files, and the smaller types.

use std::collections::BTreeMap;

use safetensors::{serialize, tensor::TensorView, Dtype};

use saeitoshi::bits::{abs, gt, nan};
use saeitoshi::config::{default_true, Architecture, NormalizeMode, SaeConfig, WeightDtype};
use saeitoshi::dtype::{I8Block, WeightStorage};
use saeitoshi::error::SaeError;
use saeitoshi::io::bytes::{read_words, write_words};
use saeitoshi::io::header::is_addable;
use saeitoshi::io::safetensors::{decode_f32, read_f32_tensor, transpose, SafetensorsFile};

fn archive(tensors: &[(&str, Dtype, Vec<usize>, &[u8])]) -> Vec<u8> {
    let mut map: BTreeMap<String, TensorView> = BTreeMap::new();
    for (name, dtype, shape, data) in tensors {
        map.insert(name.to_string(), TensorView::new(*dtype, shape.clone(), data).unwrap());
    }
    serialize(&map, &None).unwrap()
}

#[test]
fn words_are_little_endian() {
    assert_eq!(read_words(&[1, 2, 3, 4, 0, 0, 128, 63]), Some(vec![0x0403_0201, 1.0f32.to_bits()]));
    assert_eq!(write_words(&[0x0403_0201, 1.0f32.to_bits()]), vec![1, 2, 3, 4, 0, 0, 128, 63]);
    assert_eq!(read_words(&[]), Some(vec![]));
    assert_eq!(read_words(&[1, 2, 3]), None);
    assert_eq!(read_words(&[1, 2, 3, 4, 5]), None);
    let ws = vec![0, u32::MAX, 0xdead_beef];
    assert_eq!(read_words(&write_words(&ws)), Some(ws));
}

#[test]
fn a_safetensors_file_is_read_by_name() {
    let data: Vec<u8> = [1.5f32, -2.0, 3.25, 0.0, 7.0, -0.5]
        .iter()
        .flat_map(|v| v.to_le_bytes())
        .collect();
    let bytes = archive(&[
        ("a", Dtype::F32, vec![2, 3], &data),
        ("b", Dtype::F16, vec![2], &[0, 60, 0, 64]),
        ("c", Dtype::F32, vec![], &data[..4]),
    ]);
    let file = SafetensorsFile::from_bytes(bytes).unwrap();
    let st = file.view().unwrap();
    let (cells, shape) = read_f32_tensor(&st, "a").unwrap();
    assert_eq!(shape, vec![2, 3]);
    assert_eq!(
        cells.iter().map(|c| f32::from_bits(*c)).collect::<Vec<f32>>(),
        vec![1.5, -2.0, 3.25, 0.0, 7.0, -0.5]
    );
    assert_eq!(read_f32_tensor(&st, "c").unwrap(), (vec![1.5f32.to_bits()], vec![]));
    match read_f32_tensor(&st, "missing") {
        Err(SaeError::MissingTensor(name)) => assert_eq!(name, "missing"),
        other => panic!("{other:?}"),
    }
    match read_f32_tensor(&st, "b") {
        Err(SaeError::UnsupportedDtype(msg)) => assert_eq!(msg, "b: expected f32, got F16"),
        other => panic!("{other:?}"),
    }
}

#[test]
fn what_is_not_a_safetensors_file_is_refused() {
    for bytes in [vec![], vec![1, 2, 3], vec![255; 40]] {
        assert!(matches!(SafetensorsFile::from_bytes(bytes), Err(SaeError::Safetensors(_))));
    }
}

fn with_header(header: &str) -> Vec<u8> {
    let mut bytes = (header.len() as u64).to_le_bytes().to_vec();
    bytes.extend_from_slice(header.as_bytes());
    bytes
}

#[test]
fn an_offset_at_the_end_of_the_address_range_is_refused() {
    let header = |shape: &str, end: usize| {
        format!("{{\"t\":{{\"dtype\":\"U8\",\"shape\":[{shape}],\"data_offsets\":[0,{end:>20}]}}}}")
    };
    let len = 8 + header("0", 0).len();
    // The largest offset that can be added, and the first that cannot.
    assert!(is_addable(&with_header(&header("0", usize::MAX - len))));
    assert!(!is_addable(&with_header(&header("0", usize::MAX - len + 1))));
    for n in [usize::MAX, usize::MAX - 8, usize::MAX / 2] {
        let bytes = with_header(&header(&n.to_string(), n));
        assert_eq!(is_addable(&bytes), n == usize::MAX / 2);
        assert!(matches!(SafetensorsFile::from_bytes(bytes), Err(SaeError::Safetensors(_))));
    }
    assert!(is_addable(&with_header("no header")));
    assert!(is_addable(&[]));
    assert!(is_addable(&[255; 8]));
}

#[test]
fn only_offsets_are_bounded() {
    // An empty tensor with a dimension at the end of the address range, and a field
    // that nothing reads.
    let header = format!(
        "{{\"t\":{{\"dtype\":\"F32\",\"shape\":[0,{m}],\"data_offsets\":[0,0],\"note\":{m}}}}}",
        m = usize::MAX
    );
    let bytes = with_header(&header);
    assert!(is_addable(&bytes));
    let file = SafetensorsFile::from_bytes(bytes).unwrap();
    let read = read_f32_tensor(&file.view().unwrap(), "t").unwrap();
    assert_eq!(read, (vec![], vec![0, usize::MAX]));
}

#[test]
fn a_long_number_in_a_name_is_no_offset() {
    let name = format!("layer.{}", usize::MAX);
    let bytes = archive(&[(&name, Dtype::F32, vec![1], &[0, 0, 128, 63])]);
    let file = SafetensorsFile::from_bytes(bytes).unwrap();
    assert_eq!(
        read_f32_tensor(&file.view().unwrap(), &name).unwrap(),
        (vec![1.0f32.to_bits()], vec![1])
    );
}

#[test]
fn a_stored_tensor_must_be_whole_words_of_single_precision() {
    let stored = |dtype: &str, bytes: Vec<u8>| decode_f32("t", (dtype.to_string(), vec![1], bytes));
    assert_eq!(stored("F32", vec![0, 0, 128, 63]).unwrap(), (vec![1.0f32.to_bits()], vec![1]));
    match stored("F32", vec![0; 10]) {
        Err(SaeError::Other(msg)) => assert_eq!(msg, "t: byte length 10 not divisible by 4"),
        other => panic!("{other:?}"),
    }
    match stored("BF16", vec![0; 2]) {
        Err(SaeError::UnsupportedDtype(msg)) => assert_eq!(msg, "t: expected f32, got BF16"),
        other => panic!("{other:?}"),
    }
}

#[test]
fn transposing_swaps_rows_and_columns() {
    let w: Vec<u32> = (0..6).collect();
    let t = transpose(&w, 2, 3);
    assert_eq!(t, vec![0, 3, 1, 4, 2, 5]);
    assert_eq!(transpose(&t, 3, 2), w);
    assert_eq!(transpose(&[], 0, 3), Vec::<u32>::new());
    // Cells past the matrix are not looked at.
    assert_eq!(transpose(&[1, 2, 9], 1, 2), vec![1, 2]);
}

#[test]
fn numbers_compare_as_numbers() {
    let values = [
        f32::NEG_INFINITY,
        -1.0,
        -f32::MIN_POSITIVE,
        -0.0,
        0.0,
        f32::from_bits(1),
        1.0,
        2.5,
        f32::INFINITY,
        f32::NAN,
    ];
    for a in values {
        assert_eq!(nan(a.to_bits()), a.is_nan());
        assert_eq!(abs(a.to_bits()), a.abs().to_bits());
        for b in values {
            assert_eq!(gt(a.to_bits(), b.to_bits()), a > b, "{a} > {b}");
        }
    }
}

#[test]
fn storage_sizes() {
    assert_eq!(WeightStorage::F32(vec![0; 3]).nbytes(), 12);
    assert_eq!(WeightStorage::F16(vec![0; 3]).nbytes(), 6);
    let block = |zeros| I8Block { qweight: vec![1; 10], scales: vec![0; 2], zeros };
    assert_eq!(WeightStorage::I8(block(None)).nbytes(), 18);
    assert_eq!(WeightStorage::I8(block(Some(vec![0; 5]))).nbytes(), 23);
}

#[test]
fn default_configuration() {
    let cfg = SaeConfig::new(Architecture::Jumprelu, 3, 7);
    assert_eq!(
        cfg,
        SaeConfig {
            architecture: Architecture::Jumprelu,
            d_in: 3,
            d_sae: 7,
            weight_dtype: WeightDtype::F32,
            apply_b_dec_to_input: true,
            normalize_activations: NormalizeMode::Off,
            k: None,
            rescale_by_decoder_norm: false,
        }
    );
    assert!(default_true());
    assert_eq!(WeightDtype::default(), WeightDtype::F32);
    assert_eq!(NormalizeMode::default(), NormalizeMode::Off);
}
