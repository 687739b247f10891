//! The bundle and its weights.

use std::path::Path;

use sha2::Digest;
use stemsplits::text::{decimal_text, hexadecimal_text, parse_count};
use stemsplits::weights::{
    Bundle, BundleError, TensorMeta, Weights, WeightsError, WeightsMeta,
};

/// The digest of bytes, computed beside the library.
fn digest_of(bytes: &[u8]) -> String {
    sha2::Sha256::digest(bytes).iter().map(|byte| format!("{byte:02x}")).collect()
}

fn meta(name: &str, shape: Vec<usize>, offset: usize, count: usize) -> TensorMeta {
    TensorMeta { name: name.to_string(), shape, dtype: "f32".to_string(), offset, count }
}

fn bundle_of(bytes: &[u8], tensors: Vec<TensorMeta>) -> Bundle {
    Bundle {
        format: "stemsplits-bundle".to_string(),
        version: 1,
        model: "htdemucs".to_string(),
        checkpoint: "test".to_string(),
        config: serde_json::Value::Null,
        weights: WeightsMeta {
            file: "weights.f32".to_string(),
            dtype: "f32".to_string(),
            byte_length: bytes.len(),
            sha256: digest_of(bytes),
        },
        tensors,
    }
}

fn blob(values: &[f32]) -> Vec<u8> {
    values.iter().flat_map(|value| value.to_le_bytes()).collect()
}

#[test]
fn loads_a_tensor_by_name() {
    let bytes = blob(&[1.0, 2.0, 3.0, 4.0, 5.0, 6.0]);
    let bundle = bundle_of(&bytes, vec![meta("encoder.0.conv.weight", vec![2, 3], 0, 6)]);
    let bundle = Bundle::from_json(Some(bundle)).unwrap();
    let weights = Weights::open("bundle".into(), bundle, bytes).unwrap();
    assert!(weights.can_read("encoder.0.conv.weight"));
    assert!(weights.can_read("missing"));
    let tensor = weights.tensor("encoder.0.conv.weight").unwrap();
    assert_eq!(tensor.shape(), &[2, 3]);
    let data: Vec<f32> = tensor.data().iter().map(|bits| f32::from_bits(*bits)).collect();
    assert_eq!(data, &[1.0, 2.0, 3.0, 4.0, 5.0, 6.0]);
    assert!(weights.tensor("missing").is_none());
    assert_eq!(weights.parameter_count(), 6);
}

#[test]
fn rejects_a_corrupted_blob() {
    let mut bytes = blob(&[1.0]);
    let bundle = bundle_of(&bytes, vec![meta("x", vec![1], 0, 1)]);
    bytes[0] ^= 0xff;
    let actual = digest_of(&bytes);
    match Weights::open("bundle".into(), bundle, bytes) {
        Err(WeightsError::DigestMismatch(digest)) => assert_eq!(digest, actual),
        _ => panic!("the digest was not checked"),
    }
}

#[test]
fn rejects_a_blob_of_another_length() {
    let bytes = blob(&[1.0]);
    let mut bundle = bundle_of(&bytes, vec![]);
    bundle.weights.byte_length = 5;
    match Weights::open("bundle".into(), bundle, bytes) {
        Err(WeightsError::LengthMismatch(actual, expected)) => {
            assert_eq!((actual, expected), (4, 5));
        }
        _ => panic!("the length was not checked"),
    }
}

#[test]
fn the_digest_of_nothing_is_known() {
    let mut bundle = bundle_of(&[], vec![]);
    bundle.weights.sha256 =
        "e3b0c44298fc1c149afbf4c8996fb92427ae41e4649b934ca495991b7852b855".to_string();
    let weights = Weights::open("somewhere".into(), bundle, vec![]).unwrap();
    assert_eq!(weights.directory(), Path::new("somewhere"));
    assert_eq!(weights.bundle().model, "htdemucs");
    assert_eq!(weights.parameter_count(), 0);
}

#[test]
fn manifests_are_refused_in_order() {
    assert!(matches!(Bundle::from_json(None), Err(BundleError::NotValid)));
    let mut bundle = bundle_of(&[], vec![]);
    bundle.format = "other".to_string();
    bundle.version = 2;
    match Bundle::from_json(Some(bundle)) {
        Err(BundleError::NotABundle(format)) => assert_eq!(format, "other"),
        _ => panic!("the format comes first"),
    }
    let mut bundle = bundle_of(&[], vec![]);
    bundle.version = 2;
    bundle.weights.dtype = "f16".to_string();
    assert!(matches!(
        Bundle::from_json(Some(bundle)),
        Err(BundleError::UnsupportedVersion(2))
    ));
    let mut bundle = bundle_of(&[], vec![]);
    bundle.weights.dtype = "f16".to_string();
    match Bundle::from_json(Some(bundle)) {
        Err(BundleError::UnsupportedDtype(dtype)) => assert_eq!(dtype, "f16"),
        _ => panic!("the type comes last"),
    }
}

#[test]
fn a_repeated_name_is_found_first_in_the_manifest_and_last_in_the_weights() {
    let bytes = blob(&[1.0, 2.0]);
    let bundle = bundle_of(&bytes, vec![meta("x", vec![1], 0, 1), meta("x", vec![1], 4, 1)]);
    assert_eq!(bundle.tensor("x").unwrap().offset, 0);
    assert!(bundle.tensor("y").is_none());
    let weights = Weights::open("bundle".into(), bundle, bytes).unwrap();
    assert_eq!(weights.tensor("x").unwrap().data(), &[2.0f32.to_bits()]);
    assert_eq!(weights.parameter_count(), 2);
}

#[test]
fn a_tensor_past_the_blob_is_not_there() {
    let bytes = blob(&[1.0, 2.0]);
    let bundle = bundle_of(&bytes, vec![meta("x", vec![2], 4, 2), meta("y", vec![1], 4, 1)]);
    let weights = Weights::open("bundle".into(), bundle, bytes).unwrap();
    assert!(weights.can_read("x"));
    assert!(weights.tensor("x").is_none());
    assert!(weights.tensor("y").is_some());
    let bytes = blob(&[3.0]);
    let far = bundle_of(
        &bytes,
        vec![
            meta("x", vec![1], usize::MAX, 1),
            meta("y", vec![1], 0, 1),
            meta("z", vec![1], 0, usize::MAX / 4 + 1),
        ],
    );
    let weights = Weights::open("bundle".into(), far, bytes).unwrap();
    assert!(!weights.can_read("x"));
    assert!(!weights.can_read("z"));
    // The others can still be read.
    assert!(weights.can_read("y"));
    assert_eq!(weights.tensor("y").unwrap().data(), &[3.0f32.to_bits()]);
}

#[test]
fn numbers_are_written_in_full() {
    assert_eq!(decimal_text(0), "0");
    assert_eq!(decimal_text(10), "10");
    assert_eq!(decimal_text(343_980), "343980");
    assert_eq!(hexadecimal_text(&[0x00, 0x0f, 0xa5]), "000fa5");
}

#[test]
fn counts_are_read_as_written() {
    assert_eq!(parse_count("0"), Some(0));
    assert_eq!(parse_count("+6"), Some(6));
    assert_eq!(parse_count("007"), Some(7));
    assert_eq!(parse_count(&decimal_text(usize::MAX)), Some(usize::MAX));
    let texts = ["", "+", "-1", " 6", "6 ", "1_000", "0x10", "++1", "one"];
    for text in texts {
        assert_eq!(parse_count(text), None, "{text:?}");
        assert_eq!(text.parse::<usize>().ok(), None, "{text:?}");
    }
    assert_eq!(parse_count("18446744073709551616"), None);
}

#[test]
fn a_name_alone_in_its_bundle_is_found_alike() {
    let bytes = blob(&[1.0, 2.0]);
    let bundle = bundle_of(&bytes, vec![meta("x", vec![1], 0, 1), meta("y", vec![1], 4, 1)]);
    let offset = bundle.tensor("y").unwrap().offset;
    let weights = Weights::open("bundle".into(), bundle, bytes).unwrap();
    assert_eq!(offset, 4);
    assert_eq!(weights.tensor("y").unwrap().data(), &[2.0f32.to_bits()]);
}

#[test]
fn a_copy_of_a_manifest_is_alike() {
    let mut bundle = bundle_of(&blob(&[1.0]), vec![meta("x", vec![1, 1], 0, 1)]);
    bundle.config = serde_json::Value::from("kept");
    let copy = bundle.clone();
    bundle.tensors.clear();
    bundle.config = serde_json::Value::Null;
    assert_eq!(copy.config, serde_json::Value::from("kept"));
    assert_eq!((copy.format.as_str(), copy.version), ("stemsplits-bundle", 1));
    assert_eq!(copy.tensors.len(), 1);
    assert_eq!(copy.tensor("x").unwrap().shape, vec![1, 1]);
    assert_eq!(copy.weights.byte_length, 4);
}
