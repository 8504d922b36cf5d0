use orirocks::float::CmpFloat;
use orirocks::hash::{digest, sha256_trunc, truncate_digest};
use orirocks::model::{encode_import, Import};
use orirocks::value::{encode_value, Value};

#[test]
fn sha256_of_empty_input() {
    // SHA-256("") begins e3 b0 c4 42 98 fc 1c 14
    assert_eq!(sha256_trunc(&[]), 0x141c_fc98_42c4_b0e3);
}

#[test]
fn sha256_of_abc() {
    // SHA-256("abc") begins ba 78 16 bf 8f 01 cf ea
    assert_eq!(sha256_trunc(b"abc"), 0xeacf_018f_bf16_78ba);
    assert_eq!(digest(b"abc"), Some(0xeacf_018f_bf16_78ba));
}

#[test]
fn truncation_reads_little_endian() {
    let sha = [1u8, 2, 3, 4, 5, 6, 7, 8, 9, 10];
    assert_eq!(truncate_digest(&sha), 0x0807_0605_0403_0201);
}

#[test]
fn integer_encoding() {
    let mut out = Vec::new();
    encode_value(&Value::Integer(-2), &mut out);
    assert_eq!(out, vec![0x02, 0xfe, 0xff, 0xff, 0xff, 0xff, 0xff, 0xff, 0xff]);
}

#[test]
fn string_and_bool_encoding() {
    let mut out = Vec::new();
    encode_value(&Value::String("hi".to_string()), &mut out);
    assert_eq!(out, vec![0x04, 2, 0, 0, 0, 0, 0, 0, 0, b'h', b'i']);
    let mut out = Vec::new();
    encode_value(&Value::Bool(true), &mut out);
    assert_eq!(out, vec![0x01, 1]);
}

#[test]
fn nan_floats_encode_alike() {
    let mut a = Vec::new();
    encode_value(&Value::Float(CmpFloat::from_bits(0x7FF0_0000_0000_0001)), &mut a);
    let mut b = Vec::new();
    encode_value(&Value::Float(CmpFloat::from_bits(f64::NAN.to_bits())), &mut b);
    assert_eq!(a, b);
    assert_eq!(a, vec![0x03, 0, 0, 0, 0, 0, 0, 0xf8, 0x7f]);
}

#[test]
fn nested_encoding() {
    let v = Value::Array(vec![
        Value::Bool(false),
        Value::Dict(vec![("k".to_string(), Value::Integer(1))]),
    ]);
    let mut out = Vec::new();
    encode_value(&v, &mut out);
    let mut expected = vec![0x05, 2, 0, 0, 0, 0, 0, 0, 0, 0x01, 0, 0x06, 1, 0, 0, 0, 0, 0, 0, 0];
    expected.extend_from_slice(&[1, 0, 0, 0, 0, 0, 0, 0, b'k']);
    expected.extend_from_slice(&[0x02, 1, 0, 0, 0, 0, 0, 0, 0]);
    assert_eq!(out, expected);
}

#[test]
fn import_encoding_is_tagged() {
    let i = Import { require: "q".to_string(), version: "1".to_string() };
    let out = encode_import(&i);
    assert_eq!(out, vec![0x10, 1, 0, 0, 0, 0, 0, 0, 0, b'q', 1, 0, 0, 0, 0, 0, 0, 0, b'1']);
}

fn int_entries(pairs: &[(&str, i64)]) -> Vec<(String, Value)> {
    pairs.iter().map(|(k, v)| (k.to_string(), Value::Integer(*v))).collect()
}

#[test]
fn dict_key_order_does_not_change_digest() {
    let a = orirocks::value::dict(int_entries(&[("b", 1), ("a", 2), ("c", 3)])).unwrap();
    let b = orirocks::value::dict(int_entries(&[("c", 3), ("b", 1), ("a", 2)])).unwrap();
    assert_eq!(orirocks::hash::value_digest(&a), orirocks::hash::value_digest(&b));
    match a {
        Value::Dict(entries) => {
            let keys: Vec<&str> = entries.iter().map(|(k, _)| k.as_str()).collect();
            assert_eq!(keys, vec!["a", "b", "c"]);
        },
        _ => panic!("not a mapping"),
    }
}

#[test]
fn dict_with_repeated_key_is_refused() {
    assert!(orirocks::value::dict(int_entries(&[("a", 1), ("a", 2)])).is_none());
}

#[test]
fn different_values_give_different_digests() {
    let a = orirocks::hash::value_digest(&Value::Integer(1));
    let b = orirocks::hash::value_digest(&Value::Integer(2));
    assert!(a.is_some());
    assert_ne!(a, b);
}

#[test]
fn values_compare_deeply() {
    let nan = || Value::Float(CmpFloat::from_bits(f64::NAN.to_bits()));
    let a = Value::Array(vec![nan(), Value::String("x".to_string())]);
    let b = Value::Array(vec![Value::Float(CmpFloat::from_bits(0x7FF0_0000_0000_0009)), Value::String("x".to_string())]);
    assert_eq!(a, b);
    assert_ne!(a, Value::Array(vec![nan()]));
    assert_ne!(Value::Integer(1), Value::Bool(true));
    let d1 = Value::Dict(vec![("k".to_string(), Value::Integer(1))]);
    let d2 = Value::Dict(vec![("k".to_string(), Value::Integer(2))]);
    assert_ne!(d1, d2);
    assert!(d1.deep_eq(&Value::Dict(vec![("k".to_string(), Value::Integer(1))])));
}

#[test]
fn canonical_form_needs_sorted_keys() {
    let sorted = Value::Dict(vec![("a".to_string(), Value::Integer(1)), ("b".to_string(), Value::Integer(2))]);
    let unsorted = Value::Dict(vec![("b".to_string(), Value::Integer(2)), ("a".to_string(), Value::Integer(1))]);
    assert!(sorted.is_canonical());
    assert!(!unsorted.is_canonical());
    assert!(Value::Array(vec![unsorted]).is_canonical() == false);
    let built = orirocks::value::dict(vec![("b".to_string(), Value::Integer(2)), ("a".to_string(), Value::Integer(1))]).unwrap();
    assert!(built.is_canonical());
    assert_eq!(built, sorted);
}
