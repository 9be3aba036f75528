//! Tests of the binary inter-process codec.

use std::collections::{BTreeMap, VecDeque};

use chainsnap::binary::{deserialize, serialize, serialize_into, BinaryConvertable};
use chainsnap::handshake::{BinHandshake, Handshake};

#[test]
fn vec_serialize() {
    let mut v = Vec::new();
    v.push(5u64);
    v.push(10u64);
    let mut length_stack = VecDeque::new();
    let mut data = Vec::new();
    let result = v.to_bytes(&mut data, &mut length_stack);

    assert!(result.is_ok());
    assert_eq!(5, data[0]);
    assert_eq!(0, data[1]);
    assert_eq!(10, data[8]);
    assert_eq!(0, data[12]);
}

#[test]
fn calculates_size() {
    let mut v = Vec::new();
    v.push(5u64);
    v.push(10u64);

    assert_eq!(16, v.size());
}

#[test]
fn vec_deserialize() {
    let data = vec![
        10u8, 0u8, 0u8, 0u8, 0u8, 0u8, 0u8, 0u8,
        5u8, 0u8, 0u8, 0u8, 0u8, 0u8, 0u8, 0u8,
    ];

    let mut length_stack = VecDeque::new();
    let vec = Vec::<u64>::from_bytes(&data, &mut length_stack).unwrap();

    assert_eq!(vec![10u64, 5u64], vec);
}

#[test]
fn vec_deserialize_chained() {
    let mut v = Vec::new();
    v.push(Some(5u64));
    v.push(Some(10u64));
    v.push(None);
    v.push(Some(12u64));

    let mut length_stack = VecDeque::new();
    let mut data = Vec::new();
    let result = v.to_bytes(&mut data, &mut length_stack);

    assert!(result.is_ok());
    assert_eq!(4, length_stack.len());
}

#[test]
fn vec_serialize_deserialize() {
    let mut v = Vec::new();
    v.push(Some(5u64));
    v.push(None);
    v.push(Some(10u64));
    v.push(None);
    v.push(Some(12u64));

    let mut data = Vec::new();
    let mut length_stack = VecDeque::new();

    v.to_bytes(&mut data, &mut length_stack).unwrap();
    let de_v = Vec::<Option<u64>>::from_bytes(&data, &mut length_stack).unwrap();

    assert_eq!(v, de_v);
}

#[test]
fn serialize_into_ok() {
    let mut buff = Vec::new();

    let mut v = Vec::new();
    v.push(Some(5u64));
    v.push(None);
    v.push(Some(10u64));
    v.push(None);
    v.push(Some(12u64));

    serialize_into(&v, &mut buff).unwrap();
    assert_eq!(5, buff[0]);
    assert_eq!(8, buff[8]);
    assert_eq!(0, buff[16]);
    assert_eq!(8, buff[24]);
}

#[test]
fn deserialize_from_ok() {
    let buff = vec![
        0u8, 0u8, 0u8, 0u8, 0u8, 0u8, 0u8, 0u8,
        16u8, 0u8, 0u8, 0u8, 0u8, 0u8, 0u8, 0u8,
        10u8, 0u8, 0u8, 0u8, 0u8, 0u8, 0u8, 0u8,
        5u8, 0u8, 0u8, 0u8, 0u8, 0u8, 0u8, 0u8,
    ];

    let vec = deserialize::<Vec<u64>>(&buff).unwrap();

    assert_eq!(vec![10u64, 5u64], vec);
}

#[test]
fn serialize_into_deserialize_from() {
    let mut buff = Vec::new();
    let mut v = Vec::new();
    v.push(Some(5u64));
    v.push(None);
    v.push(Some(10u64));
    v.push(None);
    v.push(Some(12u64));

    serialize_into(&v, &mut buff).unwrap();
    let de_v = deserialize::<Vec<Option<u64>>>(&buff).unwrap();
    assert_eq!(v, de_v);
}

#[test]
fn serialize_vec_str() {
    // empty
    let source = Vec::<String>::new();
    let serialized = serialize(&source).unwrap();
    let deserialized = deserialize::<Vec<String>>(&serialized).unwrap();

    assert_eq!(source, deserialized);

    // with few values
    let mut source = Vec::<String>::new();
    source.push("val1".to_owned());
    source.push("val2".to_owned());
    let serialized = serialize(&source).unwrap();
    let deserialized = deserialize::<Vec<String>>(&serialized).unwrap();

    assert_eq!(source, deserialized);
}

#[test]
fn serialize_opt_str() {
    // none
    let source: Option<String> = None;
    let serialized = serialize(&source).unwrap();
    let deserialized = deserialize::<Option<String>>(&serialized).unwrap();

    assert_eq!(source, deserialized);

    // value
    let source: Option<String> = Some("i have value".to_owned());
    let serialized = serialize(&source).unwrap();
    let deserialized = deserialize::<Option<String>>(&serialized).unwrap();

    assert_eq!(source, deserialized);
}

#[test]
fn serialize_opt_vec() {
    let mut buff = Vec::new();
    let optional_vec: Option<Vec<u8>> = None;
    serialize_into(&optional_vec, &mut buff).unwrap();

    assert_eq!(vec![0u8; 16], buff);
}

#[test]
fn serialize_opt_vec_payload() {
    let optional_vec: Option<Vec<u8>> = None;
    let payload = serialize(&optional_vec).unwrap();

    assert_eq!(vec![0u8; 16], payload);
}

#[test]
fn deserialize_opt_vec() {
    let buff = vec![0u8; 16];

    let vec = deserialize::<Option<Vec<u8>>>(&buff).unwrap();

    assert!(vec.is_none());
}

#[test]
fn deserialize_simple_err() {
    let buff = vec![0u8; 16];

    let result = deserialize::<Result<(), u32>>(&buff).unwrap();

    assert!(result.is_ok());
}

#[test]
fn serialize_opt_vec_in_out() {
    let mut buff = Vec::new();
    let optional_vec: Option<Vec<u8>> = None;
    serialize_into(&optional_vec, &mut buff).unwrap();

    let vec = deserialize::<Option<Vec<u8>>>(&buff).unwrap();

    assert!(vec.is_none());
}

#[test]
fn serialize_err_opt_vec_in_out() {
    let mut buff = Vec::new();
    let optional_vec: Result<Option<Vec<u8>>, u32> = Ok(None);
    serialize_into(&optional_vec, &mut buff).unwrap();

    let vec = deserialize::<Result<Option<Vec<u8>>, u32>>(&buff).unwrap();

    assert!(vec.is_ok());
}

#[test]
fn serialize_btree() {
    let mut buff = Vec::new();
    let mut btree = BTreeMap::new();
    btree.insert(1u64, 5u64);
    chainsnap::binary::serialize_btree(&btree, &mut buff);

    let res = chainsnap::binary::deserialize_btree(&buff).unwrap();

    assert_eq!(res[&1u64], 5u64);
}

#[test]
fn serialize_btree_many() {
    let mut buff = Vec::new();
    let mut btree = BTreeMap::new();
    btree.insert(3u64, 30u64);
    btree.insert(1u64, 10u64);
    btree.insert(2u64, 20u64);
    chainsnap::binary::serialize_btree(&btree, &mut buff);
    // pairs come out ascending by key: the payload starts after the
    // two-word header, with key one first
    assert_eq!(1, buff[16]);
    assert_eq!(10, buff[24]);
    assert_eq!(2, buff[32]);

    let res = chainsnap::binary::deserialize_btree(&buff).unwrap();
    assert_eq!(res, btree);
}

#[test]
fn serialize_handshake() {
    let handshake = Handshake {
        api_version: semver::Version::parse("1.2.0").unwrap(),
        protocol_version: semver::Version::parse("1.2.0").unwrap(),
    };

    let wire = serialize(&BinHandshake::from_handshake(&handshake)).unwrap();
    let res = deserialize::<BinHandshake>(&wire).unwrap().to_semver();

    assert_eq!(res, handshake);
}

#[test]
fn serialize_result_with_error() {
    let source: Result<Option<Vec<u8>>, u32> = Err(9u32);
    let wire = serialize(&source).unwrap();
    let back = deserialize::<Result<Option<Vec<u8>>, u32>>(&wire).unwrap();
    assert_eq!(source, back);
}

#[test]
fn from_bytes_rejects_short_scalar() {
    let mut stack = VecDeque::new();
    assert!(u64::from_bytes(&vec![1u8, 2u8], &mut stack).is_err());
    assert!(u32::from_bytes(&vec![1u8], &mut stack).is_err());
    assert!(bool::from_bytes(&vec![7u8], &mut stack).is_err());
}
