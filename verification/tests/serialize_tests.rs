use segstore::serialize::{BinarySerializable, DeserializeError, DeserializeFrom, FixedSize};
use segstore::vint::VInt;

pub fn fixed_size_test<O: BinarySerializable + FixedSize + Default>() {
    let mut buffer = vec![];
    O::default().serialize(&mut buffer);
    assert_eq!(buffer.len(), O::size_in_bytes());
}

fn serialize_test<T: BinarySerializable + Eq + std::fmt::Debug>(v: T) -> usize {
    let mut buffer: Vec<u8> = vec![];
    v.serialize(&mut buffer);
    let num_bytes = buffer.len();
    let mut pos = 0usize;
    let deser = T::deserialize(&buffer, &mut pos).unwrap();
    assert_eq!(deser, v);
    assert_eq!(pos, num_bytes);
    num_bytes
}

#[test]
fn test_serialize_u8() {
    fixed_size_test::<u8>();
}

#[test]
fn test_serialize_u32() {
    fixed_size_test::<u32>();
    assert_eq!(4, serialize_test(3u32));
    assert_eq!(4, serialize_test(5u32));
    assert_eq!(4, serialize_test(u32::MAX));
}

#[test]
fn test_serialize_i64() {
    fixed_size_test::<i64>();
}

#[test]
fn test_serialize_u64() {
    fixed_size_test::<u64>();
}

#[test]
fn test_serialize_bool() {
    fixed_size_test::<bool>();
}

#[test]
fn test_serialize_string() {
    assert_eq!(serialize_test(String::from("")), 1);
    assert_eq!(serialize_test(String::from("ぽよぽよ")), 1 + 3 * 4);
    assert_eq!(serialize_test(String::from("富士さん見える。")), 1 + 3 * 8);
}

#[test]
fn test_serialize_vec() {
    assert_eq!(serialize_test(Vec::<u8>::new()), 1);
    assert_eq!(serialize_test(vec![1u32, 3u32]), 1 + 4 * 2);
}

#[test]
fn test_serialize_vint() {
    for i in 0..10_000 {
        serialize_test(VInt(i as u64));
    }
    assert_eq!(serialize_test(VInt(7u64)), 1);
    assert_eq!(serialize_test(VInt(127u64)), 1);
    assert_eq!(serialize_test(VInt(128u64)), 2);
    assert_eq!(serialize_test(VInt(129u64)), 2);
    assert_eq!(serialize_test(VInt(1234u64)), 2);
    assert_eq!(serialize_test(VInt(16_383u64)), 2);
    assert_eq!(serialize_test(VInt(16_384u64)), 3);
    assert_eq!(serialize_test(VInt(u64::MAX)), 10);
}

#[test]
fn test_serialize_u16_and_u128() {
    fixed_size_test::<u16>();
    fixed_size_test::<u128>();
    assert_eq!(2, serialize_test(0xabcdu16));
    assert_eq!(16, serialize_test(0x0123_4567_89ab_cdef_0011_2233_4455_6677u128));
    assert_eq!(8, serialize_test(-1i64));
    assert_eq!(8, serialize_test(i64::MIN));
}

#[test]
fn test_serialize_pair_and_unit() {
    assert_eq!(serialize_test(()), 0);
    assert_eq!(serialize_test((3u32, 7u64)), 12);
    assert_eq!(<(u32, u64)>::size_in_bytes(), 12);
    assert_eq!(serialize_test((VInt(5), String::from("ab"))), 1 + 3);
}

#[test]
fn test_u32_little_endian_layout() {
    let mut buffer = vec![];
    0x0102_0304u32.serialize(&mut buffer);
    assert_eq!(buffer, vec![0x04, 0x03, 0x02, 0x01]);
}

#[test]
fn test_bool_wire_and_corruption() {
    let mut buffer = vec![];
    true.serialize(&mut buffer);
    false.serialize(&mut buffer);
    assert_eq!(buffer, vec![1, 0]);
    let mut pos = 0usize;
    assert_eq!(bool::deserialize(&[7u8], &mut pos), Err(DeserializeError::InvalidBool(7)));
    assert_eq!(pos, 0);
}

#[test]
fn test_unexpected_end() {
    let mut pos = 0usize;
    assert_eq!(u32::deserialize(&[1u8, 2u8], &mut pos), Err(DeserializeError::UnexpectedEnd));
    let mut pos = 0usize;
    assert_eq!(VInt::deserialize(&[0x80u8], &mut pos), Err(DeserializeError::UnexpectedEnd));
}

#[test]
fn test_invalid_utf8() {
    // length prefix of 2, then two bytes that are not valid UTF-8
    let data = [2u8, 0xff, 0xfe];
    let mut pos = 0usize;
    assert_eq!(String::deserialize(&data, &mut pos), Err(DeserializeError::InvalidUtf8));
    assert_eq!(pos, 0);
}

#[test]
fn test_invalid_vint() {
    // non-minimal form of 0: the decoder only accepts what the encoder emits
    let mut pos = 0usize;
    assert_eq!(VInt::deserialize(&[0x80u8, 0x00], &mut pos), Err(DeserializeError::InvalidVInt));
    // eleven continuation bytes: more than 64 bits
    let overlong = [0xffu8; 11];
    let mut pos = 0usize;
    assert!(VInt::deserialize(&overlong, &mut pos).is_err());
    // ten bytes whose top chunk overflows 64 bits
    let too_big = [0xffu8, 0xff, 0xff, 0xff, 0xff, 0xff, 0xff, 0xff, 0xff, 0x02];
    let mut pos = 0usize;
    assert_eq!(VInt::deserialize(&too_big, &mut pos), Err(DeserializeError::InvalidVInt));
}

#[test]
fn test_vint_wire_format() {
    let mut buffer = vec![];
    VInt(300).serialize(&mut buffer);
    // 300 = 44 + 2 * 128: low chunk first, continuation bit on the first byte
    assert_eq!(buffer, vec![0xac, 0x02]);
}

#[test]
fn test_num_bytes_matches_serialized_len() {
    let v = vec![1u32, 2, 3];
    let mut buffer = vec![];
    v.serialize(&mut buffer);
    assert_eq!(v.num_bytes(), buffer.len() as u64);
    assert_eq!(VInt(u64::MAX).num_bytes(), 10);
}

#[test]
fn test_deserialize_from_slice_cursor() {
    let mut buffer = vec![];
    VInt(1000).serialize(&mut buffer);
    42u32.serialize(&mut buffer);
    let mut cursor: &[u8] = &buffer;
    let first: VInt = DeserializeFrom::deserialize(&mut cursor).unwrap();
    assert_eq!(first, VInt(1000));
    let second: u32 = DeserializeFrom::deserialize(&mut cursor).unwrap();
    assert_eq!(second, 42);
    assert_eq!(cursor.len(), 0);
}
