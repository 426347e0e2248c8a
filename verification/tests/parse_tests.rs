use nbtsniper::nbt::fsm::parse::{nbt_tag, nbt_tag_id, nbt_tag_string, ByteCursor};
use nbtsniper::nbt::{NbtReadError, NbtTagId, NbtTagType};

fn make_cursor(data: Vec<u8>) -> ByteCursor {
    ByteCursor::new(data)
}

#[test]
fn test_nbt_tag_id_valid_ids() {
    for (id_u8, expected_id) in &[
        (0u8, NbtTagId::End),
        (1u8, NbtTagId::Byte),
        (2u8, NbtTagId::Short),
        (3u8, NbtTagId::Int),
        (4u8, NbtTagId::Long),
        (5u8, NbtTagId::Float),
        (6u8, NbtTagId::Double),
        (7u8, NbtTagId::ByteArray),
        (8u8, NbtTagId::String),
        (9u8, NbtTagId::List),
        (10u8, NbtTagId::Compound),
        (11u8, NbtTagId::IntArray),
        (12u8, NbtTagId::LongArray),
    ] {
        let mut cursor = make_cursor(vec![*id_u8]);
        let result = nbt_tag_id(&mut cursor).unwrap();
        assert_eq!(result, Some(*expected_id));
        assert_eq!(cursor.position(), 1);
    }
}

#[test]
fn test_nbt_tag_id_invalid_id() {
    // A byte above 12 names no kind: it is refused, and not read.
    let invalid_id = 13u8;
    let mut cursor = make_cursor(vec![invalid_id]);
    let result = nbt_tag_id(&mut cursor);
    assert!(matches!(result, Err(NbtReadError::InvalidContent)));
    assert_eq!(cursor.position(), 0);
}

#[test]
fn test_nbt_tag_id_refuses_every_byte_above_twelve() {
    for byte in 13u8..=255 {
        let mut cursor = make_cursor(vec![byte, 1]);
        assert_eq!(nbt_tag_id(&mut cursor), Err(NbtReadError::InvalidContent));
        assert_eq!(cursor.position(), 0);
    }
    for byte in 0u8..=12 {
        let mut cursor = make_cursor(vec![byte]);
        assert_eq!(nbt_tag_id(&mut cursor), Ok(NbtTagId::from_u8(byte)));
        assert_eq!(cursor.position(), 1);
        assert_eq!(nbt_tag_id(&mut cursor), Err(NbtReadError::Io));
    }
}

#[test]
fn test_nbt_tag_id_io_error() {
    let mut cursor = make_cursor(vec![]);
    let result = nbt_tag_id(&mut cursor);
    assert!(matches!(result, Err(NbtReadError::Io)));
    assert_eq!(cursor.position(), 0);
}

#[test]
fn test_nbt_tag_string_valid() {
    let mut data = Vec::new();
    data.extend(&2u16.to_be_bytes());
    data.push(b'T');
    data.push(b'e');
    let mut cursor = make_cursor(data);
    let result = nbt_tag_string(&mut cursor).unwrap();
    assert_eq!(result, "Te");
    assert_eq!(cursor.position(), 4);
}

#[test]
fn test_nbt_tag_string_empty() {
    let mut data = Vec::new();
    data.extend(&0i16.to_be_bytes());
    let mut cursor = make_cursor(data);
    let result = nbt_tag_string(&mut cursor).unwrap();
    assert_eq!(result, "");
}

#[test]
fn test_nbt_tag_string_negative_length() {
    let mut data = Vec::new();
    data.extend(&(-1i16).to_be_bytes());
    let mut cursor = make_cursor(data);
    let result = nbt_tag_string(&mut cursor);
    assert!(matches!(result, Err(NbtReadError::Io)));
}

#[test]
fn test_nbt_tag_string_insufficient_bytes() {
    let mut data = Vec::new();
    data.extend(&4i16.to_be_bytes());
    data.extend(&vec![b'T', b'e']);
    let mut cursor = make_cursor(data);
    let result = nbt_tag_string(&mut cursor);
    assert!(matches!(result, Err(NbtReadError::Io)));
    assert_eq!(cursor.position(), 0);
}

#[test]
fn test_nbt_tag_string_takes_each_byte_as_a_character() {
    let mut data = Vec::new();
    data.extend(&3i16.to_be_bytes());
    data.extend(&[0x41u8, 0xC5, 0xFF]);
    let mut cursor = make_cursor(data);
    let result = nbt_tag_string(&mut cursor).unwrap();
    let expected: String = vec!['A', '\u{C5}', '\u{FF}'].into_iter().collect();
    assert_eq!(result, expected);
}

#[test]
fn test_nbt_tag_end() {
    let mut cursor = make_cursor(vec![]);
    let result = nbt_tag(&mut cursor, &NbtTagId::End).unwrap();
    assert_eq!(result, NbtTagType::End(None));
}

#[test]
fn test_nbt_tag_byte() {
    let mut cursor = make_cursor(vec![0x7F]);
    let result = nbt_tag(&mut cursor, &NbtTagId::Byte).unwrap();
    assert_eq!(result, NbtTagType::Byte(127));
}

#[test]
fn test_nbt_tag_byte_negative() {
    let mut cursor = make_cursor(vec![0x80, 0xFF]);
    assert_eq!(nbt_tag(&mut cursor, &NbtTagId::Byte).unwrap(), NbtTagType::Byte(-128));
    assert_eq!(nbt_tag(&mut cursor, &NbtTagId::Byte).unwrap(), NbtTagType::Byte(-1));
    assert_eq!(cursor.position(), 2);
}

#[test]
fn test_nbt_tag_byte_io_error() {
    let mut cursor = make_cursor(vec![]);
    let result = nbt_tag(&mut cursor, &NbtTagId::Byte);
    assert!(matches!(result, Err(NbtReadError::Io)));
}

#[test]
fn test_nbt_tag_short() {
    let data = vec![0u8, 42u8];
    let mut cursor = make_cursor(data);
    let result = nbt_tag(&mut cursor, &NbtTagId::Short).unwrap();
    assert_eq!(result, NbtTagType::Short(42));
}

#[test]
fn test_nbt_tag_short_is_big_endian_and_signed() {
    let mut cursor = make_cursor(vec![0x01, 0x02, 0xFF, 0xFE, 0x80, 0x00]);
    assert_eq!(nbt_tag(&mut cursor, &NbtTagId::Short).unwrap(), NbtTagType::Short(258));
    assert_eq!(nbt_tag(&mut cursor, &NbtTagId::Short).unwrap(), NbtTagType::Short(-2));
    assert_eq!(nbt_tag(&mut cursor, &NbtTagId::Short).unwrap(), NbtTagType::Short(-32768));
    assert_eq!(cursor.position(), 6);
}

#[test]
fn test_nbt_tag_short_io_error() {
    let mut cursor = make_cursor(vec![0x00]);
    let result = nbt_tag(&mut cursor, &NbtTagId::Short);
    assert!(matches!(result, Err(NbtReadError::Io)));
}

#[test]
fn test_nbt_tag_int() {
    let data = vec![0u8, 0u8, 0u8, 42u8];
    let mut cursor = make_cursor(data);
    let result = nbt_tag(&mut cursor, &NbtTagId::Int).unwrap();
    assert_eq!(result, NbtTagType::Int(42));
}

#[test]
fn test_nbt_tag_int_is_big_endian_and_signed() {
    let mut cursor = make_cursor(vec![0x01, 0x02, 0x03, 0x04, 0xFF, 0xFF, 0xFF, 0xFD]);
    assert_eq!(nbt_tag(&mut cursor, &NbtTagId::Int).unwrap(), NbtTagType::Int(16909060));
    assert_eq!(nbt_tag(&mut cursor, &NbtTagId::Int).unwrap(), NbtTagType::Int(-3));
}

#[test]
fn test_nbt_tag_int_io_error() {
    let mut cursor = make_cursor(vec![0x00, 0x00, 0x00]);
    let result = nbt_tag(&mut cursor, &NbtTagId::Int);
    assert!(matches!(result, Err(NbtReadError::Io)));
}

#[test]
fn test_nbt_tag_long() {
    let data = vec![0u8, 0u8, 0u8, 0u8, 0u8, 0u8, 0u8, 42u8];
    let mut cursor = make_cursor(data);
    let result = nbt_tag(&mut cursor, &NbtTagId::Long).unwrap();
    assert_eq!(result, NbtTagType::Long(42));
}

#[test]
fn test_nbt_tag_long_is_big_endian_and_signed() {
    let mut cursor = make_cursor(vec![
        0x01, 0x02, 0x03, 0x04, 0x05, 0x06, 0x07, 0x08, 0x80, 0, 0, 0, 0, 0, 0, 0,
    ]);
    assert_eq!(
        nbt_tag(&mut cursor, &NbtTagId::Long).unwrap(),
        NbtTagType::Long(72623859790382856)
    );
    assert_eq!(nbt_tag(&mut cursor, &NbtTagId::Long).unwrap(), NbtTagType::Long(i64::MIN));
}

#[test]
fn test_nbt_tag_long_io_error() {
    let mut cursor = make_cursor(vec![0x00; 7]);
    let result = nbt_tag(&mut cursor, &NbtTagId::Long);
    assert!(matches!(result, Err(NbtReadError::Io)));
}

#[test]
fn test_nbt_tag_float() {
    let mut cursor = make_cursor(42f32.to_be_bytes().to_vec());
    let result = nbt_tag(&mut cursor, &NbtTagId::Float).unwrap();
    assert_eq!(result, NbtTagType::Float(42f32.to_bits()));
    match result {
        NbtTagType::Float(bits) => assert_eq!(f32::from_bits(bits), 42f32),
        _ => panic!("a float was read"),
    }
}

#[test]
fn test_nbt_tag_float_io_error() {
    let mut cursor = make_cursor(vec![0x00, 0x00, 0x00]);
    let result = nbt_tag(&mut cursor, &NbtTagId::Float);
    assert!(matches!(result, Err(NbtReadError::Io)));
}

#[test]
fn test_nbt_tag_double() {
    let mut cursor = make_cursor(42f64.to_be_bytes().to_vec());
    let result = nbt_tag(&mut cursor, &NbtTagId::Double).unwrap();
    assert_eq!(result, NbtTagType::Double(42f64.to_bits()));
    match result {
        NbtTagType::Double(bits) => assert_eq!(f64::from_bits(bits), 42f64),
        _ => panic!("a double was read"),
    }
}

#[test]
fn test_nbt_tag_double_io_error() {
    let mut cursor = make_cursor(vec![0x00; 7]);
    let result = nbt_tag(&mut cursor, &NbtTagId::Double);
    assert!(matches!(result, Err(NbtReadError::Io)));
}

#[test]
fn test_nbt_tag_byte_array() {
    let len = 3i32.to_be_bytes();
    let data = vec![1i8, 2i8, 3i8];
    let mut combined = Vec::new();
    combined.extend(&len);
    combined.extend(&data.iter().map(|x| *x as u8).collect::<Vec<u8>>());
    let mut cursor = make_cursor(combined);
    let result = nbt_tag(&mut cursor, &NbtTagId::ByteArray).unwrap();
    assert_eq!(result, NbtTagType::ByteArray(vec![1, 2, 3]));
    assert_eq!(cursor.position(), 7);
}

#[test]
fn test_nbt_tag_byte_array_io_error_length() {
    let mut cursor = make_cursor(vec![0x00, 0x00]);
    let result = nbt_tag(&mut cursor, &NbtTagId::ByteArray);
    assert!(matches!(result, Err(NbtReadError::Io)));
}

#[test]
fn test_nbt_tag_byte_array_io_error_data() {
    let len = 5i32.to_be_bytes();
    let data = vec![1i8, 2i8];
    let mut combined = Vec::new();
    combined.extend(&len);
    combined.extend(&data.iter().map(|x| *x as u8).collect::<Vec<u8>>());
    let mut cursor = make_cursor(combined);
    let result = nbt_tag(&mut cursor, &NbtTagId::ByteArray);
    assert!(matches!(result, Err(NbtReadError::Io)));
    assert_eq!(cursor.position(), 0);
}

#[test]
fn test_nbt_tag_byte_array_too_long() {
    let mut cursor = make_cursor(32768i32.to_be_bytes().to_vec());
    let result = nbt_tag(&mut cursor, &NbtTagId::ByteArray);
    assert!(matches!(result, Err(NbtReadError::InvalidNbtByteArrayLenght)));
}

#[test]
fn test_nbt_tag_byte_array_negative_length() {
    let mut cursor = make_cursor((-1i32).to_be_bytes().to_vec());
    let result = nbt_tag(&mut cursor, &NbtTagId::ByteArray);
    assert!(matches!(result, Err(NbtReadError::NegativeNbtTagLenght)));
}

#[test]
fn test_nbt_tag_byte_array_of_the_greatest_length() {
    let mut data = 32767i32.to_be_bytes().to_vec();
    data.extend(vec![0xFEu8; 32767]);
    let mut cursor = make_cursor(data);
    let result = nbt_tag(&mut cursor, &NbtTagId::ByteArray).unwrap();
    assert_eq!(result, NbtTagType::ByteArray(vec![-2i8; 32767]));
}

#[test]
fn test_nbt_tag_string() {
    let mut data = Vec::new();
    data.extend(&4i16.to_be_bytes());
    data.extend(&b"Test".to_vec());
    let mut cursor = make_cursor(data);
    let result = nbt_tag(&mut cursor, &NbtTagId::String).unwrap();
    assert_eq!(result, NbtTagType::String("Test".to_string()));
}

#[test]
fn test_nbt_tag_string_error() {
    let mut data = Vec::new();
    data.extend(&4i16.to_be_bytes());
    data.extend(&b"Tes".to_vec());
    let mut cursor = make_cursor(data);
    let result = nbt_tag(&mut cursor, &NbtTagId::String);
    assert!(matches!(result, Err(NbtReadError::Io)));
}

#[test]
fn test_nbt_tag_list_valid() {
    let mut data = Vec::new();
    data.push(1u8);
    data.extend(&2i32.to_be_bytes());
    let mut cursor = make_cursor(data);
    let result = nbt_tag(&mut cursor, &NbtTagId::List).unwrap();
    assert_eq!(result, NbtTagType::List((NbtTagId::Byte, 2)));
    assert_eq!(cursor.position(), 5);
}

#[test]
fn test_nbt_tag_list_invalid_tag_id() {
    let mut data = Vec::new();
    data.push(13u8);
    data.extend(&2i32.to_be_bytes());
    let mut cursor = make_cursor(data);
    let result = nbt_tag(&mut cursor, &NbtTagId::List);
    assert!(result.is_err());
    assert!(matches!(result, Err(NbtReadError::InvalidContent)));
}

#[test]
fn test_nbt_tag_list_io_error_tag_id() {
    let mut data = Vec::new();
    data.extend(&2i32.to_be_bytes());
    let mut cursor = make_cursor(data);
    let result = nbt_tag(&mut cursor, &NbtTagId::List);
    assert!(matches!(result, Err(NbtReadError::Io)));
}

#[test]
fn test_nbt_tag_list_panic_large_length_defined() {
    let mut data = Vec::new();
    data.push(1u8);

    let bad_list_len = 65_537i32;
    let high_byte = (bad_list_len >> 8) as u8;
    let low_byte = (bad_list_len & 0xFF) as u8;
    data.push(high_byte);
    data.push(low_byte);
    data.extend(&(65_537i32).to_be_bytes());

    let mut cursor = make_cursor(data);
    assert!(nbt_tag(&mut cursor, &NbtTagId::List).is_err());
}

#[test]
fn test_nbt_tag_list_panic_large_length_real() {
    let mut data = Vec::new();
    data.push(1u8);

    let bad_list_len = 65_530i32;
    let high_byte = (bad_list_len >> 8) as u8;
    let low_byte = (bad_list_len & 0xFF) as u8;
    data.push(high_byte);
    data.push(low_byte);
    data.extend(&(65_537i32).to_be_bytes());

    let mut cursor = make_cursor(data);
    assert!(nbt_tag(&mut cursor, &NbtTagId::List).is_err());
}

#[test]
fn test_nbt_tag_list_length_bounds() {
    let mut data = vec![3u8];
    data.extend(&32768i32.to_be_bytes());
    let mut cursor = make_cursor(data);
    assert!(matches!(
        nbt_tag(&mut cursor, &NbtTagId::List),
        Err(NbtReadError::InvalidNbtListLenght)
    ));

    let mut data = vec![3u8];
    data.extend(&(-1i32).to_be_bytes());
    let mut cursor = make_cursor(data);
    assert!(matches!(
        nbt_tag(&mut cursor, &NbtTagId::List),
        Err(NbtReadError::InvalidNbtListLenght)
    ));

    let mut data = vec![3u8];
    data.extend(&32767i32.to_be_bytes());
    let mut cursor = make_cursor(data);
    assert_eq!(
        nbt_tag(&mut cursor, &NbtTagId::List).unwrap(),
        NbtTagType::List((NbtTagId::Int, 32767))
    );
}

#[test]
fn test_nbt_tag_compound() {
    let mut cursor = make_cursor(vec![]);
    let result = nbt_tag(&mut cursor, &NbtTagId::Compound).unwrap();
    assert_eq!(result, NbtTagType::Compound("".to_string()));
}

#[test]
fn test_nbt_tag_int_array() {
    let mut data = Vec::new();
    data.extend(&3i32.to_be_bytes());
    data.extend(&1i32.to_be_bytes());
    data.extend(&2i32.to_be_bytes());
    data.extend(&3i32.to_be_bytes());
    let mut cursor = make_cursor(data);
    let result = nbt_tag(&mut cursor, &NbtTagId::IntArray).unwrap();
    assert_eq!(result, NbtTagType::IntArray(vec![1, 2, 3]));
    assert_eq!(cursor.position(), 16);
}

#[test]
fn test_nbt_tag_int_array_io_error_length() {
    let mut cursor = make_cursor(vec![0x00, 0x00, 0x00]);
    let result = nbt_tag(&mut cursor, &NbtTagId::IntArray);
    assert!(matches!(result, Err(NbtReadError::Io)));
}

#[test]
fn test_nbt_tag_int_array_io_error_data() {
    let mut data = Vec::new();
    data.extend(&3i32.to_be_bytes());
    data.extend(&1i32.to_be_bytes());
    data.extend(&2i32.to_be_bytes());
    let mut cursor = make_cursor(data);
    let result = nbt_tag(&mut cursor, &NbtTagId::IntArray);
    assert!(matches!(result, Err(NbtReadError::Io)));
}

#[test]
fn test_nbt_tag_int_array_length_bounds() {
    let mut cursor = make_cursor(65_537i32.to_be_bytes().to_vec());
    assert!(matches!(
        nbt_tag(&mut cursor, &NbtTagId::IntArray),
        Err(NbtReadError::InvalidNbtIntArrayLenght)
    ));
    let mut cursor = make_cursor((-7i32).to_be_bytes().to_vec());
    assert!(matches!(
        nbt_tag(&mut cursor, &NbtTagId::IntArray),
        Err(NbtReadError::NegativeNbtTagLenght)
    ));
}

#[test]
fn test_nbt_tag_long_array() {
    let mut data = Vec::new();
    data.extend(&2i32.to_be_bytes());
    data.extend(&1i64.to_be_bytes());
    data.extend(&2i64.to_be_bytes());
    let mut cursor = make_cursor(data);
    let result = nbt_tag(&mut cursor, &NbtTagId::LongArray).unwrap();
    assert_eq!(result, NbtTagType::LongArray(vec![1, 2]));
    assert_eq!(cursor.position(), 20);
}

#[test]
fn test_nbt_tag_long_array_io_error_length() {
    let mut cursor = make_cursor(vec![0x00, 0x00, 0x00]);
    let result = nbt_tag(&mut cursor, &NbtTagId::LongArray);
    assert!(matches!(result, Err(NbtReadError::Io)));
}

#[test]
fn test_nbt_tag_long_array_io_error_data() {
    let mut data = Vec::new();
    data.extend(&2i32.to_be_bytes());
    data.extend(&1i64.to_be_bytes());
    let mut cursor = make_cursor(data);
    let result = nbt_tag(&mut cursor, &NbtTagId::LongArray);
    assert!(matches!(result, Err(NbtReadError::Io)));
}

#[test]
fn test_nbt_tag_long_array_length_bounds() {
    let mut cursor = make_cursor(40_000i32.to_be_bytes().to_vec());
    assert!(matches!(
        nbt_tag(&mut cursor, &NbtTagId::LongArray),
        Err(NbtReadError::InvalidNbtLongArrayLenght)
    ));
    let mut cursor = make_cursor(i32::MIN.to_be_bytes().to_vec());
    assert!(matches!(
        nbt_tag(&mut cursor, &NbtTagId::LongArray),
        Err(NbtReadError::NegativeNbtTagLenght)
    ));
}

#[test]
fn test_cursor_knows_its_end() {
    let mut cursor = make_cursor(vec![7u8]);
    assert_eq!(cursor.len(), 1);
    assert!(!cursor.is_at_end());
    assert_eq!(nbt_tag(&mut cursor, &NbtTagId::Byte).unwrap(), NbtTagType::Byte(7));
    assert!(cursor.is_at_end());
}
