use nbtsniper::nbt::{
    NbtData, NbtReadError, NbtTag, NbtTagId, NbtTagPosition, NbtTagPositionRawBytes, NbtTagType,
};

#[test]
fn test_nbt_tag_id_from_u8_valid() {
    for (value, expected) in vec![
        (0u8, NbtTagId::End),
        (1, NbtTagId::Byte),
        (2, NbtTagId::Short),
        (3, NbtTagId::Int),
        (4, NbtTagId::Long),
        (5, NbtTagId::Float),
        (6, NbtTagId::Double),
        (7, NbtTagId::ByteArray),
        (8, NbtTagId::String),
        (9, NbtTagId::List),
        (10, NbtTagId::Compound),
        (11, NbtTagId::IntArray),
        (12, NbtTagId::LongArray),
    ] {
        assert_eq!(NbtTagId::from_u8(value), Some(expected));
    }
}

#[test]
fn test_nbt_tag_id_from_u8_invalid() {
    let invalid_values = vec![13u8, 255, 100, 14, 20];
    for value in invalid_values {
        assert_eq!(NbtTagId::from_u8(value), None);
    }
}

#[test]
fn test_nbt_tag_id_as_u8() {
    let variants = vec![
        (NbtTagId::End, 0u8),
        (NbtTagId::Byte, 1),
        (NbtTagId::Short, 2),
        (NbtTagId::Int, 3),
        (NbtTagId::Long, 4),
        (NbtTagId::Float, 5),
        (NbtTagId::Double, 6),
        (NbtTagId::ByteArray, 7),
        (NbtTagId::String, 8),
        (NbtTagId::List, 9),
        (NbtTagId::Compound, 10),
        (NbtTagId::IntArray, 11),
        (NbtTagId::LongArray, 12),
    ];

    for (variant, expected) in variants {
        assert_eq!(variant.into_u8(), expected);
    }
}

#[test]
fn test_nbt_tag_id_round_trip() {
    for value in 0u8..=12 {
        assert_eq!(NbtTagId::from_u8(value).unwrap().into_u8(), value);
    }
}

#[test]
fn test_nbt_tag_id_default() {
    let default_tag = NbtTagId::default();
    assert_eq!(default_tag, NbtTagId::End);
    assert_eq!(NbtTagId::new(), NbtTagId::End);
}

#[test]
fn test_nbt_tag_type_default() {
    let default_tag = NbtTagType::default();
    assert_eq!(default_tag, NbtTagType::End(None));
}

#[test]
fn test_nbt_tag_type_into_id() {
    assert_eq!(NbtTagType::End(None).into_id(), NbtTagId::End);
    assert_eq!(NbtTagType::Byte(1).into_id(), NbtTagId::Byte);
    assert_eq!(NbtTagType::Short(1).into_id(), NbtTagId::Short);
    assert_eq!(NbtTagType::Int(1).into_id(), NbtTagId::Int);
    assert_eq!(NbtTagType::Long(1).into_id(), NbtTagId::Long);
    assert_eq!(NbtTagType::Float(1).into_id(), NbtTagId::Float);
    assert_eq!(NbtTagType::Double(1).into_id(), NbtTagId::Double);
    assert_eq!(NbtTagType::ByteArray(vec![]).into_id(), NbtTagId::ByteArray);
    assert_eq!(NbtTagType::String(String::new()).into_id(), NbtTagId::String);
    assert_eq!(NbtTagType::List((NbtTagId::Int, 0)).into_id(), NbtTagId::List);
    assert_eq!(NbtTagType::Compound(String::new()).into_id(), NbtTagId::Compound);
    assert_eq!(NbtTagType::IntArray(vec![]).into_id(), NbtTagId::IntArray);
    assert_eq!(NbtTagType::LongArray(vec![]).into_id(), NbtTagId::LongArray);
}

#[test]
fn test_nbt_tag_type_clone() {
    let values = vec![
        NbtTagType::ByteArray(vec![1, -2, 3]),
        NbtTagType::IntArray(vec![4, 5]),
        NbtTagType::LongArray(vec![6]),
        NbtTagType::String("text".to_string()),
        NbtTagType::List((NbtTagId::Long, 5)),
        NbtTagType::Double(7),
    ];
    for value in values {
        assert_eq!(value.clone(), value);
    }
}

#[test]
fn test_nbt_tag_position_raw_bytes_new() {
    let pos = NbtTagPositionRawBytes::new();
    assert_eq!(pos.byte_start_all(), 0);
    assert_eq!(pos.byte_end_all(), 0);
    assert_eq!(pos.byte_end_all_with_children(), 0);
    assert_eq!(pos.byte_start_id(), None);
    assert_eq!(pos.byte_end_id(), None);
    assert_eq!(pos.byte_start_name(), None);
    assert_eq!(pos.byte_end_name(), None);
    assert_eq!(pos.byte_start_value(), None);
    assert_eq!(pos.byte_end_value(), None);
    assert_eq!(NbtTagPositionRawBytes::default(), pos);
}

#[test]
fn test_nbt_tag_position_raw_bytes_setters_getters() {
    let mut pos = NbtTagPositionRawBytes::new();
    pos.set_byte_start_all(10);
    pos.set_byte_end_all(20);
    pos.set_byte_end_all_with_children(30);
    pos.set_byte_start_id(40);
    pos.set_byte_end_id(50);
    pos.set_byte_start_name(60);
    pos.set_byte_end_name(70);
    pos.set_byte_start_value(80);
    pos.set_byte_end_value(90);

    assert_eq!(pos.byte_start_all(), 10);
    assert_eq!(pos.byte_end_all(), 20);
    assert_eq!(pos.byte_end_all_with_children(), 30);
    assert_eq!(pos.byte_start_id(), Some(40));
    assert_eq!(pos.byte_end_id(), Some(50));
    assert_eq!(pos.byte_start_name(), Some(60));
    assert_eq!(pos.byte_end_name(), Some(70));
    assert_eq!(pos.byte_start_value(), Some(80));
    assert_eq!(pos.byte_end_value(), Some(90));
}

#[test]
fn test_nbt_tag_position_raw_bytes_reset() {
    let mut pos = NbtTagPositionRawBytes::new();
    pos.set_byte_start_all(10);
    pos.set_byte_end_all(20);
    pos.set_byte_end_all_with_children(30);
    pos.set_byte_start_id(40);
    pos.set_byte_end_id(50);
    pos.set_byte_start_name(60);
    pos.set_byte_end_name(70);
    pos.set_byte_start_value(80);
    pos.set_byte_end_value(90);

    pos.reset();

    assert_eq!(pos.byte_start_all(), 0);
    assert_eq!(pos.byte_end_all(), 0);
    assert_eq!(pos.byte_end_all_with_children(), 0);
    assert_eq!(pos.byte_start_id(), None);
    assert_eq!(pos.byte_end_id(), None);
    assert_eq!(pos.byte_start_name(), None);
    assert_eq!(pos.byte_end_name(), None);
    assert_eq!(pos.byte_start_value(), None);
    assert_eq!(pos.byte_end_value(), None);
}

#[test]
fn test_nbt_tag_position_new() {
    let mut pos = NbtTagPosition::new();
    assert_eq!(pos.byte_start_all(), 0);
    assert_eq!(pos.byte_end_all(), 0);
    assert_eq!(pos.byte_end_all_with_children(), 0);
    assert_eq!(pos.byte_start_id(), None);
    assert_eq!(pos.byte_end_id(), None);
    assert_eq!(pos.byte_start_name(), None);
    assert_eq!(pos.byte_end_name(), None);
    assert_eq!(pos.byte_start_value(), None);
    assert_eq!(pos.byte_end_value(), None);
    assert_eq!(pos.index(), 0);
    assert_eq!(pos.depth(), 0);
    assert_eq!(pos.parent(), 0);
    assert!(pos.children().is_empty());
    assert_eq!(NbtTagPosition::default(), pos);
}

#[test]
fn test_nbt_tag_position_setters_getters() {
    let mut pos = NbtTagPosition::new();
    pos.set_byte_start_all(100);
    pos.set_byte_end_all(200);
    pos.set_byte_end_all_with_children(300);
    pos.set_byte_start_id(400);
    pos.set_byte_end_id(500);
    pos.set_byte_start_name(600);
    pos.set_byte_end_name(700);
    pos.set_byte_start_value(800);
    pos.set_byte_end_value(900);
    pos.set_index(1);
    pos.set_depth(2);
    pos.set_parent(3);

    assert_eq!(pos.byte_start_all(), 100);
    assert_eq!(pos.byte_end_all(), 200);
    assert_eq!(pos.byte_end_all_with_children(), 300);
    assert_eq!(pos.byte_start_id(), Some(400));
    assert_eq!(pos.byte_end_id(), Some(500));
    assert_eq!(pos.byte_start_name(), Some(600));
    assert_eq!(pos.byte_end_name(), Some(700));
    assert_eq!(pos.byte_start_value(), Some(800));
    assert_eq!(pos.byte_end_value(), Some(900));
    assert_eq!(pos.index(), 1);
    assert_eq!(pos.depth(), 2);
    assert_eq!(pos.parent(), 3);
}

#[test]
fn test_nbt_tag_position_reset() {
    let mut pos = NbtTagPosition::new();
    pos.set_byte_start_all(100);
    pos.set_byte_end_all(200);
    pos.set_byte_end_all_with_children(300);
    pos.set_byte_start_id(400);
    pos.set_byte_end_id(500);
    pos.set_byte_start_name(600);
    pos.set_byte_end_name(700);
    pos.set_byte_start_value(800);
    pos.set_byte_end_value(900);
    pos.set_index(1);
    pos.set_depth(2);
    pos.set_parent(3);
    pos.children().push(4);

    pos.reset();

    assert_eq!(pos.byte_start_all(), 0);
    assert_eq!(pos.byte_end_all(), 0);
    assert_eq!(pos.byte_end_all_with_children(), 0);
    assert_eq!(pos.byte_start_id(), None);
    assert_eq!(pos.byte_end_id(), None);
    assert_eq!(pos.byte_start_name(), None);
    assert_eq!(pos.byte_end_name(), None);
    assert_eq!(pos.byte_start_value(), None);
    assert_eq!(pos.byte_end_value(), None);
    assert_eq!(pos.index(), 0);
    assert_eq!(pos.depth(), 0);
    assert_eq!(pos.parent(), 0);
    assert!(pos.children().is_empty());
}

#[test]
fn test_nbt_tag_position_clone() {
    let mut pos = NbtTagPosition::new();
    pos.set_byte_start_id(5);
    pos.set_depth(3);
    pos.children().push(9);
    let copy = pos.clone();
    assert_eq!(copy, pos);
}

#[test]
fn test_nbt_tag_default() {
    let tag = NbtTag::default();
    assert_eq!(tag.name(), "");
    assert_eq!(tag.value(), &NbtTagType::End(None));
    assert_eq!(tag.position().byte_start_all(), 0);
    assert_eq!(NbtTag::new(), tag);
}

#[test]
fn test_nbt_tag_setters_getters() {
    let mut tag = NbtTag::default();
    tag.set_name("TestTag".to_string());
    tag.set_value(NbtTagType::Int(123));

    let mut pos = NbtTagPosition::new();
    pos.set_byte_start_all(10);
    pos.set_byte_end_all(20);
    tag.set_position(pos.clone());

    assert_eq!(tag.name(), "TestTag");
    assert_eq!(tag.value(), &NbtTagType::Int(123));
    assert_eq!(tag.position().byte_start_all(), 10);
}

#[test]
fn test_nbt_tag_children_and_position_are_open_to_change() {
    let mut tag = NbtTag::new();
    tag.children().push(3);
    tag.children().push(8);
    tag.position_as_mut().set_depth(4);
    assert_eq!(tag.position().depth(), 4);
    assert_eq!(tag.position_as_mut().children().clone(), vec![3, 8]);
    assert_eq!(tag.clone(), tag);
}

#[test]
fn test_nbt_data_new() {
    let buffer = vec![];
    let nbt_data = NbtData::new(buffer.clone());
    assert!(nbt_data.nbt_tags().is_empty());
    assert_eq!(nbt_data.raw_bytes(), &buffer);
    assert!(nbt_data.tags_map().is_empty());
}

#[test]
fn test_nbt_data_from_buf_empty() {
    let buffer = vec![];
    let result = NbtData::from_buf(buffer);
    assert!(matches!(result, Err(NbtReadError::EmptyFile)));
}

#[test]
fn test_nbt_data_from_buf_invalid() {
    let buffer = vec![255];
    let result = NbtData::from_buf(buffer);
    assert!(result.is_err());
    match result.err().unwrap() {
        NbtReadError::InvalidContent => (),
        _ => panic!("Expected InvalidContent error"),
    }
}

#[test]
fn test_nbt_data_parse_single_tag() {
    // One Int tag named "Test" with the value 42: a document must begin with
    // a compound.
    let mut buffer = Vec::new();
    buffer.push(NbtTagId::Int.into_u8());
    buffer.extend(&4u16.to_be_bytes());
    buffer.extend("Test".as_bytes());
    buffer.extend(&42i32.to_be_bytes());

    let result = NbtData::from_buf(buffer);
    assert!(matches!(result, Err(NbtReadError::InvalidNbtRootTagId)));
}

#[test]
fn test_nbt_data_parse_single_tag_in_a_compound() {
    let mut buffer = vec![NbtTagId::Compound.into_u8(), 0, 0];
    buffer.push(NbtTagId::Int.into_u8());
    buffer.extend(&4u16.to_be_bytes());
    buffer.extend("Test".as_bytes());
    buffer.extend(&42i32.to_be_bytes());
    buffer.push(NbtTagId::End.into_u8());

    let nbt_data = NbtData::from_buf(buffer).unwrap();
    assert_eq!(nbt_data.nbt_tags().len(), 3);
    let tag = &nbt_data.nbt_tags()[1];
    assert_eq!(tag.name(), "Test");
    assert_eq!(tag.value(), &NbtTagType::Int(42));
}

#[test]
fn test_nbt_data_parse_multiple_tags() {
    // A Byte tag and a String tag side by side: a document must begin with a
    // compound.
    let mut buffer = Vec::new();
    buffer.push(NbtTagId::Byte.into_u8());
    buffer.extend(&1u16.to_be_bytes());
    buffer.extend("A".as_bytes());
    buffer.push(1i8 as u8);

    buffer.push(NbtTagId::String.into_u8());
    buffer.extend(&1u16.to_be_bytes());
    buffer.extend("B".as_bytes());
    buffer.extend(&5u16.to_be_bytes());
    buffer.extend("Hello".as_bytes());

    let result = NbtData::from_buf(buffer);
    assert!(matches!(result, Err(NbtReadError::InvalidNbtRootTagId)));
}

#[test]
fn test_nbt_data_parse_multiple_tags_in_a_compound() {
    let mut buffer = vec![NbtTagId::Compound.into_u8(), 0, 0];
    buffer.push(NbtTagId::Byte.into_u8());
    buffer.extend(&1u16.to_be_bytes());
    buffer.extend("A".as_bytes());
    buffer.push(1i8 as u8);

    buffer.push(NbtTagId::String.into_u8());
    buffer.extend(&1u16.to_be_bytes());
    buffer.extend("B".as_bytes());
    buffer.extend(&5u16.to_be_bytes());
    buffer.extend("Hello".as_bytes());
    buffer.push(NbtTagId::End.into_u8());

    let nbt_data = NbtData::from_buf(buffer).unwrap();
    assert_eq!(nbt_data.nbt_tags().len(), 4);

    let tag1 = &nbt_data.nbt_tags()[1];
    assert_eq!(tag1.name(), "A");
    assert_eq!(tag1.value(), &NbtTagType::Byte(1));

    let tag2 = &nbt_data.nbt_tags()[2];
    assert_eq!(tag2.name(), "B");
    assert_eq!(tag2.value(), &NbtTagType::String("Hello".to_string()));
}

#[test]
fn test_nbt_data_parse_nested_compound() {
    // The name is declared with 6 bytes and written with 8: the two bytes
    // left over are read as the next tag, whose id is none.
    let mut buffer = Vec::new();
    buffer.push(NbtTagId::Compound.into_u8());
    buffer.extend(&6u16.to_be_bytes());
    buffer.extend("Compound".as_bytes());

    buffer.push(NbtTagId::Int.into_u8());
    buffer.extend(&3u16.to_be_bytes());
    buffer.extend("Int".as_bytes());
    buffer.extend(&100i32.to_be_bytes());

    buffer.push(NbtTagId::End.into_u8());

    let result = NbtData::from_buf(buffer);
    assert!(matches!(result, Err(NbtReadError::InvalidContent)));
}

#[test]
fn test_nbt_data_parse_nested_compound_with_its_whole_name() {
    let mut buffer = Vec::new();
    buffer.push(NbtTagId::Compound.into_u8());
    buffer.extend(&8u16.to_be_bytes());
    buffer.extend("Compound".as_bytes());

    buffer.push(NbtTagId::Int.into_u8());
    buffer.extend(&3u16.to_be_bytes());
    buffer.extend("Int".as_bytes());
    buffer.extend(&100i32.to_be_bytes());

    buffer.push(NbtTagId::End.into_u8());

    let nbt_data = NbtData::from_buf(buffer).unwrap();
    assert_eq!(nbt_data.nbt_tags().len(), 3);

    let compound_tag = &nbt_data.nbt_tags()[0];
    assert_eq!(compound_tag.name(), "Compound");
    assert_eq!(compound_tag.value(), &NbtTagType::Compound("".to_string()));
    assert_eq!(compound_tag.position().children, vec![1, 2]);

    let nested_int_tag = &nbt_data.nbt_tags()[1];
    assert_eq!(nested_int_tag.name(), "Int");
    assert_eq!(nested_int_tag.value(), &NbtTagType::Int(100));
    assert_eq!(nested_int_tag.position().parent(), 0);

    let end_tag = &nbt_data.nbt_tags()[2];
    assert_eq!(end_tag.name(), "");
    assert_eq!(end_tag.value(), &NbtTagType::End(None));
    assert_eq!(end_tag.position().parent(), 0);
}

#[test]
fn test_nbt_data_parse_list_of_strings() {
    // A list at the root: a document must begin with a compound.
    let mut buffer = Vec::new();
    buffer.push(NbtTagId::List.into_u8());
    buffer.extend(&4u16.to_be_bytes());
    buffer.extend("List".as_bytes());
    buffer.push(NbtTagId::String.into_u8());
    buffer.extend(&2i32.to_be_bytes());

    buffer.extend(&5u16.to_be_bytes());
    buffer.extend("Hello".as_bytes());

    buffer.extend(&5u16.to_be_bytes());
    buffer.extend("World".as_bytes());

    let result = NbtData::from_buf(buffer);
    assert!(matches!(result, Err(NbtReadError::InvalidNbtRootTagId)));
}

#[test]
fn test_nbt_data_parse_list_of_strings_in_a_compound() {
    let mut buffer = vec![NbtTagId::Compound.into_u8(), 0, 0];
    buffer.push(NbtTagId::List.into_u8());
    buffer.extend(&4u16.to_be_bytes());
    buffer.extend("List".as_bytes());
    buffer.push(NbtTagId::String.into_u8());
    buffer.extend(&2i32.to_be_bytes());

    buffer.extend(&5u16.to_be_bytes());
    buffer.extend("Hello".as_bytes());

    buffer.extend(&5u16.to_be_bytes());
    buffer.extend("World".as_bytes());
    buffer.push(NbtTagId::End.into_u8());

    let nbt_data = NbtData::from_buf(buffer).unwrap();
    assert_eq!(nbt_data.nbt_tags().len(), 5);

    let list_tag = &nbt_data.nbt_tags()[1];
    assert_eq!(list_tag.name(), "List");
    assert_eq!(list_tag.value(), &NbtTagType::List((NbtTagId::String, 2)));
    assert_eq!(list_tag.position().children, vec![2, 3]);

    let string1 = &nbt_data.nbt_tags()[2];
    assert_eq!(string1.value(), &NbtTagType::String("Hello".to_string()));
    assert_eq!(string1.position().parent(), 1);

    let string2 = &nbt_data.nbt_tags()[3];
    assert_eq!(string2.value(), &NbtTagType::String("World".to_string()));
    assert_eq!(string2.position().parent(), 1);

    let end_tag = &nbt_data.nbt_tags()[4];
    assert_eq!(end_tag.position().parent(), 0);
    assert_eq!(end_tag.position().depth(), 1);
}
