use nbtsniper::nbt::{NbtData, NbtReadError, NbtTagId, NbtTagType};

fn error_of(buffer: Vec<u8>) -> NbtReadError {
    match NbtData::from_buf(buffer) {
        Ok(_) => panic!("the buffer holds no document"),
        Err(e) => e,
    }
}

fn document(buffer: Vec<u8>) -> NbtData {
    match NbtData::from_buf(buffer) {
        Ok(data) => data,
        Err(e) => panic!("the buffer holds a document: {:?}", e),
    }
}

#[test]
fn test_empty_input() {
    assert_eq!(error_of(vec![]), NbtReadError::EmptyFile);
}

#[test]
fn test_parse_of_an_empty_buffer() {
    let mut data = NbtData::new(vec![]);
    assert_eq!(data.parse(), Err(NbtReadError::Io));
}

#[test]
fn test_first_byte_is_no_compound() {
    for first in 0u8..=12 {
        if first != 10 {
            assert_eq!(error_of(vec![first, 0, 0, 0]), NbtReadError::InvalidNbtRootTagId);
        }
    }
    assert_eq!(error_of(vec![13, 0, 0, 0]), NbtReadError::InvalidContent);
}

#[test]
fn test_list_length_32768() {
    let mut buffer = vec![10, 0, 0, 9, 0, 1, b'l', 1];
    buffer.extend(&32768i32.to_be_bytes());
    assert_eq!(error_of(buffer), NbtReadError::InvalidNbtListLenght);
}

#[test]
fn test_list_length_minus_one() {
    let mut buffer = vec![10, 0, 0, 9, 0, 1, b'l', 1];
    buffer.extend(&(-1i32).to_be_bytes());
    assert_eq!(error_of(buffer), NbtReadError::InvalidNbtListLenght);
}

#[test]
fn test_truncation_inside_a_leaf() {
    assert_eq!(error_of(vec![10, 0, 0, 3, 0, 1, b'i', 0, 0, 1]), NbtReadError::Io);
    assert_eq!(error_of(vec![10, 0, 0, 4, 0, 1, b'l', 0, 0, 0, 0, 0, 0, 1]), NbtReadError::Io);
    assert_eq!(error_of(vec![10, 0, 0, 8, 0, 1, b's', 0, 3, b'a']), NbtReadError::Io);
    assert_eq!(error_of(vec![10, 0, 5, b'L', b'e']), NbtReadError::Io);
    assert_eq!(error_of(vec![10, 0]), NbtReadError::Io);
}

#[test]
fn test_array_lengths_out_of_bounds() {
    let mut buffer = vec![10, 0, 0, 7, 0, 0];
    buffer.extend(&32768i32.to_be_bytes());
    assert_eq!(error_of(buffer), NbtReadError::InvalidNbtByteArrayLenght);
    let mut buffer = vec![10, 0, 0, 11, 0, 0];
    buffer.extend(&32768i32.to_be_bytes());
    assert_eq!(error_of(buffer), NbtReadError::InvalidNbtIntArrayLenght);
    let mut buffer = vec![10, 0, 0, 12, 0, 0];
    buffer.extend(&32768i32.to_be_bytes());
    assert_eq!(error_of(buffer), NbtReadError::InvalidNbtLongArrayLenght);
    let mut buffer = vec![10, 0, 0, 12, 0, 0];
    buffer.extend(&(-2i32).to_be_bytes());
    assert_eq!(error_of(buffer), NbtReadError::NegativeNbtTagLenght);
}

#[test]
fn test_unknown_id_inside_a_compound() {
    assert_eq!(error_of(vec![10, 0, 0, 200, 0, 0]), NbtReadError::InvalidContent);
}

#[test]
fn test_compound_that_never_ends() {
    assert_eq!(error_of(vec![10, 0, 0]), NbtReadError::InvalidNbtDepth);
    assert_eq!(error_of(vec![10, 0, 0, 1, 0, 0, 5]), NbtReadError::InvalidNbtDepth);
    assert_eq!(error_of(vec![10, 0, 0, 10, 0, 0, 0]), NbtReadError::InvalidNbtDepth);
}

#[test]
fn test_list_that_is_cut_short_between_elements() {
    let mut buffer = vec![10, 0, 0, 9, 0, 0, 1];
    buffer.extend(&3i32.to_be_bytes());
    buffer.extend(&[1, 2]);
    assert_eq!(error_of(buffer), NbtReadError::InvalidNbtDepth);
}

#[test]
fn test_bytes_behind_the_root() {
    assert_eq!(error_of(vec![10, 0, 0, 0, 0]), NbtReadError::InvalidNbtDepth);
    assert_eq!(error_of(vec![10, 0, 0, 0, 10, 0, 0, 0]), NbtReadError::InvalidNbtDepth);
}

#[test]
fn test_smallest_document() {
    let data = document(vec![10, 0, 0, 0]);
    let tags = data.nbt_tags();
    assert_eq!(tags.len(), 2);
    assert_eq!(tags[0].value(), &NbtTagType::Compound(String::new()));
    assert_eq!(tags[0].position().byte_start_all(), 0);
    assert_eq!(tags[0].position().byte_end_all(), 2);
    assert_eq!(tags[0].position().byte_end_all_with_children(), 3);
    assert_eq!(tags[0].position().byte_start_id(), Some(0));
    assert_eq!(tags[0].position().byte_end_id(), Some(0));
    assert_eq!(tags[0].position().byte_start_name(), Some(1));
    assert_eq!(tags[0].position().byte_end_name(), Some(2));
    assert_eq!(tags[0].position().byte_start_value(), Some(3));
    assert_eq!(tags[0].position().byte_end_value(), Some(2));
    assert_eq!(tags[0].position().children, vec![1]);
    assert_eq!(tags[1].value(), &NbtTagType::End(None));
    assert_eq!(tags[1].position().byte_start_all(), 3);
    assert_eq!(tags[1].position().byte_end_all(), 3);
    assert_eq!(tags[1].position().byte_start_id(), Some(3));
    assert_eq!(tags[1].position().byte_start_name(), None);
    assert_eq!(tags[1].position().byte_end_name(), None);
    assert_eq!(tags[1].position().byte_start_value(), None);
    assert_eq!(tags[1].position().byte_end_value(), None);
    assert_eq!(tags[1].position().depth(), 1);
    assert_eq!(tags[1].position().parent(), 0);
    assert_eq!(data.tags_map().get(""), Some(&1));
}

#[test]
fn test_list_that_declares_no_element_has_no_children() {
    // root { l: [] of bytes }
    let buffer = vec![0x0A, 0, 0, 0x09, 0, 1, b'l', 0x01, 0, 0, 0, 0, 0x00];
    let data = document(buffer);
    let tags = data.nbt_tags();
    assert_eq!(tags.len(), 3);
    let kinds: Vec<NbtTagId> = tags.iter().map(|tag| tag.value().into_id()).collect();
    assert_eq!(kinds, vec![NbtTagId::Compound, NbtTagId::List, NbtTagId::End]);
    let names: Vec<&str> = tags.iter().map(|tag| tag.name()).collect();
    assert_eq!(names, vec!["", "l", ""]);
    let depths: Vec<i64> = tags.iter().map(|tag| tag.position().depth()).collect();
    assert_eq!(depths, vec![0, 1, 1]);
    let parents: Vec<usize> = tags.iter().map(|tag| tag.position().parent()).collect();
    assert_eq!(parents, vec![0, 0, 0]);
    assert_eq!(tags[1].value(), &NbtTagType::List((NbtTagId::Byte, 0)));
    assert!(tags[1].position().children.is_empty());
    assert_eq!(tags[1].position().byte_start_all(), 3);
    assert_eq!(tags[1].position().byte_end_all(), 11);
    assert_eq!(tags[1].position().byte_end_all_with_children(), 11);
    assert_eq!(tags[0].position().children, vec![1, 2]);
    assert_eq!(tags[2].position().byte_start_all(), 12);
}

#[test]
fn test_byte_behind_a_list_that_declares_no_element_is_no_element() {
    // The byte behind the empty list is the end tag of the root, and the
    // one behind that lies behind the document.
    let buffer = vec![0x0A, 0, 0, 0x09, 0, 1, b'l', 0x01, 0, 0, 0, 0, 0x00, 0x00];
    assert_eq!(error_of(buffer), NbtReadError::InvalidNbtDepth);
}

#[test]
fn test_lists_that_declare_no_element_of_every_kind() {
    for kind in 0u8..=12 {
        let mut buffer = vec![10, 0, 0, 9, 0, 1, b'l', kind];
        buffer.extend(&0i32.to_be_bytes());
        buffer.extend(&[1, 0, 1, b'b', 7]);
        buffer.push(0);
        let data = document(buffer);
        let tags = data.nbt_tags();
        assert_eq!(tags.len(), 4);
        assert_eq!(
            tags[1].value(),
            &NbtTagType::List((NbtTagId::from_u8(kind).unwrap(), 0))
        );
        assert!(tags[1].position().children.is_empty());
        assert_eq!(
            tags[1].position().byte_end_all_with_children(),
            tags[1].position().byte_end_all()
        );
        assert_eq!(tags[2].value(), &NbtTagType::Byte(7));
        assert_eq!(tags[2].name(), "b");
        assert_eq!(tags[2].position().parent(), 0);
        assert_eq!(tags[2].position().depth(), 1);
        assert_eq!(tags[0].position().children, vec![1, 2, 3]);
    }
}

#[test]
fn test_list_that_declares_no_element_inside_a_list_of_compounds() {
    // root { o: [ { e: [] }, { e: [] } ] }
    let mut buffer = vec![10, 0, 0];
    buffer.extend(&[9, 0, 1, b'o', 10, 0, 0, 0, 2]);
    buffer.extend(&[9, 0, 1, b'e', 3, 0, 0, 0, 0, 0]);
    buffer.extend(&[9, 0, 1, b'e', 10, 0, 0, 0, 0, 0]);
    buffer.push(0);
    let data = document(buffer);
    let tags = data.nbt_tags();
    let kinds: Vec<NbtTagId> = tags.iter().map(|tag| tag.value().into_id()).collect();
    assert_eq!(
        kinds,
        vec![
            NbtTagId::Compound,
            NbtTagId::List,
            NbtTagId::Compound,
            NbtTagId::List,
            NbtTagId::End,
            NbtTagId::Compound,
            NbtTagId::List,
            NbtTagId::End,
            NbtTagId::End,
        ]
    );
    let parents: Vec<usize> = tags.iter().map(|tag| tag.position().parent()).collect();
    assert_eq!(parents, vec![0, 0, 1, 2, 2, 1, 5, 5, 0]);
    let depths: Vec<i64> = tags.iter().map(|tag| tag.position().depth()).collect();
    assert_eq!(depths, vec![0, 1, 2, 3, 3, 2, 3, 3, 1]);
    assert_eq!(tags[1].position().children, vec![2, 5]);
    assert!(tags[3].position().children.is_empty());
    assert!(tags[6].position().children.is_empty());
}

#[test]
fn test_every_list_has_the_children_it_declares() {
    // root { a: [] , b: [1, 2, 3] of shorts, c: [ [] , [] ] of lists, d: 5 }
    let mut buffer = vec![10, 0, 0];
    buffer.extend(&[9, 0, 1, b'a', 8, 0, 0, 0, 0]);
    buffer.extend(&[9, 0, 1, b'b', 2, 0, 0, 0, 3, 0, 1, 0, 2, 0, 3]);
    buffer.extend(&[9, 0, 1, b'c', 9, 0, 0, 0, 2, 1, 0, 0, 0, 0, 4, 0, 0, 0, 0]);
    buffer.extend(&[1, 0, 1, b'd', 5]);
    buffer.push(0);
    let data = document(buffer);
    let tags = data.nbt_tags();
    let mut lists = 0;
    for c in 0..tags.len() {
        if let NbtTagType::List((kind, count)) = tags[c].value() {
            lists += 1;
            let children: Vec<usize> = (0..tags.len())
                .filter(|k| *k != c && tags[*k].position().parent() == c)
                .collect();
            let expected: Vec<usize> = (c + 1..=c + *count as usize).collect();
            assert_eq!(children, expected);
            assert_eq!(tags[c].position().children, expected);
            for k in children {
                assert_eq!(tags[k].value().into_id(), *kind);
                assert_eq!(tags[k].name(), "");
                assert_eq!(tags[k].position().byte_start_id(), None);
                assert_eq!(tags[k].position().byte_start_name(), None);
            }
            assert_eq!(
                tags[c].position().children.is_empty(),
                tags[c].position().byte_end_all_with_children()
                    == tags[c].position().byte_end_all()
            );
        }
    }
    assert_eq!(lists, 5);
    assert_eq!(tags.len(), 11);
    assert_eq!(tags[9].value(), &NbtTagType::Byte(5));
    assert_eq!(tags[9].position().parent(), 0);
}

/// The kinds, the parents and the depths of the tags of `data`.
fn shape_of(data: &NbtData) -> (Vec<NbtTagId>, Vec<usize>, Vec<i64>) {
    let tags = data.nbt_tags();
    (
        tags.iter().map(|tag| tag.value().into_id()).collect(),
        tags.iter().map(|tag| tag.position().parent()).collect(),
        tags.iter().map(|tag| tag.position().depth()).collect(),
    )
}

#[test]
fn test_list_of_lists_reads_the_elements_of_each() {
    // root { l: [ [1, 2] of bytes, [] of ints, [5] of ints ], d: 5 }
    let mut buffer = vec![10, 0, 0];
    buffer.extend(&[9, 0, 1, b'l', 9, 0, 0, 0, 3]);
    buffer.extend(&[1, 0, 0, 0, 2, 1, 2]);
    buffer.extend(&[3, 0, 0, 0, 0]);
    buffer.extend(&[3, 0, 0, 0, 1, 0, 0, 0, 5]);
    buffer.extend(&[1, 0, 1, b'd', 5]);
    buffer.push(0);
    assert_eq!(buffer.len(), 39);
    let data = document(buffer);
    let tags = data.nbt_tags();
    let (kinds, parents, depths) = shape_of(&data);
    assert_eq!(
        kinds,
        vec![
            NbtTagId::Compound,
            NbtTagId::List,
            NbtTagId::List,
            NbtTagId::Byte,
            NbtTagId::Byte,
            NbtTagId::List,
            NbtTagId::List,
            NbtTagId::Int,
            NbtTagId::Byte,
            NbtTagId::End,
        ]
    );
    assert_eq!(parents, vec![0, 0, 1, 2, 2, 1, 1, 6, 0, 0]);
    assert_eq!(depths, vec![0, 1, 2, 3, 3, 2, 2, 3, 1, 1]);
    assert_eq!(tags[1].value(), &NbtTagType::List((NbtTagId::List, 3)));
    assert_eq!(tags[2].value(), &NbtTagType::List((NbtTagId::Byte, 2)));
    assert_eq!(tags[3].value(), &NbtTagType::Byte(1));
    assert_eq!(tags[4].value(), &NbtTagType::Byte(2));
    assert_eq!(tags[5].value(), &NbtTagType::List((NbtTagId::Int, 0)));
    assert_eq!(tags[6].value(), &NbtTagType::List((NbtTagId::Int, 1)));
    assert_eq!(tags[7].value(), &NbtTagType::Int(5));
    assert_eq!(tags[8].value(), &NbtTagType::Byte(5));
    assert_eq!(tags[8].name(), "d");
    assert_eq!(tags[0].position().children, vec![1, 8, 9]);
    assert_eq!(tags[1].position().children, vec![2, 5, 6]);
    assert_eq!(tags[2].position().children, vec![3, 4]);
    assert!(tags[5].position().children.is_empty());
    assert_eq!(tags[6].position().children, vec![7]);
    for c in [1usize, 2, 5, 6] {
        assert_eq!(children_of(&data, c), tags[c].position().children);
    }
    // A list element has neither id nor name; its value begins the tag.
    assert_eq!(tags[2].position().byte_start_id(), None);
    assert_eq!(tags[2].position().byte_start_name(), None);
    assert_eq!(tags[2].position().byte_start_all(), 12);
    assert_eq!(tags[2].position().byte_start_value(), Some(12));
    assert_eq!(tags[2].position().byte_end_value(), Some(16));
    assert_eq!(tags[2].position().byte_end_all(), 16);
    assert_eq!(tags[2].position().byte_end_all_with_children(), 18);
    assert_eq!(tags[5].position().byte_start_all(), 19);
    assert_eq!(tags[5].position().byte_end_all_with_children(), 23);
    assert_eq!(tags[6].position().byte_start_all(), 24);
    assert_eq!(tags[6].position().byte_end_all_with_children(), 32);
    assert_eq!(tags[1].position().byte_end_all(), 11);
    assert_eq!(tags[1].position().byte_end_all_with_children(), 32);
    assert_eq!(tags[8].position().byte_start_all(), 33);
    assert_eq!(tags[9].position().byte_start_all(), 38);
}

#[test]
fn test_lists_in_lists_that_end_together() {
    // root { l: [ [ [7] ] ], d: 5 }: three lists end with one byte.
    let mut buffer = vec![10, 0, 0];
    buffer.extend(&[9, 0, 1, b'l', 9, 0, 0, 0, 1]);
    buffer.extend(&[9, 0, 0, 0, 1]);
    buffer.extend(&[1, 0, 0, 0, 1]);
    buffer.push(7);
    buffer.extend(&[1, 0, 1, b'd', 5]);
    buffer.push(0);
    let data = document(buffer);
    let tags = data.nbt_tags();
    let (kinds, parents, depths) = shape_of(&data);
    assert_eq!(
        kinds,
        vec![
            NbtTagId::Compound,
            NbtTagId::List,
            NbtTagId::List,
            NbtTagId::List,
            NbtTagId::Byte,
            NbtTagId::Byte,
            NbtTagId::End,
        ]
    );
    assert_eq!(parents, vec![0, 0, 1, 2, 3, 0, 0]);
    assert_eq!(depths, vec![0, 1, 2, 3, 4, 1, 1]);
    assert_eq!(tags[4].value(), &NbtTagType::Byte(7));
    assert_eq!(tags[5].value(), &NbtTagType::Byte(5));
    assert_eq!(tags[1].position().children, vec![2]);
    assert_eq!(tags[2].position().children, vec![3]);
    assert_eq!(tags[3].position().children, vec![4]);
    for c in 1..4 {
        assert_eq!(tags[c].position().byte_end_all_with_children(), 22);
    }
    assert_eq!(*data.nbt_parser.tree_depth(), 0);
    assert!(data.nbt_parser.unfinished_lists.is_empty());
}

#[test]
fn test_list_of_lists_of_compounds() {
    // root { a: [ [ {}, {} ], [ {} ] ] }
    let mut buffer = vec![10, 0, 0];
    buffer.extend(&[9, 0, 1, b'a', 9, 0, 0, 0, 2]);
    buffer.extend(&[10, 0, 0, 0, 2, 0, 0]);
    buffer.extend(&[10, 0, 0, 0, 1, 0]);
    buffer.push(0);
    let data = document(buffer);
    let tags = data.nbt_tags();
    let (kinds, parents, depths) = shape_of(&data);
    assert_eq!(
        kinds,
        vec![
            NbtTagId::Compound,
            NbtTagId::List,
            NbtTagId::List,
            NbtTagId::Compound,
            NbtTagId::End,
            NbtTagId::Compound,
            NbtTagId::End,
            NbtTagId::List,
            NbtTagId::Compound,
            NbtTagId::End,
            NbtTagId::End,
        ]
    );
    assert_eq!(parents, vec![0, 0, 1, 2, 3, 2, 5, 1, 7, 8, 0]);
    assert_eq!(depths, vec![0, 1, 2, 3, 4, 3, 4, 2, 3, 4, 1]);
    assert_eq!(tags[1].position().children, vec![2, 7]);
    assert_eq!(tags[2].position().children, vec![3, 5]);
    assert_eq!(tags[7].position().children, vec![8]);
    for c in [1usize, 2, 7] {
        assert_eq!(children_of(&data, c), tags[c].position().children);
    }
}

#[test]
fn test_lists_and_compounds_in_turn() {
    // root { a: [ [ { b: [ [1] ] } ] ], z: 1 }
    let mut buffer = vec![10, 0, 0];
    buffer.extend(&[9, 0, 1, b'a', 9, 0, 0, 0, 1]);
    buffer.extend(&[10, 0, 0, 0, 1]);
    buffer.extend(&[9, 0, 1, b'b', 9, 0, 0, 0, 1]);
    buffer.extend(&[1, 0, 0, 0, 1, 1]);
    buffer.push(0);
    buffer.extend(&[1, 0, 1, b'z', 1]);
    buffer.push(0);
    let data = document(buffer);
    let tags = data.nbt_tags();
    let (kinds, parents, depths) = shape_of(&data);
    assert_eq!(
        kinds,
        vec![
            NbtTagId::Compound,
            NbtTagId::List,
            NbtTagId::List,
            NbtTagId::Compound,
            NbtTagId::List,
            NbtTagId::List,
            NbtTagId::Byte,
            NbtTagId::End,
            NbtTagId::Byte,
            NbtTagId::End,
        ]
    );
    assert_eq!(parents, vec![0, 0, 1, 2, 3, 4, 5, 3, 0, 0]);
    assert_eq!(depths, vec![0, 1, 2, 3, 4, 5, 6, 4, 1, 1]);
    assert_eq!(tags[3].position().children, vec![4, 7]);
    assert_eq!(tags[0].position().children, vec![1, 8, 9]);
    assert_eq!(tags[8].name(), "z");
    same_subtree(&data, 0, 10);
}

#[test]
fn test_list_of_end_tags() {
    // An end tag that is a list element takes no byte and ends nothing.
    let mut buffer = vec![10, 0, 0];
    buffer.extend(&[9, 0, 1, b'l', 0, 0, 0, 0, 2]);
    buffer.push(0);
    let data = document(buffer);
    let tags = data.nbt_tags();
    let (kinds, parents, depths) = shape_of(&data);
    assert_eq!(
        kinds,
        vec![NbtTagId::Compound, NbtTagId::List, NbtTagId::End, NbtTagId::End, NbtTagId::End]
    );
    assert_eq!(parents, vec![0, 0, 1, 1, 0]);
    assert_eq!(depths, vec![0, 1, 2, 2, 1]);
    assert_eq!(tags[1].position().children, vec![2, 3]);
    assert_eq!(tags[0].position().children, vec![1, 4]);
}

#[test]
fn test_list_length_out_of_bounds_inside_a_list() {
    // root { l: [ a list that declares 32768 elements ] }
    let mut buffer = vec![10, 0, 0];
    buffer.extend(&[9, 0, 1, b'l', 9, 0, 0, 0, 1]);
    buffer.push(1);
    buffer.extend(&32768i32.to_be_bytes());
    buffer.push(0);
    assert_eq!(error_of(buffer), NbtReadError::InvalidNbtListLenght);
    let mut buffer = vec![10, 0, 0];
    buffer.extend(&[9, 0, 1, b'l', 9, 0, 0, 0, 1]);
    buffer.push(1);
    buffer.extend(&(-1i32).to_be_bytes());
    buffer.push(0);
    assert_eq!(error_of(buffer), NbtReadError::InvalidNbtListLenght);
}

#[test]
fn test_list_in_a_list_that_is_cut_short() {
    // root { l: [ [1, 2] of bytes ] }, cut behind the first byte of the
    // inner list.
    let mut buffer = vec![10, 0, 0];
    buffer.extend(&[9, 0, 1, b'l', 9, 0, 0, 0, 1]);
    buffer.extend(&[1, 0, 0, 0, 2, 1]);
    assert_eq!(error_of(buffer), NbtReadError::InvalidNbtDepth);
}

#[test]
fn test_bytes_of_a_compound_that_holds_lists_of_lists() {
    // root { c: { l: [ [1], [2, 3] ] of lists of bytes }, z: 1 }
    let mut buffer = vec![10, 0, 0];
    buffer.extend(&[10, 0, 1, b'c']);
    buffer.extend(&[9, 0, 1, b'l', 9, 0, 0, 0, 2]);
    buffer.extend(&[1, 0, 0, 0, 1, 1]);
    buffer.extend(&[1, 0, 0, 0, 2, 2, 3]);
    buffer.push(0);
    buffer.extend(&[1, 0, 1, b'z', 1]);
    buffer.push(0);
    let whole = document(buffer);
    assert_eq!(whole.nbt_tags().len(), 11);
    assert_eq!(whole.nbt_tags()[1].position().children, vec![2, 8]);
    assert_eq!(whole.nbt_tags()[2].position().children, vec![3, 5]);
    assert_eq!(whole.nbt_tags()[3].position().children, vec![4]);
    assert_eq!(whole.nbt_tags()[5].position().children, vec![6, 7]);
    same_subtree(&whole, 1, 8);
    same_subtree(&whole, 0, 11);
}

/// The tags of `data` whose parent is tag `c`, but for `c` itself.
fn children_of(data: &NbtData, c: usize) -> Vec<usize> {
    let tags = data.nbt_tags();
    (0..tags.len()).filter(|k| *k != c && tags[*k].position().parent() == c).collect()
}

#[test]
fn test_list_of_compounds_in_a_list_of_compounds() {
    // root { a: [ { b: [ {} ] }, {} ] }
    let buffer = vec![
        0x0A, 0x00, 0x00, 0x09, 0x00, 0x01, 0x61, 0x0A, 0x00, 0x00, 0x00, 0x02, 0x09, 0x00, 0x01,
        0x62, 0x0A, 0x00, 0x00, 0x00, 0x01, 0x00, 0x00, 0x00, 0x00,
    ];
    let data = document(buffer);
    let tags = data.nbt_tags();
    let kinds: Vec<NbtTagId> = tags.iter().map(|tag| tag.value().into_id()).collect();
    assert_eq!(
        kinds,
        vec![
            NbtTagId::Compound,
            NbtTagId::List,
            NbtTagId::Compound,
            NbtTagId::List,
            NbtTagId::Compound,
            NbtTagId::End,
            NbtTagId::End,
            NbtTagId::Compound,
            NbtTagId::End,
            NbtTagId::End,
        ]
    );
    let parents: Vec<usize> = tags.iter().map(|tag| tag.position().parent()).collect();
    assert_eq!(parents, vec![0, 0, 1, 2, 3, 4, 2, 1, 7, 0]);
    let depths: Vec<i64> = tags.iter().map(|tag| tag.position().depth()).collect();
    assert_eq!(depths, vec![0, 1, 2, 3, 4, 5, 3, 2, 3, 1]);
    assert_eq!(tags[1].value(), &NbtTagType::List((NbtTagId::Compound, 2)));
    assert_eq!(children_of(&data, 1), vec![2, 7]);
    assert_eq!(tags[1].position().children, vec![2, 7]);
    assert_eq!(tags[3].value(), &NbtTagType::List((NbtTagId::Compound, 1)));
    assert_eq!(children_of(&data, 3), vec![4]);
    assert_eq!(tags[3].position().children, vec![4]);
}

#[test]
fn test_lists_of_compounds_three_deep() {
    // root { a: [ { b: [ { c: [ {}, {} ] }, {} ] }, { d: 1 } ], z: 2 }
    let mut buffer = vec![10, 0, 0];
    buffer.extend(&[9, 0, 1, b'a', 10, 0, 0, 0, 2]);
    buffer.extend(&[9, 0, 1, b'b', 10, 0, 0, 0, 2]);
    buffer.extend(&[9, 0, 1, b'c', 10, 0, 0, 0, 2]);
    buffer.extend(&[0, 0]);
    buffer.push(0);
    buffer.push(0);
    buffer.push(0);
    buffer.extend(&[1, 0, 1, b'd', 1, 0]);
    buffer.extend(&[1, 0, 1, b'z', 2]);
    buffer.push(0);
    let data = document(buffer);
    let tags = data.nbt_tags();
    let names: Vec<&str> = tags.iter().map(|tag| tag.name()).collect();
    assert_eq!(
        names,
        vec!["", "a", "", "b", "", "c", "", "", "", "", "", "", "", "", "", "d", "", "z", ""]
    );
    let parents: Vec<usize> = tags.iter().map(|tag| tag.position().parent()).collect();
    assert_eq!(parents, vec![0, 0, 1, 2, 3, 4, 5, 6, 5, 8, 4, 3, 11, 2, 1, 14, 14, 0, 0]);
    let depths: Vec<i64> = tags.iter().map(|tag| tag.position().depth()).collect();
    assert_eq!(depths, vec![0, 1, 2, 3, 4, 5, 6, 7, 6, 7, 5, 4, 5, 3, 2, 3, 3, 1, 1]);
    for c in 0..tags.len() {
        if let NbtTagType::List((kind, count)) = tags[c].value() {
            let children = children_of(&data, c);
            assert_eq!(children.len(), *count as usize);
            assert_eq!(tags[c].position().children, children);
            for k in children {
                assert_eq!(tags[k].value().into_id(), *kind);
                assert_eq!(tags[k].name(), "");
                assert_eq!(tags[k].position().byte_start_id(), None);
                assert_eq!(tags[k].position().byte_start_name(), None);
            }
        }
    }
}

#[test]
fn test_parse_reads_a_new_document() {
    let mut data = NbtData::new(vec![10, 0, 1, b'r', 1, 0, 1, b'b', 0x85, 0]);
    assert_eq!(data.parse(), Ok(()));
    assert_eq!(data.nbt_tags().len(), 3);
    assert_eq!(data.nbt_tags()[0].name(), "r");
    assert_eq!(data.nbt_tags()[1].value(), &NbtTagType::Byte(-123));
    assert_eq!(data.raw_bytes(), &vec![10, 0, 1, b'r', 1, 0, 1, b'b', 0x85, 0]);
    assert_eq!(data.tags_map().get("b"), Some(&1));
}

/// The bytes of tag `t` of `data`, from its first byte to the end of its
/// subtree.
fn bytes_of(data: &NbtData, t: usize) -> Vec<u8> {
    let position = data.nbt_tags()[t].position();
    data.raw_bytes()[position.byte_start_all()..=position.byte_end_all_with_children()].to_vec()
}

#[test]
fn test_bytes_of_a_compound_are_a_document() {
    // root { a: { b: 7, l: [1, 2] }, z: 3 }
    let mut buffer = vec![10, 0, 0];
    buffer.extend(&[10, 0, 1, b'a']);
    buffer.extend(&[1, 0, 1, b'b', 7]);
    buffer.extend(&[9, 0, 1, b'l', 1, 0, 0, 0, 2, 1, 2]);
    buffer.push(0);
    buffer.extend(&[1, 0, 1, b'z', 3]);
    buffer.push(0);
    let whole = document(buffer);
    let alone = document(bytes_of(&whole, 1));
    assert_eq!(alone.nbt_tags().len(), 6);
    let start = whole.nbt_tags()[1].position().byte_start_all();
    for (i, tag) in alone.nbt_tags().iter().enumerate() {
        let inside = &whole.nbt_tags()[1 + i];
        assert_eq!(tag.name(), inside.name());
        assert_eq!(tag.value(), inside.value());
        assert_eq!(tag.position().index() + 1, inside.position().index());
        assert_eq!(tag.position().depth() + 1, inside.position().depth());
        if i > 0 {
            assert_eq!(tag.position().parent() + 1, inside.position().parent());
        } else {
            assert_eq!(tag.position().parent(), 0);
        }
        assert_eq!(tag.position().byte_start_all() + start, inside.position().byte_start_all());
        assert_eq!(tag.position().byte_end_all() + start, inside.position().byte_end_all());
        assert_eq!(
            tag.position().byte_end_all_with_children() + start,
            inside.position().byte_end_all_with_children()
        );
        assert_eq!(
            tag.position().byte_start_value().map(|x| x + start),
            inside.position().byte_start_value()
        );
        assert_eq!(
            tag.position().byte_end_name().map(|x| x + start),
            inside.position().byte_end_name()
        );
        let children: Vec<usize> = tag.position().children.iter().map(|c| c + 1).collect();
        assert_eq!(children, inside.position().children);
    }
    // The whole document is a compound too.
    let again = document(bytes_of(&whole, 0));
    assert_eq!(again.nbt_tags(), whole.nbt_tags());
}

/// Holds the tags of the subtree of tag `t` of `whole` against the document
/// that the bytes of that subtree are on their own.
fn same_subtree(whole: &NbtData, t: usize, count: usize) {
    let alone = document(bytes_of(whole, t));
    assert_eq!(alone.nbt_tags().len(), count);
    let root = whole.nbt_tags()[t].position();
    for (i, tag) in alone.nbt_tags().iter().enumerate() {
        let inside = &whole.nbt_tags()[t + i];
        assert_eq!(tag.name(), inside.name());
        assert_eq!(tag.value(), inside.value());
        assert_eq!(tag.position().index() + t, inside.position().index());
        assert_eq!(tag.position().depth() + root.depth(), inside.position().depth());
        if i > 0 {
            assert_eq!(tag.position().parent() + t, inside.position().parent());
        }
        assert_eq!(
            tag.position().byte_start_all() + root.byte_start_all(),
            inside.position().byte_start_all()
        );
        assert_eq!(
            tag.position().byte_end_all_with_children() + root.byte_start_all(),
            inside.position().byte_end_all_with_children()
        );
        let children: Vec<usize> = tag.position().children.iter().map(|c| c + t).collect();
        assert_eq!(children, inside.position().children);
    }
}

#[test]
fn test_bytes_of_a_compound_inside_a_list_that_is_set_aside() {
    // root { o: [ { c: { i: [ {} ] } }, {} ] }
    let mut buffer = vec![10, 0, 0];
    buffer.extend(&[9, 0, 1, b'o', 10, 0, 0, 0, 2]);
    buffer.extend(&[10, 0, 1, b'c']);
    buffer.extend(&[9, 0, 1, b'i', 10, 0, 0, 0, 1]);
    buffer.extend(&[0, 0, 0, 0, 0]);
    let whole = document(buffer);
    assert_eq!(whole.nbt_tags().len(), 12);
    assert_eq!(whole.nbt_tags()[3].name(), "c");
    assert_eq!(whole.nbt_tags()[1].position().children, vec![2, 9]);
    assert_eq!(whole.nbt_tags()[2].position().children, vec![3, 8]);
    assert_eq!(whole.nbt_tags()[3].position().children, vec![4, 7]);
    assert_eq!(whole.nbt_tags()[4].position().children, vec![5]);
    assert_eq!(whole.nbt_tags()[5].position().children, vec![6]);
    assert_eq!(whole.nbt_tags()[9].position().children, vec![10]);
    assert_eq!(whole.raw_bytes()[whole.nbt_tags()[3].position().byte_start_all()], 10);
    same_subtree(&whole, 3, 5);
    same_subtree(&whole, 0, 12);
}

#[test]
fn test_empty_compound_in_a_list_ends_where_it_begins() {
    // root { l: [ {} ] }
    let mut buffer = vec![10, 0, 0];
    buffer.extend(&[9, 0, 1, b'l', 10, 0, 0, 0, 1]);
    buffer.extend(&[0, 0]);
    let data = document(buffer);
    let tags = data.nbt_tags();
    assert_eq!(tags.len(), 5);
    let element = tags[2].position();
    assert_eq!(element.byte_start_id(), None);
    assert_eq!(element.byte_start_all(), 12);
    assert_eq!(element.byte_end_all(), 12);
    assert_eq!(element.byte_start_value(), Some(12));
    assert_eq!(element.byte_end_value(), Some(11));
    assert_eq!(element.children, vec![3]);
    // It has a child, and its subtree ends where it ends itself.
    assert_eq!(element.byte_end_all_with_children(), 12);
    assert_eq!(tags[3].position().byte_start_all(), 12);
    assert_eq!(tags[3].position().byte_end_all(), 12);
    assert_eq!(tags[4].position().byte_start_all(), 13);
    assert_eq!(tags[1].position().byte_end_all_with_children(), 12);
    assert_eq!(tags[0].position().byte_end_all_with_children(), 13);
}

#[test]
fn test_parse_leaves_a_document_that_is_read() {
    let mut data = NbtData::new(vec![10, 0, 1, b'r', 1, 0, 1, b'b', 5, 0]);
    assert_eq!(data.parse(), Ok(()));
    let before = data.nbt_tags().clone();
    assert_eq!(data.parse(), Ok(()));
    assert_eq!(data.nbt_tags(), &before);
    assert_eq!(data.tags_map().len(), 3);
}

#[test]
fn test_parse_keeps_the_tags_read_before_a_failure() {
    let mut data = NbtData::new(vec![10, 0, 1, b'r', 1, 0, 1, b'b', 5, 3, 0]);
    assert_eq!(data.parse(), Err(NbtReadError::Io));
    assert_eq!(data.nbt_tags().len(), 2);
    assert_eq!(data.nbt_tags()[1].value(), &NbtTagType::Byte(5));
    assert_eq!(data.tags_map().get("b"), Some(&1));
}

#[test]
fn test_every_tag_lies_inside_the_buffer() {
    let mut buffer = vec![10, 0, 0];
    buffer.extend(&[9, 0, 1, b'l', 0, 0, 0, 0, 3]);
    buffer.extend(&[9, 0, 1, b'c', 10, 0, 0, 0, 1, 0]);
    buffer.push(0);
    let data = document(buffer);
    let length = data.raw_bytes().len();
    for tag in data.nbt_tags() {
        let position = tag.position();
        assert!(position.byte_start_all() <= position.byte_end_all());
        assert!(position.byte_end_all() < length);
        assert!(position.byte_end_all() <= position.byte_end_all_with_children());
        assert!(position.byte_end_all_with_children() < length);
    }
    assert_eq!(data.nbt_tags().last().unwrap().position().byte_end_all() + 1, length);
}

#[test]
fn test_document_of_which_nothing_is_read() {
    let data = NbtData::default();
    assert!(data.nbt_tags().is_empty());
    assert!(data.raw_bytes().is_empty());
    assert!(data.tags_map().is_empty());
}
