use nbtsniper::nbt::fsm::{NbtListParser, NbtParser, ParseNbtFsmState};
use nbtsniper::nbt::NbtTagId;

#[test]
fn test_nbt_list_parser_new() {
    let parser = NbtListParser::new();
    assert_eq!(parser.list_tag_id, NbtTagId::End);
    assert_eq!(parser.list_len, 0);
    assert_eq!(parser.list_elem_count, 0);
}

#[test]
fn test_nbt_list_parser_set_id() {
    let mut parser = NbtListParser::new();
    parser.set_id(NbtTagId::Byte);
    assert_eq!(parser.list_tag_id, NbtTagId::Byte);

    parser.set_id(NbtTagId::String);
    assert_eq!(parser.list_tag_id, NbtTagId::String);
}

#[test]
fn test_nbt_list_parser_tag_id() {
    let mut parser = NbtListParser::new();
    assert_eq!(parser.tag_id(), &NbtTagId::End);

    parser.set_id(NbtTagId::Short);
    assert_eq!(parser.tag_id(), &NbtTagId::Short);
}

#[test]
fn test_nbt_list_parser_set_len() {
    let mut parser = NbtListParser::new();
    parser.set_len(10);
    assert_eq!(parser.list_len, 10);

    parser.set_len(0);
    assert_eq!(parser.list_len, 0);

    parser.set_len(-5);
    assert_eq!(parser.list_len, -5);
}

#[test]
fn test_nbt_list_parser_increment() {
    let mut parser = NbtListParser::new();
    assert_eq!(parser.list_elem_count, 0);
    parser.increment();
    assert_eq!(parser.list_elem_count, 1);
    parser.increment();
    assert_eq!(parser.list_elem_count, 2);
}

#[test]
fn test_nbt_list_parser_reset() {
    let mut parser = NbtListParser::new();
    parser.set_id(NbtTagId::Int);
    parser.set_len(5);
    parser.increment();
    assert_eq!(parser.list_tag_id, NbtTagId::Int);
    assert_eq!(parser.list_len, 5);
    assert_eq!(parser.list_elem_count, 1);

    parser.reset();
    assert_eq!(parser.list_tag_id, NbtTagId::End);
    assert_eq!(parser.list_len, 0);
    assert_eq!(parser.list_elem_count, 0);
}

#[test]
fn test_nbt_list_parser_is_end() {
    let mut parser = NbtListParser::new();
    parser.set_len(5);
    parser.set_id(NbtTagId::Byte);

    // No element is accounted for, four remain behind the first.
    assert!(!parser.is_end());

    parser.increment();
    parser.increment();
    parser.increment();
    assert!(!parser.is_end());

    // Four elements are accounted for: the fifth is the last.
    parser.increment();
    assert!(parser.is_end());

    parser.increment();
    assert!(parser.is_end());
}

#[test]
fn test_nbt_list_parser_is_end_with_zero_length() {
    let mut parser = NbtListParser::new();
    parser.set_len(0);
    parser.set_id(NbtTagId::List);

    assert!(parser.is_end());
}

#[test]
fn test_nbt_list_parser_is_end_with_negative_length() {
    let mut parser = NbtListParser::new();
    parser.set_len(-3);
    parser.set_id(NbtTagId::List);

    assert!(parser.is_end());

    parser.increment();
    assert!(parser.is_end());
}

#[test]
fn test_nbt_list_parser_is_end_at_the_least_length() {
    let mut parser = NbtListParser::new();
    parser.set_len(i32::MIN);
    assert!(parser.is_end());
}

#[test]
fn test_nbt_parser_new() {
    let parser = NbtParser::new();
    match parser.state {
        ParseNbtFsmState::Normal => (),
        _ => panic!("Initial state should be Normal"),
    }
    assert_eq!(parser.list_parser.list_tag_id, NbtTagId::End);
    assert!(parser.unfinished_lists.is_empty());
    assert_eq!(parser.index, 0);
    assert_eq!(parser.tree_depth, 0);
}

#[test]
fn test_nbt_parser_change_state_to() {
    let mut parser = NbtParser::new();
    parser.change_state_to(ParseNbtFsmState::List);
    match parser.state {
        ParseNbtFsmState::List => (),
        _ => panic!("State should be List"),
    }

    parser.change_state_to(ParseNbtFsmState::EndOfFile);
    match parser.state {
        ParseNbtFsmState::EndOfFile => (),
        _ => panic!("State should be EndOfFile"),
    }
}

#[test]
fn test_nbt_parser_index() {
    let parser = NbtParser::new();
    assert_eq!(*parser.index(), 0);

    let mut parser = NbtParser::new();
    parser.increment_index();
    assert_eq!(*parser.index(), 1);
    parser.increment_index();
    assert_eq!(*parser.index(), 2);
}

#[test]
fn test_nbt_parser_tree_depth() {
    let parser = NbtParser::new();
    assert_eq!(*parser.tree_depth(), 0);

    let mut parser = NbtParser::new();
    parser.set_tree_depth(3);
    assert_eq!(*parser.tree_depth(), 3);

    parser.set_tree_depth(-1);
    assert_eq!(*parser.tree_depth(), -1);
}

#[test]
fn test_nbt_parser_set_tree_depth() {
    let mut parser = NbtParser::new();
    parser.set_tree_depth(10);
    assert_eq!(parser.tree_depth, 10);

    parser.set_tree_depth(0);
    assert_eq!(parser.tree_depth, 0);
}

#[test]
fn test_nbt_parser_increment_index() {
    let mut parser = NbtParser::new();
    assert_eq!(parser.index, 0);
    parser.increment_index();
    assert_eq!(parser.index, 1);
    parser.increment_index();
    assert_eq!(parser.index, 2);
}

#[test]
fn test_nbt_parser_unfinished_lists() {
    let mut parser = NbtParser::new();
    assert!(parser.unfinished_lists.is_empty());

    let list1 = NbtListParser::new();
    parser.unfinished_lists.push(list1.clone());
    assert_eq!(parser.unfinished_lists.len(), 1);
    assert_eq!(parser.unfinished_lists[0], list1);

    let list2 = NbtListParser::new();
    parser.unfinished_lists.push(list2.clone());
    assert_eq!(parser.unfinished_lists.len(), 2);
    assert_eq!(parser.unfinished_lists[1], list2);
}

#[test]
fn test_nbt_parser_list_parser_methods() {
    let mut parser = NbtParser::new();
    let list_parser = &mut parser.list_parser;

    assert_eq!(list_parser.list_tag_id, NbtTagId::End);
    assert_eq!(list_parser.list_len, 0);
    assert_eq!(list_parser.list_elem_count, 0);

    list_parser.set_id(NbtTagId::Float);
    assert_eq!(list_parser.list_tag_id, NbtTagId::Float);

    list_parser.set_len(20);
    assert_eq!(list_parser.list_len, 20);

    list_parser.increment();
    assert_eq!(list_parser.list_elem_count, 1);

    list_parser.set_len(3);
    list_parser.set_id(NbtTagId::Double);
    list_parser.list_elem_count = 1;
    assert!(!list_parser.is_end());
    list_parser.increment();
    assert!(list_parser.is_end());

    list_parser.reset();
    assert_eq!(list_parser.list_tag_id, NbtTagId::End);
    assert_eq!(list_parser.list_len, 0);
    assert_eq!(list_parser.list_elem_count, 0);
}

#[test]
fn test_nbt_parser_sets_a_list_aside_and_takes_it_up_again() {
    let mut parser = NbtParser::new();
    parser.list_parser.set_id(NbtTagId::Compound);
    parser.list_parser.set_len(3);
    parser.switch_list_ctx();
    assert_eq!(parser.unfinished_lists.len(), 1);
    assert_eq!(parser.unfinished_lists[0].list_elem_count, 1);
    assert_eq!(parser.list_parser, NbtListParser::new());

    assert!(parser.restore_list_ctx());
    assert!(parser.unfinished_lists.is_empty());
    assert_eq!(parser.list_parser.list_tag_id, NbtTagId::Compound);
    assert_eq!(parser.list_parser.list_len, 3);
    assert_eq!(parser.list_parser.list_elem_count, 1);

    assert!(!parser.restore_list_ctx());
    assert_eq!(parser.list_parser.list_len, 3);
}
