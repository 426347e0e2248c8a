use nbtsniper::fmt::{formatted_raw_bytes, formatted_raw_values};
use nbtsniper::nbt::NbtData;

fn document(buffer: Vec<u8>) -> NbtData {
    match NbtData::from_buf(buffer) {
        Ok(data) => data,
        Err(e) => panic!("the buffer holds a document: {:?}", e),
    }
}

#[test]
fn test_formatted_raw_bytes_groups_of_four() {
    assert_eq!(formatted_raw_bytes(&[0x0A, 0xFF, 0x00, 0x10, 0x05], 1), "\t0A FF 00 10  05 \n");
    assert_eq!(formatted_raw_bytes(&[], 0), "\n");
    assert_eq!(formatted_raw_bytes(&[], 2), "\t\t\n");
    assert_eq!(formatted_raw_bytes(&[0x9C], -1), "9C \n");
}

#[test]
fn test_formatted_raw_bytes_rows_of_thirty_two() {
    let bytes: Vec<u8> = (0u8..34).collect();
    let mut expected = String::from("\t");
    for i in 0..34usize {
        if i % 4 == 0 && i % 32 != 0 {
            expected.push(' ');
        }
        if i == 32 {
            expected.push_str("\n\t");
        }
        expected.push_str(&format!("{:02X} ", i));
    }
    expected.push('\n');
    assert_eq!(formatted_raw_bytes(&bytes, 1), expected);
    assert!(expected.ends_with("1C 1D 1E 1F \n\t20 21 \n"));
}

#[test]
fn test_formatted_raw_values_of_a_leaf() {
    let data = document(vec![10, 0, 1, b'r', 1, 0, 1, b'b', 0x85, 0]);
    assert_eq!(
        formatted_raw_values(&data.nbt_tags()[1], data.raw_bytes()),
        "\tRaw Bytes: ID[4:4] Name[5:7] Value[8:8]\n\tHex Dump[4:8]\n\t01 00 01 62  85 \n"
    );
}

#[test]
fn test_formatted_raw_values_of_a_compound_and_its_end() {
    let data = document(vec![10, 0, 1, b'r', 1, 0, 1, b'b', 0x85, 0]);
    assert_eq!(
        formatted_raw_values(&data.nbt_tags()[0], data.raw_bytes()),
        "Raw Bytes: ID[0:0] Name[1:3] Value[4:9]\nHex Dump[0:3]\n0A 00 01 72 \n"
    );
    assert_eq!(
        formatted_raw_values(&data.nbt_tags()[2], data.raw_bytes()),
        "\tRaw Bytes: ID[9:9] Name[N/A:N/A] Value[N/A]\n\tHex Dump[9:9]\n\t00 \n"
    );
}

#[test]
fn test_formatted_raw_values_of_a_list_element() {
    let mut buffer = vec![10, 0, 0, 9, 0, 1, b'l', 2];
    buffer.extend(&1i32.to_be_bytes());
    buffer.extend(&[0x12, 0x34, 0]);
    let data = document(buffer);
    assert_eq!(
        formatted_raw_values(&data.nbt_tags()[2], data.raw_bytes()),
        "\t\tRaw Bytes: ID[N/A:N/A] Name[N/A:N/A] Value[12:13]\n\t\tHex Dump[12:13]\n\t\t12 34 \n"
    );
    assert_eq!(
        formatted_raw_values(&data.nbt_tags()[1], data.raw_bytes()),
        "\tRaw Bytes: ID[3:3] Name[4:6] Value[7:13]\n\tHex Dump[3:11]\n\t09 00 01 6C  02 00 00 00  01 \n"
    );
}
