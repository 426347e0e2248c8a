//! Text for the byte ranges of a tag and for the bytes it was read from.

use vstd::prelude::*;
use vstd::string::StringExecFns;

use crate::nbt::{NbtTag, NbtTagId, TagView};

verus! {

/// The character of a decimal digit.
pub open spec fn digit(value: int) -> char {
    (48 + value) as char
}

/// The character of a hexadecimal digit, in upper case.
pub open spec fn hex_digit(value: int) -> char {
    if value < 10 {
        (48 + value) as char
    } else {
        (55 + value) as char
    }
}

/// The decimal digits of a number, without leading zeros.
pub open spec fn decimal(value: nat) -> Seq<char>
    decreases value,
{
    if value < 10 {
        seq![digit(value as int)]
    } else {
        decimal(value / 10).push(digit((value % 10) as int))
    }
}

/// One tab for each level of depth.
pub open spec fn tabs(depth: int) -> Seq<char> {
    Seq::new(
        if depth > 0 {
            depth as nat
        } else {
            0
        },
        |i: int| '\t',
    )
}

/// What is written for byte `i` of a dump: a blank before every group of
/// four bytes, a new line with its tabs before every row of thirty-two, then
/// the two hexadecimal digits of the byte and a blank.
pub open spec fn hex_cell(bytes: Seq<u8>, i: int, depth: int) -> Seq<char> {
    let gap = if i % 4 == 0 && i % 32 != 0 {
        seq![' ']
    } else {
        Seq::<char>::empty()
    };
    let row = if i % 32 == 0 && i != 0 {
        seq!['\n'] + tabs(depth)
    } else {
        Seq::<char>::empty()
    };
    gap + row + seq![hex_digit(bytes[i] as int / 16), hex_digit(bytes[i] as int % 16), ' ']
}

/// The tabs of the first row and what is written for the first `count`
/// bytes of a dump.
pub open spec fn hex_cells(bytes: Seq<u8>, count: int, depth: int) -> Seq<char>
    decreases count,
{
    if count <= 0 {
        tabs(depth)
    } else {
        hex_cells(bytes, count - 1, depth) + hex_cell(bytes, count - 1, depth)
    }
}

/// The dump of `bytes`: rows of thirty-two bytes in groups of four, each row
/// behind one tab for each level of `depth`.
pub open spec fn hex_dump(bytes: Seq<u8>, depth: int) -> Seq<char> {
    hex_cells(bytes, bytes.len() as int, depth).push('\n')
}

/// An offset in decimal digits, or `N/A` where there is none.
pub open spec fn offset_text(offset: Option<usize>) -> Seq<char> {
    match offset {
        Some(value) => decimal(value as nat),
        None => "N/A"@,
    }
}

/// A range with its label: the label, then the two offsets between
/// brackets and a blank.
pub open spec fn span_text(label: Seq<char>, start: Option<usize>, end: Option<usize>) -> Seq<
    char,
> {
    label + offset_text(start) + seq![':'] + offset_text(end) + "] "@
}

/// The range of the value of a tag: for a compound and a list from the
/// value to the end of the subtree, for an end tag `N/A`.
pub open spec fn value_text(tag: TagView) -> Seq<char> {
    let ranges = tag.position.raw_bytes;
    let start = match ranges.byte_start_value {
        Some(value) => value,
        None => 0,
    };
    let end = match ranges.byte_end_value {
        Some(value) => value,
        None => 0,
    };
    match tag.value.kind() {
        NbtTagId::Compound | NbtTagId::List => "Value["@ + decimal(start as nat) + seq![':']
            + decimal(ranges.byte_end_all_with_children as nat) + seq![']'],
        NbtTagId::End => "Value[N/A]"@,
        _ => "Value["@ + decimal(start as nat) + seq![':'] + decimal(end as nat) + seq![']'],
    }
}

/// The head of the dump of a tag: the range of the bytes that are dumped.
pub open spec fn dump_head(start: usize, end: usize) -> Seq<char> {
    "Hex Dump["@ + decimal(start as nat) + seq![':'] + decimal(end as nat) + seq![']', '\n']
}

/// The text for the byte ranges of a tag and for its own bytes, from
/// `byte_start_all` to `byte_end_all`: a line with the ranges of id, name
/// and value, a line with the range of the dump, and the dump.
pub open spec fn raw_values_text(tag: TagView, bytes: Seq<u8>) -> Seq<char> {
    let ranges = tag.position.raw_bytes;
    let depth = tag.position.depth as int;
    tabs(depth) + "Raw Bytes: "@ + span_text("ID["@, ranges.byte_start_id, ranges.byte_end_id)
        + span_text("Name["@, ranges.byte_start_name, ranges.byte_end_name) + value_text(tag)
        + seq!['\n'] + tabs(depth) + dump_head(ranges.byte_start_all, ranges.byte_end_all)
        + hex_dump(bytes.subrange(ranges.byte_start_all as int, ranges.byte_end_all + 1), depth)
}

/// Writes one tab for each level of `depth`.
fn push_tabs(text: &mut String, depth: i64)
    ensures
        final(text)@ == old(text)@ + tabs(depth as int),
{
    let mut i: i64 = 0;
    while i < depth
        invariant
            0 <= i,
            i <= depth || (depth < 0 && i == 0),
            text@ == old(text)@ + tabs(i as int),
        decreases depth - i,
    {
        text.push('\t');
        i = i + 1;
        assert(text@ =~= old(text)@ + tabs(i as int));
    }
    assert(text@ =~= old(text)@ + tabs(depth as int));
}

/// Writes a number in decimal digits.
fn push_decimal(text: &mut String, value: usize)
    ensures
        final(text)@ == old(text)@ + decimal(value as nat),
    decreases value,
{
    if value >= 10 {
        push_decimal(text, value / 10);
    }
    text.push((48 + (value % 10) as u8) as char);
    assert(text@ =~= old(text)@ + decimal(value as nat));
}

/// Writes an offset in decimal digits, or `N/A` where there is none.
fn push_offset(text: &mut String, offset: Option<usize>)
    ensures
        final(text)@ == old(text)@ + offset_text(offset),
{
    match offset {
        Some(value) => push_decimal(text, value),
        None => text.append("N/A"),
    }
}

/// The character of a hexadecimal digit.
fn hex_char(value: u8) -> (c: char)
    requires
        value < 16,
    ensures
        c == hex_digit(value as int),
{
    if value < 10 {
        (48 + value) as char
    } else {
        (55 + value) as char
    }
}

/// Writes the dump of `rawbytes`.
fn push_hex_dump(text: &mut String, rawbytes: &[u8], depth: i64)
    ensures
        final(text)@ == old(text)@ + hex_dump(rawbytes@, depth as int),
{
    push_tabs(text, depth);
    let mut i: usize = 0;
    while i < rawbytes.len()
        invariant
            i <= rawbytes@.len(),
            text@ == old(text)@ + hex_cells(rawbytes@, i as int, depth as int),
        decreases rawbytes@.len() - i,
    {
        let ghost before = text@;
        let byte = rawbytes[i];
        if i % 4 == 0 && i % 32 != 0 {
            text.push(' ');
        }
        if i % 32 == 0 && i != 0 {
            text.push('\n');
            push_tabs(text, depth);
        }
        text.push(hex_char(byte / 16));
        text.push(hex_char(byte % 16));
        text.push(' ');
        assert(text@ =~= before + hex_cell(rawbytes@, i as int, depth as int));
        i = i + 1;
        assert(text@ =~= old(text)@ + hex_cells(rawbytes@, i as int, depth as int));
    }
    text.push('\n');
}

/// The dump of `rawbytes` in hexadecimal digits: rows of thirty-two bytes in
/// groups of four, each row behind one tab for each level of `depth`.
pub fn formatted_raw_bytes(rawbytes: &[u8], depth: i64) -> (text: String)
    ensures
        text@ == hex_dump(rawbytes@, depth as int),
{
    let mut text = String::new();
    push_hex_dump(&mut text, rawbytes, depth);
    assert(text@ =~= hex_dump(rawbytes@, depth as int));
    text
}

/// Writes a range with its label.
fn push_span(text: &mut String, label: &str, start: Option<usize>, end: Option<usize>)
    ensures
        final(text)@ == old(text)@ + span_text(label@, start, end),
{
    text.append(label);
    push_offset(text, start);
    text.push(':');
    push_offset(text, end);
    text.append("] ");
    assert(text@ =~= old(text)@ + span_text(label@, start, end));
}

/// Writes the range of the value of a tag.
fn push_value(text: &mut String, nbttag: &NbtTag)
    ensures
        final(text)@ == old(text)@ + value_text(nbttag@),
{
    let byte_start = match nbttag.position().byte_start_value() {
        Some(x) => x,
        None => 0,
    };
    let byte_end = match nbttag.position().byte_end_value() {
        Some(x) => x,
        None => 0,
    };
    match nbttag.value().into_id() {
        NbtTagId::Compound | NbtTagId::List => {
            text.append("Value[");
            push_decimal(text, byte_start);
            text.push(':');
            push_decimal(text, nbttag.position().byte_end_all_with_children());
            text.push(']');
        },
        NbtTagId::End => {
            text.append("Value[N/A]");
        },
        _ => {
            text.append("Value[");
            push_decimal(text, byte_start);
            text.push(':');
            push_decimal(text, byte_end);
            text.push(']');
        },
    }
    assert(text@ =~= old(text)@ + value_text(nbttag@));
}

/// Writes the head of the dump of a tag.
fn push_dump_head(text: &mut String, start: usize, end: usize)
    ensures
        final(text)@ == old(text)@ + dump_head(start, end),
{
    text.append("Hex Dump[");
    push_decimal(text, start);
    text.push(':');
    push_decimal(text, end);
    text.push(']');
    text.push('\n');
    assert(text@ =~= old(text)@ + dump_head(start, end));
}

/// The text for the byte ranges of a tag and for its own bytes.
pub fn formatted_raw_values(nbttag: &NbtTag, rawbytes: &Vec<u8>) -> (text: String)
    requires
        nbttag.position.raw_bytes.byte_start_all <= nbttag.position.raw_bytes.byte_end_all
            < rawbytes@.len(),
    ensures
        text@ == raw_values_text(nbttag@, rawbytes@),
{
    let depth = nbttag.position().depth();
    let total = rawbytes.len();
    let byte_start_dump = nbttag.position().byte_start_all();
    let byte_end_dump = nbttag.position().byte_end_all();
    let dump_hex = vstd::slice::slice_subrange(
        rawbytes.as_slice(),
        byte_start_dump,
        byte_end_dump + 1,
    );
    let mut text = String::new();
    push_tabs(&mut text, depth);
    assert(text@ =~= tabs(depth as int));
    text.append("Raw Bytes: ");
    push_span(&mut text, "ID[", nbttag.position().byte_start_id(), nbttag.position().byte_end_id());
    push_span(
        &mut text,
        "Name[",
        nbttag.position().byte_start_name(),
        nbttag.position().byte_end_name(),
    );
    push_value(&mut text, nbttag);
    text.push('\n');
    push_tabs(&mut text, depth);
    push_dump_head(&mut text, byte_start_dump, byte_end_dump);
    push_hex_dump(&mut text, dump_hex, depth);
    text
}

} // verus!
