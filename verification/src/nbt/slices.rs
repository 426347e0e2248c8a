//! The bytes of a compound are a document of their own.
//!
//! The driver reads the bytes of a compound, from its id to its end tag, in
//! the same steps whether they stand alone or inside a larger document: the
//! tags are the same, up to where they lie.

use vstd::prelude::*;

use crate::nbt::fsm::parse::{
    be_i16, be_i32, be_u32, bytes_at, id_at, ints_at, longs_at, payload_at, string_at, text_at,
};
use crate::nbt::fsm::ParseNbtFsmState;
use crate::nbt::laws::{
    applying_keeps, children_at, closed_by_end, compound_kept, decoded_at, emitted, kept,
    kept_raw, leaving_keeps, lists_waiting, named, on_path_unfolds, open_at, pending_depth,
    pending_parent, poised, read_keeps, shaped, shaped_at, stack_kept, steady, step_appends,
    step_keeps_paths, step_keeps_tiling, tiled_at, tiles_in_order,
};
use crate::nbt::machine::{
    append, applied, control_of, drained, grown, initial, left, list_element_at, named_tag_at,
    named_tag_stays_inside, next_parent, on_path, on_path_below, parse_of,
    payload_stays_inside, read_step, reading_of, run, settled, settling_uses_budget, step,
    string_stays_inside, tag_of, Machine, Reading,
};
use crate::nbt::trace::{
    advance, advance_in_two, on_the_way, paths_settle, reached, reached_keeps, run_counts,
    run_goes_through, tags_settle,
};
use crate::nbt::{NbtReadError, NbtTagId, NbtTagPositionRawBytes, PositionView, TagValue, TagView};

verus! {

/// What is read from a stretch of bytes, once the offsets are counted from
/// its first byte.
pub open spec fn moved(r: Reading, from: int) -> Reading {
    Reading {
        start: r.start - from,
        value_start: r.value_start - from,
        next: r.next - from,
        ..r
    }
}

/// A string that lies inside a stretch of bytes is read from the stretch as
/// from the whole.
pub proof fn string_in_slice(bytes: Seq<u8>, from: int, to: int, at: int)
    requires
        0 <= from <= at,
        to <= bytes.len(),
        string_at(bytes, at) is Ok,
        string_at(bytes, at)->Ok_0.1 <= to,
    ensures
        string_at(bytes.subrange(from, to), at - from) == Ok::<(Seq<char>, int), NbtReadError>(
            (string_at(bytes, at)->Ok_0.0, string_at(bytes, at)->Ok_0.1 - from),
        ),
{
    reveal(string_at);
    let slice = bytes.subrange(from, to);
    let count = be_i16(bytes, at);
    assert(slice[at - from] == bytes[at]);
    assert(slice[at - from + 1] == bytes[at + 1]);
    assert(text_at(slice, at - from + 2, count) =~= text_at(bytes, at + 2, count));
}

/// A payload that lies inside a stretch of bytes is read from the stretch
/// as from the whole.
pub proof fn payload_in_slice(bytes: Seq<u8>, from: int, to: int, at: int, id: NbtTagId)
    requires
        0 <= from <= at <= to,
        to <= bytes.len(),
        payload_at(bytes, at, id) is Ok,
        payload_at(bytes, at, id)->Ok_0.1 <= to,
    ensures
        payload_at(bytes.subrange(from, to), at - from, id) == Ok::<(TagValue, int), NbtReadError>(
            (payload_at(bytes, at, id)->Ok_0.0, payload_at(bytes, at, id)->Ok_0.1 - from),
        ),
{
    reveal(payload_at);
    let slice = bytes.subrange(from, to);
    let next = payload_at(bytes, at, id)->Ok_0.1;
    match id {
        NbtTagId::End => {},
        NbtTagId::Compound => {},
        NbtTagId::Byte => {
            assert(slice[at - from] == bytes[at]);
        },
        NbtTagId::Short => {
            assert(slice[at - from] == bytes[at]);
            assert(slice[at - from + 1] == bytes[at + 1]);
        },
        NbtTagId::Int | NbtTagId::Float => {
            same_four(bytes, from, to, at);
        },
        NbtTagId::Long | NbtTagId::Double => {
            same_four(bytes, from, to, at);
            same_four(bytes, from, to, at + 4);
        },
        NbtTagId::String => {
            string_in_slice(bytes, from, to, at);
        },
        NbtTagId::List => {
            assert(slice[at - from] == bytes[at]);
            same_four(bytes, from, to, at + 1);
        },
        NbtTagId::ByteArray => {
            same_four(bytes, from, to, at);
            let count = be_i32(bytes, at);
            let inside = bytes_at(slice, at - from + 4, count);
            let whole = bytes_at(bytes, at + 4, count);
            assert forall|i: int| 0 <= i < count implies #[trigger] inside[i] == whole[i] by {
                assert(slice[at - from + 4 + i] == bytes[at + 4 + i]);
            }
            assert(inside =~= whole);
        },
        NbtTagId::IntArray => {
            same_four(bytes, from, to, at);
            let count = be_i32(bytes, at);
            let inside = ints_at(slice, at - from + 4, count);
            let whole = ints_at(bytes, at + 4, count);
            assert forall|i: int| 0 <= i < count implies #[trigger] inside[i] == whole[i] by {
                same_four(bytes, from, to, at + 4 + 4 * i);
            }
            assert(inside =~= whole);
        },
        NbtTagId::LongArray => {
            same_four(bytes, from, to, at);
            let count = be_i32(bytes, at);
            let inside = longs_at(slice, at - from + 4, count);
            let whole = longs_at(bytes, at + 4, count);
            assert forall|i: int| 0 <= i < count implies #[trigger] inside[i] == whole[i] by {
                same_four(bytes, from, to, at + 4 + 8 * i);
                same_four(bytes, from, to, at + 4 + 8 * i + 4);
            }
            assert(inside =~= whole);
        },
    }
}

/// Four bytes inside a stretch of bytes have the same value in the stretch
/// as in the whole.
pub proof fn same_four(bytes: Seq<u8>, from: int, to: int, at: int)
    requires
        0 <= from <= at,
        at + 4 <= to <= bytes.len(),
    ensures
        be_u32(bytes.subrange(from, to), at - from) == be_u32(bytes, at),
        be_i32(bytes.subrange(from, to), at - from) == be_i32(bytes, at),
{
    let slice = bytes.subrange(from, to);
    assert(slice[at - from] == bytes[at]);
    assert(slice[at - from + 1] == bytes[at + 1]);
    assert(slice[at - from + 2] == bytes[at + 2]);
    assert(slice[at - from + 3] == bytes[at + 3]);
}

/// A tag with id and name that lies inside a stretch of bytes is read from
/// the stretch as from the whole.
pub proof fn named_tag_in_slice(bytes: Seq<u8>, from: int, to: int, at: int, root: bool)
    requires
        0 <= from <= at,
        to <= bytes.len(),
        named_tag_at(bytes, at, root) is Ok,
        named_tag_at(bytes, at, root)->Ok_0.next <= to,
    ensures
        named_tag_at(bytes.subrange(from, to), at - from, root) == Ok::<Reading, NbtReadError>(
            moved(named_tag_at(bytes, at, root)->Ok_0, from),
        ),
{
    let slice = bytes.subrange(from, to);
    let id = id_at(bytes, at)->Ok_0;
    named_tag_stays_inside(bytes, at, root);
    assert(slice[at - from] == bytes[at]);
    if id != NbtTagId::End {
        let value_start = string_at(bytes, at + 1)->Ok_0.1;
        string_stays_inside(bytes, at + 1);
        payload_stays_inside(bytes, value_start, id);
        string_in_slice(bytes, from, to, at + 1);
        payload_in_slice(bytes, from, to, value_start, id);
    }
}

/// A list element that lies inside a stretch of bytes is read from the
/// stretch as from the whole.
pub proof fn list_element_in_slice(bytes: Seq<u8>, from: int, to: int, at: int, kind: NbtTagId)
    requires
        0 <= from <= at <= to,
        to <= bytes.len(),
        list_element_at(bytes, at, kind) is Ok,
        list_element_at(bytes, at, kind)->Ok_0.next <= to,
    ensures
        list_element_at(bytes.subrange(from, to), at - from, kind) == Ok::<Reading, NbtReadError>(
            moved(list_element_at(bytes, at, kind)->Ok_0, from),
        ),
{
    payload_in_slice(bytes, from, to, at, kind);
}

/// An offset, counted from offset `from`.
pub open spec fn moved_offset(offset: Option<usize>, from: int) -> Option<usize> {
    match offset {
        Some(value) => Some((value - from) as usize),
        None => None,
    }
}

/// Byte ranges, counted from offset `from`.
pub open spec fn moved_ranges(ranges: NbtTagPositionRawBytes, from: int) -> NbtTagPositionRawBytes {
    NbtTagPositionRawBytes {
        byte_start_all: (ranges.byte_start_all - from) as usize,
        byte_end_all: (ranges.byte_end_all - from) as usize,
        byte_end_all_with_children: (ranges.byte_end_all_with_children - from) as usize,
        byte_start_id: moved_offset(ranges.byte_start_id, from),
        byte_end_id: moved_offset(ranges.byte_end_id, from),
        byte_start_name: moved_offset(ranges.byte_start_name, from),
        byte_end_name: moved_offset(ranges.byte_end_name, from),
        byte_start_value: moved_offset(ranges.byte_start_value, from),
        byte_end_value: moved_offset(ranges.byte_end_value, from),
    }
}

/// A tag of the subtree of tag `root`, as it lies in the document that the
/// bytes of the subtree are on their own: its index is counted from `root`,
/// its byte ranges from offset `from`, its depth from `depth`, and `root`
/// is its own parent.
pub open spec fn transplanted(tag: TagView, root: int, from: int, depth: int) -> TagView {
    TagView {
        name: tag.name,
        value: tag.value,
        position: PositionView {
            raw_bytes: moved_ranges(tag.position.raw_bytes, from),
            index: (tag.position.index - root) as usize,
            depth: (tag.position.depth - depth) as i64,
            parent: if tag.position.index == root {
                0
            } else {
                (tag.position.parent - root) as usize
            },
            children: Seq::new(
                tag.position.children.len(),
                |j: int| (tag.position.children[j] - root) as usize,
            ),
        },
    }
}

/// The tags of `alone` are the tags of `whole` from tag `root` on,
/// transplanted; and each of them but `root` has its parent among them.
pub open spec fn tags_mirror(
    whole: Seq<TagView>,
    alone: Seq<TagView>,
    root: int,
    from: int,
    depth: int,
) -> bool {
    &&& 0 <= root
    &&& 0 <= from
    &&& whole.len() == root + alone.len()
    &&& forall|i: int|
        0 <= i < alone.len() ==> #[trigger] alone[i] == transplanted(
            whole[root + i],
            root,
            from,
            depth,
        )
    &&& forall|i: int|
        0 <= i < alone.len() ==> (#[trigger] whole[root + i]).position.index == root + i
            && whole[root + i].position.parent <= root + i && (i > 0
            ==> whole[root + i].position.parent >= root)
}

/// Where the tags mirror each other, so do their ancestors.
pub proof fn paths_mirror(
    whole: Seq<TagView>,
    alone: Seq<TagView>,
    root: int,
    from: int,
    depth: int,
    a: int,
    k: int,
)
    requires
        tags_mirror(whole, alone, root, from, depth),
        0 <= a,
        0 <= k < alone.len(),
    ensures
        on_path(alone, a, k) == on_path(whole, root + a, root + k),
    decreases k,
{
    assert(alone[k] == transplanted(whole[root + k], root, from, depth));
    assert(whole[root + k].position.index == root + k);
    if a != k && 0 < k {
        let up = whole[root + k].position.parent as int;
        assert(alone[k].position.parent == up - root);
        if up < root + k {
            paths_mirror(whole, alone, root, from, depth, a, up - root);
        }
    } else if a != k {
        // The root of the subtree is the first tag of the document on its
        // own; above it lie tags of the whole only.
        if on_path(whole, root + a, root) {
            on_path_below(whole, root + a, root);
        }
    }
}

/// Where the tags mirror each other and a tag is appended to both, they
/// mirror each other still.
pub proof fn append_mirrors(
    whole: Seq<TagView>,
    alone: Seq<TagView>,
    root: int,
    from: int,
    depth: int,
    tag: TagView,
)
    requires
        tags_mirror(whole, alone, root, from, depth),
        alone.len() >= 1,
        tag.position.index == whole.len(),
        root <= tag.position.parent < whole.len(),
    ensures
        tags_mirror(
            append(whole, tag),
            append(alone, transplanted(tag, root, from, depth)),
            root,
            from,
            depth,
        ),
{
    let mirrored = transplanted(tag, root, from, depth);
    let grown_whole = append(whole, tag);
    let grown_alone = append(alone, mirrored);
    let parent = tag.position.parent as int;
    let end = tag.position.raw_bytes.byte_end_all;
    assert(mirrored.position.parent == parent - root);
    assert forall|i: int| 0 <= i < grown_alone.len() implies #[trigger] grown_alone[i]
        == transplanted(grown_whole[root + i], root, from, depth) by {
        if i < alone.len() {
            paths_mirror(whole, alone, root, from, depth, i, parent - root);
            assert(alone[i] == transplanted(whole[root + i], root, from, depth));
            assert(whole[root + i].position.index == root + i);
            if on_path(whole, root + i, parent) {
                let child = if root + i == parent {
                    Some(tag.position.index)
                } else {
                    None
                };
                let child_alone = if i == parent - root {
                    Some(mirrored.position.index)
                } else {
                    None
                };
                let before = whole[root + i];
                let after = grown(before, end, child);
                assert(grown_whole[root + i] == after);
                assert(grown_alone[i] == grown(
                    alone[i],
                    mirrored.position.raw_bytes.byte_end_all,
                    child_alone,
                ));
                assert(transplanted(after, root, from, depth).position.children
                    =~= grown_alone[i].position.children);
            }
        }
    }
    assert forall|i: int| 0 <= i < grown_alone.len() implies (
    #[trigger] grown_whole[root + i]).position.index == root + i
        && grown_whole[root + i].position.parent <= root + i && (i > 0
        ==> grown_whole[root + i].position.parent >= root) by {
        if i < alone.len() {
            assert(whole[root + i].position.index == root + i);
        }
    }
}

/// The parent of the next tag on the bytes of the subtree alone is the
/// parent of the next tag on the whole buffer.
pub proof fn parent_mirrors(whole: Machine, alone: Machine, root: int, from: int, depth: int)
    requires
        tags_mirror(whole.tags, alone.tags, root, from, depth),
        alone.tags.len() >= 1,
        alone.delta == whole.delta,
        -1 <= whole.delta <= 1,
        alone.parent == whole.parent - root,
        root <= whole.parent < whole.tags.len(),
        whole.delta == -1 ==> whole.parent > root,
    ensures
        next_parent(alone) is Ok,
        pending_parent(alone) == pending_parent(whole) - root,
        root <= pending_parent(whole) < whole.tags.len(),
{
    let last = whole.parent;
    if whole.delta == -1 {
        assert(alone.tags[last - root] == transplanted(whole.tags[last], root, from, depth));
        assert(whole.tags[root + (last - root)].position.index == last);
        assert(whole.tags[root + (last - root)].position.parent >= root);
    }
}

/// What is read next on the bytes of the subtree alone is what is read next
/// on the whole buffer.
pub proof fn reading_mirrors(bytes: Seq<u8>, from: int, to: int, whole: Machine, alone: Machine)
    requires
        alone.state == whole.state,
        whole.state == ParseNbtFsmState::List ==> alone.list == whole.list,
        alone.pos == whole.pos - from,
        whole.tags.len() >= 1,
        alone.tags.len() >= 1,
        0 <= from <= whole.pos <= to,
        to <= bytes.len(),
        reading_of(bytes, whole) is Ok,
        reading_of(bytes, whole)->Ok_0.next <= to,
    ensures
        reading_of(bytes.subrange(from, to), alone) == Ok::<Reading, NbtReadError>(
            moved(reading_of(bytes, whole)->Ok_0, from),
        ),
{
    if whole.state == ParseNbtFsmState::List {
        list_element_in_slice(bytes, from, to, whole.pos, whole.list.list_tag_id);
    } else {
        named_tag_in_slice(bytes, from, to, whole.pos, false);
    }
}

/// What is decided on the bytes of the subtree alone is what is decided on
/// the whole buffer, as long as no list is taken up again that was set
/// aside before the subtree began.
pub proof fn control_mirrors(
    whole: Machine,
    alone: Machine,
    root: int,
    from: int,
    depth: int,
    base: int,
    parent: int,
    value: TagValue,
)
    requires
        tags_mirror(whole.tags, alone.tags, root, from, depth),
        alone.state == whole.state,
        whole.state == ParseNbtFsmState::List ==> alone.list == whole.list,
        0 <= base <= whole.suspended.len(),
        alone.suspended == whole.suspended.skip(base),
        root <= parent < whole.tags.len(),
        whole.state != ParseNbtFsmState::List && value is End ==> parent > root
            && whole.tags[parent].position.parent >= root,
        control_of(whole, parent, value).suspended.len() >= base,
    ensures
        control_of(alone, parent - root, value).state == control_of(whole, parent, value).state,
        control_of(alone, parent - root, value).delta == control_of(whole, parent, value).delta,
        control_of(alone, parent - root, value).suspended == control_of(
            whole,
            parent,
            value,
        ).suspended.skip(base),
        control_of(whole, parent, value).state == ParseNbtFsmState::List ==> control_of(
            alone,
            parent - root,
            value,
        ).list == control_of(whole, parent, value).list,
{
    let control = control_of(whole, parent, value);
    let control_alone = control_of(alone, parent - root, value);
    if whole.state != ParseNbtFsmState::List && value is End {
        let middle = whole.tags[parent].position.parent as int;
        assert(alone.tags[parent - root] == transplanted(whole.tags[parent], root, from, depth));
        assert(whole.tags[root + (parent - root)].position.index == parent);
        assert(whole.tags[root + (parent - root)].position.parent <= parent);
        assert(alone.tags[middle - root] == transplanted(whole.tags[middle], root, from, depth));
        assert(alone.tags[parent - root].position.parent == middle - root);
    }
    assert(control_alone.suspended =~= control.suspended.skip(base));
}

/// The tag that is appended on the bytes of the subtree alone is the tag
/// that is appended on the whole buffer, transplanted.
pub proof fn tag_mirrors(
    whole: Machine,
    alone: Machine,
    root: int,
    from: int,
    depth: int,
    parent: int,
    r: Reading,
)
    requires
        0 <= root,
        alone.tags.len() >= 1,
        whole.tags.len() == root + alone.tags.len(),
        whole.tags.len() <= usize::MAX,
        alone.depth == whole.depth - depth,
        alone.delta == whole.delta,
        0 <= whole.depth + whole.delta <= i64::MAX,
        root <= parent <= usize::MAX,
        0 <= from <= r.start <= r.value_start <= r.next <= usize::MAX,
        r.named ==> r.start < r.value_start,
        1 <= r.next,
    ensures
        tag_of(alone, parent - root, moved(r, from)) == transplanted(
            tag_of(whole, parent, r),
            root,
            from,
            depth,
        ),
{
    let tag = tag_of(whole, parent, r);
    let tag_alone = tag_of(alone, parent - root, moved(r, from));
    let mirrored = transplanted(tag, root, from, depth);
    assert(tag_alone.position.children =~= mirrored.position.children);
    assert(tag_alone.position.raw_bytes == mirrored.position.raw_bytes);
}

/// The driver on the bytes of a subtree alone is where the driver on the
/// whole buffer is: their tags mirror each other, their cursors stand at the
/// same byte, they lie at the same depth below the root of the subtree and
/// read the same kind of thing next, and the lists that `alone` has set
/// aside are those that `whole` has set aside since the subtree began.
pub open spec fn mirrors(
    whole: Machine,
    alone: Machine,
    root: int,
    from: int,
    depth: int,
    base: int,
) -> bool {
    &&& tags_mirror(whole.tags, alone.tags, root, from, depth)
    &&& alone.tags.len() >= 1
    &&& alone.pos == whole.pos - from
    &&& alone.depth == whole.depth - depth
    &&& alone.delta == whole.delta
    &&& alone.state == whole.state
    &&& whole.state == ParseNbtFsmState::List ==> alone.list == whole.list
    &&& 0 <= base <= whole.suspended.len()
    &&& alone.suspended == whole.suspended.skip(base)
    &&& root <= whole.parent < whole.tags.len()
    &&& alone.parent == whole.parent - root
}

/// Inside the subtree, what is read on the bytes of the subtree alone is
/// what is read on the whole buffer.
pub proof fn read_mirrors(
    bytes: Seq<u8>,
    to: int,
    whole: Machine,
    alone: Machine,
    root: int,
    from: int,
    depth: int,
    base: int,
)
    requires
        steady(bytes, whole),
        mirrors(whole, alone, root, from, depth, base),
        whole.delta == 0,
        whole.state != ParseNbtFsmState::EndOfFile,
        whole.tags.len() < usize::MAX,
        read_step(bytes, whole) is Ok,
        from <= whole.pos,
        to <= bytes.len(),
        0 <= depth,
        whole.depth >= depth + 1,
        whole.state != ParseNbtFsmState::List && reading_of(bytes, whole)->Ok_0.value is End
            ==> whole.parent > root && whole.tags[whole.parent].position.parent >= root,
        read_step(bytes, whole)->Ok_0.pos < to,
        read_step(bytes, whole)->Ok_0.suspended.len() >= base,
    ensures
        read_step(bytes.subrange(from, to), alone) is Ok,
        mirrors(
            read_step(bytes, whole)->Ok_0,
            read_step(bytes.subrange(from, to), alone)->Ok_0,
            root,
            from,
            depth,
            base,
        ),
        read_step(bytes, whole)->Ok_0.delta == -1 ==> whole.parent > root,
{
    let slice = bytes.subrange(from, to);
    let parent = whole.parent;
    let r = reading_of(bytes, whole)->Ok_0;
    let next = read_step(bytes, whole)->Ok_0;
    assert(next.pos == r.next);
    if whole.state == ParseNbtFsmState::List {
        payload_stays_inside(bytes, whole.pos, whole.list.list_tag_id);
    } else {
        named_tag_stays_inside(bytes, whole.pos, false);
    }
    reading_mirrors(bytes, from, to, whole, alone);
    assert(control_of(whole, parent, r.value).suspended == next.suspended);
    control_mirrors(whole, alone, root, from, depth, base, parent, r.value);
    tag_mirrors(whole, alone, root, from, depth, parent, r);
    let tag = tag_of(whole, parent, r);
    append_mirrors(whole.tags, alone.tags, root, from, depth, tag);
    assert(slice.len() == to - from);
    let next_alone = read_step(slice, alone);
    assert(reading_of(slice, alone)->Ok_0.next == r.next - from);
    assert(next_alone is Ok);
    assert(next_alone->Ok_0.tags == append(alone.tags, transplanted(tag, root, from, depth)));
}

/// Where the drivers on the whole buffer and on the bytes of the subtree
/// alone leave the lists of which no element remains, they leave the same.
pub proof fn leaving_mirrors(
    bytes: Seq<u8>,
    whole: Machine,
    alone: Machine,
    root: int,
    from: int,
    depth: int,
    base: int,
)
    requires
        kept_raw(bytes, whole),
        whole.delta == 0,
        whole.tags.len() > 0,
        mirrors(whole, alone, root, from, depth, base),
        whole.tags[root].value.kind() == NbtTagId::Compound,
        settled(whole).suspended.len() >= base,
    ensures
        mirrors(settled(whole), settled(alone), root, from, depth, base),
    decreases whole.suspended.len(),
{
    if whole.state == ParseNbtFsmState::List && drained(whole.list) {
        let list = whole.parent;
        let up = whole.tags[list].position.parent as int;
        leaving_keeps(bytes, whole);
        settling_uses_budget(left(whole));
        assert(list > root);
        assert(alone.tags[list - root] == transplanted(whole.tags[list], root, from, depth));
        assert(whole.tags[root + (list - root)].position.index == list);
        assert(whole.tags[root + (list - root)].position.parent >= root);
        assert(alone.tags[up - root] == transplanted(whole.tags[up], root, from, depth));
        assert(alone.tags[list - root].position.parent == up - root);
        if whole.tags[up].value is List && whole.suspended.len() > 0 {
            assert(whole.suspended.len() > base);
            assert(alone.suspended.last() == whole.suspended.last());
            assert(left(alone).suspended =~= left(whole).suspended.skip(base));
            assert(mirrors(left(whole), left(alone), root, from, depth, base));
            leaving_mirrors(bytes, left(whole), left(alone), root, from, depth, base);
        } else {
            assert(mirrors(left(whole), left(alone), root, from, depth, base));
        }
    }
}

/// Inside the subtree, a step on the bytes of the subtree alone does what
/// the step on the whole buffer does.
pub proof fn step_mirrors(
    bytes: Seq<u8>,
    to: int,
    whole: Machine,
    alone: Machine,
    root: int,
    from: int,
    depth: int,
    base: int,
)
    requires
        kept(bytes, whole),
        mirrors(whole, alone, root, from, depth, base),
        whole.state != ParseNbtFsmState::EndOfFile,
        whole.tags.len() < usize::MAX,
        step(bytes, whole) is Ok,
        from <= whole.pos,
        to <= bytes.len(),
        0 <= depth,
        pending_depth(whole) >= depth + 1,
        whole.tags[root].value.kind() == NbtTagId::Compound,
        whole.state != ParseNbtFsmState::List && reading_of(bytes, whole)->Ok_0.value is End
            ==> pending_parent(whole) > root && whole.tags[pending_parent(
            whole,
        )].position.parent >= root,
        step(bytes, whole)->Ok_0.pos < to,
        step(bytes, whole)->Ok_0.suspended.len() >= base,
    ensures
        step(bytes.subrange(from, to), alone) is Ok,
        mirrors(
            step(bytes, whole)->Ok_0,
            step(bytes.subrange(from, to), alone)->Ok_0,
            root,
            from,
            depth,
            base,
        ),
{
    let slice = bytes.subrange(from, to);
    let read = read_step(bytes, whole)->Ok_0;
    settling_uses_budget(applied(read));
    read_mirrors(bytes, to, whole, alone, root, from, depth, base);
    let read_alone = read_step(slice, alone)->Ok_0;
    read_keeps(bytes, whole);
    applying_keeps(bytes, read);
    parent_mirrors(read, read_alone, root, from, depth);
    assert(mirrors(applied(read), applied(read_alone), root, from, depth, base));
    step_appends(bytes, whole);
    assert(applied(read).tags[root] == read.tags[root]);
    leaving_mirrors(bytes, applied(read), applied(read_alone), root, from, depth, base);
}

/// One tag is another or its ancestor, and that one a third or its
/// ancestor: then the first is the third or its ancestor.
pub proof fn on_path_through(tags: Seq<TagView>, a: int, b: int, c: int)
    requires
        on_path(tags, a, b),
        on_path(tags, b, c),
    ensures
        on_path(tags, a, c),
    decreases c,
{
    if b != c {
        on_path_through(tags, a, b, tags[c].position.parent as int);
    }
}

/// A tag lies at least as deep as each of its ancestors.
pub proof fn deeper_along_path(tags: Seq<TagView>, a: int, k: int)
    requires
        shaped(tags),
        0 <= k < tags.len(),
        on_path(tags, a, k),
    ensures
        0 <= a <= k,
        tags[a].position.depth <= tags[k].position.depth,
    decreases k,
{
    if a != k {
        assert(shaped_at(tags, k));
        deeper_along_path(tags, a, tags[k].position.parent as int);
    }
}

/// The run on `bytes` succeeds with `count` tags, and tag `t` of them is a
/// compound with id and name.
pub open spec fn compound_in(bytes: Seq<u8>, count: nat, t: int) -> bool {
    &&& bytes.len() <= usize::MAX
    &&& count <= usize::MAX
    &&& advance(bytes, initial(), count) is Ok
    &&& reached(bytes, count).tags.len() == count
    &&& reached(bytes, count).state == ParseNbtFsmState::EndOfFile
    &&& 0 <= t < count
    &&& named(reached(bytes, count).tags[t])
    &&& reached(bytes, count).tags[t].value.kind() == NbtTagId::Compound
}

/// The end tag of the compound `t`: its last child.
pub open spec fn end_tag_of(tags: Seq<TagView>, t: int) -> int {
    tags[t].position.children.last() as int
}

/// A compound of a document has ended: its last child is its end tag, which
/// follows it.
pub proof fn compound_has_ended(bytes: Seq<u8>, count: nat, t: int)
    requires
        compound_in(bytes, count, t),
    ensures
        closed_by_end(reached(bytes, count).tags, t),
        t < end_tag_of(reached(bytes, count).tags, t) < count,
        reached(bytes, count).tags[end_tag_of(
            reached(bytes, count).tags,
            t,
        )].position.parent == t,
{
    on_the_way(bytes, count, count);
    let last = reached(bytes, count);
    assert(compound_kept(last, t));
    assert(children_at(last.tags, t));
}

/// While the children of a compound are read, the compound is open: the
/// next tag lies in it or below it.
pub proof fn stays_open(bytes: Seq<u8>, count: nat, t: int, n: nat)
    requires
        compound_in(bytes, count, t),
        t < n <= end_tag_of(reached(bytes, count).tags, t),
    ensures
        open_at(reached(bytes, n), t),
        t <= pending_parent(reached(bytes, n)) < n,
{
    let all = reached(bytes, count).tags;
    let m = reached(bytes, n);
    compound_has_ended(bytes, count, t);
    on_the_way(bytes, count, n);
    tags_settle(bytes, count, n, count, t);
    assert(compound_kept(m, t));
    assert(children_at(m.tags, t));
    let kids = m.tags[t].position.children;
    let all_kids = all[t].position.children;
    if !open_at(m, t) {
        let x = kids.last() as int;
        assert(kids[kids.len() - 1] == all_kids[kids.len() - 1]);
        tags_settle(bytes, count, n, count, x);
        if kids.len() < all_kids.len() {
            assert(all[all_kids[kids.len() - 1] as int].value.kind() != NbtTagId::End);
        }
        assert(false);
    }
    on_path_below(m.tags, t, pending_parent(m));
}

/// The tags from a compound to its end tag are the compound and its
/// descendants.
pub proof fn inside_subtree(bytes: Seq<u8>, count: nat, t: int, i: int)
    requires
        compound_in(bytes, count, t),
        t <= i <= end_tag_of(reached(bytes, count).tags, t),
    ensures
        on_path(reached(bytes, count).tags, t, i),
        i > t ==> t <= reached(bytes, count).tags[i].position.parent < i,
{
    if i > t {
        let all = reached(bytes, count).tags;
        compound_has_ended(bytes, count, t);
        stays_open(bytes, count, t, i as nat);
        on_the_way(bytes, count, i as nat);
        let m = reached(bytes, i as nat);
        let next = reached(bytes, (i + 1) as nat);
        let parent = pending_parent(m);
        step_appends(bytes, m);
        assert(next.tags[i] == emitted(bytes, m));
        step_keeps_paths(bytes, m, t, parent);
        on_path_unfolds(next.tags, t, i);
        paths_settle(bytes, count, (i + 1) as nat, count, t, i);
        tags_settle(bytes, count, (i + 1) as nat, count, i);
    }
}

/// Once a compound has ended, the tags of its subtree stay as they are.
pub proof fn subtree_is_frozen(bytes: Seq<u8>, count: nat, t: int, n: nat, i: int)
    requires
        compound_in(bytes, count, t),
        end_tag_of(reached(bytes, count).tags, t) < n <= count,
        t <= i <= end_tag_of(reached(bytes, count).tags, t),
    ensures
        reached(bytes, n).tags[i] == reached(
            bytes,
            (end_tag_of(reached(bytes, count).tags, t) + 1) as nat,
        ).tags[i],
    decreases n,
{
    let all = reached(bytes, count).tags;
    let end = end_tag_of(all, t);
    compound_has_ended(bytes, count, t);
    if n > end + 1 {
        let before = (n - 1) as nat;
        subtree_is_frozen(bytes, count, t, before, i);
        on_the_way(bytes, count, before);
        let m = reached(bytes, before);
        let parent = pending_parent(m);
        step_appends(bytes, m);
        if on_path(m.tags, i, parent) {
            inside_subtree(bytes, count, t, i);
            paths_settle(bytes, count, before, count, t, i);
            on_path_through(m.tags, t, i, parent);
            assert(open_at(m, t));
            assert(compound_kept(m, t));
            tags_settle(bytes, count, before, count, t);
            tags_settle(bytes, count, before, count, end);
            assert(children_at(m.tags, end));
            let kids = m.tags[t].position.children;
            let listed = choose|j: int| 0 <= j < kids.len() && kids[j] == end;
            assert(m.tags[kids[listed] as int].value.kind() == NbtTagId::End);
            assert(false);
        }
    }
}

/// The first step on the bytes of a subtree alone reads its root as the
/// step on the whole buffer does.
pub proof fn first_step_mirrors(bytes: Seq<u8>, to: int, whole: Machine)
    requires
        steady(bytes, whole),
        whole.state == ParseNbtFsmState::Normal,
        whole.tags.len() < usize::MAX,
        step(bytes, whole) is Ok,
        reading_of(bytes, whole)->Ok_0.value.kind() == NbtTagId::Compound,
        forall|i: int|
            0 <= i < whole.tags.len() ==> (#[trigger] whole.tags[i]).position.parent <= i,
        step(bytes, whole)->Ok_0.pos < to,
        to <= bytes.len(),
    ensures
        step(bytes.subrange(whole.pos, to), initial()) is Ok,
        mirrors(
            step(bytes, whole)->Ok_0,
            step(bytes.subrange(whole.pos, to), initial())->Ok_0,
            whole.tags.len() as int,
            whole.pos,
            pending_depth(whole),
            whole.suspended.len() as int,
        ),
{
    let from = whole.pos;
    let slice = bytes.subrange(from, to);
    let root = whole.tags.len() as int;
    let depth = pending_depth(whole);
    let parent = pending_parent(whole);
    let r = reading_of(bytes, whole)->Ok_0;
    let next = step(bytes, whole)->Ok_0;
    let tag = tag_of(whole, parent, r);
    named_tag_stays_inside(bytes, from, root == 0);
    assert(named_tag_at(bytes, from, true) == named_tag_at(bytes, from, root == 0));
    named_tag_in_slice(bytes, from, to, from, true);
    assert(reading_of(slice, initial()) == Ok::<Reading, NbtReadError>(moved(r, from)));
    let alone = step(slice, initial());
    assert(slice.len() == to - from);
    assert(alone is Ok);
    let tag_alone = tag_of(initial(), 0, moved(r, from));
    let mirrored = transplanted(tag, root, from, depth);
    assert(tag_alone.position.children =~= mirrored.position.children);
    assert(tag_alone == mirrored);
    assert(alone->Ok_0.tags =~= seq![tag_alone]);
    assert(next.tags[root] == tag);
    assert(alone->Ok_0.suspended =~= next.suspended.skip(whole.suspended.len() as int));
    assert forall|i: int| 0 <= i < alone->Ok_0.tags.len() implies #[trigger] alone->Ok_0.tags[i]
        == transplanted(next.tags[root + i], root, from, depth) by {}
}

/// The last step on the bytes of a subtree alone reads the end tag of its
/// root as the step on the whole buffer does, and ends the run.
pub proof fn last_step_mirrors(
    bytes: Seq<u8>,
    to: int,
    whole: Machine,
    alone: Machine,
    root: int,
    from: int,
    depth: int,
    base: int,
)
    requires
        steady(bytes, whole),
        poised(whole),
        poised(alone),
        stack_kept(alone),
        mirrors(whole, alone, root, from, depth, base),
        whole.state == ParseNbtFsmState::Normal,
        whole.delta == 0,
        whole.tags.len() < usize::MAX,
        step(bytes, whole) is Ok,
        from <= whole.pos,
        to <= bytes.len(),
        0 <= depth,
        pending_parent(whole) == root,
        pending_depth(whole) == depth + 1,
        reading_of(bytes, whole)->Ok_0.value is End,
        whole.tags[root].value.kind() == NbtTagId::Compound,
        named(whole.tags[root]),
        step(bytes, whole)->Ok_0.pos == to,
    ensures
        step(bytes.subrange(from, to), alone) is Ok,
        step(bytes.subrange(from, to), alone)->Ok_0.state == ParseNbtFsmState::EndOfFile,
        tags_mirror(
            step(bytes, whole)->Ok_0.tags,
            step(bytes.subrange(from, to), alone)->Ok_0.tags,
            root,
            from,
            depth,
        ),
{
    let slice = bytes.subrange(from, to);
    let parent = pending_parent(whole);
    let r = reading_of(bytes, whole)->Ok_0;
    let next = read_step(bytes, whole)->Ok_0;
    settling_uses_budget(applied(next));
    assert(next.pos == r.next);
    named_tag_stays_inside(bytes, whole.pos, false);
    parent_mirrors(whole, alone, root, from, depth);
    reading_mirrors(bytes, from, to, whole, alone);
    tag_mirrors(whole, alone, root, from, depth, parent, r);
    let tag = tag_of(whole, parent, r);
    append_mirrors(whole.tags, alone.tags, root, from, depth, tag);
    assert(slice.len() == to - from);
    assert(alone.tags[0] == transplanted(whole.tags[root], root, from, depth));
    assert(whole.tags[root + 0].position.index == root);
    assert(named(alone.tags[0]));
    assert(lists_waiting(alone.tags, 0) =~= Seq::<crate::nbt::fsm::NbtListParser>::empty());
    assert(pending_parent(alone) == 0);
    assert(alone.suspended.len() == 0);
    let control = control_of(alone, 0, r.value);
    assert(control.delta == -1);
    assert(control.suspended.len() == 0);
    assert(read_step(slice, alone) is Ok);
    settling_uses_budget(applied(read_step(slice, alone)->Ok_0));
}

/// How many lists are set aside after `steps` steps of the run on `bytes`.
pub open spec fn lists_set_aside(bytes: Seq<u8>, steps: nat) -> nat {
    reached(bytes, steps).suspended.len()
}

/// As many lists wait above a tag as above each of its ancestors, or more.
pub proof fn more_wait_below(tags: Seq<TagView>, a: int, k: int)
    requires
        on_path(tags, a, k),
    ensures
        lists_waiting(tags, k).len() >= lists_waiting(tags, a).len(),
    decreases k,
{
    if a != k {
        more_wait_below(tags, a, tags[k].position.parent as int);
    }
}

/// How many lists wait above a tag depends on the parents and the kinds of
/// the tags up to that tag only.
pub proof fn as_many_wait(first: Seq<TagView>, second: Seq<TagView>, k: int)
    requires
        0 <= k,
        forall|j: int|
            0 <= j <= k ==> first[j].position.parent == second[j].position.parent
                && first[j].value == second[j].value && named(first[j]) == named(second[j]),
    ensures
        lists_waiting(first, k).len() == lists_waiting(second, k).len(),
    decreases k,
{
    if 0 < k && first[k].position.parent < k {
        as_many_wait(first, second, first[k].position.parent as int);
    }
}

/// While the compound `t` is read, as many lists are set aside as when it
/// began, or more: no list is taken up again that was set aside before.
pub proof fn keeps_to_itself(bytes: Seq<u8>, count: nat, t: int, n: nat)
    requires
        compound_in(bytes, count, t),
        t <= n <= end_tag_of(reached(bytes, count).tags, t),
    ensures
        lists_set_aside(bytes, n) >= lists_set_aside(bytes, t as nat),
{
    compound_has_ended(bytes, count, t);
    on_the_way(bytes, count, t as nat);
    on_the_way(bytes, count, n);
    if t < n && t > 0 {
        let early = reached(bytes, t as nat);
        let late = reached(bytes, n);
        let next = reached(bytes, (t + 1) as nat);
        let above = pending_parent(early);
        stays_open(bytes, count, t, n);
        more_wait_below(late.tags, t, pending_parent(late));
        // The compound has id and name: what waits above it waits above its
        // parent.
        step_appends(bytes, early);
        assert(next.tags[t] == emitted(bytes, early));
        tags_settle(bytes, count, (t + 1) as nat, n, t);
        tags_settle(bytes, count, n, count, t);
        assert(shaped_at(late.tags, t));
        assert(late.tags[t].position.parent == above);
        assert(lists_waiting(late.tags, t) == lists_waiting(late.tags, above));
        assert forall|j: int| 0 <= j <= above implies late.tags[j].position.parent
            == early.tags[j].position.parent && late.tags[j].value == early.tags[j].value && named(
            late.tags[j],
        ) == named(early.tags[j]) by {
            tags_settle(bytes, count, t as nat, n, j);
        }
        as_many_wait(late.tags, early.tags, above);
    }
}

/// The bytes of the compound `t`, from its id to the end of its subtree.
pub open spec fn bytes_of_compound(bytes: Seq<u8>, tags: Seq<TagView>, t: int) -> Seq<u8> {
    bytes.subrange(
        tags[t].position.raw_bytes.byte_start_all as int,
        tags[t].position.raw_bytes.byte_end_all_with_children + 1,
    )
}

/// Where the tags of the subtree of the compound `t` lie in the whole
/// buffer: tag `n` begins at the cursor of the state that reads it, behind
/// the first byte of the compound and before its end tag, which takes the
/// last byte of the subtree.
pub proof fn subtree_lies_inside(bytes: Seq<u8>, count: nat, t: int, n: nat)
    requires
        compound_in(bytes, count, t),
        t <= n <= end_tag_of(reached(bytes, count).tags, t),
    ensures
        reached(bytes, n).pos == reached(
            bytes,
            count,
        ).tags[n as int].position.raw_bytes.byte_start_all,
        reached(bytes, count).tags[t].position.raw_bytes.byte_start_all <= reached(bytes, n).pos
            <= reached(bytes, count).tags[t].position.raw_bytes.byte_end_all_with_children,
        reached(bytes, count).tags[t].position.raw_bytes.byte_end_all_with_children + 1
            <= bytes.len(),
        reached(bytes, (end_tag_of(reached(bytes, count).tags, t) + 1) as nat).pos == reached(
            bytes,
            count,
        ).tags[t].position.raw_bytes.byte_end_all_with_children + 1,
        n == end_tag_of(reached(bytes, count).tags, t) ==> reached(bytes, n).pos == reached(
            bytes,
            count,
        ).tags[t].position.raw_bytes.byte_end_all_with_children,
{
    let all = reached(bytes, count).tags;
    let end = end_tag_of(all, t);
    compound_has_ended(bytes, count, t);
    on_the_way(bytes, count, count);
    on_the_way(bytes, count, n);
    on_the_way(bytes, count, end as nat);
    let m = reached(bytes, n);
    step_keeps_tiling(bytes, m);
    step_appends(bytes, m);
    tags_settle(bytes, count, n + 1, count, n as int);
    assert(reached(bytes, n + 1).tags[n as int] == emitted(bytes, m));
    let before_end = reached(bytes, end as nat);
    step_keeps_tiling(bytes, before_end);
    step_appends(bytes, before_end);
    tags_settle(bytes, count, (end + 1) as nat, count, end);
    assert(reached(bytes, (end + 1) as nat).tags[end] == emitted(bytes, before_end));
    assert(shaped_at(all, end));
    assert(decoded_at(bytes, all, end));
    assert(tiled_at(all, end));
    assert(tiled_at(all, n as int));
    let end_start = all[end].position.raw_bytes.byte_start_all as int;
    named_tag_stays_inside(bytes, end_start, end == 0);
    assert(all[end].position.raw_bytes.byte_end_all == end_start);
    assert(tiled_at(all, t));
    let own_end = all[t].position.raw_bytes.byte_end_all_with_children as int;
    assert(own_end == end_start);
    assert(m.pos == all[n as int].position.raw_bytes.byte_start_all);
    if n < end {
        tiles_in_order(all, n as int, end);
        assert(m.pos <= own_end);
    } else {
        assert(m.pos == own_end);
    }
    if t < n {
        tiles_in_order(all, t, n as int);
    }
    assert(all[t].position.raw_bytes.byte_start_all <= m.pos);
}

/// What holds of a step of the run on the whole buffer that reads a tag
/// between the compound `t` and its end tag.
pub proof fn step_is_inside(bytes: Seq<u8>, count: nat, t: int, n: nat)
    requires
        compound_in(bytes, count, t),
        t < n < end_tag_of(reached(bytes, count).tags, t),
    ensures
        kept(bytes, reached(bytes, n)),
        reached(bytes, n).state != ParseNbtFsmState::EndOfFile,
        reached(bytes, n).tags.len() == n,
        step(bytes, reached(bytes, n)) == Ok::<Machine, NbtReadError>(
            reached(bytes, (n + 1) as nat),
        ),
        reached(bytes, count).tags[t].position.raw_bytes.byte_start_all <= reached(bytes, n).pos,
        reached(bytes, count).tags[t].position.raw_bytes.byte_end_all_with_children + 1
            <= bytes.len(),
        0 <= reached(bytes, count).tags[t].position.depth,
        t <= pending_parent(reached(bytes, n)),
        pending_depth(reached(bytes, n)) >= reached(bytes, count).tags[t].position.depth + 1,
        reached(bytes, n).state != ParseNbtFsmState::List && reading_of(
            bytes,
            reached(bytes, n),
        )->Ok_0.value is End ==> pending_parent(reached(bytes, n)) > t && reached(
            bytes,
            n,
        ).tags[pending_parent(reached(bytes, n))].position.parent >= t,
        reached(bytes, (n + 1) as nat).pos
            <= reached(bytes, count).tags[t].position.raw_bytes.byte_end_all_with_children,
{
    let all = reached(bytes, count).tags;
    let end = end_tag_of(all, t);
    let whole = reached(bytes, n);
    compound_has_ended(bytes, count, t);
    on_the_way(bytes, count, count);
    on_the_way(bytes, count, n);
    subtree_lies_inside(bytes, count, t, n);
    subtree_lies_inside(bytes, count, t, (n + 1) as nat);
    stays_open(bytes, count, t, n);
    let parent = pending_parent(whole);
    tags_settle(bytes, count, n, count, t);
    deeper_along_path(whole.tags, t, parent);
    assert(shaped_at(all, t));
    let r = reading_of(bytes, whole)->Ok_0;
    step_appends(bytes, whole);
    if whole.state != ParseNbtFsmState::List && r.value is End {
        // No end tag but the last ends the compound.
        tags_settle(bytes, count, (n + 1) as nat, count, n as int);
        assert(reached(bytes, (n + 1) as nat).tags[n as int] == emitted(bytes, whole));
        if parent == t {
            assert(children_at(all, n as int));
            let kids = all[t].position.children;
            let listed = choose|i: int| 0 <= i < kids.len() && kids[i] == n;
            assert(all[kids[listed] as int].value.kind() == NbtTagId::End);
            assert(false);
        }
        inside_subtree(bytes, count, t, parent);
        tags_settle(bytes, count, n, count, parent);
    }
}

/// The run on the bytes of the compound `t` alone begins as the run on the
/// whole buffer goes on when it reads `t`.
pub proof fn subtree_begins_alone(bytes: Seq<u8>, count: nat, t: int)
    requires
        compound_in(bytes, count, t),
    ensures
        advance(bytes_of_compound(bytes, reached(bytes, count).tags, t), initial(), 1) is Ok,
        mirrors(
            reached(bytes, (t + 1) as nat),
            reached(bytes_of_compound(bytes, reached(bytes, count).tags, t), 1),
            t,
            reached(bytes, count).tags[t].position.raw_bytes.byte_start_all as int,
            reached(bytes, count).tags[t].position.depth as int,
            lists_set_aside(bytes, t as nat) as int,
        ),
{
    let all = reached(bytes, count).tags;
    let to = all[t].position.raw_bytes.byte_end_all_with_children + 1;
    let slice = bytes_of_compound(bytes, all, t);
    let whole = reached(bytes, t as nat);
    compound_has_ended(bytes, count, t);
    on_the_way(bytes, count, t as nat);
    subtree_lies_inside(bytes, count, t, t as nat);
    subtree_lies_inside(bytes, count, t, (t + 1) as nat);
    step_appends(bytes, whole);
    tags_settle(bytes, count, (t + 1) as nat, count, t);
    assert(reached(bytes, (t + 1) as nat).tags[t] == emitted(bytes, whole));
    assert(whole.state == ParseNbtFsmState::Normal);
    first_step_mirrors(bytes, to, whole);
    assert(advance(slice, initial(), 1) == match step(slice, initial()) {
        Err(e) => Err(e),
        Ok(next) => advance(slice, next, 0),
    });
}

/// The run on the bytes of the compound `t` alone goes the way of the run
/// on the whole buffer, tag by tag, up to the end tag of `t`.
pub proof fn subtree_runs_alone(bytes: Seq<u8>, count: nat, t: int, j: nat)
    requires
        compound_in(bytes, count, t),
        1 <= j <= end_tag_of(reached(bytes, count).tags, t) - t,
    ensures
        advance(bytes_of_compound(bytes, reached(bytes, count).tags, t), initial(), j) is Ok,
        mirrors(
            reached(bytes, (t + j) as nat),
            reached(bytes_of_compound(bytes, reached(bytes, count).tags, t), j),
            t,
            reached(bytes, count).tags[t].position.raw_bytes.byte_start_all as int,
            reached(bytes, count).tags[t].position.depth as int,
            lists_set_aside(bytes, t as nat) as int,
        ),
    decreases j,
{
    let all = reached(bytes, count).tags;
    let from = all[t].position.raw_bytes.byte_start_all as int;
    let to = all[t].position.raw_bytes.byte_end_all_with_children + 1;
    let depth = all[t].position.depth as int;
    let base = lists_set_aside(bytes, t as nat) as int;
    let slice = bytes_of_compound(bytes, all, t);
    if j == 1 {
        subtree_begins_alone(bytes, count, t);
    } else {
        let before = (j - 1) as nat;
        let early = (t + before) as nat;
        subtree_runs_alone(bytes, count, t, before);
        let whole = reached(bytes, early);
        let alone = reached(slice, before);
        step_is_inside(bytes, count, t, early);
        subtree_lies_inside(bytes, count, t, t as nat);
        reached_keeps(slice, before);
        keeps_to_itself(bytes, count, t, (early + 1) as nat);
        compound_has_ended(bytes, count, t);
        tags_settle(bytes, count, early, count, t);
        step_mirrors(bytes, to, whole, alone, t, from, depth, base);
        advance_in_two(slice, initial(), before, 1);
        assert(advance(slice, alone, 1) == match step(slice, alone) {
            Err(e) => Err(e),
            Ok(next) => advance(slice, next, 0),
        });
    }
}

/// The run on the bytes of the compound `t` alone reads the end tag of `t`
/// as the run on the whole buffer does, and ends with it.
pub proof fn subtree_closes_alone(bytes: Seq<u8>, count: nat, t: int)
    requires
        compound_in(bytes, count, t),
    ensures
        t < end_tag_of(reached(bytes, count).tags, t) < count,
        advance(
            bytes_of_compound(bytes, reached(bytes, count).tags, t),
            initial(),
            (end_tag_of(reached(bytes, count).tags, t) - t) as nat,
        ) is Ok,
        reached(
            bytes_of_compound(bytes, reached(bytes, count).tags, t),
            (end_tag_of(reached(bytes, count).tags, t) - t) as nat,
        ).state != ParseNbtFsmState::EndOfFile,
        reached(bytes, (end_tag_of(reached(bytes, count).tags, t) + 1) as nat).tags.len()
            == end_tag_of(reached(bytes, count).tags, t) + 1,
        step(
            bytes_of_compound(bytes, reached(bytes, count).tags, t),
            reached(
                bytes_of_compound(bytes, reached(bytes, count).tags, t),
                (end_tag_of(reached(bytes, count).tags, t) - t) as nat,
            ),
        ) is Ok,
        step(
            bytes_of_compound(bytes, reached(bytes, count).tags, t),
            reached(
                bytes_of_compound(bytes, reached(bytes, count).tags, t),
                (end_tag_of(reached(bytes, count).tags, t) - t) as nat,
            ),
        )->Ok_0.state == ParseNbtFsmState::EndOfFile,
        tags_mirror(
            reached(bytes, (end_tag_of(reached(bytes, count).tags, t) + 1) as nat).tags,
            step(
                bytes_of_compound(bytes, reached(bytes, count).tags, t),
                reached(
                    bytes_of_compound(bytes, reached(bytes, count).tags, t),
                    (end_tag_of(reached(bytes, count).tags, t) - t) as nat,
                ),
            )->Ok_0.tags,
            t,
            reached(bytes, count).tags[t].position.raw_bytes.byte_start_all as int,
            reached(bytes, count).tags[t].position.depth as int,
        ),
{
    let all = reached(bytes, count).tags;
    let end = end_tag_of(all, t);
    let from = all[t].position.raw_bytes.byte_start_all as int;
    let to = all[t].position.raw_bytes.byte_end_all_with_children + 1;
    let depth = all[t].position.depth as int;
    let base = lists_set_aside(bytes, t as nat) as int;
    let slice = bytes_of_compound(bytes, all, t);
    compound_has_ended(bytes, count, t);
    let inner = (end - t) as nat;
    subtree_runs_alone(bytes, count, t, inner);
    subtree_lies_inside(bytes, count, t, end as nat);
    subtree_lies_inside(bytes, count, t, t as nat);
    let whole = reached(bytes, end as nat);
    let alone = reached(slice, inner);
    on_the_way(bytes, count, end as nat);
    on_the_way(bytes, count, (end + 1) as nat);
    on_the_way(bytes, count, count);
    reached_keeps(slice, inner);
    stays_open(bytes, count, t, end as nat);
    step_appends(bytes, whole);
    tags_settle(bytes, count, (end + 1) as nat, count, end);
    tags_settle(bytes, count, end as nat, count, t);
    assert(reached(bytes, (end + 1) as nat).tags[end] == emitted(bytes, whole));
    assert(shaped_at(all, t));
    assert(whole.state == ParseNbtFsmState::Normal);
    last_step_mirrors(bytes, to, whole, alone, t, from, depth, base);
}

/// The bytes of a compound with id and name, from its id to the end of its
/// subtree, are a document of their own: the compound, its descendants and
/// its end tag, each as it is in the whole document, but with its index
/// counted from the compound, its byte ranges from the first byte of the
/// compound, and its depth from the depth of the compound.
pub proof fn compound_is_a_document(bytes: Seq<u8>, t: int)
    requires
        bytes.len() <= usize::MAX,
        parse_of(bytes) is Ok,
        parse_of(bytes)->Ok_0.tags.len() <= usize::MAX,
        0 <= t < parse_of(bytes)->Ok_0.tags.len(),
        named(parse_of(bytes)->Ok_0.tags[t]),
        parse_of(bytes)->Ok_0.tags[t].value.kind() == NbtTagId::Compound,
    ensures
        ({
            let tags = parse_of(bytes)->Ok_0.tags;
            let alone = parse_of(bytes_of_compound(bytes, tags, t));
            let end = end_tag_of(tags, t);
            &&& t < end < tags.len()
            &&& alone is Ok
            &&& alone->Ok_0.tags.len() == end - t + 1
            &&& forall|i: int|
                0 <= i <= end - t ==> #[trigger] alone->Ok_0.tags[i] == transplanted(
                    tags[t + i],
                    t,
                    tags[t].position.raw_bytes.byte_start_all as int,
                    tags[t].position.depth as int,
                )
        }),
{
    let count = run_counts(bytes);
    let all = reached(bytes, count).tags;
    assert(all == parse_of(bytes)->Ok_0.tags);
    let end = end_tag_of(all, t);
    let from = all[t].position.raw_bytes.byte_start_all as int;
    let to = all[t].position.raw_bytes.byte_end_all_with_children + 1;
    let depth = all[t].position.depth as int;
    let base = lists_set_aside(bytes, t as nat) as int;
    let slice = bytes_of_compound(bytes, all, t);
    let inner = (end - t) as nat;
    subtree_closes_alone(bytes, count, t);
    let alone = reached(slice, inner);
    let last = step(slice, alone)->Ok_0;
    advance_in_two(slice, initial(), inner, 1);
    assert(advance(slice, alone, 1) == match step(slice, alone) {
        Err(e) => Err(e),
        Ok(next) => advance(slice, next, 0),
    });
    run_goes_through(slice, initial(), inner + 1);
    assert(run(slice, initial()) == Ok::<Machine, NbtReadError>(last));
    assert forall|i: int| 0 <= i <= end - t implies #[trigger] last.tags[i] == transplanted(
        all[t + i],
        t,
        from,
        depth,
    ) by {
        subtree_is_frozen(bytes, count, t, count, t + i);
    }
}

} // verus!
