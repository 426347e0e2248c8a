//! What holds of every document that the driver reads.
//!
//! `well_formed` states it over the tags of a document: every tag follows
//! its parent and lies one level below it, the tags lie in the buffer one
//! behind the other, every tag records the end of its subtree, every list
//! is followed by its elements, every compound ends with its end tag, every
//! tag is what the reader yields at its offset, and the index of names
//! points at the last tag of each name.
//!
//! `kept` is what the driver keeps from tag to tag to that end: the same
//! properties of the tags read so far, together with what it knows of the
//! compounds and lists that are still open. Every step keeps it, and at the
//! end of the buffer it gives `well_formed`.

use vstd::prelude::*;

use crate::nbt::fsm::parse::id_at;
use crate::nbt::fsm::{NbtListParser, ParseNbtFsmState};
use crate::nbt::machine::{
    append, applied, counted, drained, grown, initial, left, list_element_at, named_tag_at,
    named_tag_stays_inside, next_parent, on_path, on_path_agrees, on_path_below,
    payload_stays_inside, ranges_of, read_step, settled, settling_uses_budget, step, Machine,
    Reading,
};
use crate::nbt::{NbtReadError, NbtTagId, NbtTagPositionRawBytes, TagView};

verus! {

/// What the driver relies on to find its way in the tree: the links between
/// the tags point backwards, the parent of the next tag exists, and the list
/// contexts are within the bound on list lengths.
pub open spec fn linked(m: Machine) -> bool {
    &&& -1 <= m.delta <= 1
    &&& 0 <= m.depth
    &&& m.tags.len() == 0 ==> m.parent == 0 && m.delta == 0 && m.depth == 0 && m.state
        == ParseNbtFsmState::Normal
    &&& m.tags.len() > 0 ==> 0 <= m.parent < m.tags.len()
    &&& forall|i: int|
        0 <= i < m.tags.len() ==> (#[trigger] m.tags[i]).position.parent <= i
            && m.tags[i].position.index == i
    &&& m.list.list_len <= 32767
    &&& forall|j: int|
        0 <= j < m.suspended.len() ==> (#[trigger] m.suspended[j]).list_len <= 32767
}

/// What the driver relies on between two tags: it finds its way in the tree,
/// its cursor is inside the buffer, and every level of depth has cost bytes,
/// so that no counter overflows.
pub open spec fn steady(bytes: Seq<u8>, m: Machine) -> bool {
    &&& linked(m)
    &&& bytes.len() <= usize::MAX
    &&& 0 <= m.pos <= bytes.len()
    &&& m.tags.len() == 0 ==> m.pos == 0
    &&& m.state != ParseNbtFsmState::EndOfFile ==> 3 * (m.depth + m.delta) + (if m.state
        == ParseNbtFsmState::List {
        3int
    } else {
        0int
    }) <= m.pos
}

/// A step leaves the machine steady.
pub proof fn read_keeps_steady(bytes: Seq<u8>, m: Machine)
    requires
        steady(bytes, m),
        m.state != ParseNbtFsmState::EndOfFile,
        m.tags.len() < usize::MAX,
        read_step(bytes, m) is Ok,
    ensures
        steady(bytes, read_step(bytes, m)->Ok_0),
{
    let next = read_step(bytes, m)->Ok_0;
    let parent = next_parent(m)->Ok_0;
    if m.state == ParseNbtFsmState::List {
        payload_stays_inside(bytes, m.pos, m.list.list_tag_id);
    } else {
        named_tag_stays_inside(bytes, m.pos, m.tags.len() == 0);
        let r = named_tag_at(bytes, m.pos, m.tags.len() == 0)->Ok_0;
        let id = id_at(bytes, m.pos)->Ok_0;
        if id != NbtTagId::End {
            payload_stays_inside(bytes, r.value_start, id);
        }
    }
    assert forall|i: int| 0 <= i < next.tags.len() implies (#[trigger] next.tags[i]).position.parent
        <= i && next.tags[i].position.index == i by {
        if i < m.tags.len() {
            assert(m.tags[i].position.parent <= i);
        }
    }
    assert forall|j: int| 0 <= j < next.suspended.len() implies (
    #[trigger] next.suspended[j]).list_len <= 32767 by {
        if j < m.suspended.len() {
            assert(m.suspended[j].list_len <= 32767);
        }
    }
    if m.suspended.len() > 0 {
        assert(m.suspended[m.suspended.len() - 1].list_len <= 32767);
    }
}

/// Whether a tag has an id and a name on the wire: whether it is no list
/// element.
pub open spec fn named(tag: TagView) -> bool {
    tag.position.raw_bytes.byte_start_id is Some
}

/// Tag `i` lies where its parent says: it bears its own index, the root is
/// its own parent at depth 0, and any other tag follows its parent and lies
/// one level below it. A tag with a name lies in a compound. A tag without
/// lies in a list, is of the kind that the list declares, and bears the
/// empty name.
pub open spec fn shaped_at(tags: Seq<TagView>, i: int) -> bool {
    let tag = tags[i];
    let parent = tags[tag.position.parent as int];
    &&& tag.position.index == i
    &&& tag.position.depth >= 0
    &&& i == 0 ==> tag.position.parent == 0 && tag.position.depth == 0 && named(tag)
        && tag.value.kind() == NbtTagId::Compound
    &&& i > 0 ==> tag.position.parent < i && tag.position.depth == parent.position.depth + 1
    &&& i > 0 && named(tag) ==> parent.value.kind() == NbtTagId::Compound
    &&& !named(tag) ==> parent.value.kind() == NbtTagId::List && tag.name == Seq::<char>::empty()
        && tag.value.kind() == parent.value->List_0
}

/// Every tag lies where its parent says.
pub open spec fn shaped(tags: Seq<TagView>) -> bool {
    forall|i: int| 0 <= i < tags.len() ==> #[trigger] shaped_at(tags, i)
}

/// The depth at which the next tag lies.
pub open spec fn pending_depth(m: Machine) -> int {
    m.depth + m.delta
}

/// The parent of the next tag.
pub open spec fn pending_parent(m: Machine) -> int {
    next_parent(m)->Ok_0
}

/// What the driver knows between two tags of the place of the next one: it
/// lies one level below its parent, in a compound where a tag with a name
/// is read, in a list of its kind where an element is read. At the end of
/// the buffer nothing is open.
pub open spec fn poised(m: Machine) -> bool {
    &&& pending_depth(m) >= 0
    &&& m.tags.len() > 0 ==> {
        let depth = pending_depth(m);
        let parent = m.tags[pending_parent(m)];
        &&& depth >= 1 ==> depth == parent.position.depth + 1
        &&& depth >= 1 && m.state == ParseNbtFsmState::Normal ==> parent.value.kind()
            == NbtTagId::Compound
        &&& m.state == ParseNbtFsmState::List ==> depth >= 1 && parent.value.kind()
            == NbtTagId::List && parent.value->List_0 == m.list.list_tag_id
        &&& m.state == ParseNbtFsmState::EndOfFile ==> depth == 0
    }
}

/// The tag that a step appends.
pub open spec fn emitted(bytes: Seq<u8>, m: Machine) -> TagView {
    read_step(bytes, m)->Ok_0.tags.last()
}

/// What reading a tag appends, and what it leaves as it was: the tags before
/// keep their name, value, index, depth and parent, and all their byte ranges
/// up to the end of their subtree.
pub proof fn read_appends(bytes: Seq<u8>, m: Machine)
    requires
        m.state != ParseNbtFsmState::EndOfFile,
        read_step(bytes, m) is Ok,
    ensures
        read_step(bytes, m)->Ok_0.tags.len() == m.tags.len() + 1,
        read_step(bytes, m)->Ok_0.tags == append(m.tags, emitted(bytes, m)),
        emitted(bytes, m).position.children == Seq::<usize>::empty(),
        emitted(bytes, m).position.index == m.tags.len() as usize,
        emitted(bytes, m).position.parent == pending_parent(m) as usize,
        emitted(bytes, m).position.depth == pending_depth(m) as i64,
        forall|i: int|
            0 <= i < m.tags.len() ==> {
                let before = m.tags[i];
                let after = #[trigger] read_step(bytes, m)->Ok_0.tags[i];
                &&& after.name == before.name
                &&& after.value == before.value
                &&& after.position.index == before.position.index
                &&& after.position.depth == before.position.depth
                &&& after.position.parent == before.position.parent
                &&& after.position.raw_bytes.byte_start_all
                    == before.position.raw_bytes.byte_start_all
                &&& after.position.raw_bytes.byte_end_all == before.position.raw_bytes.byte_end_all
                &&& after.position.raw_bytes.byte_start_id
                    == before.position.raw_bytes.byte_start_id
                &&& after.position.raw_bytes.byte_end_id == before.position.raw_bytes.byte_end_id
                &&& after.position.raw_bytes.byte_start_name
                    == before.position.raw_bytes.byte_start_name
                &&& after.position.raw_bytes.byte_end_name
                    == before.position.raw_bytes.byte_end_name
                &&& after.position.raw_bytes.byte_start_value
                    == before.position.raw_bytes.byte_start_value
                &&& after.position.raw_bytes.byte_end_value
                    == before.position.raw_bytes.byte_end_value
            },
{
}

/// Reading a tag keeps every tag where its parent says, and the driver poised.
pub proof fn read_keeps_shape(bytes: Seq<u8>, m: Machine)
    requires
        steady(bytes, m),
        shaped(m.tags),
        poised(m),
        stack_kept(m),
        at_rest(m),
        m.state != ParseNbtFsmState::EndOfFile,
        m.tags.len() < usize::MAX,
        read_step(bytes, m) is Ok,
    ensures
        shaped(read_step(bytes, m)->Ok_0.tags),
        poised(read_step(bytes, m)->Ok_0),
{
    let next = read_step(bytes, m)->Ok_0;
    let n = m.tags.len() as int;
    let tag = emitted(bytes, m);
    let parent = pending_parent(m);
    let depth = pending_depth(m);
    read_appends(bytes, m);
    read_keeps_steady(bytes, m);
    if m.state == ParseNbtFsmState::List {
        payload_stays_inside(bytes, m.pos, m.list.list_tag_id);
    } else {
        named_tag_stays_inside(bytes, m.pos, n == 0);
    }
    if n > 0 {
        assert(shaped_at(m.tags, parent));
        assert(shaped_at(m.tags, m.parent));
        assert(shaped_at(m.tags, m.tags[m.parent].position.parent as int));
    }
    assert forall|i: int| 0 <= i < next.tags.len() implies #[trigger] shaped_at(next.tags, i) by {
        if i < n {
            assert(shaped_at(m.tags, i));
            let up = m.tags[i].position.parent as int;
            assert(next.tags[up].value == m.tags[up].value);
        } else {
            assert(next.tags[i] == tag);
            if n > 0 {
                assert(next.tags[parent].value == m.tags[parent].value);
            }
        }
    }
    let up = pending_parent(next);
    let deeper = pending_depth(next);
    assert(next.tags.last() == tag);
    assert(next.depth == depth && next.parent == parent);
    assert(tag.position.depth == depth);
    assert(tag.position.parent == parent);
    if next.delta == 1 {
        assert(up == n);
    } else if next.delta == 0 {
        assert(up == parent);
        assert(next.tags[up].value == m.tags[up].value);
    } else {
        assert(next.delta == -1);
        assert(n > 0);
        assert(up == m.tags[parent].position.parent);
        assert(next.tags[up].value == m.tags[up].value);
        assert(shaped_at(m.tags, up));
        if m.tags[up].value is List {
            assert(!named(m.tags[parent]));
            assert(m.suspended == lists_waiting(m.tags, parent));
            assert(m.suspended.last() == context_of(m.tags, up));
        }
    }
    assert(deeper >= 1 ==> deeper == next.tags[up].position.depth + 1);
    assert(deeper >= 1 && next.state == ParseNbtFsmState::Normal ==> next.tags[up].value.kind()
        == NbtTagId::Compound);
    assert(next.state == ParseNbtFsmState::List ==> next.tags[up].value.kind() == NbtTagId::List);
    assert(next.state == ParseNbtFsmState::List ==> next.tags[up].value->List_0
        == next.list.list_tag_id);
    assert(next.state == ParseNbtFsmState::List ==> deeper >= 1);
    assert(next.state == ParseNbtFsmState::EndOfFile ==> deeper == 0);
}

/// Whether a tag takes at least one byte of the buffer. Only a compound or an
/// end tag that is a list element takes none.
pub open spec fn takes_bytes(tag: TagView) -> bool {
    named(tag) || !(tag.value.kind() == NbtTagId::Compound || tag.value.kind() == NbtTagId::End)
}

/// The offset at which the tag that follows `tag` begins.
pub open spec fn offset_behind(tag: TagView) -> int {
    if takes_bytes(tag) {
        tag.position.raw_bytes.byte_end_all + 1
    } else {
        tag.position.raw_bytes.byte_end_all as int
    }
}

/// Tag `i` begins where the tag before it ends, the first at offset 0, and
/// does not end before it begins.
pub open spec fn tiled_at(tags: Seq<TagView>, i: int) -> bool {
    let ranges = tags[i].position.raw_bytes;
    &&& ranges.byte_start_all <= ranges.byte_end_all
    &&& ranges.byte_start_all == if i == 0 {
        0
    } else {
        offset_behind(tags[i - 1])
    }
}

/// The tags lie in the buffer one behind the other, from offset 0 on,
/// without gap or overlap.
pub open spec fn tiled(tags: Seq<TagView>) -> bool {
    forall|i: int| 0 <= i < tags.len() ==> #[trigger] tiled_at(tags, i)
}

/// The cursor stands behind the tag emitted last.
pub open spec fn cursor_follows(m: Machine) -> bool {
    m.pos == if m.tags.len() == 0 {
        0
    } else {
        offset_behind(m.tags.last())
    }
}

/// Reading a tag keeps the tags one behind the other, and the cursor behind
/// the last of them.
pub proof fn read_keeps_tiling(bytes: Seq<u8>, m: Machine)
    requires
        steady(bytes, m),
        tiled(m.tags),
        cursor_follows(m),
        m.state != ParseNbtFsmState::EndOfFile,
        read_step(bytes, m) is Ok,
    ensures
        tiled(read_step(bytes, m)->Ok_0.tags),
        cursor_follows(read_step(bytes, m)->Ok_0),
        emitted(bytes, m).position.raw_bytes.byte_start_all == m.pos,
        offset_behind(emitted(bytes, m)) == read_step(bytes, m)->Ok_0.pos,
{
    let next = read_step(bytes, m)->Ok_0;
    let n = m.tags.len() as int;
    let tag = emitted(bytes, m);
    read_appends(bytes, m);
    if m.state == ParseNbtFsmState::List {
        payload_stays_inside(bytes, m.pos, m.list.list_tag_id);
    } else {
        named_tag_stays_inside(bytes, m.pos, n == 0);
    }
    assert(next.tags[n] == tag);
    assert forall|i: int| 0 <= i < next.tags.len() implies #[trigger] tiled_at(next.tags, i) by {
        if i < n {
            assert(tiled_at(m.tags, i));
        }
    }
}

/// The children that tag `c` lists are tags behind it whose parent it is, in
/// the order of their emission; and the parent of `c` lists `c`, unless `c`
/// is the root.
pub open spec fn children_at(tags: Seq<TagView>, c: int) -> bool {
    let kids = tags[c].position.children;
    let siblings = tags[tags[c].position.parent as int].position.children;
    &&& forall|j: int|
        0 <= j < kids.len() ==> c < (#[trigger] kids[j]) < tags.len()
            && tags[kids[j] as int].position.parent == c
    &&& forall|j: int, l: int|
        0 <= j < l < kids.len() ==> (#[trigger] kids[j]) < (#[trigger] kids[l])
    &&& c > 0 ==> siblings.contains(c as usize)
}

/// Every tag lists its children, and nothing else, in the order of their
/// emission.
pub open spec fn children_listed(tags: Seq<TagView>) -> bool {
    forall|c: int| 0 <= c < tags.len() ==> #[trigger] children_at(tags, c)
}

/// Whether tag `c` is still open between two tags: whether the next tag
/// lies in it or below it.
pub open spec fn open_at(m: Machine, c: int) -> bool {
    pending_depth(m) >= 1 && on_path(m.tags, c, pending_parent(m))
}

/// No child of tag `c` is an end tag.
pub open spec fn no_end_child(tags: Seq<TagView>, c: int) -> bool {
    let kids = tags[c].position.children;
    forall|j: int|
        0 <= j < kids.len() ==> tags[(#[trigger] kids[j]) as int].value.kind() != NbtTagId::End
}

/// The children of tag `c` end with an end tag one level below it, with
/// which the subtree of `c` ends, and no other child is an end tag.
pub open spec fn closed_by_end(tags: Seq<TagView>, c: int) -> bool {
    let kids = tags[c].position.children;
    &&& kids.len() > 0
    &&& tags[kids.last() as int].value.kind() == NbtTagId::End
    &&& tags[kids.last() as int].position.depth == tags[c].position.depth + 1
    &&& tags[kids.last() as int].position.raw_bytes.byte_end_all
        == tags[c].position.raw_bytes.byte_end_all_with_children
    &&& forall|j: int|
        0 <= j < kids.len() - 1 ==> tags[(#[trigger] kids[j]) as int].value.kind() != NbtTagId::End
}

/// A compound that is still open has no end tag among its children; any
/// other has one, as its last child.
pub open spec fn compound_kept(m: Machine, c: int) -> bool {
    m.tags[c].value.kind() == NbtTagId::Compound ==> if open_at(m, c) {
        no_end_child(m.tags, c)
    } else {
        closed_by_end(m.tags, c)
    }
}

/// Every compound is either open, without an end tag, or closed by one.
pub open spec fn compounds_kept(m: Machine) -> bool {
    forall|c: int| 0 <= c < m.tags.len() ==> #[trigger] compound_kept(m, c)
}

/// Every compound has ended: its children end with exactly one end tag,
/// which lies one level below it.
pub open spec fn compounds_closed(tags: Seq<TagView>) -> bool {
    forall|c: int|
        0 <= c < tags.len() && (#[trigger] tags[c]).value.kind() == NbtTagId::Compound
            ==> closed_by_end(tags, c)
}

/// The ancestors of a tag are the tag itself and the ancestors of its parent.
pub proof fn on_path_unfolds(tags: Seq<TagView>, a: int, k: int)
    requires
        0 < k,
        tags[k].position.parent < k,
    ensures
        on_path(tags, a, k) == (a == k || on_path(tags, a, tags[k].position.parent as int)),
{
}

/// Reading a tag changes the ancestors of no tag that was there before.
pub proof fn read_keeps_paths(bytes: Seq<u8>, m: Machine, a: int, k: int)
    requires
        m.state != ParseNbtFsmState::EndOfFile,
        read_step(bytes, m) is Ok,
        0 <= k < m.tags.len(),
    ensures
        on_path(read_step(bytes, m)->Ok_0.tags, a, k) == on_path(m.tags, a, k),
{
    read_appends(bytes, m);
    on_path_agrees(read_step(bytes, m)->Ok_0.tags, m.tags, a, k);
}

/// What reading a tag does to the children that the tags list: the parent of
/// the tag that is appended lists it last, and nothing else changes.
pub proof fn read_lists_child(bytes: Seq<u8>, m: Machine)
    requires
        m.state != ParseNbtFsmState::EndOfFile,
        read_step(bytes, m) is Ok,
        m.tags.len() < usize::MAX,
        m.tags.len() > 0 ==> 0 <= pending_parent(m) < m.tags.len(),
    ensures
        forall|c: int|
            0 <= c < m.tags.len() ==> (#[trigger] read_step(
                bytes,
                m,
            )->Ok_0.tags[c]).position.children == if c == pending_parent(m) {
                m.tags[c].position.children.push(m.tags.len() as usize)
            } else {
                m.tags[c].position.children
            },
{
    read_appends(bytes, m);
    let parent = pending_parent(m);
    let next = read_step(bytes, m)->Ok_0;
    assert forall|c: int| 0 <= c < m.tags.len() implies (#[trigger] next.tags[c]).position.children
        == if c == parent {
        m.tags[c].position.children.push(m.tags.len() as usize)
    } else {
        m.tags[c].position.children
    } by {
        if c == parent {
            assert(on_path(m.tags, c, parent));
        }
    }
}

/// Reading a tag keeps the lists of children true.
pub proof fn read_keeps_children(bytes: Seq<u8>, m: Machine)
    requires
        steady(bytes, m),
        children_listed(m.tags),
        m.state != ParseNbtFsmState::EndOfFile,
        m.tags.len() < usize::MAX,
        read_step(bytes, m) is Ok,
    ensures
        children_listed(read_step(bytes, m)->Ok_0.tags),
{
    let next = read_step(bytes, m)->Ok_0;
    let n = m.tags.len() as int;
    let parent = pending_parent(m);
    read_appends(bytes, m);
    read_lists_child(bytes, m);
    assert(next.tags[n] == emitted(bytes, m));
    assert forall|c: int| 0 <= c < next.tags.len() implies #[trigger] children_at(next.tags, c) by {
        let kids = next.tags[c].position.children;
        let siblings = next.tags[next.tags[c].position.parent as int].position.children;
        if c < n {
            assert(children_at(m.tags, c));
            let before = m.tags[c].position.children;
            assert forall|j: int| 0 <= j < kids.len() implies c < (#[trigger] kids[j])
                < next.tags.len() && next.tags[kids[j] as int].position.parent == c by {
                if j < before.len() {
                    assert(kids[j] == before[j]);
                }
            }
            assert forall|j: int, l: int| 0 <= j < l < kids.len() implies (#[trigger] kids[j]) < (
            #[trigger] kids[l]) by {
                assert(kids[j] == before[j]);
                if l < before.len() {
                    assert(kids[l] == before[l]);
                }
            }
            if c > 0 {
                let up = m.tags[c].position.parent as int;
                let listed = choose|j: int|
                    0 <= j < m.tags[up].position.children.len() && m.tags[up].position.children[j]
                        == c;
                assert(siblings[listed] == c);
            }
        } else if n > 0 {
            assert(siblings == m.tags[parent].position.children.push(n as usize));
            assert(siblings[siblings.len() - 1] == n);
        }
    }
}

/// Reading a tag keeps every compound either open, without an end tag, or
/// closed by one.
pub proof fn read_keeps_compounds(bytes: Seq<u8>, m: Machine)
    requires
        steady(bytes, m),
        shaped(m.tags),
        poised(m),
        stack_kept(m),
        at_rest(m),
        children_listed(m.tags),
        compounds_kept(m),
        m.state != ParseNbtFsmState::EndOfFile,
        m.tags.len() < usize::MAX,
        read_step(bytes, m) is Ok,
    ensures
        compounds_kept(read_step(bytes, m)->Ok_0),
{
    let next = read_step(bytes, m)->Ok_0;
    let n = m.tags.len() as int;
    let tag = emitted(bytes, m);
    let parent = pending_parent(m);
    let depth = pending_depth(m);
    let up = pending_parent(next);
    read_appends(bytes, m);
    read_lists_child(bytes, m);
    read_keeps_shape(bytes, m);
    read_keeps_steady(bytes, m);
    if m.state == ParseNbtFsmState::List {
        payload_stays_inside(bytes, m.pos, m.list.list_tag_id);
    } else {
        named_tag_stays_inside(bytes, m.pos, n == 0);
    }
    assert(next.tags[n] == tag);
    assert forall|c: int| 0 <= c < next.tags.len() implies #[trigger] compound_kept(next, c) by {
        if next.tags[c].value.kind() == NbtTagId::Compound {
            if c == n {
                // A compound that was read just now is open and has no child.
                assert(next.delta == 1);
                assert(on_path(next.tags, c, up));
            } else {
                assert(compound_kept(m, c));
                assert(children_at(m.tags, c));
                assert(shaped_at(m.tags, parent));
                assert(shaped_at(m.tags, c));
                let kids = m.tags[c].position.children;
                let grown = next.tags[c].position.children;
                assert forall|j: int| 0 <= j < kids.len() implies next.tags[(
                #[trigger] kids[j]) as int].value == m.tags[kids[j] as int].value
                    && next.tags[kids[j] as int].position.depth
                    == m.tags[kids[j] as int].position.depth by {}
                if next.delta == 1 {
                    on_path_unfolds(next.tags, c, n);
                    read_keeps_paths(bytes, m, c, parent);
                    assert(open_at(next, c) == open_at(m, c));
                    if c == parent {
                        assert(on_path(m.tags, c, parent));
                        assert(tag.value.kind() != NbtTagId::End);
                        assert forall|j: int| 0 <= j < grown.len() implies next.tags[(
                        #[trigger] grown[j]) as int].value.kind() != NbtTagId::End by {
                            if j < kids.len() {
                                assert(grown[j] == kids[j]);
                            }
                        }
                    } else {
                        assert(grown == kids);
                    }
                } else if next.delta == 0 {
                    read_keeps_paths(bytes, m, c, parent);
                    assert(up == parent);
                    assert(open_at(next, c) == open_at(m, c));
                    if c == parent {
                        assert(on_path(m.tags, c, parent));
                        assert(tag.value.kind() != NbtTagId::End);
                        assert forall|j: int| 0 <= j < grown.len() implies next.tags[(
                        #[trigger] grown[j]) as int].value.kind() != NbtTagId::End by {
                            if j < kids.len() {
                                assert(grown[j] == kids[j]);
                            }
                        }
                    } else {
                        assert(grown == kids);
                    }
                } else {
                    // The parent ends here.
                    let middle = m.tags[parent].position.parent as int;
                    assert(shaped_at(m.tags, middle));
                    if parent > 0 {
                        on_path_unfolds(m.tags, c, parent);
                    }
                    if middle > 0 {
                        on_path_unfolds(m.tags, c, middle);
                    }
                    read_keeps_paths(bytes, m, c, up);
                    if c == parent {
                        assert(on_path(m.tags, c, parent));
                        assert(open_at(m, c));
                        assert(tag.value.kind() == NbtTagId::End);
                        if on_path(m.tags, c, up) && parent > 0 {
                            on_path_below(m.tags, c, up);
                        }
                        assert(!open_at(next, c));
                        assert(grown == kids.push(n as usize));
                        assert(grown.last() == n);
                        assert forall|j: int| 0 <= j < grown.len() - 1 implies next.tags[(
                        #[trigger] grown[j]) as int].value.kind() != NbtTagId::End by {
                            assert(grown[j] == kids[j]);
                        }
                        assert(closed_by_end(next.tags, c));
                    } else {
                        assert(grown == kids);
                        if open_at(next, c) {
                            assert(on_path(m.tags, c, up));
                            assert(open_at(m, c));
                        } else if open_at(m, c) {
                            assert(parent > 0);
                            assert(on_path(m.tags, c, middle));
                            assert(depth == m.tags[parent].position.depth + 1);
                            assert(m.tags[parent].position.depth >= 1);
                            assert(up == middle);
                            assert(pending_depth(next) >= 1);
                            assert(false);
                        }
                    }
                }
            }
        }
    }
}

/// Whether the children of a list are the elements that it declares, one
/// behind the other: so it is where the list declares none, and where its
/// elements are neither compounds nor lists, and so have no children.
pub open spec fn counted_list(tag: TagView) -> bool {
    tag.value is List && (tag.value->List_1 == 0 || (tag.value->List_0 != NbtTagId::Compound
        && tag.value->List_0 != NbtTagId::List))
}

/// Tag `k` is an element of the list `c`: a tag of the kind that the list
/// declares, without id and name, and a child of the list.
pub open spec fn element_of(tags: Seq<TagView>, c: int, k: int) -> bool {
    &&& 0 <= k < tags.len()
    &&& tags[k].value.kind() == tags[c].value->List_0
    &&& tags[k].name == Seq::<char>::empty()
    &&& !named(tags[k])
    &&& tags[k].position.parent == c
}

/// The `count` tags that follow the list `c` are elements of it.
pub open spec fn followed_by_elements(tags: Seq<TagView>, c: int, count: int) -> bool {
    forall|k: int| c < k <= c + count ==> #[trigger] element_of(tags, c, k)
}

/// The children of the list `c` are the `count` tags that follow it.
pub open spec fn only_children(tags: Seq<TagView>, c: int, count: int) -> bool {
    &&& tags[c].position.children.len() == count
    &&& forall|j: int| 0 <= j < count ==> #[trigger] tags[c].position.children[j] == c + 1 + j
}

/// A list whose elements have no children is followed by the elements read
/// so far while it is being read, and by all of them afterwards; they are
/// its only children. A list that declares no element is never read, and
/// has no children.
pub open spec fn list_kept(m: Machine, c: int) -> bool {
    counted_list(m.tags[c]) ==> if m.state == ParseNbtFsmState::List && pending_parent(m) == c {
        &&& m.list.list_len == m.tags[c].value->List_1
        &&& 0 <= m.list.list_elem_count <= m.list.list_len
        &&& c + m.list.list_elem_count + 1 == m.tags.len()
        &&& followed_by_elements(m.tags, c, m.list.list_elem_count as int)
        &&& only_children(m.tags, c, m.list.list_elem_count as int)
    } else {
        &&& followed_by_elements(m.tags, c, m.tags[c].value->List_1 as int)
        &&& only_children(m.tags, c, m.tags[c].value->List_1 as int)
    }
}

/// Every list whose children are the elements that it declares is followed
/// by them.
pub open spec fn lists_kept(m: Machine) -> bool {
    forall|c: int| 0 <= c < m.tags.len() ==> #[trigger] list_kept(m, c)
}

/// How many of the elements that the list `tag` declares follow it one
/// behind the other: all of them where they are neither compounds nor
/// lists, the first where they are, as their children come between them.
pub open spec fn elements_in_a_row(tag: TagView) -> int {
    let declared = tag.value->List_1 as int;
    if (tag.value->List_0 != NbtTagId::Compound && tag.value->List_0 != NbtTagId::List)
        || declared <= 1 {
        declared
    } else {
        1
    }
}

/// Every child of the list `c` is an element of it: a tag of the kind that
/// the list declares, without id and name.
pub open spec fn children_are_elements(tags: Seq<TagView>, c: int) -> bool {
    forall|j: int|
        0 <= j < tags[c].position.children.len() ==> element_of(
            tags,
            c,
            (#[trigger] tags[c].position.children[j]) as int,
        )
}

/// Every list that declares `n` elements has exactly `n` children, each of
/// the kind that the list declares, without id and name. Where the elements
/// are neither compounds nor lists, they are the `n` tags that follow the
/// list; where they are, the first of them follows the list.
pub open spec fn lists_filled(tags: Seq<TagView>) -> bool {
    &&& forall|c: int|
        0 <= c < tags.len() && (#[trigger] tags[c]).value is List ==> children_are_elements(
            tags,
            c,
        )
    &&& forall|c: int|
        0 <= c < tags.len() && (#[trigger] tags[c]).value is List
            ==> tags[c].position.children.len() == tags[c].value->List_1
    &&& forall|c: int|
        0 <= c < tags.len() && (#[trigger] tags[c]).value is List ==> followed_by_elements(
            tags,
            c,
            elements_in_a_row(tags[c]),
        )
    &&& forall|c: int|
        0 <= c < tags.len() && counted_list(#[trigger] tags[c]) ==> only_children(
            tags,
            c,
            tags[c].value->List_1 as int,
        )
}

/// Elements that follow a list follow it once another tag is read as well.
pub proof fn read_keeps_elements(bytes: Seq<u8>, m: Machine, c: int, count: int)
    requires
        m.state != ParseNbtFsmState::EndOfFile,
        read_step(bytes, m) is Ok,
        0 <= c < m.tags.len(),
        followed_by_elements(m.tags, c, count),
    ensures
        followed_by_elements(read_step(bytes, m)->Ok_0.tags, c, count),
{
    let next = read_step(bytes, m)->Ok_0;
    read_appends(bytes, m);
    assert forall|k: int| c < k <= c + count implies #[trigger] element_of(next.tags, c, k) by {
        assert(element_of(m.tags, c, k));
    }
}

/// Reading a tag keeps a list that is being read followed by the elements read
/// so far, the one read by this step among them.
pub proof fn read_reads_element(bytes: Seq<u8>, m: Machine, c: int)
    requires
        steady(bytes, m),
        shaped(m.tags),
        poised(m),
        stack_kept(m),
        at_rest(m),
        list_kept(m, c),
        m.state == ParseNbtFsmState::List,
        pending_parent(m) == c,
        0 <= c < m.tags.len(),
        counted_list(m.tags[c]),
        m.tags.len() < usize::MAX,
        read_step(bytes, m) is Ok,
    ensures
        list_kept(read_step(bytes, m)->Ok_0, c),
{
    let next = read_step(bytes, m)->Ok_0;
    let n = m.tags.len() as int;
    let read = m.list.list_elem_count as int;
    let declared = m.tags[c].value->List_1 as int;
    read_appends(bytes, m);
    read_keeps_shape(bytes, m);
    read_keeps_steady(bytes, m);
    payload_stays_inside(bytes, m.pos, m.list.list_tag_id);
    read_keeps_elements(bytes, m, c, read);
    assert(next.tags[n] == emitted(bytes, m));
    assert(shaped_at(next.tags, n));
    assert(element_of(next.tags, c, n));
    assert(c + read + 1 == n);
    assert forall|k: int| c < k <= c + read + 1 implies #[trigger] element_of(next.tags, c, k) by {
        if k <= c + read {
            assert(element_of(m.tags, c, k));
        }
    }
    assert(followed_by_elements(next.tags, c, read + 1));
    read_lists_child(bytes, m);
    let kids = next.tags[c].position.children;
    assert(kids == m.tags[c].position.children.push(n as usize));
    assert forall|j: int| 0 <= j < read + 1 implies #[trigger] kids[j] == c + 1 + j by {
        if j < read {
            assert(m.tags[c].position.children[j] == c + 1 + j);
        }
    }
    assert(only_children(next.tags, c, read + 1));
    // A list that is being read declares an element.
    assert(m.list.list_len == declared);
    assert(declared >= 1);
    assert(shaped_at(m.tags, c));
    assert(m.list.list_tag_id != NbtTagId::Compound && m.list.list_tag_id != NbtTagId::List);
    assert(next.delta == 0);
    assert(pending_depth(next) >= 1);
    assert(next.state == ParseNbtFsmState::List);
    assert(pending_parent(next) == c);
    assert(next.list.list_len == declared);
    assert(next.list.list_elem_count == read + 1);
    assert(read + 1 <= declared);
}

/// Reading a tag keeps a list that has been read followed by its elements: it
/// is not taken up again.
pub proof fn read_leaves_list(bytes: Seq<u8>, m: Machine, c: int)
    requires
        steady(bytes, m),
        shaped(m.tags),
        poised(m),
        stack_kept(m),
        at_rest(m),
        children_listed(m.tags),
        list_kept(m, c),
        !(m.state == ParseNbtFsmState::List && pending_parent(m) == c),
        m.state != ParseNbtFsmState::EndOfFile,
        0 <= c < m.tags.len(),
        counted_list(m.tags[c]),
        m.tags.len() < usize::MAX,
        read_step(bytes, m) is Ok,
    ensures
        list_kept(read_step(bytes, m)->Ok_0, c),
{
    let next = read_step(bytes, m)->Ok_0;
    let n = m.tags.len() as int;
    let parent = pending_parent(m);
    let up = pending_parent(next);
    let all = m.tags[c].value->List_1 as int;
    read_appends(bytes, m);
    read_keeps_shape(bytes, m);
    read_keeps_elements(bytes, m, c, all);
    read_lists_child(bytes, m);
    if n > 0 {
        // The next tag lies in a compound, or in another list.
        assert(pending_depth(m) >= 1);
        assert(parent != c);
    }
    assert(next.tags[c].position.children == m.tags[c].position.children);
    assert(only_children(next.tags, c, all));
    if next.state == ParseNbtFsmState::List && up == c {
        if next.delta == -1 {
            // A list that is taken up again is a list of compounds, and the
            // compound that ends here is a child of it.
            assert(shaped_at(m.tags, parent));
            assert(shaped_at(m.tags, 0));
            assert(parent > 0);
            assert(m.tags[parent].position.parent == c);
            assert(children_at(m.tags, parent));
            let kids = m.tags[c].position.children;
            let listed = choose|j: int| 0 <= j < kids.len() && kids[j] == parent;
            assert(kids.len() > 0);
            assert(false);
        } else if next.delta == 0 {
            assert(up == parent);
            assert(false);
        } else {
            assert(up == n);
            assert(false);
        }
    }
}

/// Reading a tag keeps every list followed by its elements.
pub proof fn read_keeps_lists(bytes: Seq<u8>, m: Machine)
    requires
        steady(bytes, m),
        shaped(m.tags),
        poised(m),
        stack_kept(m),
        at_rest(m),
        children_listed(m.tags),
        lists_kept(m),
        m.state != ParseNbtFsmState::EndOfFile,
        m.tags.len() < usize::MAX,
        read_step(bytes, m) is Ok,
    ensures
        lists_kept(read_step(bytes, m)->Ok_0),
{
    let next = read_step(bytes, m)->Ok_0;
    let n = m.tags.len() as int;
    read_appends(bytes, m);
    assert forall|c: int| 0 <= c < next.tags.len() implies #[trigger] list_kept(next, c) by {
        if counted_list(next.tags[c]) {
            if c == n {
                read_keeps_shape(bytes, m);
                read_keeps_steady(bytes, m);
                if m.state == ParseNbtFsmState::List {
                    payload_stays_inside(bytes, m.pos, m.list.list_tag_id);
                } else {
                    named_tag_stays_inside(bytes, m.pos, n == 0);
                }
                assert(next.tags[n] == emitted(bytes, m));
                assert(only_children(next.tags, c, 0));
                if next.tags[n].value->List_1 >= 1 {
                    assert(next.delta == 1);
                    assert(pending_parent(next) == n);
                    assert(next.state == ParseNbtFsmState::List);
                } else {
                    // A list that declares no element is not read.
                    assert(next.tags[n].value->List_1 == 0);
                    assert(next.delta == 0);
                    assert(pending_parent(next) != n);
                }
            } else {
                assert(list_kept(m, c));
                if m.state == ParseNbtFsmState::List && pending_parent(m) == c {
                    read_reads_element(bytes, m, c);
                } else {
                    read_leaves_list(bytes, m, c);
                }
            }
        }
    }
}

/// A list that declares an element is followed by an element of it, or it
/// is the tag read last, and its first element is read next.
pub open spec fn list_begun(m: Machine, c: int) -> bool {
    m.tags[c].value is List && m.tags[c].value->List_1 >= 1 ==> if c + 1
        < m.tags.len() {
        element_of(m.tags, c, c + 1)
    } else {
        m.state == ParseNbtFsmState::List && pending_parent(m) == c
    }
}

/// Every list that declares an element is followed by an element of it,
/// once that is read.
pub open spec fn lists_begun(m: Machine) -> bool {
    forall|c: int| 0 <= c < m.tags.len() ==> #[trigger] list_begun(m, c)
}

/// Reading a tag keeps every list that declares an element followed by an
/// element of it.
pub proof fn read_keeps_beginnings(bytes: Seq<u8>, m: Machine)
    requires
        steady(bytes, m),
        shaped(m.tags),
        poised(m),
        stack_kept(m),
        at_rest(m),
        lists_begun(m),
        m.state != ParseNbtFsmState::EndOfFile,
        m.tags.len() < usize::MAX,
        read_step(bytes, m) is Ok,
    ensures
        lists_begun(read_step(bytes, m)->Ok_0),
{
    let next = read_step(bytes, m)->Ok_0;
    let n = m.tags.len() as int;
    read_appends(bytes, m);
    read_keeps_shape(bytes, m);
    read_keeps_steady(bytes, m);
    assert(next.tags[n] == emitted(bytes, m));
    assert(shaped_at(next.tags, n));
    if m.state == ParseNbtFsmState::List {
        payload_stays_inside(bytes, m.pos, m.list.list_tag_id);
    } else {
        named_tag_stays_inside(bytes, m.pos, n == 0);
    }
    assert forall|c: int| 0 <= c < next.tags.len() implies #[trigger] list_begun(next, c) by {
        if next.tags[c].value is List && next.tags[c].value->List_1 >= 1 {
            if c == n {
                assert(next.delta == 1);
                assert(pending_parent(next) == n);
                assert(next.state == ParseNbtFsmState::List);
            } else {
                assert(list_begun(m, c));
                if c + 1 < n {
                    assert(element_of(m.tags, c, c + 1));
                    assert(element_of(next.tags, c, c + 1));
                } else {
                    assert(pending_parent(m) == c);
                    assert(element_of(next.tags, c, n));
                }
            }
        }
    }
}

/// At the end of the buffer every list that declares an element is followed
/// by an element of it.
pub proof fn lists_have_begun(m: Machine, c: int)
    requires
        lists_begun(m),
        m.state == ParseNbtFsmState::EndOfFile,
        0 <= c < m.tags.len(),
        m.tags[c].value is List,
        m.tags[c].value->List_1 >= 1,
    ensures
        element_of(m.tags, c, c + 1),
{
    assert(list_begun(m, c));
}

/// A compound is followed by a child of it, or it is the tag read last, and
/// its first child is read next.
pub open spec fn compound_begun(m: Machine, c: int) -> bool {
    m.tags[c].value.kind() == NbtTagId::Compound ==> if c + 1 < m.tags.len() {
        m.tags[c + 1].position.parent == c
    } else {
        pending_parent(m) == c && m.state != ParseNbtFsmState::EndOfFile
    }
}

/// Every compound is followed by a child of it, once that is read.
pub open spec fn compounds_begun(m: Machine) -> bool {
    forall|c: int| 0 <= c < m.tags.len() ==> #[trigger] compound_begun(m, c)
}

/// Reading a tag keeps every compound followed by a child of it.
pub proof fn read_keeps_openings(bytes: Seq<u8>, m: Machine)
    requires
        steady(bytes, m),
        compounds_begun(m),
        m.state != ParseNbtFsmState::EndOfFile,
        m.tags.len() < usize::MAX,
        read_step(bytes, m) is Ok,
    ensures
        compounds_begun(read_step(bytes, m)->Ok_0),
{
    let next = read_step(bytes, m)->Ok_0;
    let n = m.tags.len() as int;
    read_appends(bytes, m);
    read_keeps_steady(bytes, m);
    assert(next.tags[n] == emitted(bytes, m));
    if m.state == ParseNbtFsmState::List {
        payload_stays_inside(bytes, m.pos, m.list.list_tag_id);
    } else {
        named_tag_stays_inside(bytes, m.pos, n == 0);
    }
    assert forall|c: int| 0 <= c < next.tags.len() implies #[trigger] compound_begun(next, c) by {
        if next.tags[c].value.kind() == NbtTagId::Compound {
            if c == n {
                assert(next.delta == 1);
                assert(pending_parent(next) == n);
            } else {
                assert(compound_begun(m, c));
            }
        }
    }
}

/// A tag begins behind every tag before it.
pub proof fn tiles_in_order(tags: Seq<TagView>, i: int, k: int)
    requires
        tiled(tags),
        0 <= i < k < tags.len(),
    ensures
        tags[i].position.raw_bytes.byte_end_all <= offset_behind(tags[i])
            <= tags[k].position.raw_bytes.byte_start_all
            <= tags[k].position.raw_bytes.byte_end_all,
    decreases k - i,
{
    assert(tiled_at(tags, k));
    if i + 1 < k {
        tiles_in_order(tags, i, k - 1);
        assert(tiled_at(tags, k - 1));
    }
}

/// The subtree of tag `c` ends where the tag records it: no tag of the
/// subtree ends behind that offset, and one ends there, which is a
/// descendant of `c` where `c` has children. A tag without children has no
/// descendants.
pub open spec fn subtree_at(tags: Seq<TagView>, c: int) -> bool {
    let end = tags[c].position.raw_bytes.byte_end_all_with_children;
    let childless = tags[c].position.children.len() == 0;
    &&& forall|k: int|
        0 <= k < tags.len() && #[trigger] on_path(tags, c, k)
            ==> tags[k].position.raw_bytes.byte_end_all <= end
    &&& exists|k: int|
        c <= k < tags.len() && #[trigger] on_path(tags, c, k)
            && tags[k].position.raw_bytes.byte_end_all == end && (childless <==> k == c)
    &&& childless ==> forall|k: int|
        0 <= k < tags.len() && #[trigger] on_path(tags, c, k) ==> k == c
}

/// The subtree of every tag ends where the tag records it.
pub open spec fn subtrees_end(tags: Seq<TagView>) -> bool {
    forall|c: int| 0 <= c < tags.len() ==> #[trigger] subtree_at(tags, c)
}

/// Reading a tag keeps the recorded ends of the subtrees true.
pub proof fn read_keeps_subtrees(bytes: Seq<u8>, m: Machine)
    requires
        steady(bytes, m),
        tiled(m.tags),
        cursor_follows(m),
        subtrees_end(m.tags),
        m.state != ParseNbtFsmState::EndOfFile,
        m.tags.len() < usize::MAX,
        read_step(bytes, m) is Ok,
    ensures
        subtrees_end(read_step(bytes, m)->Ok_0.tags),
{
    let next = read_step(bytes, m)->Ok_0;
    let n = m.tags.len() as int;
    let tag = emitted(bytes, m);
    let parent = pending_parent(m);
    read_appends(bytes, m);
    read_lists_child(bytes, m);
    read_keeps_tiling(bytes, m);
    assert(next.tags[n] == tag);
    assert(tiled_at(next.tags, n));
    let new_end = tag.position.raw_bytes.byte_end_all;
    assert forall|k: int| 0 <= k < n implies next.tags[k].position.raw_bytes.byte_end_all
        <= new_end by {
        tiles_in_order(next.tags, k, n);
    }
    assert forall|c: int| 0 <= c < next.tags.len() implies #[trigger] subtree_at(next.tags, c) by {
        let end = next.tags[c].position.raw_bytes.byte_end_all_with_children;
        let childless = next.tags[c].position.children.len() == 0;
        if c == n {
            assert forall|k: int| 0 <= k < next.tags.len() && #[trigger] on_path(
                next.tags,
                c,
                k,
            ) implies k == c by {
                on_path_below(next.tags, c, k);
            }
            assert(on_path(next.tags, c, c));
        } else {
            assert(subtree_at(m.tags, c));
            let old_end = m.tags[c].position.raw_bytes.byte_end_all_with_children;
            let was_childless = m.tags[c].position.children.len() == 0;
            let witness = choose|k: int|
                c <= k < m.tags.len() && #[trigger] on_path(m.tags, c, k)
                    && m.tags[k].position.raw_bytes.byte_end_all == old_end && (was_childless <==> k
                    == c);
            read_keeps_paths(bytes, m, c, parent);
            read_keeps_paths(bytes, m, c, witness);
            on_path_unfolds(next.tags, c, n);
            assert(on_path(next.tags, c, n) == on_path(m.tags, c, parent));
            assert forall|k: int| 0 <= k < n implies on_path(next.tags, c, k) == on_path(
                m.tags,
                c,
                k,
            ) by {
                read_keeps_paths(bytes, m, c, k);
            }
            if on_path(m.tags, c, parent) {
                assert(end == new_end);
                assert(on_path(next.tags, c, n));
                if c != parent {
                    assert(!was_childless);
                }
                assert(!childless);
            } else {
                assert(end == old_end);
                assert(childless == was_childless);
                assert(on_path(next.tags, c, witness));
            }
        }
    }
}

/// Tag `i` is what the reader yields at the offset where the tag begins: a
/// tag with id and name where it has an id, else a payload of its kind. Its
/// name, its value and its byte ranges are those of that reading.
pub open spec fn decoded_at(bytes: Seq<u8>, tags: Seq<TagView>, i: int) -> bool {
    let tag = tags[i];
    let start = tag.position.raw_bytes.byte_start_all as int;
    let reading = if named(tag) {
        named_tag_at(bytes, start, i == 0)
    } else {
        list_element_at(bytes, start, tag.value.kind())
    };
    &&& reading is Ok
    &&& reading->Ok_0.name == tag.name
    &&& reading->Ok_0.value == tag.value
    &&& reading->Ok_0.next <= bytes.len()
    &&& tag.position.raw_bytes == (NbtTagPositionRawBytes {
        byte_end_all_with_children: tag.position.raw_bytes.byte_end_all_with_children,
        ..ranges_of(reading->Ok_0)
    })
}

/// Every tag is what the reader yields at the offset where it begins.
pub open spec fn decoded(bytes: Seq<u8>, tags: Seq<TagView>) -> bool {
    forall|i: int| 0 <= i < tags.len() ==> #[trigger] decoded_at(bytes, tags, i)
}

/// Reading a tag keeps every tag what the reader yields at its offset.
pub proof fn read_keeps_decoding(bytes: Seq<u8>, m: Machine)
    requires
        steady(bytes, m),
        decoded(bytes, m.tags),
        m.state != ParseNbtFsmState::EndOfFile,
        m.tags.len() < usize::MAX,
        read_step(bytes, m) is Ok,
    ensures
        decoded(bytes, read_step(bytes, m)->Ok_0.tags),
{
    let next = read_step(bytes, m)->Ok_0;
    let n = m.tags.len() as int;
    let tag = emitted(bytes, m);
    read_appends(bytes, m);
    read_keeps_steady(bytes, m);
    if m.state == ParseNbtFsmState::List {
        payload_stays_inside(bytes, m.pos, m.list.list_tag_id);
    } else {
        named_tag_stays_inside(bytes, m.pos, n == 0);
    }
    assert(next.tags[n] == tag);
    assert forall|i: int| 0 <= i < next.tags.len() implies #[trigger] decoded_at(
        bytes,
        next.tags,
        i,
    ) by {
        if i < n {
            assert(decoded_at(bytes, m.tags, i));
        }
    }
}

/// The index of names knows the names of the tags and no others, and gives
/// for each name the last tag that bears it.
pub open spec fn names_point_last(tags: Seq<TagView>, names: Map<Seq<char>, usize>) -> bool {
    &&& forall|i: int|
        0 <= i < tags.len() ==> names.contains_key((#[trigger] tags[i]).name) && i
            <= names[tags[i].name]
    &&& forall|name: Seq<char>| #[trigger]
        names.contains_key(name) ==> names[name] < tags.len() && tags[names[name] as int].name
            == name
}

/// Reading a tag keeps the index of names pointing at the last tag of each
/// name.
pub proof fn read_keeps_names(bytes: Seq<u8>, m: Machine)
    requires
        names_point_last(m.tags, m.names),
        m.state != ParseNbtFsmState::EndOfFile,
        m.tags.len() < usize::MAX,
        read_step(bytes, m) is Ok,
    ensures
        names_point_last(read_step(bytes, m)->Ok_0.tags, read_step(bytes, m)->Ok_0.names),
{
    let next = read_step(bytes, m)->Ok_0;
    let n = m.tags.len() as int;
    let tag = emitted(bytes, m);
    read_appends(bytes, m);
    assert(next.tags[n] == tag);
    assert(next.names == m.names.insert(tag.name, n as usize));
    assert forall|i: int| 0 <= i < next.tags.len() implies next.names.contains_key(
        (#[trigger] next.tags[i]).name,
    ) && i <= next.names[next.tags[i].name] by {
        if i < n {
            assert(m.names.contains_key(m.tags[i].name));
        }
    }
    assert forall|name: Seq<char>| #[trigger] next.names.contains_key(name) implies next.names[name]
        < next.tags.len() && next.tags[next.names[name] as int].name == name by {
        if name != tag.name {
            assert(m.names.contains_key(name));
        }
    }
}

/// The context of the list `c` as the driver holds it: the kind and the
/// length that the list declares, and the children that it has as the
/// elements accounted for.
pub open spec fn context_of(tags: Seq<TagView>, c: int) -> NbtListParser {
    NbtListParser {
        list_tag_id: tags[c].value->List_0,
        list_len: tags[c].value->List_1,
        list_elem_count: tags[c].position.children.len() as i32,
    }
}

/// The lists that wait while tag `k` is open, outermost first: for every
/// list element on the path from the root to `k`, the list whose element it
/// is.
pub open spec fn lists_waiting(tags: Seq<TagView>, k: int) -> Seq<NbtListParser>
    decreases k,
{
    if 0 < k && tags[k].position.parent < k {
        let above = lists_waiting(tags, tags[k].position.parent as int);
        if !named(tags[k]) {
            above.push(context_of(tags, tags[k].position.parent as int))
        } else {
            above
        }
    } else {
        Seq::empty()
    }
}

/// The lists that wait above a tag depend on the tags up to that tag only,
/// and of the children on those of the tags before it.
pub proof fn lists_waiting_agree(first: Seq<TagView>, second: Seq<TagView>, k: int)
    requires
        0 <= k,
        forall|j: int|
            0 <= j <= k ==> first[j].position.parent == second[j].position.parent
                && first[j].value == second[j].value && named(first[j]) == named(second[j]),
        forall|j: int|
            0 <= j < k ==> first[j].position.children.len() == second[j].position.children.len(),
    ensures
        lists_waiting(first, k) == lists_waiting(second, k),
    decreases k,
{
    if 0 < k && first[k].position.parent < k {
        lists_waiting_agree(first, second, first[k].position.parent as int);
    }
}

/// The lists that are set aside are those that wait above the parent of the
/// next tag, and the list that is being read is that parent, with its
/// children accounted for.
pub open spec fn stack_kept(m: Machine) -> bool {
    &&& m.tags.len() == 0 ==> m.suspended == Seq::<NbtListParser>::empty()
    &&& m.tags.len() > 0 ==> m.suspended == lists_waiting(m.tags, pending_parent(m))
    &&& m.tags.len() > 0 && m.state == ParseNbtFsmState::List ==> m.list == context_of(
        m.tags,
        pending_parent(m),
    )
}

/// A list never has more children than it declares, and has as many once it
/// is left.
pub open spec fn list_counted(m: Machine, c: int) -> bool {
    m.tags[c].value is List ==> {
        &&& m.tags[c].position.children.len() <= m.tags[c].value->List_1 <= 32767
        &&& open_at(m, c) || m.tags[c].position.children.len() == m.tags[c].value->List_1
    }
}

/// No list has more children than it declares, and every one that is left
/// has as many.
pub open spec fn lists_counted(m: Machine) -> bool {
    forall|c: int| 0 <= c < m.tags.len() ==> #[trigger] list_counted(m, c)
}

/// Reading a tag keeps the lists that are set aside those that wait above the
/// parent of the next tag.
pub proof fn read_keeps_stack(bytes: Seq<u8>, m: Machine)
    requires
        steady(bytes, m),
        shaped(m.tags),
        poised(m),
        at_rest(m),
        stack_kept(m),
        lists_counted(m),
        m.state != ParseNbtFsmState::EndOfFile,
        m.tags.len() < usize::MAX,
        read_step(bytes, m) is Ok,
    ensures
        stack_kept(read_step(bytes, m)->Ok_0),
{
    let next = read_step(bytes, m)->Ok_0;
    let n = m.tags.len() as int;
    let tag = emitted(bytes, m);
    let parent = pending_parent(m);
    let up = pending_parent(next);
    read_appends(bytes, m);
    read_lists_child(bytes, m);
    read_keeps_shape(bytes, m);
    read_keeps_steady(bytes, m);
    if m.state == ParseNbtFsmState::List {
        payload_stays_inside(bytes, m.pos, m.list.list_tag_id);
    } else {
        named_tag_stays_inside(bytes, m.pos, n == 0);
    }
    assert(next.tags[n] == tag);
    assert(shaped_at(next.tags, n));
    if n > 0 {
        assert(shaped_at(m.tags, parent));
        assert(shaped_at(m.tags, 0));
        let middle = m.tags[parent].position.parent as int;
        assert(shaped_at(m.tags, middle));
        let top = m.tags[middle].position.parent as int;
        lists_waiting_agree(next.tags, m.tags, parent);
        if middle < parent {
            lists_waiting_agree(next.tags, m.tags, middle);
        }
        if top < parent {
            lists_waiting_agree(next.tags, m.tags, top);
        }
        if m.state == ParseNbtFsmState::List {
            assert(list_counted(m, parent));
            assert(m.list == context_of(m.tags, parent));
            assert(counted(m.list) == context_of(next.tags, parent));
        }
        if next.delta == 1 {
            assert(up == n);
            assert(lists_waiting(next.tags, n) == if !named(tag) {
                lists_waiting(next.tags, parent).push(context_of(next.tags, parent))
            } else {
                lists_waiting(next.tags, parent)
            });
            if next.state == ParseNbtFsmState::List {
                assert(next.list == context_of(next.tags, n));
            }
        } else if next.delta == 0 {
            assert(up == parent);
        } else {
            if parent > 0 {
                assert(lists_waiting(m.tags, parent) == if !named(m.tags[parent]) {
                    lists_waiting(m.tags, middle).push(context_of(m.tags, middle))
                } else {
                    lists_waiting(m.tags, middle)
                });
            }
            assert(next.delta == -1);
            assert(up == middle);
            if next.state == ParseNbtFsmState::List {
                assert(next.list == context_of(m.tags, middle));
                assert(context_of(next.tags, middle) == context_of(m.tags, middle));
            }
        }
        assert(next.suspended =~= lists_waiting(next.tags, up));
    } else {
        assert(lists_waiting(next.tags, 0) =~= Seq::<NbtListParser>::empty());
    }
}

/// Reading a tag keeps every list within the children that it declares, and
/// leaves none that has fewer.
pub proof fn read_keeps_counts(bytes: Seq<u8>, m: Machine)
    requires
        steady(bytes, m),
        shaped(m.tags),
        poised(m),
        at_rest(m),
        stack_kept(m),
        lists_counted(m),
        m.state != ParseNbtFsmState::EndOfFile,
        m.tags.len() < usize::MAX,
        read_step(bytes, m) is Ok,
    ensures
        lists_counted(read_step(bytes, m)->Ok_0),
{
    let next = read_step(bytes, m)->Ok_0;
    let n = m.tags.len() as int;
    let tag = emitted(bytes, m);
    let parent = pending_parent(m);
    let up = pending_parent(next);
    read_appends(bytes, m);
    read_lists_child(bytes, m);
    read_keeps_shape(bytes, m);
    read_keeps_steady(bytes, m);
    if m.state == ParseNbtFsmState::List {
        payload_stays_inside(bytes, m.pos, m.list.list_tag_id);
    } else {
        named_tag_stays_inside(bytes, m.pos, n == 0);
    }
    assert(next.tags[n] == tag);
    assert forall|c: int| 0 <= c < next.tags.len() implies #[trigger] list_counted(next, c) by {
        if next.tags[c].value is List {
            if c == n {
                if tag.value->List_1 >= 1 {
                    assert(next.delta == 1);
                    assert(up == n);
                    assert(on_path(next.tags, c, up));
                }
            } else {
                assert(list_counted(m, c));
                assert(shaped_at(m.tags, parent));
                assert(shaped_at(m.tags, 0));
                let middle = m.tags[parent].position.parent as int;
                assert(shaped_at(m.tags, middle));
                let top = m.tags[middle].position.parent as int;
                assert(shaped_at(m.tags, top));
                let kids = m.tags[c].position.children;
                if c == parent {
                    // An element is read of this list.
                    assert(m.state == ParseNbtFsmState::List);
                    assert(m.list == context_of(m.tags, c));
                    assert(kids.len() < m.tags[c].value->List_1);
                    if next.delta == 1 {
                        on_path_unfolds(next.tags, c, n);
                        assert(on_path(next.tags, c, up));
                    } else {
                        assert(next.delta == 0);
                        read_keeps_paths(bytes, m, c, parent);
                        assert(on_path(next.tags, c, up));
                    }
                } else {
                    assert(next.tags[c].position.children == kids);
                    if !open_at(next, c) && open_at(m, c) {
                        if next.delta == 1 {
                            on_path_unfolds(next.tags, c, n);
                            read_keeps_paths(bytes, m, c, parent);
                            assert(false);
                        } else if next.delta == 0 {
                            read_keeps_paths(bytes, m, c, parent);
                            assert(false);
                        } else {
                            assert(parent > 0);
                            on_path_unfolds(m.tags, c, parent);
                            assert(on_path(m.tags, c, middle));
                            assert(m.tags[parent].position.depth >= 1);
                            assert(next.delta == -1);
                            read_keeps_paths(bytes, m, c, middle);
                            assert(up == middle);
                            assert(false);
                        }
                    }
                }
            }
        }
    }
}

/// At the end of the buffer the cursor has read every byte, and the tag
/// read last has taken the last of them.
pub open spec fn ended(bytes: Seq<u8>, m: Machine) -> bool {
    m.state == ParseNbtFsmState::EndOfFile ==> m.tags.len() > 0 && m.pos == bytes.len()
        && takes_bytes(m.tags.last())
}

/// Reading a tag that reaches the end of the buffer has read every byte, the
/// last of them with the tag that it appends.
pub proof fn read_keeps_end(bytes: Seq<u8>, m: Machine)
    requires
        steady(bytes, m),
        shaped(m.tags),
        poised(m),
        stack_kept(m),
        at_rest(m),
        m.state != ParseNbtFsmState::EndOfFile,
        m.tags.len() < usize::MAX,
        read_step(bytes, m) is Ok,
    ensures
        ended(bytes, read_step(bytes, m)->Ok_0),
{
    let next = read_step(bytes, m)->Ok_0;
    let n = m.tags.len() as int;
    read_appends(bytes, m);
    read_keeps_steady(bytes, m);
    read_keeps_shape(bytes, m);
    assert(next.tags[n] == emitted(bytes, m));
    if next.state == ParseNbtFsmState::EndOfFile {
        if m.state == ParseNbtFsmState::List {
            // An element lies two levels below the root at least.
            payload_stays_inside(bytes, m.pos, m.list.list_tag_id);
            let parent = pending_parent(m);
            assert(shaped_at(m.tags, parent));
            assert(shaped_at(m.tags, 0));
            assert(parent > 0);
            assert(shaped_at(m.tags, m.tags[parent].position.parent as int));
            assert(m.tags[parent].position.depth >= 1);
            assert(pending_depth(m) >= 2);
            assert(next.delta >= -1);
            assert(false);
        } else {
            named_tag_stays_inside(bytes, m.pos, n == 0);
        }
    }
}

/// Between two tags the change of depth is applied, and no list is being
/// read of which no element remains.
pub open spec fn at_rest(m: Machine) -> bool {
    m.delta == 0 && !(m.state == ParseNbtFsmState::List && drained(m.list))
}

/// Everything that the driver keeps between two tags.
pub open spec fn kept(bytes: Seq<u8>, m: Machine) -> bool {
    kept_raw(bytes, m) && at_rest(m)
}

/// Everything that the driver keeps once a tag is read, before the change
/// of depth is applied and the lists are left of which no element remains.
pub open spec fn kept_raw(bytes: Seq<u8>, m: Machine) -> bool {
    &&& steady(bytes, m)
    &&& shaped(m.tags)
    &&& poised(m)
    &&& tiled(m.tags)
    &&& cursor_follows(m)
    &&& children_listed(m.tags)
    &&& compounds_kept(m)
    &&& lists_kept(m)
    &&& subtrees_end(m.tags)
    &&& decoded(bytes, m.tags)
    &&& names_point_last(m.tags, m.names)
    &&& stack_kept(m)
    &&& lists_counted(m)
    &&& ended(bytes, m)
    &&& lists_begun(m)
    &&& compounds_begun(m)
}

/// Before the first byte is read there is nothing to keep.
pub proof fn kept_at_start(bytes: Seq<u8>)
    requires
        bytes.len() <= usize::MAX,
    ensures
        kept(bytes, initial()),
{
}

/// Reading a tag keeps what the driver keeps.
pub proof fn read_keeps(bytes: Seq<u8>, m: Machine)
    requires
        kept(bytes, m),
        m.state != ParseNbtFsmState::EndOfFile,
        m.tags.len() < usize::MAX,
        read_step(bytes, m) is Ok,
    ensures
        kept_raw(bytes, read_step(bytes, m)->Ok_0),
{
    read_keeps_steady(bytes, m);
    read_keeps_shape(bytes, m);
    read_keeps_tiling(bytes, m);
    read_keeps_children(bytes, m);
    read_keeps_compounds(bytes, m);
    read_keeps_lists(bytes, m);
    read_keeps_subtrees(bytes, m);
    read_keeps_decoding(bytes, m);
    read_keeps_names(bytes, m);
    read_keeps_stack(bytes, m);
    read_keeps_counts(bytes, m);
    read_keeps_end(bytes, m);
    read_keeps_beginnings(bytes, m);
    read_keeps_openings(bytes, m);
}

/// Applying the change of depth keeps what the driver keeps.
pub proof fn applying_keeps(bytes: Seq<u8>, m: Machine)
    requires
        kept_raw(bytes, m),
        m.tags.len() > 0,
    ensures
        kept_raw(bytes, applied(m)),
        applied(m).delta == 0,
{
    let next = applied(m);
    assert(pending_parent(next) == pending_parent(m));
    assert(pending_depth(next) == pending_depth(m));
    assert forall|c: int| 0 <= c < m.tags.len() implies #[trigger] compound_kept(next, c) by {
        assert(compound_kept(m, c));
    }
    assert forall|c: int| 0 <= c < m.tags.len() implies #[trigger] list_kept(next, c) by {
        assert(list_kept(m, c));
    }
    assert forall|c: int| 0 <= c < m.tags.len() implies #[trigger] list_counted(next, c) by {
        assert(list_counted(m, c));
    }
    assert forall|c: int| 0 <= c < m.tags.len() implies #[trigger] list_begun(next, c) by {
        assert(list_begun(m, c));
    }
    assert forall|c: int| 0 <= c < m.tags.len() implies #[trigger] compound_begun(next, c) by {
        assert(compound_begun(m, c));
    }
}

/// Leaving a list of which no element remains keeps what the driver keeps.
pub proof fn leaving_keeps(bytes: Seq<u8>, m: Machine)
    requires
        kept_raw(bytes, m),
        m.delta == 0,
        m.tags.len() > 0,
        m.state == ParseNbtFsmState::List,
        drained(m.list),
    ensures
        kept_raw(bytes, left(m)),
        left(m).delta == 0,
        left(m).state == ParseNbtFsmState::List ==> left(m).suspended.len() < m.suspended.len(),
{
    let next = left(m);
    let list = m.parent;
    let up = m.tags[list].position.parent as int;
    assert(pending_parent(m) == list);
    assert(shaped_at(m.tags, list));
    assert(list_counted(m, list));
    assert(pending_parent(next) == up);
    assert(on_path(m.tags, list, list));
    assert(shaped_at(m.tags, 0));
    assert(shaped_at(m.tags, up));
    assert(list > 0);
    assert(m.depth == m.tags[list].position.depth + 1);
    assert(m.tags[list].position.depth >= 1);
    assert(m.list == context_of(m.tags, list));
    if !named(m.tags[list]) {
        assert(m.suspended == lists_waiting(m.tags, up).push(context_of(m.tags, up)));
        assert(next.suspended =~= lists_waiting(m.tags, up));
    }
    assert forall|c: int| 0 <= c < m.tags.len() && c != list implies open_at(next, c) == open_at(
        m,
        c,
    ) by {
        on_path_unfolds(m.tags, c, list);
    }
    assert(!open_at(next, list)) by {
        if on_path(m.tags, list, up) {
            on_path_below(m.tags, list, up);
        }
    }
    assert forall|c: int| 0 <= c < m.tags.len() implies #[trigger] compound_kept(next, c) by {
        assert(compound_kept(m, c));
    }
    assert(children_at(m.tags, list));
    assert forall|c: int| 0 <= c < m.tags.len() implies #[trigger] list_kept(next, c) by {
        assert(list_kept(m, c));
        if counted_list(m.tags[c]) {
            if c == list {
                assert(m.list.list_elem_count == m.list.list_len);
            } else if c == up {
                // A list that has a list as its child declares an element.
                assert(m.tags[up].position.children.contains(list as usize));
                assert(m.tags[up].value->List_1 != 0);
                assert(!named(m.tags[list]) ==> m.tags[up].value->List_0 == NbtTagId::List);
            }
        }
    }
    assert forall|c: int| 0 <= c < m.tags.len() implies #[trigger] list_counted(next, c) by {
        assert(list_counted(m, c));
    }
    assert forall|c: int| 0 <= c < m.tags.len() implies #[trigger] list_begun(next, c) by {
        assert(list_begun(m, c));
        if c == list && m.tags[c].value->List_1 >= 1 {
            assert(m.tags[c].position.children.len() >= 1);
            assert(c < m.tags[c].position.children[0] < m.tags.len());
            assert(list_kept(m, c));
            assert(shaped_at(m.tags, c + 1));
        }
    }
    assert forall|c: int| 0 <= c < m.tags.len() implies #[trigger] compound_begun(next, c) by {
        assert(compound_begun(m, c));
    }
}

/// Leaving every list of which no element remains keeps what the driver
/// keeps, and leaves the driver at rest.
pub proof fn settling_keeps(bytes: Seq<u8>, m: Machine)
    requires
        kept_raw(bytes, m),
        m.delta == 0,
        m.tags.len() > 0,
    ensures
        kept(bytes, settled(m)),
    decreases m.suspended.len(),
{
    if m.state == ParseNbtFsmState::List && drained(m.list) {
        leaving_keeps(bytes, m);
        if left(m).state == ParseNbtFsmState::List {
            settling_keeps(bytes, left(m));
        }
    }
}

/// A step keeps what the driver keeps between two tags.
pub proof fn step_keeps(bytes: Seq<u8>, m: Machine)
    requires
        kept(bytes, m),
        m.state != ParseNbtFsmState::EndOfFile,
        m.tags.len() < usize::MAX,
        step(bytes, m) is Ok,
    ensures
        kept(bytes, step(bytes, m)->Ok_0),
{
    let read = read_step(bytes, m)->Ok_0;
    read_keeps(bytes, m);
    applying_keeps(bytes, read);
    settling_keeps(bytes, applied(read));
}

/// What a step appends, and what it leaves as it was.
pub proof fn step_appends(bytes: Seq<u8>, m: Machine)
    requires
        m.state != ParseNbtFsmState::EndOfFile,
        step(bytes, m) is Ok,
    ensures
        step(bytes, m)->Ok_0.tags == read_step(bytes, m)->Ok_0.tags,
        step(bytes, m)->Ok_0.names == read_step(bytes, m)->Ok_0.names,
        step(bytes, m)->Ok_0.pos == read_step(bytes, m)->Ok_0.pos,
        step(bytes, m)->Ok_0.tags.len() == m.tags.len() + 1,
        step(bytes, m)->Ok_0.tags == append(m.tags, emitted(bytes, m)),
        emitted(bytes, m).position.children == Seq::<usize>::empty(),
        emitted(bytes, m).position.index == m.tags.len() as usize,
        emitted(bytes, m).position.parent == pending_parent(m) as usize,
        emitted(bytes, m).position.depth == pending_depth(m) as i64,
        forall|i: int|
            0 <= i < m.tags.len() ==> {
                let before = m.tags[i];
                let after = #[trigger] step(bytes, m)->Ok_0.tags[i];
                &&& after.name == before.name
                &&& after.value == before.value
                &&& after.position.index == before.position.index
                &&& after.position.depth == before.position.depth
                &&& after.position.parent == before.position.parent
                &&& after.position.raw_bytes.byte_start_all
                    == before.position.raw_bytes.byte_start_all
                &&& after.position.raw_bytes.byte_end_all == before.position.raw_bytes.byte_end_all
                &&& after.position.raw_bytes.byte_start_id
                    == before.position.raw_bytes.byte_start_id
                &&& after.position.raw_bytes.byte_end_id == before.position.raw_bytes.byte_end_id
                &&& after.position.raw_bytes.byte_start_name
                    == before.position.raw_bytes.byte_start_name
                &&& after.position.raw_bytes.byte_end_name
                    == before.position.raw_bytes.byte_end_name
                &&& after.position.raw_bytes.byte_start_value
                    == before.position.raw_bytes.byte_start_value
                &&& after.position.raw_bytes.byte_end_value
                    == before.position.raw_bytes.byte_end_value
            },
{
    settling_uses_budget(applied(read_step(bytes, m)->Ok_0));
    read_appends(bytes, m);
}

/// A step changes the ancestors of no tag that was there before.
pub proof fn step_keeps_paths(bytes: Seq<u8>, m: Machine, a: int, k: int)
    requires
        m.state != ParseNbtFsmState::EndOfFile,
        step(bytes, m) is Ok,
        0 <= k < m.tags.len(),
    ensures
        on_path(step(bytes, m)->Ok_0.tags, a, k) == on_path(m.tags, a, k),
{
    step_appends(bytes, m);
    read_keeps_paths(bytes, m, a, k);
}

/// A step keeps the tags one behind the other, and the cursor behind the
/// last of them.
pub proof fn step_keeps_tiling(bytes: Seq<u8>, m: Machine)
    requires
        steady(bytes, m),
        tiled(m.tags),
        cursor_follows(m),
        m.state != ParseNbtFsmState::EndOfFile,
        step(bytes, m) is Ok,
    ensures
        tiled(step(bytes, m)->Ok_0.tags),
        cursor_follows(step(bytes, m)->Ok_0),
        emitted(bytes, m).position.raw_bytes.byte_start_all == m.pos,
        offset_behind(emitted(bytes, m)) == step(bytes, m)->Ok_0.pos,
{
    step_appends(bytes, m);
    read_keeps_tiling(bytes, m);
}

/// What a step does to the children that the tags list: the parent of the
/// tag that is appended lists it last, and nothing else changes.
pub proof fn step_lists_child(bytes: Seq<u8>, m: Machine)
    requires
        m.state != ParseNbtFsmState::EndOfFile,
        step(bytes, m) is Ok,
        m.tags.len() < usize::MAX,
        m.tags.len() > 0 ==> 0 <= pending_parent(m) < m.tags.len(),
    ensures
        forall|c: int|
            0 <= c < m.tags.len() ==> (#[trigger] step(bytes, m)->Ok_0.tags[c]).position.children
                == if c == pending_parent(m) {
                m.tags[c].position.children.push(m.tags.len() as usize)
            } else {
                m.tags[c].position.children
            },
{
    step_appends(bytes, m);
    read_lists_child(bytes, m);
}

/// Every tag but the root follows its parent and lies one level below it;
/// the root is its own parent at depth 0.
pub open spec fn parents_precede(tags: Seq<TagView>) -> bool {
    &&& tags.len() > 0 ==> tags[0].position.parent == 0 && tags[0].position.depth == 0
    &&& forall|i: int|
        0 < i < tags.len() ==> (#[trigger] tags[i]).position.parent < i
            && tags[tags[i].position.parent as int].position.depth + 1 == tags[i].position.depth
}

/// Every tag begins where the tag before it ends: one byte behind its last
/// byte, or, behind a tag that takes no byte, at that tag's own offset.
pub open spec fn spans_meet(tags: Seq<TagView>) -> bool {
    forall|i: int|
        0 <= i && i + 1 < tags.len() ==> (#[trigger] tags[i + 1]).position.raw_bytes.byte_start_all
            == offset_behind(tags[i])
}

/// The tags take up the whole buffer, from its first byte to its last, and
/// none of them ends behind it.
pub open spec fn spans_cover(bytes: Seq<u8>, tags: Seq<TagView>) -> bool {
    &&& tags.len() > 0
    &&& tags[0].position.raw_bytes.byte_start_all == 0
    &&& tags.last().position.raw_bytes.byte_end_all + 1 == bytes.len()
    &&& forall|i: int|
        0 <= i < tags.len() ==> (#[trigger] tags[i]).position.raw_bytes.byte_start_all
            <= tags[i].position.raw_bytes.byte_end_all < bytes.len()
}

/// Whether tag `c` is a compound that is a list element and has no child
/// but its end tag: it takes no byte, and its end tag begins where it begins
/// itself.
pub open spec fn empty_element(tags: Seq<TagView>, c: int) -> bool {
    !takes_bytes(tags[c]) && tags[c].position.children.len() == 1
}

/// The end that tag `c` records for its subtree is the greatest end among
/// the tags of the subtree. It is the end of the tag itself where the tag
/// has no children, and there only, but for a compound that is a list
/// element and empty.
pub open spec fn subtree_ends_at(tags: Seq<TagView>, c: int) -> bool {
    let ranges = tags[c].position.raw_bytes;
    let childless = tags[c].position.children.len() == 0;
    &&& forall|k: int|
        0 <= k < tags.len() && #[trigger] on_path(tags, c, k)
            ==> tags[k].position.raw_bytes.byte_end_all <= ranges.byte_end_all_with_children
    &&& exists|k: int|
        c <= k < tags.len() && #[trigger] on_path(tags, c, k)
            && tags[k].position.raw_bytes.byte_end_all == ranges.byte_end_all_with_children
    &&& ranges.byte_end_all_with_children == ranges.byte_end_all <==> childless || empty_element(
        tags,
        c,
    )
}

/// Every tag records the end of its subtree.
pub open spec fn subtree_ends_recorded(tags: Seq<TagView>) -> bool {
    forall|c: int| 0 <= c < tags.len() ==> #[trigger] subtree_ends_at(tags, c)
}

/// What holds of the tags and the index of names of every document that is
/// read from `bytes`.
pub open spec fn well_formed(
    bytes: Seq<u8>,
    tags: Seq<TagView>,
    names: Map<Seq<char>, usize>,
) -> bool {
    &&& shaped(tags)
    &&& parents_precede(tags)
    &&& spans_meet(tags)
    &&& spans_cover(bytes, tags)
    &&& children_listed(tags)
    &&& subtree_ends_recorded(tags)
    &&& lists_filled(tags)
    &&& compounds_closed(tags)
    &&& decoded(bytes, tags)
    &&& names_point_last(tags, names)
}

/// Tags that lie one behind the other, the last of which takes the last
/// byte of the buffer, take up the whole buffer.
pub proof fn tiles_cover(bytes: Seq<u8>, tags: Seq<TagView>)
    requires
        tiled(tags),
        tags.len() > 0,
        takes_bytes(tags.last()),
        offset_behind(tags.last()) == bytes.len(),
    ensures
        spans_meet(tags),
        spans_cover(bytes, tags),
{
    assert forall|i: int| 0 <= i && i + 1 < tags.len() implies (
    #[trigger] tags[i + 1]).position.raw_bytes.byte_start_all == offset_behind(tags[i]) by {
        assert(tiled_at(tags, i + 1));
    }
    assert(tiled_at(tags, 0));
    assert forall|i: int| 0 <= i < tags.len() implies (
    #[trigger] tags[i]).position.raw_bytes.byte_start_all
        <= tags[i].position.raw_bytes.byte_end_all < bytes.len() by {
        assert(tiled_at(tags, i));
        if i + 1 < tags.len() {
            tiles_in_order(tags, i, tags.len() - 1);
        }
    }
}

/// An end tag with an id takes one byte.
pub proof fn end_tag_is_one_byte(bytes: Seq<u8>, tags: Seq<TagView>, e: int)
    requires
        decoded(bytes, tags),
        0 <= e < tags.len(),
        named(tags[e]),
        tags[e].value.kind() == NbtTagId::End,
    ensures
        tags[e].position.raw_bytes.byte_end_all == tags[e].position.raw_bytes.byte_start_all,
{
    assert(decoded_at(bytes, tags, e));
    named_tag_stays_inside(bytes, tags[e].position.raw_bytes.byte_start_all as int, e == 0);
}

/// A tag that has children and ends where its subtree ends is a compound
/// that is a list element and empty; and the subtree of such a compound ends
/// where the compound ends.
pub proof fn subtree_ends_alone(bytes: Seq<u8>, m: Machine, c: int)
    requires
        shaped(m.tags),
        tiled(m.tags),
        children_listed(m.tags),
        subtrees_end(m.tags),
        compounds_kept(m),
        compounds_begun(m),
        decoded(bytes, m.tags),
        m.state == ParseNbtFsmState::EndOfFile,
        pending_depth(m) == 0,
        0 <= c < m.tags.len(),
        m.tags[c].position.children.len() > 0,
    ensures
        m.tags[c].position.raw_bytes.byte_end_all_with_children
            == m.tags[c].position.raw_bytes.byte_end_all <==> empty_element(m.tags, c),
{
    let tags = m.tags;
    let ranges = tags[c].position.raw_bytes;
    let kids = tags[c].position.children;
    assert(subtree_at(tags, c));
    assert(children_at(tags, c));
    let witness = choose|k: int|
        c <= k < tags.len() && #[trigger] on_path(tags, c, k)
            && tags[k].position.raw_bytes.byte_end_all == ranges.byte_end_all_with_children && ((
        kids.len() == 0) <==> k == c);
    tiles_in_order(tags, c, witness);
    if !takes_bytes(tags[c]) {
        // A tag that takes no byte and has children is a compound.
        let first = kids[0] as int;
        assert(shaped_at(tags, first));
        assert(shaped_at(tags, c));
        assert(tags[c].value.kind() == NbtTagId::Compound);
        assert(compound_kept(m, c));
        assert(compound_begun(m, c));
        let end = kids.last() as int;
        assert(shaped_at(tags, end));
        end_tag_is_one_byte(bytes, tags, end);
        assert(tiled_at(tags, c + 1));
        assert(children_at(tags, c + 1));
        let listed = choose|j: int| 0 <= j < kids.len() && kids[j] == c + 1;
        if kids.len() == 1 {
            assert(end == c + 1);
        } else if ranges.byte_end_all_with_children == ranges.byte_end_all {
            // A child before the end tag takes bytes.
            assert(kids[0] < kids[kids.len() - 1]);
            assert(shaped_at(tags, first));
            tiles_in_order(tags, first, end);
            if c < first - 1 {
                tiles_in_order(tags, c, first);
            } else {
                assert(tiled_at(tags, first));
            }
            assert(false);
        }
    }
}

/// What the driver keeps of the subtrees gives the ends that the tags
/// record.
pub proof fn subtrees_are_recorded(bytes: Seq<u8>, m: Machine)
    requires
        shaped(m.tags),
        tiled(m.tags),
        children_listed(m.tags),
        subtrees_end(m.tags),
        compounds_kept(m),
        compounds_begun(m),
        decoded(bytes, m.tags),
        m.state == ParseNbtFsmState::EndOfFile,
        pending_depth(m) == 0,
    ensures
        subtree_ends_recorded(m.tags),
{
    let tags = m.tags;
    assert forall|c: int| 0 <= c < tags.len() implies #[trigger] subtree_ends_at(tags, c) by {
        assert(subtree_at(tags, c));
        if tags[c].position.children.len() > 0 {
            subtree_ends_alone(bytes, m, c);
        }
    }
}

/// Tags that lie where their parents say follow their parents, one level
/// below them.
pub proof fn shape_orders(tags: Seq<TagView>)
    requires
        shaped(tags),
    ensures
        parents_precede(tags),
{
    assert forall|i: int| 0 < i < tags.len() implies (#[trigger] tags[i]).position.parent < i
        && tags[tags[i].position.parent as int].position.depth + 1
        == tags[i].position.depth by {
        assert(shaped_at(tags, i));
    }
    if tags.len() > 0 {
        assert(shaped_at(tags, 0));
    }
}

/// At the end of the buffer no list is being read: every list has the
/// children that it declares, and is followed by its elements.
pub proof fn lists_are_filled(m: Machine)
    requires
        shaped(m.tags),
        children_listed(m.tags),
        lists_kept(m),
        lists_begun(m),
        lists_counted(m),
        pending_depth(m) == 0,
        m.state == ParseNbtFsmState::EndOfFile,
    ensures
        lists_filled(m.tags),
{
    let tags = m.tags;
    assert forall|c: int| 0 <= c < tags.len() && (
    #[trigger] tags[c]).value is List implies children_are_elements(tags, c) by {
        let kids = tags[c].position.children;
        assert(children_at(tags, c));
        assert forall|j: int| 0 <= j < kids.len() implies element_of(
            tags,
            c,
            (#[trigger] kids[j]) as int,
        ) by {
            assert(shaped_at(tags, kids[j] as int));
        }
    }
    assert forall|c: int| 0 <= c < tags.len() && (
    #[trigger] tags[c]).value is List implies tags[c].position.children.len()
        == tags[c].value->List_1 by {
        assert(list_counted(m, c));
    }
    assert forall|c: int| 0 <= c < tags.len() && (
    #[trigger] tags[c]).value is List implies followed_by_elements(
        tags,
        c,
        elements_in_a_row(tags[c]),
    ) by {
        if counted_list(tags[c]) {
            assert(list_kept(m, c));
        } else if tags[c].value->List_1 >= 1 {
            lists_have_begun(m, c);
        }
    }
    assert forall|c: int| 0 <= c < tags.len() && counted_list(#[trigger] tags[c]) implies
        only_children(tags, c, tags[c].value->List_1 as int) by {
        assert(list_kept(m, c));
    }
}

/// At the end of the buffer nothing is open: every compound has ended.
pub proof fn compounds_are_closed(m: Machine)
    requires
        compounds_kept(m),
        pending_depth(m) == 0,
    ensures
        compounds_closed(m.tags),
{
    let tags = m.tags;
    assert forall|c: int|
        0 <= c < tags.len() && (#[trigger] tags[c]).value.kind()
            == NbtTagId::Compound implies closed_by_end(tags, c) by {
        assert(compound_kept(m, c));
    }
}

/// Once the driver has reached the end of the buffer, what it kept makes
/// the document well formed.
pub proof fn kept_at_end(bytes: Seq<u8>, m: Machine)
    requires
        kept(bytes, m),
        m.state == ParseNbtFsmState::EndOfFile,
    ensures
        well_formed(bytes, m.tags, m.names),
{
    shape_orders(m.tags);
    tiles_cover(bytes, m.tags);
    subtrees_are_recorded(bytes, m);
    lists_are_filled(m);
    compounds_are_closed(m);
}

/// Reading is a function of the bytes: two documents that are read from the
/// same bytes hold the same tags and the same index of names.
pub proof fn same_bytes_same_document(
    bytes: Seq<u8>,
    first: crate::nbt::machine::Parsed,
    second: crate::nbt::machine::Parsed,
)
    requires
        crate::nbt::driver::document_of(bytes) == Ok::<
            crate::nbt::machine::Parsed,
            NbtReadError,
        >(first),
        crate::nbt::driver::document_of(bytes) == Ok::<
            crate::nbt::machine::Parsed,
            NbtReadError,
        >(second),
    ensures
        first.tags == second.tags,
        first.names == second.names,
{
}

} // verus!
