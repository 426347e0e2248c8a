//! The parse driver: one forward pass over the buffer that emits the tags in
//! pre-order and links each to its parent.

use vstd::hash_map::StringHashMap;
use vstd::prelude::*;

use crate::nbt::fsm::parse::{
    id_at, nbt_tag, nbt_tag_id, nbt_tag_string, payload_at, string_at, ByteCursor,
};
use crate::nbt::fsm::{NbtParser, ParseNbtFsmState, ParserView};
use crate::nbt::laws::{
    applying_keeps, kept, kept_at_end, kept_at_start, kept_raw, leaving_keeps, linked,
    read_keeps, step_keeps, well_formed,
};
use crate::nbt::machine::{
    after_element, after_named, append, applied, budget, drained, end_of, grown, halted,
    initial, left, list_element_at, named_tag_at, next_parent, on_path, on_path_agrees,
    on_path_below, parse_of, payload_stays_inside, ranges_of, read_step, run, settled,
    step_makes_progress, string_stays_inside, Machine, Parsed,
};
use crate::nbt::{
    NbtReadError, NbtTag, NbtTagId, NbtTagPosition, NbtTagPositionRawBytes, NbtTagType,
    PositionView, TagValue, TagView,
};

verus! {

/// The mathematical value of a document: its tags in the order of emission,
/// the buffer they were read from, and for each name the index of the last
/// tag that bears it.
pub struct DocumentView {
    /// The tags, in the order of emission.
    pub tags: Seq<TagView>,
    /// The buffer that was read.
    pub bytes: Seq<u8>,
    /// For each name, the index of the last tag that bears it.
    pub names: Map<Seq<char>, usize>,
}

/// A buffer and the tags that were read from it.
pub struct NbtData {
    /// The tags, in the order of emission.
    pub tags: Vec<NbtTag>,
    /// The state in which the driver came to rest.
    pub nbt_parser: NbtParser,
    /// The buffer that is read.
    pub raw_bytes: Vec<u8>,
    /// For each name, the index of the last tag that bears it.
    pub tags_map: StringHashMap<usize>,
}

/// The mathematical values of a sequence of tags.
pub open spec fn tag_views(tags: Seq<NbtTag>) -> Seq<TagView> {
    Seq::new(tags.len(), |i: int| tags[i]@)
}

impl View for NbtData {
    type V = DocumentView;

    open spec fn view(&self) -> DocumentView {
        DocumentView { tags: tag_views(self.tags@), bytes: self.raw_bytes@, names: self.tags_map@ }
    }
}

/// The parser of the driver in the state `m`.
pub open spec fn parser_at(m: Machine) -> ParserView {
    ParserView {
        state: m.state,
        list_parser: m.list,
        unfinished_lists: m.suspended,
        index: m.tags.len() as usize,
        tree_depth: m.depth as i64,
    }
}

/// The document in `bytes`, or why there is none: an empty buffer holds none,
/// any other holds what the driver reads from it.
pub open spec fn document_of(bytes: Seq<u8>) -> Result<Parsed, NbtReadError> {
    if bytes.len() == 0 {
        Err(NbtReadError::EmptyFile)
    } else {
        parse_of(bytes)
    }
}

impl Default for NbtData {
    fn default() -> (data: NbtData)
        ensures
            data.is_unparsed(),
            data.raw_bytes@ == Seq::<u8>::empty(),
    {
        NbtData::new(Vec::new())
    }
}

impl NbtData {
    /// The state of the driver that this document, the parent and change of
    /// depth that the driver carries, and the offset of its cursor stand for.
    pub open spec fn machine(&self, parent: usize, delta: i64, pos: int) -> Machine {
        Machine {
            tags: tag_views(self.tags@),
            names: self.tags_map@,
            state: self.nbt_parser.state,
            list: self.nbt_parser.list_parser,
            suspended: self.nbt_parser.unfinished_lists@,
            depth: self.nbt_parser.tree_depth as int,
            parent: parent as int,
            delta: delta as int,
            pos,
        }
    }

    /// Whether nothing has been read yet.
    pub open spec fn is_unparsed(&self) -> bool {
        &&& self.tags@.len() == 0
        &&& self.tags_map@ == Map::<Seq<char>, usize>::empty()
        &&& self.nbt_parser@ == ParserView::initial()
    }

    /// Reads the document that `file_buffer` holds.
    pub fn from_buf(file_buffer: Vec<u8>) -> (document: Result<NbtData, NbtReadError>)
        ensures
            match document_of(file_buffer@) {
                Ok(parsed) => document is Ok && document->Ok_0@ == (DocumentView {
                    tags: parsed.tags,
                    bytes: file_buffer@,
                    names: parsed.names,
                }),
                Err(e) => document is Err && document->Err_0 == e,
            },
            document is Ok ==> well_formed(
                file_buffer@,
                document->Ok_0@.tags,
                document->Ok_0@.names,
            ),
    {
        if file_buffer.len() == 0 {
            return Err(NbtReadError::EmptyFile);
        }
        let mut nbt_data = NbtData::new(file_buffer);
        match nbt_data.parse() {
            Ok(()) => Ok(nbt_data),
            Err(e) => Err(e),
        }
    }

    /// A document over `file_buffer` of which nothing has been read yet.
    pub fn new(file_buffer: Vec<u8>) -> (data: NbtData)
        ensures
            data.is_unparsed(),
            data.raw_bytes@ == file_buffer@,
    {
        NbtData {
            tags: Vec::<NbtTag>::new(),
            nbt_parser: NbtParser::new(),
            raw_bytes: file_buffer,
            tags_map: StringHashMap::new(),
        }
    }

    pub fn nbt_tags(&self) -> (tags: &Vec<NbtTag>)
        ensures
            *tags == self.tags,
    {
        &self.tags
    }

    pub fn raw_bytes(&self) -> (bytes: &Vec<u8>)
        ensures
            *bytes == self.raw_bytes,
    {
        &self.raw_bytes
    }

    pub fn tags_map(&self) -> (names: &StringHashMap<usize>)
        ensures
            *names == self.tags_map,
    {
        &self.tags_map
    }

    /// Reads the buffer from its first byte to its last. What is read is
    /// exactly `parse_of` of the buffer. Where the buffer holds no document,
    /// the tags that were read before the failure stay. A document that has
    /// been read to its end is left as it is.
    pub fn parse(&mut self) -> (outcome: Result<(), NbtReadError>)
        requires
            old(self).is_unparsed() || old(self).nbt_parser.state == ParseNbtFsmState::EndOfFile,
        ensures
            final(self).raw_bytes@ == old(self).raw_bytes@,
            old(self).nbt_parser.state == ParseNbtFsmState::EndOfFile ==> {
                &&& outcome is Ok
                &&& *final(self) == *old(self)
            },
            old(self).nbt_parser.state != ParseNbtFsmState::EndOfFile ==> match parse_of(
                old(self).raw_bytes@,
            ) {
                Ok(parsed) => {
                    &&& outcome is Ok
                    &&& final(self)@.tags == parsed.tags
                    &&& final(self)@.names == parsed.names
                    &&& final(self).nbt_parser@ == parser_at(
                        run(old(self).raw_bytes@, initial())->Ok_0,
                    )
                },
                Err(e) => {
                    &&& outcome == Err::<(), NbtReadError>(e)
                    &&& final(self)@.tags == halted(old(self).raw_bytes@, initial()).tags
                    &&& final(self)@.names == halted(old(self).raw_bytes@, initial()).names
                },
            },
            outcome is Ok && old(self).nbt_parser.state != ParseNbtFsmState::EndOfFile
                ==> well_formed(old(self).raw_bytes@, final(self)@.tags, final(self)@.names),
    {
        if let ParseNbtFsmState::EndOfFile = self.nbt_parser.state() {
            return Ok(());
        }
        let buffer = self.raw_bytes.clone();
        assert(buffer@ =~= self.raw_bytes@);
        let mut cursor = ByteCursor::new(buffer);
        let mut nbt_parent_index: usize = 0;
        let ghost bytes = self.raw_bytes@;
        proof {
            let start = self.machine(nbt_parent_index, 0, cursor@.pos);
            assert(start.tags =~= initial().tags);
            assert(start.names =~= initial().names);
            assert(start.suspended =~= initial().suspended);
            assert(start == initial());
            kept_at_start(bytes);
        }

        loop
            invariant
                cursor@.bytes == bytes,
                self.raw_bytes@ == bytes,
                old(self).raw_bytes@ == bytes,
                old(self).nbt_parser.state != ParseNbtFsmState::EndOfFile,
                kept(bytes, self.machine(nbt_parent_index, 0, cursor@.pos)),
                self.nbt_parser.index == self.tags@.len(),
                run(bytes, initial()) == run(
                    bytes,
                    self.machine(nbt_parent_index, 0, cursor@.pos),
                ),
                halted(bytes, initial()) == halted(
                    bytes,
                    self.machine(nbt_parent_index, 0, cursor@.pos),
                ),
            ensures
                self.nbt_parser.state == ParseNbtFsmState::EndOfFile,
                well_formed(bytes, self@.tags, self@.names),
                self.machine(nbt_parent_index, 0, cursor@.pos) == run(bytes, initial())->Ok_0,
            decreases
                    bytes.len() - cursor@.pos,
                    budget(self.machine(nbt_parent_index, 0, cursor@.pos)),
        {
            let ghost before = self.machine(nbt_parent_index, 0, cursor@.pos);
            let first = self.tags.len() == 0;
            let in_list = match self.nbt_parser.state() {
                ParseNbtFsmState::EndOfFile => {
                    proof {
                        kept_at_end(bytes, before);
                    }
                    break ;
                },
                ParseNbtFsmState::List => true,
                ParseNbtFsmState::Normal => false,
            };
            // No tag but the first lies at depth 0.
            if !first && *self.nbt_parser.tree_depth() < 1 {
                return Err(NbtReadError::InvalidNbtDepth);
            }
            let mut new_nbt_tag = NbtTag::new();
            let mut new_tag_position = NbtTagPosition::new();
            Self::init_tag_position(&mut new_tag_position, &cursor);

            // The tag itself, and what follows it.
            let depth_delta = if in_list {
                self.parse_list_state(&mut new_nbt_tag, &mut new_tag_position, &mut cursor)?
            } else {
                self.parse_normal_state(
                    &mut new_nbt_tag,
                    &mut new_tag_position,
                    nbt_parent_index,
                    &mut cursor,
                    first,
                )?
            };

            self.update_tag_position(&mut new_tag_position, &cursor, nbt_parent_index);
            new_nbt_tag.set_position(new_tag_position);

            // At the end of the buffer every compound and every list must
            // have ended.
            let at_end = cursor.is_at_end();
            if at_end && !(self.nbt_parser.tree_depth + depth_delta == 0
                && self.nbt_parser.unfinished_lists.len() == 0) {
                return Err(NbtReadError::InvalidNbtDepth);
            }
            self.append_nbt_tag(new_nbt_tag, nbt_parent_index);
            self.nbt_parser.increment_index();
            if at_end {
                self.nbt_parser.change_state_to(ParseNbtFsmState::EndOfFile);
            }
            proof {
                let read = self.machine(nbt_parent_index, depth_delta, cursor@.pos);
                assert(read_step(bytes, before) is Ok);
                assert(read =~= read_step(bytes, before)->Ok_0);
                read_keeps(bytes, before);
            }
            // The depth of the next tag, and its parent.
            nbt_parent_index = self.update_nbttree_depth(
                nbt_parent_index,
                depth_delta,
                Ghost(bytes),
                Ghost(cursor@.pos),
            );
            proof {
                step_keeps(bytes, before);
                step_makes_progress(bytes, before);
            }
        }
        Ok(())
    }

    /// Applies the change of depth, finds the parent of the next tag, and
    /// leaves every list of which no element remains.
    fn update_nbttree_depth(
        &mut self,
        nbt_parent_index: usize,
        depth_delta: i64,
        Ghost(bytes): Ghost<Seq<u8>>,
        Ghost(pos): Ghost<int>,
    ) -> (parent: usize)
        requires
            kept_raw(bytes, old(self).machine(nbt_parent_index, depth_delta, pos)),
            old(self).tags@.len() > 0,
            old(self).nbt_parser.index == old(self).tags@.len(),
        ensures
            final(self).tags == old(self).tags,
            final(self).tags_map == old(self).tags_map,
            final(self).raw_bytes == old(self).raw_bytes,
            final(self).nbt_parser.index == old(self).nbt_parser.index,
            final(self).machine(parent, 0, pos) == settled(
                applied(old(self).machine(nbt_parent_index, depth_delta, pos)),
            ),
    {
        let ghost read = self.machine(nbt_parent_index, depth_delta, pos);
        let mut parent = self.set_new_parent_index(depth_delta, nbt_parent_index);
        let depth = *self.nbt_parser.tree_depth() + depth_delta;
        self.nbt_parser.set_tree_depth(depth);
        proof {
            applying_keeps(bytes, read);
            assert(self.machine(parent, 0, pos) =~= applied(read));
        }
        loop
            invariant
                self.tags == old(self).tags,
                self.tags_map == old(self).tags_map,
                self.raw_bytes == old(self).raw_bytes,
                self.nbt_parser.index == old(self).nbt_parser.index,
                self.tags@.len() > 0,
                kept_raw(bytes, self.machine(parent, 0, pos)),
                settled(self.machine(parent, 0, pos)) == settled(applied(read)),
            ensures
                self.machine(parent, 0, pos) == settled(applied(read)),
            decreases self.nbt_parser.unfinished_lists@.len(),
        {
            let ghost m = self.machine(parent, 0, pos);
            let finished = match self.nbt_parser.state() {
                ParseNbtFsmState::List => self.nbt_parser.list_parser.list_elem_count
                    >= self.nbt_parser.list_parser.list_len,
                _ => false,
            };
            if !finished {
                break ;
            }
            proof {
                leaving_keeps(bytes, m);
                assert(m.tags[parent as int] == self.tags@[parent as int]@);
            }
            // Every element of the list is read: its parent goes on.
            parent = self.tags[parent].position().parent();
            let depth = *self.nbt_parser.tree_depth() - 1;
            self.nbt_parser.set_tree_depth(depth);
            let in_list = match self.tags[parent].value() {
                NbtTagType::List(_) => true,
                _ => false,
            };
            proof {
                assert(m.tags[parent as int] == self.tags@[parent as int]@);
            }
            if in_list && self.nbt_parser.restore_list_ctx() {
                // The list was an element of a list, which is taken up again.
                assert(self.machine(parent, 0, pos) =~= left(m));
            } else {
                self.nbt_parser.change_state_to(ParseNbtFsmState::Normal);
                self.nbt_parser.list_parser.reset();
                assert(self.machine(parent, 0, pos) =~= left(m));
                break ;
            }
        }
        parent
    }

    /// The parent of the next tag, for a change of depth of `depth_delta`.
    fn set_new_parent_index(&self, depth_delta: i64, nbt_parent_index: usize) -> (parent: usize)
        requires
            linked(self.machine(nbt_parent_index, depth_delta, 0)),
            self.nbt_parser.index == self.tags@.len(),
            self.tags@.len() > 0,
        ensures
            next_parent(self.machine(nbt_parent_index, depth_delta, 0)) == Ok::<int, NbtReadError>(
                parent as int,
            ),
    {
        let ghost m = self.machine(nbt_parent_index, depth_delta, 0);
        if depth_delta == 0 {
            nbt_parent_index
        } else if depth_delta == 1 {
            *self.nbt_parser.index() - 1
        } else {
            assert(m.tags[nbt_parent_index as int] == self.tags@[nbt_parent_index as int]@);
            self.tags[nbt_parent_index].position().parent()
        }
    }

    /// Begins the position of the tag at the cursor.
    fn init_tag_position(new_tag_position: &mut NbtTagPosition, cursor: &ByteCursor)
        ensures
            final(new_tag_position)@ == (PositionView {
                raw_bytes: NbtTagPositionRawBytes {
                    byte_start_all: cursor@.pos as usize,
                    byte_end_all: cursor@.pos as usize,
                    ..NbtTagPositionRawBytes::blank()
                },
                ..PositionView::blank()
            }),
    {
        new_tag_position.reset();
        new_tag_position.set_byte_start_all(cursor.position());
        new_tag_position.set_byte_end_all(new_tag_position.byte_start_all());
    }

    /// Ends the position of the tag that was read up to the cursor: its last
    /// byte, the end of its subtree, its index, its depth and its parent. A
    /// tag that took no byte ends where it begins.
    fn update_tag_position(
        &self,
        new_tag_position: &mut NbtTagPosition,
        cursor: &ByteCursor,
        nbt_parent_index: usize,
    )
        ensures
            final(new_tag_position)@ == (PositionView {
                raw_bytes: NbtTagPositionRawBytes {
                    byte_end_all: end_of(
                        old(new_tag_position).raw_bytes.byte_start_all as int,
                        cursor@.pos,
                    ) as usize,
                    byte_end_all_with_children: end_of(
                        old(new_tag_position).raw_bytes.byte_start_all as int,
                        cursor@.pos,
                    ) as usize,
                    ..old(new_tag_position).raw_bytes
                },
                index: self.nbt_parser.index,
                depth: self.nbt_parser.tree_depth,
                parent: nbt_parent_index,
                children: old(new_tag_position)@.children,
            }),
    {
        let new_end_all = cursor.position();
        if new_end_all > new_tag_position.byte_start_all() {
            new_tag_position.set_byte_end_all(new_end_all - 1);
        } else {
            new_tag_position.set_byte_end_all(new_end_all);
        }
        new_tag_position.set_index(*self.nbt_parser.index());
        new_tag_position.set_depth(*self.nbt_parser.tree_depth());
        new_tag_position.set_parent(nbt_parent_index);
        // The subtree ends with the tag itself until a child is appended.
        new_tag_position.set_byte_end_all_with_children(new_tag_position.byte_end_all());
    }

    /// Appends a tag, enters its name in the index of names, and makes it a
    /// child of its parent.
    fn append_nbt_tag(&mut self, nbt_tag: NbtTag, nbt_parent_index: usize)
        requires
            nbt_tag.position.index == old(self).tags@.len(),
            nbt_tag.position.parent == nbt_parent_index,
            old(self).tags@.len() > 0 ==> nbt_parent_index < old(self).tags@.len(),
        ensures
            tag_views(final(self).tags@) == append(tag_views(old(self).tags@), nbt_tag@),
            final(self).tags@.len() == old(self).tags@.len() + 1,
            final(self).tags@.len() <= usize::MAX,
            final(self).tags_map@ == old(self).tags_map@.insert(
                nbt_tag@.name,
                nbt_tag.position.index,
            ),
            final(self).nbt_parser == old(self).nbt_parser,
            final(self).raw_bytes == old(self).raw_bytes,
    {
        let index = nbt_tag.position().index();
        let new_end_byte = nbt_tag.position().byte_end_all();
        let name = nbt_tag.name.clone();
        let ghost before = tag_views(self.tags@);
        let ghost tag = nbt_tag@;

        self.tags.push(nbt_tag);
        let pushed_len = self.tags.len();
        self.tags_map.insert(name, index);
        if index > 0 {
            let ghost pushed = tag_views(self.tags@);
            self.add_child_to_parent(index, new_end_byte, nbt_parent_index);
            proof {
                let parent = nbt_parent_index as int;
                let after = tag_views(self.tags@);
                let expected = append(before, tag);
                assert forall|i: int| 0 <= i < after.len() implies after[i] == expected[i] by {
                    assert(after[i] == self.tags@[i]@);
                    if i < before.len() {
                        on_path_agrees(pushed, before, i, parent);
                        assert(pushed[i] == before[i]);
                    } else {
                        if on_path(pushed, i, parent) {
                            on_path_below(pushed, i, parent);
                        }
                        assert(pushed[i] == tag);
                    }
                }
            }
        }
        assert(tag_views(self.tags@) =~= append(before, tag));
    }

    /// Makes the tag emitted last a child of its parent, and lets the parent
    /// and each of its ancestors end where that tag ends.
    fn add_child_to_parent(
        &mut self,
        child_index: usize,
        new_end_byte: usize,
        nbt_parent_index: usize,
    )
        requires
            nbt_parent_index + 1 < old(self).tags@.len(),
        ensures
            final(self).tags@.len() == old(self).tags@.len(),
            forall|i: int|
                0 <= i < old(self).tags@.len() ==> (#[trigger] final(self).tags@[i])@ == (if
                    on_path(tag_views(old(self).tags@), i, nbt_parent_index as int) {
                    grown(
                        old(self).tags@[i]@,
                        new_end_byte,
                        if i == nbt_parent_index {
                            Some(child_index)
                        } else {
                            None
                        },
                    )
                } else {
                    old(self).tags@[i]@
                }),
            final(self).tags_map == old(self).tags_map,
            final(self).nbt_parser == old(self).nbt_parser,
            final(self).raw_bytes == old(self).raw_bytes,
    {
        let ghost before = tag_views(self.tags@);
        let ghost parent = nbt_parent_index as int;
        let mut ancestor = nbt_parent_index;
        loop
            invariant_except_break
                forall|i: int|
                    0 <= i < before.len() ==> (#[trigger] self.tags@[i])@ == (if ancestor < i
                        <= parent && on_path(before, i, parent) {
                        grown(
                            before[i],
                            new_end_byte,
                            if i == parent {
                                Some(child_index)
                            } else {
                                None
                            },
                        )
                    } else {
                        before[i]
                    }),
            invariant
                self.tags@.len() == before.len(),
                before == tag_views(old(self).tags@),
                parent == nbt_parent_index,
                ancestor <= nbt_parent_index,
                nbt_parent_index + 1 < before.len(),
                on_path(before, ancestor as int, parent),
                forall|i: int|
                    on_path(before, i, parent) == (on_path(before, i, ancestor as int) || (ancestor
                        < i && #[trigger] on_path(before, i, parent))),
                self.tags_map == old(self).tags_map,
                self.nbt_parser == old(self).nbt_parser,
                self.raw_bytes == old(self).raw_bytes,
            ensures
                forall|i: int|
                    0 <= i < before.len() ==> (#[trigger] self.tags@[i])@ == (if on_path(
                        before,
                        i,
                        parent,
                    ) {
                        grown(
                            before[i],
                            new_end_byte,
                            if i == parent {
                                Some(child_index)
                            } else {
                                None
                            },
                        )
                    } else {
                        before[i]
                    }),
            decreases ancestor,
        {
            let ghost current = self.tags@;
            assert(current[ancestor as int]@ == before[ancestor as int]);
            if ancestor == nbt_parent_index {
                self.tags[ancestor].position.children.push(child_index);
            }
            self.tags[ancestor].position.set_byte_end_all_with_children(new_end_byte);
            let up = self.tags[ancestor].position().parent();
            assert(up == before[ancestor as int].position.parent);
            assert(self.tags@[ancestor as int]@ == grown(
                before[ancestor as int],
                new_end_byte,
                if ancestor == parent {
                    Some(child_index)
                } else {
                    None
                },
            ));
            assert forall|i: int| 0 <= i < before.len() && i != ancestor implies (
            #[trigger] self.tags@[i]) == current[i] by {}
            if ancestor == 0 || up >= ancestor {
                proof {
                    assert forall|i: int| on_path(before, i, ancestor as int) implies i
                        == ancestor by {}
                    assert forall|i: int| on_path(before, i, parent) implies i <= parent by {
                        on_path_below(before, i, parent);
                    }
                }
                break ;
            }
            proof {
                assert(on_path(before, up as int, up as int));
                assert(on_path(before, up as int, ancestor as int));
                assert forall|i: int|
                    on_path(before, i, parent) == (on_path(before, i, up as int) || (up < i
                        && #[trigger] on_path(before, i, parent))) by {
                    assert(on_path(before, i, ancestor as int) == (i == ancestor || on_path(
                        before,
                        i,
                        up as int,
                    )));
                    if on_path(before, i, up as int) {
                        assert(on_path(before, i, ancestor as int));
                    }
                }
                assert forall|i: int| 0 <= i < before.len() implies (#[trigger] self.tags@[i])@
                    == (if up < i <= parent && on_path(before, i, parent) {
                    grown(
                        before[i],
                        new_end_byte,
                        if i == parent {
                            Some(child_index)
                        } else {
                            None
                        },
                    )
                } else {
                    before[i]
                }) by {
                    if i != ancestor {
                        assert(self.tags@[i] == current[i]);
                        if up < i && i < ancestor && on_path(before, i, parent) {
                            assert(on_path(before, i, ancestor as int));
                            assert(on_path(before, i, up as int));
                            on_path_below(before, i, up as int);
                        }
                    }
                }
            }
            ancestor = up;
        }
    }

    /// Reads the id of a tag and records where it lies.
    fn parse_nbt_tag_id(
        new_tag_position: &mut NbtTagPosition,
        cursor: &mut ByteCursor,
    ) -> (id: Result<NbtTagId, NbtReadError>)
        ensures
            final(cursor)@.bytes == old(cursor)@.bytes,
            match id_at(old(cursor)@.bytes, old(cursor)@.pos) {
                Err(e) => id == Err::<NbtTagId, NbtReadError>(e),
                Ok(kind) => {
                    &&& id == Ok::<NbtTagId, NbtReadError>(kind)
                    &&& final(cursor)@.pos == old(cursor)@.pos + 1
                    &&& final(new_tag_position)@ == (PositionView {
                        raw_bytes: NbtTagPositionRawBytes {
                            byte_start_id: Some(old(cursor)@.pos as usize),
                            byte_end_id: Some(old(cursor)@.pos as usize),
                            ..old(new_tag_position).raw_bytes
                        },
                        ..old(new_tag_position)@
                    })
                },
            },
    {
        new_tag_position.set_byte_start_id(cursor.position());
        let tag_id = match nbt_tag_id(cursor) {
            Ok(id) => match id {
                Some(id) => id,
                None => return Err(NbtReadError::InvalidContent),
            },
            Err(e) => return Err(e),
        };
        new_tag_position.set_byte_end_id(cursor.position() - 1);
        Ok(tag_id)
    }

    /// Reads the name and the value of a tag of kind `tag_id`, and records
    /// where they lie.
    fn parse_nbt_tag_name_and_value(
        new_nbt_tag: &mut NbtTag,
        new_tag_position: &mut NbtTagPosition,
        tag_id: NbtTagId,
        cursor: &mut ByteCursor,
    ) -> (outcome: Result<(), NbtReadError>)
        ensures
            final(cursor)@.bytes == old(cursor)@.bytes,
            match string_at(old(cursor)@.bytes, old(cursor)@.pos) {
                Err(e) => outcome == Err::<(), NbtReadError>(e),
                Ok((name, value_start)) => match payload_at(
                    old(cursor)@.bytes,
                    value_start,
                    tag_id,
                ) {
                    Err(e) => outcome == Err::<(), NbtReadError>(e),
                    Ok((value, next)) => {
                        &&& outcome is Ok
                        &&& final(cursor)@.pos == next
                        &&& final(new_nbt_tag)@ == (TagView { name, value, ..old(new_nbt_tag)@ })
                        &&& final(new_tag_position)@ == (PositionView {
                            raw_bytes: NbtTagPositionRawBytes {
                                byte_start_name: Some(old(cursor)@.pos as usize),
                                byte_end_name: Some((value_start - 1) as usize),
                                byte_start_value: Some(value_start as usize),
                                byte_end_value: Some((next - 1) as usize),
                                ..old(new_tag_position).raw_bytes
                            },
                            ..old(new_tag_position)@
                        })
                    },
                },
            },
    {
        proof {
            if string_at(cursor@.bytes, cursor@.pos) is Ok {
                string_stays_inside(cursor@.bytes, cursor@.pos);
            }
        }
        new_tag_position.set_byte_start_name(cursor.position());
        new_nbt_tag.set_name(nbt_tag_string(cursor)?);
        new_tag_position.set_byte_end_name(cursor.position() - 1);

        proof {
            if payload_at(cursor@.bytes, cursor@.pos, tag_id) is Ok {
                payload_stays_inside(cursor@.bytes, cursor@.pos, tag_id);
            }
        }
        new_tag_position.set_byte_start_value(cursor.position());
        new_nbt_tag.set_value(nbt_tag(cursor, &tag_id)?);
        new_tag_position.set_byte_end_value(cursor.position() - 1);
        Ok(())
    }

    /// Decides what follows the end tag of the compound `nbt_parent_index`,
    /// and returns the change of depth.
    fn exit_nbttag_compound(&mut self, nbt_parent_index: usize) -> (depth_delta: i64)
        requires
            old(self).nbt_parser.state == ParseNbtFsmState::Normal,
            nbt_parent_index < old(self).tags@.len(),
            old(self).tags@[nbt_parent_index as int].position.parent < old(self).tags@.len(),
        ensures
            depth_delta == after_named(
                tag_views(old(self).tags@),
                nbt_parent_index as int,
                old(self).nbt_parser.list_parser,
                old(self).nbt_parser.unfinished_lists@,
                TagValue::End(None),
            ).delta,
            final(self).nbt_parser@ == (ParserView {
                state: after_named(
                    tag_views(old(self).tags@),
                    nbt_parent_index as int,
                    old(self).nbt_parser.list_parser,
                    old(self).nbt_parser.unfinished_lists@,
                    TagValue::End(None),
                ).state,
                list_parser: after_named(
                    tag_views(old(self).tags@),
                    nbt_parent_index as int,
                    old(self).nbt_parser.list_parser,
                    old(self).nbt_parser.unfinished_lists@,
                    TagValue::End(None),
                ).list,
                unfinished_lists: after_named(
                    tag_views(old(self).tags@),
                    nbt_parent_index as int,
                    old(self).nbt_parser.list_parser,
                    old(self).nbt_parser.unfinished_lists@,
                    TagValue::End(None),
                ).suspended,
                ..old(self).nbt_parser@
            }),
            final(self).tags == old(self).tags,
            final(self).tags_map == old(self).tags_map,
            final(self).raw_bytes == old(self).raw_bytes,
    {
        let nbt_grandparent_index = self.tags[nbt_parent_index].position().parent();
        let in_list = match self.tags[nbt_grandparent_index].value() {
            NbtTagType::List(_) => true,
            _ => false,
        };
        if in_list && self.nbt_parser.restore_list_ctx() {
            // The compound was an element of a list, which is taken up again.
            self.nbt_parser.change_state_to(ParseNbtFsmState::List);
        }
        -1
    }

    /// Reads a tag with id and name, decides what follows it, and returns
    /// the change of depth.
    fn parse_normal_state(
        &mut self,
        new_nbt_tag: &mut NbtTag,
        new_tag_position: &mut NbtTagPosition,
        nbt_parent_index: usize,
        cursor: &mut ByteCursor,
        error_if_not_tag_compound: bool,
    ) -> (depth_delta: Result<i64, NbtReadError>)
        requires
            old(self).nbt_parser.state == ParseNbtFsmState::Normal,
            old(self).tags@.len() == 0 ==> error_if_not_tag_compound,
            old(self).tags@.len() > 0 ==> nbt_parent_index < old(self).tags@.len() && old(
                self,
            ).tags@[nbt_parent_index as int].position.parent < old(self).tags@.len(),
            old(new_nbt_tag)@.name == Seq::<char>::empty(),
            old(new_nbt_tag)@.value == TagValue::End(None),
            old(new_tag_position).raw_bytes.byte_start_name is None,
            old(new_tag_position).raw_bytes.byte_end_name is None,
            old(new_tag_position).raw_bytes.byte_start_value is None,
            old(new_tag_position).raw_bytes.byte_end_value is None,
        ensures
            final(cursor)@.bytes == old(cursor)@.bytes,
            final(self).tags == old(self).tags,
            final(self).tags_map == old(self).tags_map,
            final(self).raw_bytes == old(self).raw_bytes,
            match named_tag_at(old(cursor)@.bytes, old(cursor)@.pos, error_if_not_tag_compound) {
                Err(e) => depth_delta == Err::<i64, NbtReadError>(e),
                Ok(r) => {
                    let control = after_named(
                        tag_views(old(self).tags@),
                        nbt_parent_index as int,
                        old(self).nbt_parser.list_parser,
                        old(self).nbt_parser.unfinished_lists@,
                        r.value,
                    );
                    &&& depth_delta == Ok::<i64, NbtReadError>(control.delta as i64)
                    &&& final(cursor)@.pos == r.next
                    &&& final(new_nbt_tag)@ == (TagView {
                        name: r.name,
                        value: r.value,
                        ..old(new_nbt_tag)@
                    })
                    &&& final(new_tag_position)@ == (PositionView {
                        raw_bytes: NbtTagPositionRawBytes {
                            byte_start_all: old(new_tag_position).raw_bytes.byte_start_all,
                            byte_end_all: old(new_tag_position).raw_bytes.byte_end_all,
                            byte_end_all_with_children: old(
                                new_tag_position,
                            ).raw_bytes.byte_end_all_with_children,
                            ..ranges_of(r)
                        },
                        ..old(new_tag_position)@
                    })
                    &&& final(self).nbt_parser@ == (ParserView {
                        state: control.state,
                        list_parser: control.list,
                        unfinished_lists: control.suspended,
                        ..old(self).nbt_parser@
                    })
                },
            },
    {
        let mut depth_delta: i64 = 0;
        let tag_id = Self::parse_nbt_tag_id(new_tag_position, cursor)?;
        if error_if_not_tag_compound && tag_id != NbtTagId::Compound {
            return Err(NbtReadError::InvalidNbtRootTagId);
        }
        if let NbtTagId::End = tag_id {
            depth_delta = self.exit_nbttag_compound(nbt_parent_index);
        } else {
            proof {
                let bytes = cursor@.bytes;
                let at = cursor@.pos;
                if string_at(bytes, at) is Ok && payload_at(
                    bytes,
                    string_at(bytes, at)->Ok_0.1,
                    tag_id,
                ) is Ok {
                    payload_stays_inside(bytes, string_at(bytes, at)->Ok_0.1, tag_id);
                }
            }
            Self::parse_nbt_tag_name_and_value(new_nbt_tag, new_tag_position, tag_id, cursor)?;
            if let NbtTagType::List(list_elem_tag_ids) = new_nbt_tag.value() {
                // A list that declares no element has none to be read.
                if list_elem_tag_ids.1 >= 1 {
                    self.nbt_parser.list_parser.set_id(list_elem_tag_ids.0);
                    self.nbt_parser.list_parser.set_len(list_elem_tag_ids.1);
                    self.nbt_parser.list_parser.list_elem_count = 0;
                    self.nbt_parser.change_state_to(ParseNbtFsmState::List);
                    depth_delta = depth_delta + 1;
                }
            }
            if let NbtTagId::Compound = tag_id {
                depth_delta = depth_delta + 1;
            }
        }
        Ok(depth_delta)
    }

    /// Reads an element of the list that is being read, decides what
    /// follows it, and returns the change of depth. No element is read of a
    /// list beyond the length that it declares.
    fn parse_list_state(
        &mut self,
        new_nbt_tag: &mut NbtTag,
        new_tag_position: &mut NbtTagPosition,
        cursor: &mut ByteCursor,
    ) -> (depth_delta: Result<i64, NbtReadError>)
        requires
            old(self).nbt_parser.state == ParseNbtFsmState::List,
            1 <= old(cursor)@.pos,
            old(self).nbt_parser.list_parser.list_len <= 32767,
            old(new_nbt_tag)@.name == Seq::<char>::empty(),
            old(new_tag_position).raw_bytes.byte_start_id is None,
            old(new_tag_position).raw_bytes.byte_end_id is None,
            old(new_tag_position).raw_bytes.byte_start_name is None,
            old(new_tag_position).raw_bytes.byte_end_name is None,
            old(new_tag_position).raw_bytes.byte_start_value is None,
            old(new_tag_position).raw_bytes.byte_end_value is None,
        ensures
            final(cursor)@.bytes == old(cursor)@.bytes,
            final(self).tags == old(self).tags,
            final(self).tags_map == old(self).tags_map,
            final(self).raw_bytes == old(self).raw_bytes,
            drained(old(self).nbt_parser.list_parser) ==> depth_delta == Err::<i64, NbtReadError>(
                NbtReadError::NbtListLongerThanDeclared,
            ),
            !drained(old(self).nbt_parser.list_parser) ==> match list_element_at(
                old(cursor)@.bytes,
                old(cursor)@.pos,
                old(self).nbt_parser.list_parser.list_tag_id,
            ) {
                Err(e) => depth_delta == Err::<i64, NbtReadError>(e),
                Ok(r) => {
                    let control = after_element(
                        old(self).nbt_parser.list_parser,
                        old(self).nbt_parser.unfinished_lists@,
                        r.value,
                    );
                    &&& depth_delta == Ok::<i64, NbtReadError>(control.delta as i64)
                    &&& final(cursor)@.pos == r.next
                    &&& final(new_nbt_tag)@ == (TagView {
                        name: r.name,
                        value: r.value,
                        ..old(new_nbt_tag)@
                    })
                    &&& final(new_tag_position)@ == (PositionView {
                        raw_bytes: NbtTagPositionRawBytes {
                            byte_start_all: old(new_tag_position).raw_bytes.byte_start_all,
                            byte_end_all: old(new_tag_position).raw_bytes.byte_end_all,
                            byte_end_all_with_children: old(
                                new_tag_position,
                            ).raw_bytes.byte_end_all_with_children,
                            ..ranges_of(r)
                        },
                        ..old(new_tag_position)@
                    })
                    &&& final(self).nbt_parser@ == (ParserView {
                        state: control.state,
                        list_parser: control.list,
                        unfinished_lists: control.suspended,
                        ..old(self).nbt_parser@
                    })
                },
            },
    {
        let mut depth_delta: i64 = 0;
        let tag_id = *self.nbt_parser.list_parser.tag_id();
        if self.nbt_parser.list_parser.list_elem_count >= self.nbt_parser.list_parser.list_len {
            return Err(NbtReadError::NbtListLongerThanDeclared);
        }
        proof {
            if payload_at(cursor@.bytes, cursor@.pos, tag_id) is Ok {
                payload_stays_inside(cursor@.bytes, cursor@.pos, tag_id);
            }
        }
        let value_start = cursor.position();
        new_nbt_tag.set_value(nbt_tag(cursor, &tag_id)?);
        if tag_id != NbtTagId::End {
            new_tag_position.set_byte_start_value(value_start);
            new_tag_position.set_byte_end_value(cursor.position() - 1);
        }
        let inner = match new_nbt_tag.value() {
            NbtTagType::List(header) => if header.1 >= 1 {
                Some(*header)
            } else {
                None
            },
            _ => None,
        };
        if let NbtTagId::Compound = tag_id {
            // The list waits until the compound that begins here has ended.
            depth_delta = depth_delta + 1;
            self.nbt_parser.change_state_to(ParseNbtFsmState::Normal);
            self.nbt_parser.switch_list_ctx();
        } else if let Some(header) = inner {
            // The list waits until the list that begins here has ended.
            depth_delta = depth_delta + 1;
            self.nbt_parser.switch_list_ctx();
            self.nbt_parser.list_parser.set_id(header.0);
            self.nbt_parser.list_parser.set_len(header.1);
        } else {
            self.nbt_parser.list_parser.increment();
        }
        Ok(depth_delta)
    }
}

} // verus!
