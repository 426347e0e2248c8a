//! The state that the parse driver carries from one tag to the next.

use vstd::prelude::*;

use crate::nbt::NbtTagId;

pub mod parse;

verus! {

/// What the next bytes of the buffer are read as.
#[derive(Debug, Copy, Clone, Eq, PartialEq, Hash, Structural)]
pub enum ParseNbtFsmState {
    /// A tag with its own id and name.
    Normal,
    /// The next element of the list that is being read: no id, no name.
    List,
    /// Nothing: the buffer has been read to its end.
    EndOfFile,
}

impl Default for ParseNbtFsmState {
    fn default() -> (state: ParseNbtFsmState)
        ensures
            state == ParseNbtFsmState::Normal,
    {
        ParseNbtFsmState::Normal
    }
}

/// The list that is being read: the kind of its elements, the length that its
/// header declares, and how many elements have been accounted for.
#[derive(Debug, Copy, Clone, Eq, PartialEq, Hash, Structural)]
pub struct NbtListParser {
    /// The kind of the elements.
    pub list_tag_id: NbtTagId,
    /// The length that the header of the list declares.
    pub list_len: i32,
    /// How many elements are accounted for.
    pub list_elem_count: i32,
}

impl Default for NbtListParser {
    fn default() -> (list: NbtListParser)
        ensures
            list == (NbtListParser { list_tag_id: NbtTagId::End, list_len: 0, list_elem_count: 0 }),
    {
        NbtListParser { list_tag_id: NbtTagId::End, list_len: 0, list_elem_count: 0 }
    }
}

impl NbtListParser {
    /// Whether the element that is being read is the last one: no element
    /// remains behind it.
    pub open spec fn at_last(self) -> bool {
        self.list_elem_count >= self.list_len - 1
    }

    pub fn new() -> (list: NbtListParser)
        ensures
            list == (NbtListParser { list_tag_id: NbtTagId::End, list_len: 0, list_elem_count: 0 }),
    {
        NbtListParser { list_tag_id: NbtTagId::End, list_len: 0, list_elem_count: 0 }
    }

    pub fn set_id(&mut self, tag_id: NbtTagId)
        ensures
            *final(self) == (NbtListParser { list_tag_id: tag_id, ..*old(self) }),
    {
        self.list_tag_id = tag_id;
    }

    pub fn tag_id(&self) -> (tag_id: &NbtTagId)
        ensures
            *tag_id == self.list_tag_id,
    {
        &self.list_tag_id
    }

    pub fn set_len(&mut self, len: i32)
        ensures
            *final(self) == (NbtListParser { list_len: len, ..*old(self) }),
    {
        self.list_len = len;
    }

    pub fn increment(&mut self)
        requires
            old(self).list_elem_count < i32::MAX,
        ensures
            *final(self) == (NbtListParser {
                list_elem_count: (old(self).list_elem_count + 1) as i32,
                ..*old(self)
            }),
    {
        self.list_elem_count = self.list_elem_count + 1;
    }

    pub fn reset(&mut self)
        ensures
            *final(self) == (NbtListParser {
                list_tag_id: NbtTagId::End,
                list_len: 0,
                list_elem_count: 0,
            }),
    {
        self.list_tag_id = NbtTagId::End;
        self.list_len = 0;
        self.list_elem_count = 0;
    }

    pub fn is_end(&self) -> (last: bool)
        ensures
            last == self.at_last(),
    {
        self.list_elem_count as i64 >= self.list_len as i64 - 1
    }
}

/// The mathematical value of an `NbtParser`.
pub struct ParserView {
    /// What the next bytes are read as.
    pub state: ParseNbtFsmState,
    /// The list that is being read.
    pub list_parser: NbtListParser,
    /// The lists that wait for an element to end, innermost last.
    pub unfinished_lists: Seq<NbtListParser>,
    /// The index of the next tag.
    pub index: usize,
    /// The depth at which the next tag lies.
    pub tree_depth: i64,
}

/// The state machine of the parse driver: what is read next, the list that is
/// being read, the lists that wait for an element to end, the index of
/// the next tag and the depth at which it lies.
#[derive(Debug, Eq, PartialEq, Hash)]
pub struct NbtParser {
    /// What the next bytes are read as.
    pub state: ParseNbtFsmState,
    /// The list that is being read.
    pub list_parser: NbtListParser,
    /// The lists that wait for an element to end, innermost last.
    pub unfinished_lists: Vec<NbtListParser>,
    /// The index of the next tag.
    pub index: usize,
    /// The depth at which the next tag lies.
    pub tree_depth: i64,
}

impl View for NbtParser {
    type V = ParserView;

    open spec fn view(&self) -> ParserView {
        ParserView {
            state: self.state,
            list_parser: self.list_parser,
            unfinished_lists: self.unfinished_lists@,
            index: self.index,
            tree_depth: self.tree_depth,
        }
    }
}

impl ParserView {
    /// The parser before anything is read.
    pub open spec fn initial() -> ParserView {
        ParserView {
            state: ParseNbtFsmState::Normal,
            list_parser: NbtListParser {
                list_tag_id: NbtTagId::End,
                list_len: 0,
                list_elem_count: 0,
            },
            unfinished_lists: Seq::empty(),
            index: 0,
            tree_depth: 0,
        }
    }
}

impl Clone for NbtParser {
    fn clone(&self) -> (copy: NbtParser)
        ensures
            copy@ == self@,
    {
        let unfinished_lists = self.unfinished_lists.clone();
        assert(unfinished_lists@ =~= self.unfinished_lists@);
        NbtParser {
            state: self.state,
            list_parser: self.list_parser,
            unfinished_lists,
            index: self.index,
            tree_depth: self.tree_depth,
        }
    }
}

impl Default for NbtParser {
    fn default() -> (parser: NbtParser)
        ensures
            parser@ == ParserView::initial(),
    {
        NbtParser::new()
    }
}

impl NbtParser {
    pub fn new() -> (parser: NbtParser)
        ensures
            parser@ == ParserView::initial(),
    {
        NbtParser {
            state: ParseNbtFsmState::Normal,
            list_parser: NbtListParser::new(),
            unfinished_lists: Vec::<NbtListParser>::new(),
            index: 0,
            tree_depth: 0,
        }
    }

    pub fn change_state_to(&mut self, state: ParseNbtFsmState)
        ensures
            final(self)@ == (ParserView { state: state, ..old(self)@ }),
    {
        self.state = state;
    }

    pub fn state(&self) -> (state: &ParseNbtFsmState)
        ensures
            *state == self.state,
    {
        &self.state
    }

    pub fn index(&self) -> (index: &usize)
        ensures
            *index == self.index,
    {
        &self.index
    }

    pub fn tree_depth(&self) -> (depth: &i64)
        ensures
            *depth == self.tree_depth,
    {
        &self.tree_depth
    }

    pub fn set_tree_depth(&mut self, depth: i64)
        ensures
            final(self)@ == (ParserView { tree_depth: depth, ..old(self)@ }),
    {
        self.tree_depth = depth;
    }

    pub fn increment_index(&mut self)
        requires
            old(self).index < usize::MAX,
        ensures
            final(self)@ == (ParserView { index: (old(self).index + 1) as usize, ..old(self)@ }),
    {
        self.index = self.index + 1;
    }

    /// Sets the list that is being read aside, with one more element
    /// accounted for, until the element that begins here has ended.
    pub fn switch_list_ctx(&mut self)
        requires
            old(self).list_parser.list_elem_count < i32::MAX,
        ensures
            final(self)@ == (ParserView {
                list_parser: NbtListParser {
                    list_tag_id: NbtTagId::End,
                    list_len: 0,
                    list_elem_count: 0,
                },
                unfinished_lists: old(self)@.unfinished_lists.push(
                    NbtListParser {
                        list_elem_count: (old(self).list_parser.list_elem_count + 1) as i32,
                        ..old(self).list_parser
                    },
                ),
                ..old(self)@
            }),
    {
        self.list_parser.increment();
        self.unfinished_lists.push(self.list_parser);
        self.list_parser.reset();
    }

    /// Takes up the list that was set aside last, if there is one, and says
    /// whether there was.
    pub fn restore_list_ctx(&mut self) -> (restored: bool)
        ensures
            restored == (old(self)@.unfinished_lists.len() > 0),
            restored ==> final(self)@ == (ParserView {
                list_parser: old(self)@.unfinished_lists.last(),
                unfinished_lists: old(self)@.unfinished_lists.drop_last(),
                ..old(self)@
            }),
            !restored ==> final(self)@ == old(self)@,
    {
        match self.unfinished_lists.pop() {
            Some(list) => {
                self.list_parser = list;
                true
            },
            None => false,
        }
    }
}

} // verus!
