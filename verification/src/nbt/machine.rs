//! The parse driver as a state machine over mathematical values.
//!
//! A buffer is read in one forward pass. Each step of the machine reads one
//! tag, appends it to the sequence of tags, and decides what the next bytes
//! are read as. `parse_of` runs the machine to the end of the buffer: it is
//! what the executable driver computes.

use vstd::prelude::*;

use crate::nbt::fsm::parse::{id_at, payload_at, string_at};
use crate::nbt::fsm::{NbtListParser, ParseNbtFsmState};
use crate::nbt::{
    NbtReadError, NbtTagId, NbtTagPositionRawBytes, PositionView, TagValue, TagView,
};

verus! {

/// What the reader yields for one tag: its name and value, whether it has an
/// id and a name on the wire, and the offsets at which the tag begins, its
/// value begins, and the next tag begins.
pub struct Reading {
    /// The name; empty for a list element and for an end tag.
    pub name: Seq<char>,
    /// The decoded value.
    pub value: TagValue,
    /// Whether an id was read, and a name unless the tag is an end tag.
    pub named: bool,
    /// The offset of the first byte of the tag.
    pub start: int,
    /// The offset of the first byte of the value.
    pub value_start: int,
    /// The offset behind the last byte of the tag.
    pub next: int,
}

/// The tag with id and name at offset `at`. An end tag has neither name nor
/// value. Where `root` holds, any kind but a compound is refused.
pub open spec fn named_tag_at(bytes: Seq<u8>, at: int, root: bool) -> Result<
    Reading,
    NbtReadError,
> {
    match id_at(bytes, at) {
        Err(e) => Err(e),
        Ok(id) => if root && id != NbtTagId::Compound {
            Err(NbtReadError::InvalidNbtRootTagId)
        } else if id == NbtTagId::End {
            Ok(
                Reading {
                    name: Seq::empty(),
                    value: TagValue::End(None),
                    named: true,
                    start: at,
                    value_start: at + 1,
                    next: at + 1,
                },
            )
        } else {
            match string_at(bytes, at + 1) {
                Err(e) => Err(e),
                Ok((name, value_start)) => match payload_at(bytes, value_start, id) {
                    Err(e) => Err(e),
                    Ok((value, next)) => Ok(
                        Reading { name, value, named: true, start: at, value_start, next },
                    ),
                },
            }
        }
    }
}

/// The list element of kind `kind` at offset `at`: a payload without id and
/// name.
pub open spec fn list_element_at(bytes: Seq<u8>, at: int, kind: NbtTagId) -> Result<
    Reading,
    NbtReadError,
> {
    match payload_at(bytes, at, kind) {
        Err(e) => Err(e),
        Ok((value, next)) => Ok(
            Reading { name: Seq::empty(), value, named: false, start: at, value_start: at, next },
        ),
    }
}

/// The last byte of a tag that begins at `start` and is followed by `next`. A
/// tag that takes no byte at all ends where it begins.
pub open spec fn end_of(start: int, next: int) -> int {
    if next > start {
        next - 1
    } else {
        next
    }
}

/// The byte ranges of what was read. All ends are inclusive.
pub open spec fn ranges_of(r: Reading) -> NbtTagPositionRawBytes {
    let has_name = r.named && r.value.kind() != NbtTagId::End;
    let has_value = r.value.kind() != NbtTagId::End;
    NbtTagPositionRawBytes {
        byte_start_all: r.start as usize,
        byte_end_all: end_of(r.start, r.next) as usize,
        byte_end_all_with_children: end_of(r.start, r.next) as usize,
        byte_start_id: if r.named {
            Some(r.start as usize)
        } else {
            None
        },
        byte_end_id: if r.named {
            Some(r.start as usize)
        } else {
            None
        },
        byte_start_name: if has_name {
            Some((r.start + 1) as usize)
        } else {
            None
        },
        byte_end_name: if has_name {
            Some((r.value_start - 1) as usize)
        } else {
            None
        },
        byte_start_value: if has_value {
            Some(r.value_start as usize)
        } else {
            None
        },
        byte_end_value: if has_value {
            Some((r.next - 1) as usize)
        } else {
            None
        },
    }
}

/// The state of the driver between two tags.
pub struct Machine {
    /// The tags emitted so far.
    pub tags: Seq<TagView>,
    /// For each name, the index of the last tag that bears it.
    pub names: Map<Seq<char>, usize>,
    /// What the next bytes are read as.
    pub state: ParseNbtFsmState,
    /// The list that is being read.
    pub list: NbtListParser,
    /// The lists that wait for an element to end, innermost last.
    pub suspended: Seq<NbtListParser>,
    /// The depth at which the next tag lies, once the change of depth is
    /// applied.
    pub depth: int,
    /// The parent of the next tag, once the change of depth is applied.
    pub parent: int,
    /// The change of depth that is still to be applied; 0 between two steps.
    pub delta: int,
    /// The offset of the next byte.
    pub pos: int,
}

/// What is decided once a tag is read: what the next bytes are read as, the
/// list contexts, and the change of depth.
pub struct Control {
    /// What the next bytes are read as.
    pub state: ParseNbtFsmState,
    /// The list that is being read.
    pub list: NbtListParser,
    /// The lists that wait for an element to end, innermost last.
    pub suspended: Seq<NbtListParser>,
    /// How much deeper the next tag lies than the one that was read.
    pub delta: int,
}

/// The list context in which nothing is being read.
pub open spec fn no_list() -> NbtListParser {
    NbtListParser { list_tag_id: NbtTagId::End, list_len: 0, list_elem_count: 0 }
}

/// The machine before the first byte is read.
pub open spec fn initial() -> Machine {
    Machine {
        tags: Seq::empty(),
        names: Map::empty(),
        state: ParseNbtFsmState::Normal,
        list: no_list(),
        suspended: Seq::empty(),
        depth: 0,
        parent: 0,
        delta: 0,
        pos: 0,
    }
}

/// The parent of the next tag: the same as before where the depth stays, the
/// tag emitted last one level down, and the parent's parent one level up.
/// No other change of depth is accepted.
pub open spec fn next_parent(m: Machine) -> Result<int, NbtReadError> {
    if m.delta == 0 {
        Ok(m.parent)
    } else if m.delta == 1 {
        Ok(m.tags.len() - 1)
    } else if m.delta == -1 {
        Ok(m.tags[m.parent].position.parent as int)
    } else {
        Err(NbtReadError::InvalidNbtDepth)
    }
}

/// The list context once one more element is accounted for.
pub open spec fn counted(list: NbtListParser) -> NbtListParser {
    NbtListParser { list_elem_count: (list.list_elem_count + 1) as i32, ..list }
}

/// Whether every element that the list declares is accounted for.
pub open spec fn drained(list: NbtListParser) -> bool {
    list.list_elem_count >= list.list_len
}

/// What follows a tag with id and name, whose parent is `parent`. An end tag
/// closes its parent; where that compound was a list element, the list that
/// was set aside for it is taken up again. A list header that declares an
/// element begins a list, a compound begins its children, and after any
/// other tag, a list that declares no element among them, its parent goes
/// on.
pub open spec fn after_named(
    tags: Seq<TagView>,
    parent: int,
    list: NbtListParser,
    suspended: Seq<NbtListParser>,
    value: TagValue,
) -> Control {
    match value {
        TagValue::End(_) => {
            let grandparent = tags[parent].position.parent as int;
            if tags[grandparent].value is List && suspended.len() > 0 {
                Control {
                    state: ParseNbtFsmState::List,
                    list: suspended.last(),
                    suspended: suspended.drop_last(),
                    delta: -1,
                }
            } else {
                Control { state: ParseNbtFsmState::Normal, list, suspended, delta: -1 }
            }
        },
        TagValue::List(kind, count) => if count >= 1 {
            Control {
                state: ParseNbtFsmState::List,
                list: NbtListParser { list_tag_id: kind, list_len: count, list_elem_count: 0 },
                suspended,
                delta: 1,
            }
        } else {
            Control { state: ParseNbtFsmState::Normal, list, suspended, delta: 0 }
        },
        TagValue::Compound(_) => Control {
            state: ParseNbtFsmState::Normal,
            list,
            suspended,
            delta: 1,
        },
        _ => Control { state: ParseNbtFsmState::Normal, list, suspended, delta: 0 },
    }
}

/// What follows an element of the list `list`, which is accounted for. Where
/// the element is a compound, or a list that declares an element, the list
/// is set aside until that element has ended: the children of the compound
/// come next, or the elements of the inner list. Behind any other element
/// the list goes on.
pub open spec fn after_element(
    list: NbtListParser,
    suspended: Seq<NbtListParser>,
    value: TagValue,
) -> Control {
    match value {
        TagValue::Compound(_) => Control {
            state: ParseNbtFsmState::Normal,
            list: no_list(),
            suspended: suspended.push(counted(list)),
            delta: 1,
        },
        TagValue::List(kind, count) => if count >= 1 {
            Control {
                state: ParseNbtFsmState::List,
                list: NbtListParser { list_tag_id: kind, list_len: count, list_elem_count: 0 },
                suspended: suspended.push(counted(list)),
                delta: 1,
            }
        } else {
            Control { state: ParseNbtFsmState::List, list: counted(list), suspended, delta: 0 }
        },
        _ => Control { state: ParseNbtFsmState::List, list: counted(list), suspended, delta: 0 },
    }
}

/// Whether tag `a` is tag `k` or one of its ancestors.
pub open spec fn on_path(tags: Seq<TagView>, a: int, k: int) -> bool
    decreases k,
{
    a == k || (0 < k && tags[k].position.parent < k && on_path(
        tags,
        a,
        tags[k].position.parent as int,
    ))
}

/// Whether one tag is another or its ancestor depends on the parents of the
/// tags up to the latter only.
pub proof fn on_path_agrees(first: Seq<TagView>, second: Seq<TagView>, a: int, k: int)
    requires
        forall|j: int| 0 < j <= k ==> first[j].position.parent == second[j].position.parent,
    ensures
        on_path(first, a, k) == on_path(second, a, k),
    decreases k,
{
    if a != k && 0 < k && first[k].position.parent < k {
        on_path_agrees(first, second, a, first[k].position.parent as int);
    }
}

/// An ancestor precedes its descendants.
pub proof fn on_path_below(tags: Seq<TagView>, a: int, k: int)
    requires
        on_path(tags, a, k),
    ensures
        a <= k,
    decreases k,
{
    if a != k {
        on_path_below(tags, a, tags[k].position.parent as int);
    }
}

/// The tag `tag` once a descendant that ends at `end` is appended; `child` is
/// that descendant's index where `tag` is its parent.
pub open spec fn grown(tag: TagView, end: usize, child: Option<usize>) -> TagView {
    TagView {
        position: PositionView {
            raw_bytes: NbtTagPositionRawBytes {
                byte_end_all_with_children: end,
                ..tag.position.raw_bytes
            },
            children: match child {
                Some(index) => tag.position.children.push(index),
                None => tag.position.children,
            },
            ..tag.position
        },
        ..tag
    }
}

/// The tags once `tag` is appended: its parent has it as its last child, and
/// the subtree of the parent and of each of its ancestors ends where `tag`
/// ends.
pub open spec fn append(tags: Seq<TagView>, tag: TagView) -> Seq<TagView> {
    Seq::new(
        tags.len() + 1,
        |i: int|
            if i == tags.len() {
                tag
            } else if on_path(tags, i, tag.position.parent as int) {
                grown(
                    tags[i],
                    tag.position.raw_bytes.byte_end_all,
                    if i == tag.position.parent {
                        Some(tag.position.index)
                    } else {
                        None
                    },
                )
            } else {
                tags[i]
            },
    )
}

/// What the machine reads next: a list element where a list is being read,
/// else a tag with id and name, which must be a compound where it is the
/// first tag.
pub open spec fn reading_of(bytes: Seq<u8>, m: Machine) -> Result<Reading, NbtReadError> {
    if m.state == ParseNbtFsmState::List {
        list_element_at(bytes, m.pos, m.list.list_tag_id)
    } else {
        named_tag_at(bytes, m.pos, m.tags.len() == 0)
    }
}

/// What is decided once a tag of value `value` is read, whose parent is
/// `parent`.
pub open spec fn control_of(m: Machine, parent: int, value: TagValue) -> Control {
    if m.state == ParseNbtFsmState::List {
        after_element(m.list, m.suspended, value)
    } else {
        after_named(m.tags, parent, m.list, m.suspended, value)
    }
}

/// The tag that is appended for the reading `r`: it bears the next index,
/// lies at the depth that the last change of depth leads to, and has no
/// children yet.
pub open spec fn tag_of(m: Machine, parent: int, r: Reading) -> TagView {
    TagView {
        name: r.name,
        value: r.value,
        position: PositionView {
            raw_bytes: ranges_of(r),
            index: m.tags.len() as usize,
            depth: (m.depth + m.delta) as i64,
            parent: parent as usize,
            children: Seq::empty(),
        },
    }
}

/// The tag at `m.pos` is read and appended, and what follows it is decided.
/// This fails where the reader fails, where the root compound has ended and
/// bytes are left, where an element is asked of a list beyond the length
/// that it declares, and where the buffer ends inside a compound or a list.
pub open spec fn read_step(bytes: Seq<u8>, m: Machine) -> Result<Machine, NbtReadError> {
    let depth = m.depth + m.delta;
    match next_parent(m) {
        Err(e) => Err(e),
        Ok(parent) => if m.tags.len() > 0 && depth < 1 {
            Err(NbtReadError::InvalidNbtDepth)
        } else if m.state == ParseNbtFsmState::List && drained(m.list) {
            Err(NbtReadError::NbtListLongerThanDeclared)
        } else {
            match reading_of(bytes, m) {
                Err(e) => Err(e),
                Ok(r) => {
                    let control = control_of(m, parent, r.value);
                    let at_end = r.next >= bytes.len();
                    if at_end && !(depth + control.delta == 0 && control.suspended.len() == 0) {
                        Err(NbtReadError::InvalidNbtDepth)
                    } else {
                        Ok(
                            Machine {
                                tags: append(m.tags, tag_of(m, parent, r)),
                                names: m.names.insert(r.name, m.tags.len() as usize),
                                state: if at_end {
                                    ParseNbtFsmState::EndOfFile
                                } else {
                                    control.state
                                },
                                list: control.list,
                                suspended: control.suspended,
                                depth,
                                parent,
                                delta: control.delta,
                                pos: r.next,
                            },
                        )
                    }
                },
            }
        },
    }
}

/// The machine with the change of depth applied: the parent and the depth
/// are those of the next tag.
pub open spec fn applied(m: Machine) -> Machine {
    Machine { parent: next_parent(m)->Ok_0, depth: m.depth + m.delta, delta: 0, ..m }
}

/// The machine once the list that is being read is left: its parent goes on,
/// and where that is a list whose element the list was, it is taken up
/// again.
pub open spec fn left(m: Machine) -> Machine {
    let up = m.tags[m.parent].position.parent as int;
    if m.tags[up].value is List && m.suspended.len() > 0 {
        Machine {
            list: m.suspended.last(),
            suspended: m.suspended.drop_last(),
            parent: up,
            depth: m.depth - 1,
            ..m
        }
    } else {
        Machine {
            state: ParseNbtFsmState::Normal,
            list: no_list(),
            parent: up,
            depth: m.depth - 1,
            ..m
        }
    }
}

/// The machine once every list is left of which no element remains: the
/// list that is being read, and in turn each list that is taken up again
/// with it.
pub open spec fn settled(m: Machine) -> Machine
    decreases m.suspended.len(),
{
    if m.state == ParseNbtFsmState::List && drained(m.list) {
        if left(m).state == ParseNbtFsmState::List && left(m).suspended.len()
            < m.suspended.len() {
            settled(left(m))
        } else {
            left(m)
        }
    } else {
        m
    }
}

/// One step of the machine on the buffer `bytes`: the tag at `m.pos` is read
/// and appended, the change of depth that follows it is applied, and the
/// lists that have no element left are left.
pub open spec fn step(bytes: Seq<u8>, m: Machine) -> Result<Machine, NbtReadError> {
    match read_step(bytes, m) {
        Err(e) => Err(e),
        Ok(read) => Ok(settled(applied(read))),
    }
}

/// How many elements a list may still yield, and one for leaving it.
pub open spec fn weight(list: NbtListParser) -> nat {
    if list.list_len > list.list_elem_count {
        (list.list_len - list.list_elem_count + 1) as nat
    } else {
        1
    }
}

/// How many elements the lists that are set aside may still yield.
pub open spec fn waiting_weight(suspended: Seq<NbtListParser>) -> nat
    decreases suspended.len(),
{
    if suspended.len() == 0 {
        0
    } else {
        waiting_weight(suspended.drop_last()) + weight(suspended.last())
    }
}

/// How many elements the list that is being read and the lists that are set
/// aside may still yield without reading a byte.
pub open spec fn budget(m: Machine) -> int {
    waiting_weight(m.suspended) + if m.state == ParseNbtFsmState::List {
        weight(m.list) as int
    } else {
        0
    }
}

/// A string that is read takes its two bytes of length and ends inside the
/// buffer.
pub proof fn string_stays_inside(bytes: Seq<u8>, at: int)
    requires
        string_at(bytes, at) is Ok,
    ensures
        0 <= at,
        at + 2 <= string_at(bytes, at)->Ok_0.1 <= bytes.len(),
{
    reveal(string_at);
}

/// A payload that is read is of the kind asked for and ends inside the
/// buffer, unless it takes no byte. A list header takes five bytes and
/// declares a length within the bound.
pub proof fn payload_stays_inside(bytes: Seq<u8>, at: int, id: NbtTagId)
    requires
        payload_at(bytes, at, id) is Ok,
    ensures
        at <= payload_at(bytes, at, id)->Ok_0.1,
        payload_at(bytes, at, id)->Ok_0.1 <= bytes.len() || payload_at(bytes, at, id)->Ok_0.1
            == at,
        payload_at(bytes, at, id)->Ok_0.0.kind() == id,
        id == NbtTagId::List ==> payload_at(bytes, at, id)->Ok_0.1 == at + 5 && 0 <= payload_at(
            bytes,
            at,
            id,
        )->Ok_0.0->List_1 <= 32767,
        (id == NbtTagId::End || id == NbtTagId::Compound) <==> payload_at(bytes, at, id)->Ok_0.1
            == at,
{
    reveal(payload_at);
    reveal(string_at);
}

/// A tag with id and name that is read begins with its id and ends inside
/// the buffer. Unless it is an end tag, its name takes two bytes at least.
pub proof fn named_tag_stays_inside(bytes: Seq<u8>, at: int, root: bool)
    requires
        named_tag_at(bytes, at, root) is Ok,
    ensures
        0 <= at < named_tag_at(bytes, at, root)->Ok_0.next <= bytes.len(),
        named_tag_at(bytes, at, root)->Ok_0.start == at,
        named_tag_at(bytes, at, root)->Ok_0.named,
        at < named_tag_at(bytes, at, root)->Ok_0.value_start <= named_tag_at(
            bytes,
            at,
            root,
        )->Ok_0.next,
        named_tag_at(bytes, at, root)->Ok_0.value.kind() == id_at(bytes, at)->Ok_0,
        named_tag_at(bytes, at, root)->Ok_0.value.kind() != NbtTagId::End ==> at + 3
            <= named_tag_at(bytes, at, root)->Ok_0.value_start,
        named_tag_at(bytes, at, root)->Ok_0.value is List ==> named_tag_at(
            bytes,
            at,
            root,
        )->Ok_0.value_start + 5 == named_tag_at(bytes, at, root)->Ok_0.next && 0 <= named_tag_at(
            bytes,
            at,
            root,
        )->Ok_0.value->List_1 <= 32767,
        root ==> named_tag_at(bytes, at, root)->Ok_0.value.kind() == NbtTagId::Compound,
{
    let id = id_at(bytes, at)->Ok_0;
    if id != NbtTagId::End {
        string_stays_inside(bytes, at + 1);
        let value_start = string_at(bytes, at + 1)->Ok_0.1;
        payload_stays_inside(bytes, value_start, id);
    }
}

/// Leaving the lists that have no element left yields no element, and
/// moves no cursor.
pub proof fn settling_uses_budget(m: Machine)
    ensures
        settled(m).pos == m.pos,
        settled(m).tags == m.tags,
        settled(m).names == m.names,
        0 <= budget(settled(m)) <= budget(m),
        settled(m).suspended.len() <= m.suspended.len(),
        settled(m).delta == m.delta,
        m.state == ParseNbtFsmState::EndOfFile ==> settled(m) == m,
        m.state != ParseNbtFsmState::EndOfFile ==> settled(m).state != ParseNbtFsmState::EndOfFile,
    decreases m.suspended.len(),
{
    if m.state == ParseNbtFsmState::List && drained(m.list) {
        if left(m).state == ParseNbtFsmState::List && left(m).suspended.len()
            < m.suspended.len() {
            settling_uses_budget(left(m));
        }
    }
}

/// A step that succeeds stays inside the buffer, and either reads a byte or
/// uses up the budget of the lists.
pub proof fn step_makes_progress(bytes: Seq<u8>, m: Machine)
    requires
        m.state != ParseNbtFsmState::EndOfFile,
        step(bytes, m) is Ok,
    ensures
        m.pos <= step(bytes, m)->Ok_0.pos,
        step(bytes, m)->Ok_0.pos <= bytes.len() || m.pos == step(bytes, m)->Ok_0.pos,
        m.pos == step(bytes, m)->Ok_0.pos ==> 0 <= budget(step(bytes, m)->Ok_0) < budget(m),
{
    let read = read_step(bytes, m)->Ok_0;
    if m.state == ParseNbtFsmState::List {
        payload_stays_inside(bytes, m.pos, m.list.list_tag_id);
        assert(m.suspended.push(counted(m.list)).drop_last() =~= m.suspended);
    } else {
        named_tag_stays_inside(bytes, m.pos, m.tags.len() == 0);
    }
    settling_uses_budget(applied(read));
}

/// The machine run from `m` to the end of the buffer, or the error that
/// stops it.
pub open spec fn run(bytes: Seq<u8>, m: Machine) -> Result<Machine, NbtReadError>
    decreases bytes.len() - m.pos, budget(m),
{
    if m.state == ParseNbtFsmState::EndOfFile {
        Ok(m)
    } else {
        match step(bytes, m) {
            Err(e) => Err(e),
            Ok(next) => {
                proof {
                    step_makes_progress(bytes, m);
                }
                run(bytes, next)
            },
        }
    }
}

/// The state in which the machine run from `m` comes to rest: at the end of
/// the buffer, or before the step that fails.
pub open spec fn halted(bytes: Seq<u8>, m: Machine) -> Machine
    decreases bytes.len() - m.pos, budget(m),
{
    if m.state == ParseNbtFsmState::EndOfFile {
        m
    } else {
        match step(bytes, m) {
            Err(e) => m,
            Ok(next) => {
                proof {
                    step_makes_progress(bytes, m);
                }
                halted(bytes, next)
            },
        }
    }
}

/// The document that a buffer holds: its tags in the order of emission, and
/// for each name the index of the last tag that bears it.
pub struct Parsed {
    /// The tags, in the order of emission.
    pub tags: Seq<TagView>,
    /// For each name, the index of the last tag that bears it.
    pub names: Map<Seq<char>, usize>,
}

/// The document in `bytes`, or why there is none.
pub open spec fn parse_of(bytes: Seq<u8>) -> Result<Parsed, NbtReadError> {
    match run(bytes, initial()) {
        Ok(m) => Ok(Parsed { tags: m.tags, names: m.names }),
        Err(e) => Err(e),
    }
}

} // verus!
