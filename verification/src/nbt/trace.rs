//! The states that a run of the driver goes through.
//!
//! A run that succeeds takes one step for each tag. Every state on its way
//! keeps what the driver keeps, and a tag that has been appended stays as it
//! is, but for the end of its subtree and the children that it is given.

use vstd::prelude::*;

use crate::nbt::driver::document_of;
use crate::nbt::fsm::ParseNbtFsmState;
use crate::nbt::laws::{
    children_at, counted_list, element_of, kept, kept_at_end, kept_at_start, named, shaped_at,
    step_appends, step_keeps, step_lists_child, well_formed,
};
use crate::nbt::machine::{
    budget, initial, on_path, on_path_agrees, run, step, step_makes_progress, Machine,
};
use crate::nbt::{NbtReadError, NbtTagId, NbtTagPositionRawBytes, TagView};

verus! {
/// The machine after `steps` steps from `m`, or at the end of the buffer
/// where that comes first.
pub open spec fn advance(bytes: Seq<u8>, m: Machine, steps: nat) -> Result<Machine, NbtReadError>
    decreases steps,
{
    if steps == 0 || m.state == ParseNbtFsmState::EndOfFile {
        Ok(m)
    } else {
        match step(bytes, m) {
            Err(e) => Err(e),
            Ok(next) => advance(bytes, next, (steps - 1) as nat),
        }
    }
}

/// Steps may be taken in two runs.
pub proof fn advance_in_two(bytes: Seq<u8>, m: Machine, first: nat, second: nat)
    ensures
        advance(bytes, m, first + second) == match advance(bytes, m, first) {
            Err(e) => Err(e),
            Ok(between) => advance(bytes, between, second),
        },
    decreases first,
{
    if first > 0 && m.state != ParseNbtFsmState::EndOfFile {
        match step(bytes, m) {
            Err(e) => {},
            Ok(next) => {
                advance_in_two(bytes, next, (first - 1) as nat, second);
                assert((first + second - 1) as nat == (first - 1) as nat + second);
            },
        }
    } else if first > 0 {
        assert(advance(bytes, m, first + second) == Ok::<Machine, NbtReadError>(m));
        assert(advance(bytes, m, second) == Ok::<Machine, NbtReadError>(m));
    }
}

/// The run from a state goes through every state that is reached from it.
pub proof fn run_goes_through(bytes: Seq<u8>, m: Machine, steps: nat)
    ensures
        run(bytes, m) == match advance(bytes, m, steps) {
            Err(e) => Err(e),
            Ok(reached) => run(bytes, reached),
        },
    decreases steps,
{
    if steps > 0 && m.state != ParseNbtFsmState::EndOfFile {
        match step(bytes, m) {
            Err(e) => {},
            Ok(next) => {
                run_goes_through(bytes, next, (steps - 1) as nat);
            },
        }
    }
}

/// A run that succeeds ends after a number of steps, at the end of the
/// buffer.
pub proof fn run_ends(bytes: Seq<u8>, m: Machine) -> (steps: nat)
    requires
        run(bytes, m) is Ok,
    ensures
        advance(bytes, m, steps) == run(bytes, m),
        run(bytes, m)->Ok_0.state == ParseNbtFsmState::EndOfFile,
    decreases bytes.len() - m.pos, budget(m),
{
    if m.state == ParseNbtFsmState::EndOfFile {
        0
    } else {
        let next = step(bytes, m)->Ok_0;
        step_makes_progress(bytes, m);
        let rest = run_ends(bytes, next);
        rest + 1
    }
}

/// Every state that is reached from the start keeps what the driver keeps,
/// and has one tag for each step, unless the end of the buffer came first.
pub proof fn reached_keeps(bytes: Seq<u8>, steps: nat)
    requires
        bytes.len() <= usize::MAX,
        steps <= usize::MAX,
        advance(bytes, initial(), steps) is Ok,
    ensures
        kept(bytes, advance(bytes, initial(), steps)->Ok_0),
        advance(bytes, initial(), steps)->Ok_0.tags.len() <= steps,
        advance(bytes, initial(), steps)->Ok_0.state != ParseNbtFsmState::EndOfFile
            ==> advance(bytes, initial(), steps)->Ok_0.tags.len() == steps,
    decreases steps,
{
    if steps == 0 {
        kept_at_start(bytes);
    } else {
        let before = (steps - 1) as nat;
        advance_in_two(bytes, initial(), before, 1);
        reached_keeps(bytes, before);
        let m = advance(bytes, initial(), before)->Ok_0;
        if m.state != ParseNbtFsmState::EndOfFile {
            step_keeps(bytes, m);
            step_appends(bytes, m);
            assert(advance(bytes, step(bytes, m)->Ok_0, 0) == Ok::<Machine, NbtReadError>(
                step(bytes, m)->Ok_0,
            ));
        }
    }
}

/// The machine that is reached from the start after `steps` steps.
pub open spec fn reached(bytes: Seq<u8>, steps: nat) -> Machine {
    advance(bytes, initial(), steps)->Ok_0
}

/// A run that succeeds takes one step for each tag.
pub proof fn run_counts(bytes: Seq<u8>) -> (steps: nat)
    requires
        bytes.len() <= usize::MAX,
        run(bytes, initial()) is Ok,
        run(bytes, initial())->Ok_0.tags.len() <= usize::MAX,
    ensures
        steps == run(bytes, initial())->Ok_0.tags.len(),
        advance(bytes, initial(), steps) == run(bytes, initial()),
        run(bytes, initial())->Ok_0.state == ParseNbtFsmState::EndOfFile,
{
    let last = run(bytes, initial())->Ok_0;
    let taken = run_ends(bytes, initial());
    let count = last.tags.len();
    // As many steps as there are tags lead to the end, not before it and
    // not beyond it.
    if taken <= count {
        advance_in_two(bytes, initial(), taken, (count - taken) as nat);
        reached_keeps(bytes, taken);
        assert(advance(bytes, last, (count - taken) as nat) == Ok::<Machine, NbtReadError>(last));
    } else {
        advance_in_two(bytes, initial(), count, (taken - count) as nat);
        reached_keeps(bytes, count);
        let early = reached(bytes, count);
        if early.state != ParseNbtFsmState::EndOfFile {
            run_goes_through(bytes, initial(), count);
            steps_append(bytes, early, (taken - count) as nat);
        } else {
            assert(advance(bytes, early, (taken - count) as nat) == Ok::<Machine, NbtReadError>(
                early,
            ));
        }
    }
    count
}

/// Every step appends a tag: the states that are reached have at least the
/// tags of the state they are reached from, and more unless that state is at
/// the end of the buffer or no step is taken.
pub proof fn steps_append(bytes: Seq<u8>, m: Machine, steps: nat)
    requires
        advance(bytes, m, steps) is Ok,
    ensures
        advance(bytes, m, steps)->Ok_0.tags.len() >= m.tags.len(),
        steps > 0 && m.state != ParseNbtFsmState::EndOfFile ==> advance(
            bytes,
            m,
            steps,
        )->Ok_0.tags.len() > m.tags.len(),
    decreases steps,
{
    if steps > 0 && m.state != ParseNbtFsmState::EndOfFile {
        step_appends(bytes, m);
        steps_append(bytes, step(bytes, m)->Ok_0, (steps - 1) as nat);
    }
}

/// Along a run that succeeds with `count` tags, the state after `steps`
/// steps has `steps` tags, keeps what the driver keeps, and leads to the
/// next state by one step.
pub proof fn on_the_way(bytes: Seq<u8>, count: nat, steps: nat)
    requires
        bytes.len() <= usize::MAX,
        count <= usize::MAX,
        advance(bytes, initial(), count) is Ok,
        reached(bytes, count).tags.len() == count,
        steps <= count,
    ensures
        advance(bytes, initial(), steps) is Ok,
        reached(bytes, steps).tags.len() == steps,
        kept(bytes, reached(bytes, steps)),
        steps < count ==> reached(bytes, steps).state != ParseNbtFsmState::EndOfFile && step(
            bytes,
            reached(bytes, steps),
        ) == Ok::<Machine, NbtReadError>(reached(bytes, (steps + 1) as nat)),
{
    advance_in_two(bytes, initial(), steps, (count - steps) as nat);
    reached_keeps(bytes, steps);
    let m = reached(bytes, steps);
    if m.state == ParseNbtFsmState::EndOfFile {
        assert(advance(bytes, m, (count - steps) as nat) == Ok::<Machine, NbtReadError>(m));
    }
    if steps < count {
        steps_append(bytes, m, (count - steps) as nat);
        advance_in_two(bytes, initial(), steps, 1);
        advance_in_two(bytes, initial(), steps + 1, (count - steps - 1) as nat);
        assert(advance(bytes, m, 1) == match step(bytes, m) {
            Err(e) => Err(e),
            Ok(next) => advance(bytes, next, 0),
        });
    }
}

/// A tag as it is later in the run: the same but for the end of its subtree
/// and for the children that it has been given since.
pub open spec fn settled(before: TagView, after: TagView) -> bool {
    &&& after.name == before.name
    &&& after.value == before.value
    &&& after.position.index == before.position.index
    &&& after.position.depth == before.position.depth
    &&& after.position.parent == before.position.parent
    &&& after.position.raw_bytes == (NbtTagPositionRawBytes {
        byte_end_all_with_children: after.position.raw_bytes.byte_end_all_with_children,
        ..before.position.raw_bytes
    })
    &&& before.position.children.len() <= after.position.children.len()
    &&& forall|j: int|
        0 <= j < before.position.children.len() ==> #[trigger] after.position.children[j]
            == before.position.children[j]
}

/// Along a run, a tag that has been appended stays as it is, but for the
/// end of its subtree and the children that it is given.
pub proof fn tags_settle(bytes: Seq<u8>, count: nat, early: nat, late: nat, i: int)
    requires
        bytes.len() <= usize::MAX,
        count <= usize::MAX,
        advance(bytes, initial(), count) is Ok,
        reached(bytes, count).tags.len() == count,
        0 <= i < early <= late <= count,
    ensures
        settled(reached(bytes, early).tags[i], reached(bytes, late).tags[i]),
    decreases late - early,
{
    on_the_way(bytes, count, early);
    on_the_way(bytes, count, late);
    if early < late {
        let before = (late - 1) as nat;
        tags_settle(bytes, count, early, before, i);
        on_the_way(bytes, count, before);
        let m = reached(bytes, before);
        step_appends(bytes, m);
        step_lists_child(bytes, m);
        assert(settled(m.tags[i], reached(bytes, late).tags[i]));
    }
}

/// Along a run, the ancestors of a tag that has been appended stay the same.
pub proof fn paths_settle(bytes: Seq<u8>, count: nat, early: nat, late: nat, a: int, k: int)
    requires
        bytes.len() <= usize::MAX,
        count <= usize::MAX,
        advance(bytes, initial(), count) is Ok,
        reached(bytes, count).tags.len() == count,
        0 <= k < early <= late <= count,
    ensures
        on_path(reached(bytes, late).tags, a, k) == on_path(reached(bytes, early).tags, a, k),
{
    assert forall|j: int| 0 < j <= k implies reached(bytes, late).tags[j].position.parent
        == reached(bytes, early).tags[j].position.parent by {
        tags_settle(bytes, count, early, late, j);
    }
    on_path_agrees(reached(bytes, late).tags, reached(bytes, early).tags, a, k);
}

/// Every document is well formed: what the driver keeps from tag to tag
/// holds of the tags that it has read at the end of the buffer.
pub proof fn document_is_well_formed(bytes: Seq<u8>)
    requires
        bytes.len() <= usize::MAX,
        document_of(bytes) is Ok,
        document_of(bytes)->Ok_0.tags.len() <= usize::MAX,
    ensures
        well_formed(bytes, document_of(bytes)->Ok_0.tags, document_of(bytes)->Ok_0.names),
{
    let count = run_counts(bytes);
    on_the_way(bytes, count, count);
    kept_at_end(bytes, reached(bytes, count));
}

/// A list of a document has exactly the children that it declares: the tags
/// whose parent it is are those that it lists, they are as many as it
/// declares, and each is of the kind that it declares, with the empty name
/// and without id. Where that kind is neither list nor compound, they are
/// the tags that follow the list, one behind the other.
pub proof fn list_has_its_elements(bytes: Seq<u8>, c: int)
    requires
        bytes.len() <= usize::MAX,
        document_of(bytes) is Ok,
        document_of(bytes)->Ok_0.tags.len() <= usize::MAX,
        0 <= c < document_of(bytes)->Ok_0.tags.len(),
        document_of(bytes)->Ok_0.tags[c].value is List,
    ensures
        ({
            let tags = document_of(bytes)->Ok_0.tags;
            let kind = tags[c].value->List_0;
            let declared = tags[c].value->List_1;
            let kids = tags[c].position.children;
            &&& kids.len() == declared
            &&& forall|k: int|
                0 <= k < tags.len() ==> ((#[trigger] tags[k]).position.parent == c
                    <==> kids.contains(k as usize))
            &&& forall|j: int|
                0 <= j < kids.len() ==> {
                    let k = (#[trigger] kids[j]) as int;
                    &&& c < k < tags.len()
                    &&& tags[k].value.kind() == kind
                    &&& tags[k].name == Seq::<char>::empty()
                    &&& !named(tags[k])
                }
            &&& kind != NbtTagId::List && kind != NbtTagId::Compound ==> forall|j: int|
                0 <= j < kids.len() ==> #[trigger] kids[j] == c + 1 + j
        }),
{
    let tags = document_of(bytes)->Ok_0.tags;
    let kids = tags[c].position.children;
    document_is_well_formed(bytes);
    assert(shaped_at(tags, 0));
    assert(children_at(tags, c));
    assert forall|k: int| 0 <= k < tags.len() implies ((#[trigger] tags[k]).position.parent == c
        <==> kids.contains(k as usize)) by {
        if tags[k].position.parent == c {
            assert(children_at(tags, k));
        }
        if kids.contains(k as usize) {
            let j = choose|j: int| 0 <= j < kids.len() && kids[j] == k as usize;
            assert(tags[kids[j] as int].position.parent == c);
        }
    }
    assert forall|j: int| 0 <= j < kids.len() implies c < (#[trigger] kids[j]) < tags.len()
        && element_of(tags, c, kids[j] as int) by {}
    if counted_list(tags[c]) {
        assert forall|j: int| 0 <= j < kids.len() implies #[trigger] kids[j] == c + 1 + j by {}
    }
}

} // verus!
