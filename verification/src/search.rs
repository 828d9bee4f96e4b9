//! One depth-first search of the classification. The calls that a
//! recursive search would make wait on a stack, so the depth of the game
//! graph does not matter.

use crate::board_state::BoardState;
use crate::graph::{is_move, lemma_move_is_next_state, lemma_next_state_is_move, successor_id};
use crate::solver::{
    all_seen_settled, describes, forced_win, is_settled, lemma_settled_means, lemma_settled_stays,
    lemma_win_by_all_moves, lemma_win_by_one_move, lemma_win_when_ended, recorded_winner, sets_ok,
};
use crate::treemap::members;
use roaring::RoaringTreemap;
use vstd::prelude::*;

verus! {

/// One call of the depth-first search that has not returned yet.
struct Frame {
    /// The state that the call is about.
    state: BoardState,
    /// The states that a move leads to.
    next_states: Vec<BoardState>,
    /// How many of them have been handed to the search.
    next_index: usize,
    /// The worst outcome for the next player that is still possible.
    eval: isize,
}

/// What holds of a call that is still running, `done` of whose next states
/// have been evaluated.
#[verifier::opaque]
spec fn frame_ok(
    frame: Frame,
    done: int,
    remaining: Set<u64>,
    marked: Set<u64>,
    unchanged: bool,
) -> bool {
    let last_player = 1 - frame.state@.next_player;
    let next_states = frame.next_states@;
    &&& frame.state.wf()
    &&& remaining.contains(frame.state.id)
    &&& marked.contains(frame.state.id)
    &&& !frame.state@.is_ended()
    &&& next_states.map_values(|next: BoardState| next@) == frame.state@.successors()
    &&& forall|j: int| 0 <= j < next_states.len() ==> (#[trigger] next_states[j]).wf()
    &&& 0 <= done <= frame.next_index <= next_states.len()
    &&& frame.eval == -1 || frame.eval == last_player
    &&& frame.eval == last_player ==> forall|j: int|
        0 <= j < done ==> !remaining.contains((#[trigger] next_states[j]).id) && recorded_winner(
            marked,
            next_states[j].id,
        ) == last_player
    &&& unchanged ==> forall|j: int|
        0 <= j < done && !remaining.contains((#[trigger] next_states[j]).id) ==> recorded_winner(
            marked,
            next_states[j].id,
        ) == last_player
    &&& unchanged && frame.eval == -1 ==> exists|j: int|
        0 <= j < done && remaining.contains((#[trigger] next_states[j]).id)
}

/// Number of next states of the call at `i` that have been evaluated: all
/// that were handed out, but for the one that is still being evaluated.
spec fn done_at(stack: Seq<Frame>, pending: bool, i: int) -> int {
    if i < stack.len() - 1 || pending {
        stack[i].next_index - 1
    } else {
        stack[i].next_index as int
    }
}

/// What holds of the calls that are still running, innermost last: each is
/// about another state, the first about the state that the search started
/// from, and each of the others about the next state that the call before
/// it handed out last.
#[verifier::opaque]
spec fn stack_ok(
    stack: Seq<Frame>,
    first: u64,
    pending: bool,
    remaining: Set<u64>,
    marked: Set<u64>,
    unchanged: bool,
) -> bool {
    &&& forall|i: int|
        0 <= i < stack.len() ==> frame_ok(
            #[trigger] stack[i],
            done_at(stack, pending, i),
            remaining,
            marked,
            unchanged,
        )
    &&& forall|i: int|
        0 <= i < stack.len() - 1 ==> (#[trigger] stack[i]).next_states[stack[i].next_index
            - 1].id == stack[i + 1].state.id
    &&& forall|i: int, j: int|
        0 <= i < j < stack.len() ==> (#[trigger] stack[i]).state.id != (
        #[trigger] stack[j]).state.id
    &&& stack.len() > 0 ==> stack[0].state.id == first
}

/// One of the calls that are still running is about this state.
spec fn on_stack(stack: Seq<Frame>, id: u64) -> bool {
    exists|i: int| 0 <= i < stack.len() && (#[trigger] stack[i]).state.id == id
}

/// The state whose evaluation the innermost call waits for, or the state
/// that the search started from when no call is running.
spec fn pending_id(stack: Seq<Frame>, first: u64) -> u64 {
    if stack.len() == 0 {
        first
    } else {
        stack.last().next_states[stack.last().next_index - 1].id
    }
}

/// Number of next states that the innermost call has not handed out yet.
spec fn left_on_top(stack: Seq<Frame>) -> int {
    if stack.len() == 0 {
        0
    } else {
        stack.last().next_states.len() - stack.last().next_index
    }
}

/// Every remaining state that the scan has seen and that no running call
/// is about is settled.
#[verifier::opaque]
spec fn seen_settled(stack: Seq<Frame>, remaining: Set<u64>, marked: Set<u64>) -> bool {
    forall|id: u64|
        remaining.contains(id) && marked.contains(id) && !on_stack(stack, id) ==> #[trigger] is_settled(
            remaining,
            marked,
            id,
        )
}

/// What a search was started with.
struct Pass {
    /// The states that are classified.
    universe: Set<u64>,
    /// The state that the search started from.
    first: u64,
    /// The remaining states at the start.
    start: Set<u64>,
    /// The marked states at the start.
    marked_at_start: Set<u64>,
}

impl Pass {
    /// All seen states were settled at the start, and no state has been
    /// classified since.
    spec fn unchanged(self, remaining: Set<u64>) -> bool {
        all_seen_settled(self.start, self.marked_at_start) && remaining == self.start
    }
}

/// What holds between two steps of a search: of the sets, of the calls that
/// are still running, and of the state that is about to be entered or the
/// value that was just returned.
spec fn search_ok(
    pass: Pass,
    stack: Seq<Frame>,
    entering: Option<BoardState>,
    returned: Option<isize>,
    remaining: Set<u64>,
    marked: Set<u64>,
) -> bool {
    let pending = entering is Some || returned is Some;
    let waited_for = pending_id(stack, pass.first);
    &&& sets_ok(pass.universe, remaining, marked)
    &&& remaining.subset_of(pass.start)
    &&& pass.universe.contains(pass.first)
    &&& stack_ok(stack, pass.first, pending, remaining, marked, pass.unchanged(remaining))
    &&& pass.unchanged(remaining) ==> seen_settled(stack, remaining, marked)
    &&& !(entering is Some && returned is Some)
    &&& stack.len() == 0 ==> pending
    &&& pending && stack.len() > 0 ==> stack.last().next_index >= 1
    &&& pending ==> pass.universe.contains(waited_for)
    &&& entering matches Some(state) ==> state.wf() && state.id == waited_for
    &&& returned matches Some(value) ==> {
        &&& -1 <= value <= 1
        &&& describes(remaining, marked, waited_for, value as int)
        &&& remaining.contains(waited_for) ==> marked.contains(waited_for)
    }
    &&& forall|id: u64|
        remaining.contains(id) && pass.marked_at_start.contains(id) ==> #[trigger] marked.contains(
            id,
        )
}

/// What gets smaller with each step of a search: the remaining states that
/// have not been seen, then the calls that are running, then the next
/// states that the innermost call has left, then what the step is to do.
spec fn search_rank(
    stack: Seq<Frame>,
    entering: Option<BoardState>,
    returned: Option<isize>,
    remaining: Set<u64>,
    marked: Set<u64>,
) -> (nat, nat, int, int) {
    (
        remaining.difference(marked).len(),
        stack.len(),
        left_on_top(stack),
        if entering is Some {
            2int
        } else if returned is Some {
            1int
        } else {
            0int
        },
    )
}

/// The first rank comes before the second.
spec fn rank_less(after: (nat, nat, int, int), before: (nat, nat, int, int)) -> bool {
    &&& 0 <= after.2 && 0 <= after.3
    &&& after.0 < before.0 || (after.0 == before.0 && (after.1 < before.1 || (after.1 == before.1
        && (after.2 < before.2 || (after.2 == before.2 && after.3 < before.3)))))
}

/// A call that has evaluated all its next states without finding the
/// winner leaves its state settled.
proof fn lemma_frame_settled(frame: Frame, remaining: Set<u64>, marked: Set<u64>)
    requires
        frame_ok(frame, frame.next_states.len() as int, remaining, marked, true),
        frame.eval == -1,
    ensures
        is_settled(remaining, marked, frame.state.id),
{
    reveal(frame_ok);
    let id = frame.state.id;
    let next_states = frame.next_states@;
    lemma_settled_means(remaining, marked, id);
    assert forall|piece: int| 0 <= piece < 5 implies (#[trigger] successor_id(id, piece) matches Some(
        next,
    ) ==> !remaining.contains(next) ==> recorded_winner(marked, next)
        != frame.state@.next_player) by {
        if successor_id(id, piece) is Some {
            lemma_move_is_next_state(frame.state, next_states, piece);
        }
    }
    let j = choose|j: int|
        0 <= j < next_states.len() && remaining.contains((#[trigger] next_states[j]).id);
    lemma_next_state_is_move(frame.state, next_states, j);
}

/// A call that has evaluated all its next states and found each won by the
/// player who is not to move has found a state that this player wins.
proof fn lemma_frame_lost(
    frame: Frame,
    universe: Set<u64>,
    remaining: Set<u64>,
    marked: Set<u64>,
    unchanged: bool,
)
    requires
        sets_ok(universe, remaining, marked),
        frame_ok(frame, frame.next_states.len() as int, remaining, marked, unchanged),
        frame.eval == 1 - frame.state@.next_player,
    ensures
        forced_win(1 - frame.state@.next_player, frame.state.id),
{
    reveal(frame_ok);
    let id = frame.state.id;
    let last_player = 1 - frame.state@.next_player;
    let next_states = frame.next_states@;
    assert forall|piece: int| 0 <= piece < 5 implies (#[trigger] successor_id(id, piece) matches Some(
        next,
    ) ==> forced_win(last_player, next)) by {
        if successor_id(id, piece) is Some {
            let next = successor_id(id, piece).unwrap();
            lemma_move_is_next_state(frame.state, next_states, piece);
            assert(is_move(id, next));
            assert(forced_win(recorded_winner(marked, next), next));
        }
    }
    lemma_win_by_all_moves(last_player, id);
}

/// A call one of whose next states is won by the player to move has found
/// a state that this player wins.
proof fn lemma_frame_won(
    frame: Frame,
    universe: Set<u64>,
    remaining: Set<u64>,
    marked: Set<u64>,
    unchanged: bool,
)
    requires
        sets_ok(universe, remaining, marked),
        frame_ok(frame, frame.next_index - 1, remaining, marked, unchanged),
        frame.next_index >= 1,
        describes(
            remaining,
            marked,
            frame.next_states[frame.next_index - 1].id,
            frame.state@.next_player,
        ),
    ensures
        forced_win(frame.state@.next_player, frame.state.id),
{
    reveal(frame_ok);
    let id = frame.state.id;
    let next = frame.next_states[frame.next_index - 1].id;
    lemma_next_state_is_move(frame.state, frame.next_states@, frame.next_index - 1);
    let piece = choose|piece: int| 0 <= piece < 5 && #[trigger] successor_id(id, piece) == Some(next);
    assert(is_move(id, next));
    crate::radix::lemma_factor_chain(10);
    assert(forced_win(recorded_winner(marked, next), next));
    lemma_win_by_one_move(id, piece, next);
}

/// What the innermost running call is about.
proof fn lemma_stack_top(
    stack: Seq<Frame>,
    first: u64,
    pending: bool,
    remaining: Set<u64>,
    marked: Set<u64>,
    unchanged: bool,
)
    requires
        stack_ok(stack, first, pending, remaining, marked, unchanged),
        stack.len() > 0,
    ensures
        frame_ok(
            stack.last(),
            done_at(stack, pending, stack.len() - 1),
            remaining,
            marked,
            unchanged,
        ),
        !on_stack(stack.drop_last(), stack.last().state.id),
        pending_id(stack.drop_last(), first) == stack.last().state.id,
{
    reveal(stack_ok);
    let rest = stack.drop_last();
    if on_stack(rest, stack.last().state.id) {
        let i = choose|i: int|
            0 <= i < rest.len() && (#[trigger] rest[i]).state.id == stack.last().state.id;
        assert(stack[i].state.id != stack[stack.len() - 1].state.id);
    }
    if rest.len() > 0 {
        assert(stack[stack.len() - 2].next_states[stack[stack.len() - 2].next_index - 1].id
            == stack[stack.len() - 2 + 1].state.id);
    }
}

/// Every state that a running call is about remains and is marked.
proof fn lemma_stack_ids(
    stack: Seq<Frame>,
    first: u64,
    pending: bool,
    remaining: Set<u64>,
    marked: Set<u64>,
    unchanged: bool,
)
    requires
        stack_ok(stack, first, pending, remaining, marked, unchanged),
    ensures
        forall|id: u64| on_stack(stack, id) ==> remaining.contains(id) && marked.contains(id),
{
    reveal(stack_ok);
    reveal(frame_ok);
    assert forall|id: u64| on_stack(stack, id) implies remaining.contains(id) && marked.contains(
        id,
    ) by {
        let i = choose|i: int| 0 <= i < stack.len() && (#[trigger] stack[i]).state.id == id;
        assert(frame_ok(stack[i], done_at(stack, pending, i), remaining, marked, unchanged));
    }
}

/// A new call about the state that was waited for joins the running calls.
proof fn lemma_stack_push(
    stack: Seq<Frame>,
    first: u64,
    remaining: Set<u64>,
    marked: Set<u64>,
    unchanged: bool,
    frame: Frame,
)
    requires
        stack_ok(stack, first, true, remaining, marked, unchanged),
        frame_ok(frame, 0, remaining, marked, unchanged),
        frame.next_index == 0,
        frame.state.id == pending_id(stack, first),
        !on_stack(stack, frame.state.id),
    ensures
        stack_ok(stack.push(frame), first, false, remaining, marked, unchanged),
{
    reveal(stack_ok);
    let longer = stack.push(frame);
    assert forall|i: int| 0 <= i < longer.len() implies frame_ok(
        #[trigger] longer[i],
        done_at(longer, false, i),
        remaining,
        marked,
        unchanged,
    ) by {
        if i < stack.len() {
            assert(longer[i] == stack[i]);
            assert(frame_ok(stack[i], done_at(stack, true, i), remaining, marked, unchanged));
        }
    }
    assert forall|i: int| 0 <= i < longer.len() - 1 implies (#[trigger] longer[i]).next_states[longer[i].next_index
        - 1].id == longer[i + 1].state.id by {
        assert(longer[i] == stack[i]);
        if i < stack.len() - 1 {
            assert(longer[i + 1] == stack[i + 1]);
        }
    }
    assert forall|i: int, j: int| 0 <= i < j < longer.len() implies (#[trigger] longer[i]).state.id
        != (#[trigger] longer[j]).state.id by {
        assert(longer[i] == stack[i]);
        if j < stack.len() {
            assert(longer[j] == stack[j]);
        }
    }
}

/// The innermost running call goes on with another count or evaluation.
proof fn lemma_stack_swap_top(
    stack: Seq<Frame>,
    first: u64,
    pending: bool,
    pending_after: bool,
    remaining: Set<u64>,
    marked: Set<u64>,
    unchanged: bool,
    frame: Frame,
)
    requires
        stack_ok(stack, first, pending, remaining, marked, unchanged),
        stack.len() > 0,
        frame.state == stack.last().state,
        frame_ok(
            frame,
            frame.next_index - if pending_after {
                1int
            } else {
                0int
            },
            remaining,
            marked,
            unchanged,
        ),
    ensures
        stack_ok(
            stack.drop_last().push(frame),
            first,
            pending_after,
            remaining,
            marked,
            unchanged,
        ),
        forall|id: u64| on_stack(stack.drop_last().push(frame), id) <==> on_stack(stack, id),
{
    reveal(stack_ok);
    let swapped = stack.drop_last().push(frame);
    assert forall|i: int| 0 <= i < swapped.len() implies frame_ok(
        #[trigger] swapped[i],
        done_at(swapped, pending_after, i),
        remaining,
        marked,
        unchanged,
    ) by {
        if i < stack.len() - 1 {
            assert(swapped[i] == stack[i]);
            assert(frame_ok(stack[i], done_at(stack, pending, i), remaining, marked, unchanged));
        }
    }
    assert forall|i: int| 0 <= i < swapped.len() - 1 implies (#[trigger] swapped[i]).next_states[swapped[i].next_index
        - 1].id == swapped[i + 1].state.id by {
        assert(swapped[i] == stack[i]);
        if i < stack.len() - 2 {
            assert(swapped[i + 1] == stack[i + 1]);
        }
    }
    assert forall|i: int, j: int| 0 <= i < j < swapped.len() implies (#[trigger] swapped[i]).state.id
        != (#[trigger] swapped[j]).state.id by {
        assert(swapped[i] == stack[i]);
        assert(swapped[j].state.id == stack[j].state.id);
    }
    assert forall|id: u64| on_stack(swapped, id) <==> on_stack(stack, id) by {
        if on_stack(swapped, id) {
            let i = choose|i: int| 0 <= i < swapped.len() && (#[trigger] swapped[i]).state.id == id;
            assert(stack[i].state.id == id);
        }
        if on_stack(stack, id) {
            let i = choose|i: int| 0 <= i < stack.len() && (#[trigger] stack[i]).state.id == id;
            assert(swapped[i].state.id == id);
        }
    }
}

/// The innermost running call returns: the one before it waits for its value.
proof fn lemma_stack_pop(
    stack: Seq<Frame>,
    first: u64,
    pending: bool,
    remaining: Set<u64>,
    marked: Set<u64>,
    unchanged: bool,
)
    requires
        stack_ok(stack, first, pending, remaining, marked, unchanged),
        stack.len() > 0,
    ensures
        stack_ok(stack.drop_last(), first, true, remaining, marked, unchanged),
        forall|id: u64|
            on_stack(stack, id) <==> on_stack(stack.drop_last(), id) || id
                == stack.last().state.id,
{
    reveal(stack_ok);
    let rest = stack.drop_last();
    assert forall|i: int| 0 <= i < rest.len() implies frame_ok(
        #[trigger] rest[i],
        done_at(rest, true, i),
        remaining,
        marked,
        unchanged,
    ) by {
        assert(rest[i] == stack[i]);
        assert(frame_ok(stack[i], done_at(stack, pending, i), remaining, marked, unchanged));
    }
    assert forall|i: int| 0 <= i < rest.len() - 1 implies (#[trigger] rest[i]).next_states[rest[i].next_index
        - 1].id == rest[i + 1].state.id by {
        assert(rest[i] == stack[i]);
        assert(rest[i + 1] == stack[i + 1]);
    }
    assert forall|i: int, j: int| 0 <= i < j < rest.len() implies (#[trigger] rest[i]).state.id != (
    #[trigger] rest[j]).state.id by {
        assert(rest[i] == stack[i]);
        assert(rest[j] == stack[j]);
    }
    assert forall|id: u64|
        on_stack(stack, id) <==> on_stack(rest, id) || id == stack.last().state.id by {
        if on_stack(stack, id) {
            let i = choose|i: int| 0 <= i < stack.len() && (#[trigger] stack[i]).state.id == id;
            if i < rest.len() {
                assert(rest[i].state.id == id);
            }
        }
        if on_stack(rest, id) {
            let i = choose|i: int| 0 <= i < rest.len() && (#[trigger] rest[i]).state.id == id;
            assert(stack[i].state.id == id);
        }
        if id == stack.last().state.id {
            assert(stack[stack.len() - 1].state.id == id);
        }
    }
}

/// A running call is not disturbed when other states leave the remaining
/// ones or change their mark.
proof fn lemma_frame_stays(
    frame: Frame,
    done: int,
    remaining: Set<u64>,
    marked: Set<u64>,
    unchanged: bool,
    remaining_after: Set<u64>,
    marked_after: Set<u64>,
    unchanged_after: bool,
)
    requires
        frame_ok(frame, done, remaining, marked, unchanged),
        remaining_after.subset_of(remaining),
        remaining_after.contains(frame.state.id),
        marked_after.contains(frame.state.id),
        forall|id: u64| !remaining.contains(id) ==> marked.contains(id) == marked_after.contains(id),
        unchanged_after ==> unchanged && remaining_after == remaining,
    ensures
        frame_ok(frame, done, remaining_after, marked_after, unchanged_after),
{
    reveal(frame_ok);
}

/// A call that waits for a value has handed out a next state.
proof fn lemma_stack_waits(
    stack: Seq<Frame>,
    first: u64,
    pending: bool,
    remaining: Set<u64>,
    marked: Set<u64>,
    unchanged: bool,
)
    requires
        stack_ok(stack, first, pending, remaining, marked, unchanged),
    ensures
        stack.len() > 1 ==> stack[stack.len() - 2].next_index >= 1,
        pending && stack.len() > 0 ==> stack.last().next_index >= 1,
        left_on_top(stack) >= 0,
{
    reveal(stack_ok);
    reveal(frame_ok);
    if stack.len() > 1 {
        assert(frame_ok(
            stack[stack.len() - 2],
            done_at(stack, pending, stack.len() - 2),
            remaining,
            marked,
            unchanged,
        ));
    }
    if stack.len() > 0 {
        assert(frame_ok(
            stack[stack.len() - 1],
            done_at(stack, pending, stack.len() - 1),
            remaining,
            marked,
            unchanged,
        ));
    }
}

/// The running calls are not disturbed when states that none of them is
/// about leave the remaining ones or change their mark.
proof fn lemma_stack_stays(
    stack: Seq<Frame>,
    first: u64,
    pending: bool,
    remaining: Set<u64>,
    marked: Set<u64>,
    unchanged: bool,
    remaining_after: Set<u64>,
    marked_after: Set<u64>,
    unchanged_after: bool,
)
    requires
        stack_ok(stack, first, pending, remaining, marked, unchanged),
        remaining_after.subset_of(remaining),
        forall|id: u64|
            on_stack(stack, id) ==> remaining_after.contains(id) && marked_after.contains(id),
        forall|id: u64| !remaining.contains(id) ==> marked.contains(id) == marked_after.contains(id),
        unchanged_after ==> unchanged && remaining_after == remaining,
    ensures
        stack_ok(stack, first, pending, remaining_after, marked_after, unchanged_after),
{
    reveal(stack_ok);
    assert forall|i: int| 0 <= i < stack.len() implies frame_ok(
        #[trigger] stack[i],
        done_at(stack, pending, i),
        remaining_after,
        marked_after,
        unchanged_after,
    ) by {
        assert(frame_ok(stack[i], done_at(stack, pending, i), remaining, marked, unchanged));
        assert(on_stack(stack, stack[i].state.id));
        lemma_frame_stays(
            stack[i],
            done_at(stack, pending, i),
            remaining,
            marked,
            unchanged,
            remaining_after,
            marked_after,
            unchanged_after,
        );
    }
}

/// Marking a state and starting a call about it leaves every other seen
/// state settled.
proof fn lemma_seen_after_mark(
    stack: Seq<Frame>,
    remaining: Set<u64>,
    marked: Set<u64>,
    frame: Frame,
)
    requires
        seen_settled(stack, remaining, marked),
        remaining.contains(frame.state.id),
    ensures
        seen_settled(stack.push(frame), remaining, marked.insert(frame.state.id)),
{
    reveal(seen_settled);
    let longer = stack.push(frame);
    let after = marked.insert(frame.state.id);
    assert forall|id: u64|
        remaining.contains(id) && after.contains(id) && !on_stack(
            longer,
            id,
        ) implies #[trigger] is_settled(remaining, after, id) by {
        if id == frame.state.id {
            assert(longer[longer.len() - 1].state.id == id);
        }
        if on_stack(stack, id) {
            let i = choose|i: int| 0 <= i < stack.len() && (#[trigger] stack[i]).state.id == id;
            assert(longer[i].state.id == id);
        }
        lemma_settled_stays(remaining, marked, after, id);
    }
}

/// Seen states stay settled when the calls are about the same states.
proof fn lemma_seen_same_ids(
    stack: Seq<Frame>,
    other: Seq<Frame>,
    remaining: Set<u64>,
    marked: Set<u64>,
)
    requires
        seen_settled(stack, remaining, marked),
        forall|id: u64| on_stack(stack, id) ==> on_stack(other, id) || is_settled(remaining, marked, id),
    ensures
        seen_settled(other, remaining, marked),
{
    reveal(seen_settled);
}

/// With no call running, every seen state is settled.
proof fn lemma_seen_all(remaining: Set<u64>, marked: Set<u64>)
    ensures
        seen_settled(Seq::<Frame>::empty(), remaining, marked) <==> all_seen_settled(
            remaining,
            marked,
        ),
{
    reveal(seen_settled);
    assert forall|id: u64| !on_stack(Seq::<Frame>::empty(), id) by {}
}

/// The sets after a remaining state got its winner.
proof fn lemma_sets_after_decision(
    universe: Set<u64>,
    remaining: Set<u64>,
    marked: Set<u64>,
    id: u64,
    winner: int,
    marked_after: Set<u64>,
)
    requires
        sets_ok(universe, remaining, marked),
        remaining.contains(id),
        forced_win(winner, id),
        winner == 0 && marked_after == marked.insert(id) || winner == 1 && marked_after
            == marked.remove(id),
    ensures
        sets_ok(universe, remaining.remove(id), marked_after),
        remaining.remove(id).difference(marked_after).subset_of(remaining.difference(marked)),
        remaining.remove(id).difference(marked_after).finite(),
        remaining.remove(id).difference(marked_after).len() <= remaining.difference(marked).len(),
{
    let after = remaining.remove(id);
    assert forall|other: u64|
        universe.contains(other) && !after.contains(other) implies #[trigger] forced_win(
        recorded_winner(marked_after, other),
        other,
    ) by {
        if other != id {
            assert(forced_win(recorded_winner(marked, other), other));
        }
    }
    crate::graph::lemma_ids_finite(remaining.difference(marked));
    crate::graph::lemma_ids_finite(after.difference(marked_after));
    vstd::set_lib::lemma_len_subset(after.difference(marked_after), remaining.difference(marked));
}

/// Enter a state: tell its winner if it has one, -1 if the scan has seen
/// it, classify it if the game is over, and else start a call about it.
fn enter_state(
    state: BoardState,
    remaining_states: &mut RoaringTreemap,
    seen_or_player_0_winning_states: &mut RoaringTreemap,
    stack: &mut Vec<Frame>,
    Ghost(pass): Ghost<Pass>,
) -> (returned: Option<isize>)
    requires
        search_ok(
            pass,
            old(stack)@,
            Some(state),
            None,
            members(*old(remaining_states)),
            members(*old(seen_or_player_0_winning_states)),
        ),
    ensures
        search_ok(
            pass,
            final(stack)@,
            None,
            returned,
            members(*final(remaining_states)),
            members(*final(seen_or_player_0_winning_states)),
        ),
        rank_less(
            search_rank(
                final(stack)@,
                None,
                returned,
                members(*final(remaining_states)),
                members(*final(seen_or_player_0_winning_states)),
            ),
            search_rank(
                old(stack)@,
                Some(state),
                None,
                members(*old(remaining_states)),
                members(*old(seen_or_player_0_winning_states)),
            ),
        ),
{
    let ghost remaining = members(*remaining_states);
    let ghost marked = members(*seen_or_player_0_winning_states);
    let ghost frames = stack@;
    let ghost unchanged = pass.unchanged(remaining);
    let current_state_id: u64 = state.get_id();
    proof {
        crate::graph::lemma_ids_finite(remaining.difference(marked));
        crate::radix::lemma_factor_chain(10);
        lemma_stack_waits(frames, pass.first, true, remaining, marked, unchanged);
        lemma_stack_ids(frames, pass.first, true, remaining, marked, unchanged);
    }

    // If the state is not in `remaining_states`, then it is winning for one of the players.
    if !remaining_states.contains(current_state_id) {
        // Return the winning player.
        if seen_or_player_0_winning_states.contains(current_state_id) {
            Some(0)
        } else {
            Some(1)
        }
    } else if !seen_or_player_0_winning_states.insert(current_state_id) {
        // Note: `insert` returns `false` if the state is already marked.
        // Inconsistencies may arise if the state is also an ancestor state.
        // In that case, we may not yet know if it is winning or not,
        // which is why the scan must be repeated.
        proof {
            assert(marked.insert(current_state_id) =~= marked);
        }
        Some(-1)
    } else if state.is_ended() {
        remaining_states.remove(current_state_id);
        let next_player: usize = state.get_next_player();
        if next_player == 0 {
            seen_or_player_0_winning_states.remove(current_state_id);
        }
        proof {
            let remaining_after = members(*remaining_states);
            let marked_after = members(*seen_or_player_0_winning_states);
            lemma_win_when_ended(current_state_id);
            if next_player == 0 {
                assert(marked_after =~= marked.remove(current_state_id));
            }
            lemma_sets_after_decision(
                pass.universe,
                remaining,
                marked,
                current_state_id,
                1 - next_player as int,
                marked_after,
            );
            assert(!remaining_after.contains(current_state_id));
            assert(!pass.unchanged(remaining_after));
            lemma_stack_stays(
                frames,
                pass.first,
                true,
                remaining,
                marked,
                unchanged,
                remaining_after,
                marked_after,
                false,
            );
            assert(remaining_after.difference(marked_after).subset_of(
                remaining.difference(marked).remove(current_state_id),
            ));
            vstd::set_lib::lemma_len_subset(
                remaining_after.difference(marked_after),
                remaining.difference(marked).remove(current_state_id),
            );
        }
        if next_player == 0 {
            // Game ends with a win for player 1.
            Some(1)
        } else {
            // Game ends with a win for player 0.
            Some(0)
        }
    } else {
        let next_player: isize = state.get_next_player() as isize;
        let last_player: isize = 1 - next_player;
        let next_states: Vec<BoardState> = state.get_next_states();

        // `eval` starts with the worst case for `next_player` (a loss).
        let frame = Frame { state, next_states, next_index: 0, eval: last_player };
        proof {
            let marked_after = members(*seen_or_player_0_winning_states);
            lemma_stack_stays(
                frames,
                pass.first,
                true,
                remaining,
                marked,
                unchanged,
                remaining,
                marked_after,
                unchanged,
            );
            assert(frame_ok(frame, 0, remaining, marked_after, unchanged)) by {
                reveal(frame_ok);
            }
            lemma_stack_push(frames, pass.first, remaining, marked_after, unchanged, frame);
            if unchanged {
                lemma_seen_after_mark(frames, remaining, marked, frame);
            }
            assert(remaining.difference(marked_after) =~= remaining.difference(marked).remove(
                current_state_id,
            ));
            assert forall|id: u64|
                pass.universe.contains(id) && !remaining.contains(id) implies #[trigger] forced_win(
                recorded_winner(marked_after, id),
                id,
            ) by {
                assert(forced_win(recorded_winner(marked, id), id));
            }
            lemma_stack_waits(
                frames.push(frame),
                pass.first,
                false,
                remaining,
                marked_after,
                unchanged,
            );
        }
        stack.push(frame);
        None
    }
}

/// Hand the value that a call returned to the call that waits for it.
fn resume_call(
    next_state_eval: isize,
    remaining_states: &mut RoaringTreemap,
    seen_or_player_0_winning_states: &mut RoaringTreemap,
    stack: &mut Vec<Frame>,
    Ghost(pass): Ghost<Pass>,
) -> (returned: Option<isize>)
    requires
        old(stack).len() > 0,
        search_ok(
            pass,
            old(stack)@,
            None,
            Some(next_state_eval),
            members(*old(remaining_states)),
            members(*old(seen_or_player_0_winning_states)),
        ),
    ensures
        search_ok(
            pass,
            final(stack)@,
            None,
            returned,
            members(*final(remaining_states)),
            members(*final(seen_or_player_0_winning_states)),
        ),
        rank_less(
            search_rank(
                final(stack)@,
                None,
                returned,
                members(*final(remaining_states)),
                members(*final(seen_or_player_0_winning_states)),
            ),
            search_rank(
                old(stack)@,
                None,
                Some(next_state_eval),
                members(*old(remaining_states)),
                members(*old(seen_or_player_0_winning_states)),
            ),
        ),
{
    let ghost remaining = members(*remaining_states);
    let ghost marked = members(*seen_or_player_0_winning_states);
    let ghost frames = stack@;
    let ghost unchanged = pass.unchanged(remaining);
    proof {
        crate::graph::lemma_ids_finite(remaining.difference(marked));
        crate::radix::lemma_factor_chain(10);
        lemma_stack_waits(frames, pass.first, true, remaining, marked, unchanged);
        lemma_stack_top(frames, pass.first, true, remaining, marked, unchanged);
    }
    let mut frame: Frame = stack.pop().unwrap();
    let ghost popped = frame;
    let ghost rest = stack@;
    let next_player: isize = frame.state.get_next_player() as isize;

    if next_state_eval == -1 {
        // If one of the next states is a draw (or currently unknown win), the worst case is a draw.
        frame.eval = -1;
        proof {
            assert(frame_ok(frame, frame.next_index as int, remaining, marked, unchanged)) by {
                reveal(frame_ok);
                assert(remaining.contains(frame.next_states@[frame.next_index - 1].id));
            }
            lemma_stack_swap_top(
                frames,
                pass.first,
                true,
                false,
                remaining,
                marked,
                unchanged,
                frame,
            );
            if unchanged {
                lemma_seen_same_ids(frames, rest.push(frame), remaining, marked);
            }
        }
        stack.push(frame);
        None
    } else if next_state_eval == next_player {
        // Once a next state is winning for `next_player`, then the state is winning for `next_player`.
        let current_state_id: u64 = frame.state.get_id();

        // Update the bit-sets to define the state as winning for `next_player`.
        remaining_states.remove(current_state_id);
        if next_player != 0 {
            seen_or_player_0_winning_states.remove(current_state_id);
        }
        proof {
            let remaining_after = members(*remaining_states);
            let marked_after = members(*seen_or_player_0_winning_states);
            assert(remaining.contains(current_state_id) && marked.contains(current_state_id)) by {
                reveal(frame_ok);
            }
            lemma_frame_won(popped, pass.universe, remaining, marked, unchanged);
            if next_player == 0 {
                assert(marked_after =~= marked.insert(current_state_id));
            }
            lemma_sets_after_decision(
                pass.universe,
                remaining,
                marked,
                current_state_id,
                next_player as int,
                marked_after,
            );
            lemma_leave(pass, frames, true, remaining, marked, remaining_after, marked_after);
        }
        Some(next_player)
    } else {
        proof {
            assert(frame_ok(frame, frame.next_index as int, remaining, marked, unchanged)) by {
                reveal(frame_ok);
            }
            lemma_stack_swap_top(
                frames,
                pass.first,
                true,
                false,
                remaining,
                marked,
                unchanged,
                frame,
            );
            if unchanged {
                lemma_seen_same_ids(frames, rest.push(frame), remaining, marked);
            }
        }
        stack.push(frame);
        None
    }
}

/// The calls that keep running after the innermost one has classified its
/// state and returned.
proof fn lemma_leave(
    pass: Pass,
    stack: Seq<Frame>,
    pending: bool,
    remaining: Set<u64>,
    marked: Set<u64>,
    remaining_after: Set<u64>,
    marked_after: Set<u64>,
)
    requires
        stack.len() > 0,
        remaining.subset_of(pass.start),
        stack_ok(stack, pass.first, pending, remaining, marked, pass.unchanged(remaining)),
        remaining_after == remaining.remove(stack.last().state.id),
        marked_after == marked || marked_after == marked.remove(stack.last().state.id),
    ensures
        !pass.unchanged(remaining_after),
        stack_ok(stack.drop_last(), pass.first, true, remaining_after, marked_after, false),
        pending_id(stack.drop_last(), pass.first) == stack.last().state.id,
        stack.len() > 1 ==> stack.drop_last().last().next_index >= 1,
        left_on_top(stack.drop_last()) >= 0,
{
    let unchanged = pass.unchanged(remaining);
    let id = stack.last().state.id;
    let rest = stack.drop_last();
    lemma_stack_ids(stack, pass.first, pending, remaining, marked, unchanged);
    assert(stack[stack.len() - 1].state.id == id);
    assert(on_stack(stack, id));
    assert(!remaining_after.contains(id));
    lemma_stack_top(stack, pass.first, pending, remaining, marked, unchanged);
    lemma_stack_waits(stack, pass.first, pending, remaining, marked, unchanged);
    lemma_stack_pop(stack, pass.first, pending, remaining, marked, unchanged);
    lemma_stack_ids(rest, pass.first, true, remaining, marked, unchanged);
    lemma_stack_stays(
        rest,
        pass.first,
        true,
        remaining,
        marked,
        unchanged,
        remaining_after,
        marked_after,
        false,
    );
    lemma_stack_waits(rest, pass.first, true, remaining_after, marked_after, false);
    if stack.len() > 1 {
        assert(rest.last() == stack[stack.len() - 2]);
    }
}

/// Let the innermost call go on: hand out its next state, or return once
/// all are evaluated.
fn advance_call(
    remaining_states: &mut RoaringTreemap,
    seen_or_player_0_winning_states: &mut RoaringTreemap,
    stack: &mut Vec<Frame>,
    Ghost(pass): Ghost<Pass>,
) -> (step: (Option<BoardState>, Option<isize>))
    requires
        search_ok(
            pass,
            old(stack)@,
            None,
            None,
            members(*old(remaining_states)),
            members(*old(seen_or_player_0_winning_states)),
        ),
    ensures
        search_ok(
            pass,
            final(stack)@,
            step.0,
            step.1,
            members(*final(remaining_states)),
            members(*final(seen_or_player_0_winning_states)),
        ),
        rank_less(
            search_rank(
                final(stack)@,
                step.0,
                step.1,
                members(*final(remaining_states)),
                members(*final(seen_or_player_0_winning_states)),
            ),
            search_rank(
                old(stack)@,
                None,
                None,
                members(*old(remaining_states)),
                members(*old(seen_or_player_0_winning_states)),
            ),
        ),
{
    let ghost remaining = members(*remaining_states);
    let ghost marked = members(*seen_or_player_0_winning_states);
    let ghost frames = stack@;
    let ghost unchanged = pass.unchanged(remaining);
    proof {
        crate::graph::lemma_ids_finite(remaining.difference(marked));
        crate::radix::lemma_factor_chain(10);
        lemma_stack_waits(frames, pass.first, false, remaining, marked, unchanged);
        lemma_stack_top(frames, pass.first, false, remaining, marked, unchanged);
    }
    let mut frame: Frame = stack.pop().unwrap();
    let ghost popped = frame;
    let ghost rest = stack@;
    proof {
        assert(frame.next_index <= frame.next_states.len() && remaining.contains(frame.state.id)
            && marked.contains(frame.state.id) && frame.state.wf()) by {
            reveal(frame_ok);
        }
    }

    if frame.next_index < frame.next_states.len() {
        // Explore the next state.
        let next_state: BoardState = frame.next_states[frame.next_index];
        frame.next_index += 1;
        proof {
            assert(frame_ok(frame, frame.next_index - 1, remaining, marked, unchanged)
                && next_state.wf()) by {
                reveal(frame_ok);
            }
            lemma_stack_swap_top(
                frames,
                pass.first,
                false,
                true,
                remaining,
                marked,
                unchanged,
                frame,
            );
            if unchanged {
                lemma_seen_same_ids(frames, rest.push(frame), remaining, marked);
            }
            assert(pass.universe.contains(next_state.id)) by {
                reveal(frame_ok);
                lemma_next_state_is_move(
                    popped.state,
                    popped.next_states@,
                    popped.next_index as int,
                );
                assert(is_move(popped.state.id, next_state.id));
            }
        }
        stack.push(frame);
        (Some(next_state), None)
    } else {
        let next_player: isize = frame.state.get_next_player() as isize;
        let last_player: isize = 1 - next_player;
        let current_state_id: u64 = frame.state.get_id();

        if frame.eval == last_player {
            // Update the bit-sets to define the state as loosing for `next_player`.
            remaining_states.remove(current_state_id);
            if next_player == 0 {
                seen_or_player_0_winning_states.remove(current_state_id);
            }
            proof {
                let remaining_after = members(*remaining_states);
                let marked_after = members(*seen_or_player_0_winning_states);
                lemma_frame_lost(popped, pass.universe, remaining, marked, unchanged);
                if next_player != 0 {
                    assert(marked_after =~= marked.insert(current_state_id));
                }
                lemma_sets_after_decision(
                    pass.universe,
                    remaining,
                    marked,
                    current_state_id,
                    last_player as int,
                    marked_after,
                );
                lemma_leave(pass, frames, false, remaining, marked, remaining_after, marked_after);
            }
        } else {
            proof {
                assert(frame.eval == -1) by {
                    reveal(frame_ok);
                }
                lemma_stack_pop(frames, pass.first, false, remaining, marked, unchanged);
                lemma_stack_waits(rest, pass.first, true, remaining, marked, unchanged);
                if unchanged {
                    lemma_frame_settled(popped, remaining, marked);
                    lemma_seen_same_ids(frames, rest, remaining, marked);
                }
            }
        }
        (None, Some(frame.eval))
    }
}

/// From `current_state`, scan `remaining_states` depth first to find new winning states and mark winning states of player 0
///
/// The return value corresponds to the winning player of `current_state`. The value is -1 for a draw (or when the winner is currently unknown).
/// Since loops can occur in a game, some winning states will only be found after calling this function multiple times for the same `current_state`.
/// The calls that have not returned wait on a stack, so the depth of the
/// game graph does not matter.
pub(crate) fn collect_winning_states_recursively(
    current_state: BoardState,
    remaining_states: &mut RoaringTreemap,
    seen_or_player_0_winning_states: &mut RoaringTreemap,
    Ghost(universe): Ghost<Set<u64>>,
) -> (eval: isize)
    requires
        current_state.wf(),
        universe.contains(current_state.id),
        sets_ok(
            universe,
            members(*old(remaining_states)),
            members(*old(seen_or_player_0_winning_states)),
        ),
    ensures
        sets_ok(
            universe,
            members(*final(remaining_states)),
            members(*final(seen_or_player_0_winning_states)),
        ),
        members(*final(remaining_states)).subset_of(members(*old(remaining_states))),
        -1 <= eval <= 1,
        describes(
            members(*final(remaining_states)),
            members(*final(seen_or_player_0_winning_states)),
            current_state.id,
            eval as int,
        ),
        forall|id: u64|
            #![trigger members(*final(seen_or_player_0_winning_states)).contains(id)]
            members(*final(remaining_states)).contains(id) && (members(
                *old(seen_or_player_0_winning_states),
            ).contains(id) || id == current_state.id) ==> members(
                *final(seen_or_player_0_winning_states),
            ).contains(id),
        members(*final(remaining_states)) == members(*old(remaining_states)) && all_seen_settled(
            members(*old(remaining_states)),
            members(*old(seen_or_player_0_winning_states)),
        ) ==> all_seen_settled(
            members(*final(remaining_states)),
            members(*final(seen_or_player_0_winning_states)),
        ),
{
    let ghost pass = Pass {
        universe,
        first: current_state.id,
        start: members(*remaining_states),
        marked_at_start: members(*seen_or_player_0_winning_states),
    };
    let mut stack: Vec<Frame> = Vec::new();
    let mut entering: Option<BoardState> = Some(current_state);
    let mut returned: Option<isize> = None;

    proof {
        assert(stack_ok(
            stack@,
            pass.first,
            true,
            pass.start,
            pass.marked_at_start,
            pass.unchanged(pass.start),
        )) by {
            reveal(stack_ok);
        }
        lemma_seen_all(pass.start, pass.marked_at_start);
    }
    loop
        invariant
            search_ok(
                pass,
                stack@,
                entering,
                returned,
                members(*remaining_states),
                members(*seen_or_player_0_winning_states),
            ),
            pass.first == current_state.id,
            pass.universe == universe,
            pass.start == members(*old(remaining_states)),
            pass.marked_at_start == members(*old(seen_or_player_0_winning_states)),
        decreases
                search_rank(
                    stack@,
                    entering,
                    returned,
                    members(*remaining_states),
                    members(*seen_or_player_0_winning_states),
                ).0,
                search_rank(
                    stack@,
                    entering,
                    returned,
                    members(*remaining_states),
                    members(*seen_or_player_0_winning_states),
                ).1,
                search_rank(
                    stack@,
                    entering,
                    returned,
                    members(*remaining_states),
                    members(*seen_or_player_0_winning_states),
                ).2,
                search_rank(
                    stack@,
                    entering,
                    returned,
                    members(*remaining_states),
                    members(*seen_or_player_0_winning_states),
                ).3,
    {
        if let Some(state) = entering {
            entering = None;
            returned =
            enter_state(
                state,
                remaining_states,
                seen_or_player_0_winning_states,
                &mut stack,
                Ghost(pass),
            );
        } else if let Some(next_state_eval) = returned {
            if stack.len() == 0 {
                proof {
                    lemma_seen_all(
                        members(*remaining_states),
                        members(*seen_or_player_0_winning_states),
                    );
                    assert(stack@ =~= Seq::<Frame>::empty());
                }
                return next_state_eval;
            }
            returned =
            resume_call(
                next_state_eval,
                remaining_states,
                seen_or_player_0_winning_states,
                &mut stack,
                Ghost(pass),
            );
        } else {
            let step = advance_call(
                remaining_states,
                seen_or_player_0_winning_states,
                &mut stack,
                Ghost(pass),
            );
            entering = step.0;
            returned = step.1;
        }
    }
}

} // verus!
