//! The canonical path of a preflop history, as a mathematical definition.
//!
//! An action sequence lists the seats that put money in before the flop, in
//! the order in which they acted. Its canonical path holds every listed seat
//! followed by its action, and, behind each step of the action from one listed
//! seat to the next, a `fold` entry for every seat that was passed over after
//! it had raised. Seats that are passed over without having raised leave no
//! trace. The action of every seat but the last is the one that the action
//! repository records for it; the last seat closes the action with a call.

use vstd::prelude::*;
use crate::path::SegmentView;
use crate::position::{skipped_between, Position};

verus! {

/// Whether an action with this name is a raise: any action that is not
/// `call`, `allin` or `fold`.
pub open spec fn is_raise(action: Seq<char>) -> bool {
    action != "call"@ && action != "allin"@ && action != "fold"@
}

/// One entry of a path: a seat and the action it took.
pub struct PathEntry {
    pub seat: Position,
    pub action: Seq<char>,
}

/// The segments that spell out `entries`: for each entry its seat, then its
/// action.
pub open spec fn segments_of(entries: Seq<PathEntry>) -> Seq<SegmentView> {
    Seq::new(
        2 * entries.len(),
        |j: int|
            if j % 2 == 0 {
                SegmentView::Seat(entries[j / 2].seat)
            } else {
                SegmentView::Action(entries[j / 2].action)
            },
    )
}

/// The seats that raised among the first `count` seats of the sequence, where
/// `actions[k]` is the action of `sequence[k]`.
pub open spec fn raised_seats(
    sequence: Seq<Position>,
    actions: Seq<Seq<char>>,
    count: int,
) -> Set<Position> {
    Set::new(
        |p: Position|
            exists|k: int|
                0 <= k < count && #[trigger] sequence[k] == p && is_raise(actions[k]),
    )
}

/// Of the seats in `skipped`, those that are in `raised`, in the same order.
pub open spec fn folded_seats(skipped: Seq<Position>, raised: Set<Position>) -> Seq<Position> {
    skipped.filter(|p: Position| raised.contains(p))
}

/// A `fold` entry for each of `seats`.
pub open spec fn fold_entries_of(seats: Seq<Position>) -> Seq<PathEntry> {
    seats.map_values(|p: Position| PathEntry { seat: p, action: "fold"@ })
}

/// The implicit folds of one step of the action: a `fold` entry for every seat
/// passed over between `current` and `next` that is in `raised`.
pub open spec fn fold_entries(current: Position, next: Position, raised: Set<Position>) -> Seq<
    PathEntry,
> {
    fold_entries_of(folded_seats(skipped_between(current, next), raised))
}

/// The entries that the first `count` seats of the sequence contribute: each
/// seat with its action, followed by the folds of the step to the next seat.
/// A seat that raises counts as raised for the folds of its own step.
pub open spec fn entries_before(
    sequence: Seq<Position>,
    actions: Seq<Seq<char>>,
    count: int,
) -> Seq<PathEntry>
    decreases count,
{
    if count <= 0 {
        Seq::empty()
    } else {
        entries_before(sequence, actions, count - 1).push(
            PathEntry { seat: sequence[count - 1], action: actions[count - 1] },
        ) + fold_entries(
            sequence[count - 1],
            sequence[count],
            raised_seats(sequence, actions, count),
        )
    }
}

/// The path under which the action of seat number `count` is looked up: the
/// entries of the seats before it, then the seat itself.
pub open spec fn lookup_path(
    sequence: Seq<Position>,
    actions: Seq<Seq<char>>,
    count: int,
) -> Seq<SegmentView> {
    segments_of(entries_before(sequence, actions, count)).push(SegmentView::Seat(sequence[count]))
}

/// The entries of the canonical path: those of all seats but the last, then
/// the last seat with the closing `call`.
pub open spec fn canonical_entries(sequence: Seq<Position>, actions: Seq<Seq<char>>) -> Seq<
    PathEntry,
> {
    entries_before(sequence, actions, sequence.len() - 1).push(
        PathEntry { seat: sequence.last(), action: "call"@ },
    )
}

/// The canonical path of `sequence`, where `actions[k]` is the action that the
/// repository records for `sequence[k]`, for every seat but the last.
pub open spec fn canonical_path(sequence: Seq<Position>, actions: Seq<Seq<char>>) -> Seq<
    SegmentView,
> {
    segments_of(canonical_entries(sequence, actions))
}

/// Of two seats the one that acts first after the flop.
pub open spec fn out_of_position(a: Position, b: Position) -> Position {
    if a.spec_postflop_order() < b.spec_postflop_order() {
        a
    } else {
        b
    }
}

/// Of two seats the one that acts last after the flop.
pub open spec fn in_position(a: Position, b: Position) -> Position {
    if a.spec_postflop_order() < b.spec_postflop_order() {
        b
    } else {
        a
    }
}

/// The two players are assigned by the postflop order: of two different
/// seats the one out of position has the lower order, the two assigned seats
/// are the two given ones, and the order in which they are given plays no
/// part.
pub proof fn lemma_assigned_by_postflop_order(a: Position, b: Position)
    requires
        a != b,
    ensures
        out_of_position(a, b).spec_postflop_order() < in_position(a, b).spec_postflop_order(),
        out_of_position(a, b) == a && in_position(a, b) == b || out_of_position(a, b) == b
            && in_position(a, b) == a,
        out_of_position(a, b) == out_of_position(b, a),
        in_position(a, b) == in_position(b, a),
{
}

/// Spelling out entries one after another is spelling out the whole.
pub proof fn lemma_segments_of_add(a: Seq<PathEntry>, b: Seq<PathEntry>)
    ensures
        segments_of(a + b) == segments_of(a) + segments_of(b),
{
    assert(segments_of(a + b) =~= segments_of(a) + segments_of(b));
}

/// Spelling out one more entry adds its seat and its action.
pub proof fn lemma_segments_of_push(a: Seq<PathEntry>, e: PathEntry)
    ensures
        segments_of(a.push(e)) == segments_of(a).push(SegmentView::Seat(e.seat)).push(
            SegmentView::Action(e.action),
        ),
{
    assert(segments_of(a.push(e)) =~= segments_of(a).push(SegmentView::Seat(e.seat)).push(
        SegmentView::Action(e.action),
    ));
}

/// The seats that raised among the first `count + 1` are those among the
/// first `count`, and seat number `count` if its action is a raise.
pub proof fn lemma_raised_seats_step(sequence: Seq<Position>, actions: Seq<Seq<char>>, count: int)
    requires
        0 <= count,
    ensures
        raised_seats(sequence, actions, count + 1) == if is_raise(actions[count]) {
            raised_seats(sequence, actions, count).insert(sequence[count])
        } else {
            raised_seats(sequence, actions, count)
        },
        raised_seats(sequence, actions, 0) == Set::<Position>::empty(),
{
    let before = raised_seats(sequence, actions, count);
    let after = raised_seats(sequence, actions, count + 1);
    let expected = if is_raise(actions[count]) {
        before.insert(sequence[count])
    } else {
        before
    };
    assert forall|p: Position| after.contains(p) == expected.contains(p) by {
        if after.contains(p) {
            let k = choose|k: int|
                0 <= k < count + 1 && #[trigger] sequence[k] == p && is_raise(actions[k]);
            if k < count {
                assert(0 <= k < count && sequence[k] == p && is_raise(actions[k]));
            }
        }
        if expected.contains(p) {
            if before.contains(p) {
                let k = choose|k: int|
                    0 <= k < count && #[trigger] sequence[k] == p && is_raise(actions[k]);
                assert(0 <= k < count + 1 && sequence[k] == p && is_raise(actions[k]));
            } else {
                assert(0 <= count < count + 1 && sequence[count] == p && is_raise(
                    actions[count],
                ));
            }
        }
    }
    assert(after =~= expected);
    assert(raised_seats(sequence, actions, 0) =~= Set::<Position>::empty());
}

/// One more skipped seat adds a fold exactly when that seat has raised.
pub proof fn lemma_folded_seats_step(skipped: Seq<Position>, raised: Set<Position>, k: int)
    requires
        0 <= k < skipped.len(),
    ensures
        folded_seats(skipped.take(k + 1), raised) == if raised.contains(skipped[k]) {
            folded_seats(skipped.take(k), raised).push(skipped[k])
        } else {
            folded_seats(skipped.take(k), raised)
        },
{
    reveal(Seq::filter);
    assert(skipped.take(k + 1).drop_last() =~= skipped.take(k));
    assert(skipped.take(k + 1).last() == skipped[k]);
}

/// Where no seat is skipped, none folds.
pub proof fn lemma_folded_seats_none(skipped: Seq<Position>, raised: Set<Position>)
    ensures
        folded_seats(skipped.take(0), raised) == Seq::<Position>::empty(),
{
    reveal(Seq::filter);
    assert(skipped.take(0).len() == 0);
    assert(folded_seats(skipped.take(0), raised) =~= Seq::<Position>::empty());
}

/// The entries of the first `count` seats depend on the first `count` answers
/// only.
pub proof fn lemma_entries_ignore_later_answers(
    sequence: Seq<Position>,
    a: Seq<Seq<char>>,
    b: Seq<Seq<char>>,
    count: int,
)
    requires
        0 <= count <= a.len(),
        count <= b.len(),
        forall|k: int| 0 <= k < count ==> a[k] == b[k],
    ensures
        entries_before(sequence, a, count) == entries_before(sequence, b, count),
        raised_seats(sequence, a, count) == raised_seats(sequence, b, count),
    decreases count,
{
    assert(raised_seats(sequence, a, count) =~= raised_seats(sequence, b, count)) by {
        assert forall|p: Position|
            raised_seats(sequence, a, count).contains(p) == raised_seats(
                sequence,
                b,
                count,
            ).contains(p) by {
            if raised_seats(sequence, a, count).contains(p) {
                let k = choose|k: int|
                    0 <= k < count && #[trigger] sequence[k] == p && is_raise(a[k]);
                assert(0 <= k < count && sequence[k] == p && is_raise(b[k]));
            }
            if raised_seats(sequence, b, count).contains(p) {
                let k = choose|k: int|
                    0 <= k < count && #[trigger] sequence[k] == p && is_raise(b[k]);
                assert(0 <= k < count && sequence[k] == p && is_raise(a[k]));
            }
        }
    }
    if count > 0 {
        lemma_entries_ignore_later_answers(sequence, a, b, count - 1);
    }
}

/// While a sequence is resolved its path only grows: the path under which one
/// seat's action is looked up starts the path of the next lookup and the
/// canonical path.
pub proof fn lemma_lookup_path_grows(sequence: Seq<Position>, actions: Seq<Seq<char>>, count: int)
    requires
        0 <= count < sequence.len() - 1,
    ensures
        lookup_path(sequence, actions, count).is_prefix_of(
            lookup_path(sequence, actions, count + 1),
        ),
        lookup_path(sequence, actions, count).is_prefix_of(canonical_path(sequence, actions)),
    decreases sequence.len() - count,
{
    let here = entries_before(sequence, actions, count);
    let entry = PathEntry { seat: sequence[count], action: actions[count] };
    let folds = fold_entries(
        sequence[count],
        sequence[count + 1],
        raised_seats(sequence, actions, count + 1),
    );
    let next = entries_before(sequence, actions, count + 1);
    assert(next == here.push(entry) + folds);
    lemma_segments_of_add(here.push(entry), folds);
    lemma_segments_of_push(here, entry);
    let shown = lookup_path(sequence, actions, count);
    let longer = lookup_path(sequence, actions, count + 1);
    assert(shown.len() <= longer.len());
    assert(shown =~= longer.subrange(0, shown.len() as int));
    if count + 1 < sequence.len() - 1 {
        lemma_lookup_path_grows(sequence, actions, count + 1);
    } else {
        lemma_segments_of_push(next, PathEntry { seat: sequence.last(), action: "call"@ });
        let whole = canonical_path(sequence, actions);
        assert(longer =~= whole.subrange(0, longer.len() as int));
    }
    let whole = canonical_path(sequence, actions);
    assert(shown =~= whole.subrange(0, shown.len() as int));
}

} // verus!
