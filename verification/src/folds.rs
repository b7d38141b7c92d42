//! Where the folds in a canonical path come from.
//!
//! A seat folds in the path where the repository records a fold for it, and
//! where it is passed over after it has raised; nowhere else. The lemmas of
//! this module count the folds of a seat and draw the consequences.

use vstd::prelude::*;
use crate::canonical::{
    canonical_entries, canonical_path, entries_before, fold_entries, fold_entries_of,
    folded_seats, is_raise, lemma_folded_seats_none, lemma_folded_seats_step, raised_seats,
    segments_of, PathEntry,
};
use crate::path::SegmentView;
use crate::position::{lemma_skipped_distinct, lemma_skipped_walk, skipped_between, Position};

verus! {

/// How often `entries` holds the entry of `seat` folding.
pub open spec fn fold_count(entries: Seq<PathEntry>, seat: Position) -> nat
    decreases entries.len(),
{
    if entries.len() == 0 {
        0
    } else {
        let last = entries.last();
        fold_count(entries.drop_last(), seat) + if last.seat == seat && last.action == "fold"@ {
            1nat
        } else {
            0nat
        }
    }
}

/// Folds are counted entry by entry.
pub proof fn lemma_fold_count_add(a: Seq<PathEntry>, b: Seq<PathEntry>, seat: Position)
    ensures
        fold_count(a + b, seat) == fold_count(a, seat) + fold_count(b, seat),
    decreases b.len(),
{
    if b.len() == 0 {
        assert(a + b =~= a);
    } else {
        assert((a + b).drop_last() =~= a + b.drop_last());
        assert((a + b).last() == b.last());
        lemma_fold_count_add(a, b.drop_last(), seat);
    }
}

/// One more entry adds a fold of `seat` exactly when it is one.
pub proof fn lemma_fold_count_push(a: Seq<PathEntry>, e: PathEntry, seat: Position)
    ensures
        fold_count(a.push(e), seat) == fold_count(a, seat) + if e.seat == seat && e.action
            == "fold"@ {
            1nat
        } else {
            0nat
        },
{
    assert(a.push(e).drop_last() =~= a);
    assert(a.push(e).last() == e);
}

/// Whether the segments of `path` at `at` and behind it are `seat` and `fold`.
pub open spec fn is_fold_pair(path: Seq<SegmentView>, seat: Position, at: int) -> bool {
    &&& 0 <= at
    &&& at + 1 < path.len()
    &&& path[at] == SegmentView::Seat(seat)
    &&& path[at + 1] == SegmentView::Action("fold"@)
}

/// At how many of the first `upto` places of `path` the segment pair `seat`,
/// `fold` stands.
pub open spec fn fold_pairs(path: Seq<SegmentView>, seat: Position, upto: int) -> nat
    decreases upto,
{
    if upto <= 0 {
        0
    } else {
        fold_pairs(path, seat, upto - 1) + if is_fold_pair(path, seat, upto - 1) {
            1nat
        } else {
            0nat
        }
    }
}

/// Counting the pairs `seat`, `fold` among the segments of a path is counting
/// the entries in which `seat` folds.
pub proof fn lemma_fold_pairs_are_entries(entries: Seq<PathEntry>, seat: Position)
    ensures
        fold_pairs(segments_of(entries), seat, segments_of(entries).len() as int) == fold_count(
            entries,
            seat,
        ),
{
    lemma_fold_pairs_upto(entries, seat, entries.len() as int);
    assert(entries.take(entries.len() as int) =~= entries);
}

/// The pairs among the segments of the first `count` entries are the folds
/// among those entries.
proof fn lemma_fold_pairs_upto(entries: Seq<PathEntry>, seat: Position, count: int)
    requires
        0 <= count <= entries.len(),
    ensures
        fold_pairs(segments_of(entries), seat, 2 * count) == fold_count(entries.take(count), seat),
    decreases count,
{
    let path = segments_of(entries);
    if count > 0 {
        let at = count - 1;
        lemma_fold_pairs_upto(entries, seat, at);
        assert(entries.take(count).drop_last() =~= entries.take(at));
        assert(entries.take(count).last() == entries[at]);
        assert(path[2 * at] == SegmentView::Seat(entries[at].seat));
        assert(path[2 * at + 1] == SegmentView::Action(entries[at].action));
        assert(!is_fold_pair(path, seat, 2 * at + 1)) by {
            if 2 * at + 2 < path.len() {
                assert(path[2 * at + 1] is Action);
            }
        }
        assert(is_fold_pair(path, seat, 2 * at) <==> (entries[at].seat == seat
            && entries[at].action == "fold"@));
        let even: nat = if is_fold_pair(path, seat, 2 * at) {
            1
        } else {
            0
        };
        assert(fold_pairs(path, seat, 2 * at + 1) == fold_pairs(path, seat, 2 * at) + even);
        assert(fold_pairs(path, seat, 2 * at + 2) == fold_pairs(path, seat, 2 * at + 1));
    } else {
        assert(entries.take(0) =~= Seq::<PathEntry>::empty());
    }
}

/// Among the folds of the first `upto` skipped seats, `seat` folds once if
/// it is one of those seats and has raised, and not at all otherwise.
proof fn lemma_fold_count_of_step(
    current: Position,
    next: Position,
    raised: Set<Position>,
    seat: Position,
    upto: int,
)
    requires
        0 <= upto <= skipped_between(current, next).len(),
    ensures
        fold_count(
            fold_entries_of(folded_seats(skipped_between(current, next).take(upto), raised)),
            seat,
        ) == if skipped_between(current, next).take(upto).contains(seat) && raised.contains(seat) {
            1nat
        } else {
            0nat
        },
    decreases upto,
{
    let skipped = skipped_between(current, next);
    if upto == 0 {
        lemma_folded_seats_none(skipped, raised);
        assert(fold_entries_of(Seq::<Position>::empty()) =~= Seq::<PathEntry>::empty());
        assert(!skipped.take(0).contains(seat));
    } else {
        lemma_fold_count_of_step(current, next, raised, seat, upto - 1);
        lemma_folded_seats_step(skipped, raised, upto - 1);
        let before = folded_seats(skipped.take(upto - 1), raised);
        let added = skipped[upto - 1];
        let shorter = skipped.take(upto - 1);
        let longer = skipped.take(upto);
        assert(longer =~= shorter.push(added));
        assert(longer.contains(seat) <==> (shorter.contains(seat) || added == seat)) by {
            if shorter.contains(seat) {
                let at = choose|at: int| 0 <= at < shorter.len() && #[trigger] shorter[at] == seat;
                assert(longer[at] == seat);
            }
            if added == seat {
                assert(longer[upto - 1] == seat);
            }
        }
        if shorter.contains(seat) {
            let at = choose|at: int| 0 <= at < shorter.len() && #[trigger] shorter[at] == seat;
            lemma_skipped_distinct(current, next, at, upto - 1);
        }
        if raised.contains(added) {
            let entry = PathEntry { seat: added, action: "fold"@ };
            assert(fold_entries_of(before.push(added)) =~= fold_entries_of(before).push(entry));
            lemma_fold_count_push(fold_entries_of(before), entry, seat);
        }
    }
}

/// How many folds of `seat` the seat at `at` and the step from it to the next
/// seat contribute to the path: one if the seat at `at` is `seat` and its
/// recorded action is a fold, and one if the step passes over `seat` after it
/// has raised.
pub open spec fn folds_in_step(
    sequence: Seq<Position>,
    actions: Seq<Seq<char>>,
    seat: Position,
    at: int,
) -> nat {
    let recorded: nat = if sequence[at] == seat && actions[at] == "fold"@ {
        1
    } else {
        0
    };
    let implied: nat = if skipped_between(sequence[at], sequence[at + 1]).contains(seat)
        && raised_seats(sequence, actions, at + 1).contains(seat) {
        1
    } else {
        0
    };
    recorded + implied
}

/// How many folds of `seat` the first `count` seats and their steps contribute.
pub open spec fn folds_before(
    sequence: Seq<Position>,
    actions: Seq<Seq<char>>,
    seat: Position,
    count: int,
) -> nat
    decreases count,
{
    if count <= 0 {
        0
    } else {
        folds_before(sequence, actions, seat, count - 1) + folds_in_step(
            sequence,
            actions,
            seat,
            count - 1,
        )
    }
}

/// Every fold in the path is accounted for: a seat folds in the entries of the
/// first `count` seats as often as it is recorded to fold or is passed over
/// after a raise.
pub proof fn lemma_folds_before(
    sequence: Seq<Position>,
    actions: Seq<Seq<char>>,
    seat: Position,
    count: int,
)
    ensures
        fold_count(entries_before(sequence, actions, count), seat) == folds_before(
            sequence,
            actions,
            seat,
            count,
        ),
    decreases count,
{
    if count > 0 {
        let at = count - 1;
        lemma_folds_before(sequence, actions, seat, at);
        let before = entries_before(sequence, actions, at);
        let entry = PathEntry { seat: sequence[at], action: actions[at] };
        let raised = raised_seats(sequence, actions, count);
        let skipped = skipped_between(sequence[at], sequence[at + 1]);
        let folds = fold_entries(sequence[at], sequence[at + 1], raised);
        lemma_fold_count_push(before, entry, seat);
        lemma_fold_count_add(before.push(entry), folds, seat);
        lemma_fold_count_of_step(sequence[at], sequence[at + 1], raised, seat, skipped.len() as int);
        assert(skipped.take(skipped.len() as int) =~= skipped);
    }
}

/// In the canonical path a seat folds as often as it is recorded to fold or
/// is passed over after a raise, and never otherwise: the closing call is no
/// fold.
pub proof fn lemma_folds_accounted(
    sequence: Seq<Position>,
    actions: Seq<Seq<char>>,
    seat: Position,
)
    ensures
        fold_count(canonical_entries(sequence, actions), seat) == folds_before(
            sequence,
            actions,
            seat,
            sequence.len() - 1,
        ),
{
    lemma_folds_before(sequence, actions, seat, sequence.len() - 1);
    reveal_strlit("call");
    reveal_strlit("fold");
    assert("call"@[0] != "fold"@[0]);
    lemma_fold_count_push(
        entries_before(sequence, actions, sequence.len() - 1),
        PathEntry { seat: sequence.last(), action: "call"@ },
        seat,
    );
}

/// A sequence of two seats resolves to the first seat with its recorded
/// action and the second seat with the closing call. No fold is inserted,
/// whichever seats lie between the two and whatever the first seat did: none
/// of the seats between them has acted.
pub proof fn lemma_two_seats_no_fold(sequence: Seq<Position>, actions: Seq<Seq<char>>)
    requires
        sequence.len() == 2,
        actions.len() == 1,
    ensures
        fold_entries(sequence[0], sequence[1], raised_seats(sequence, actions, 1)) == Seq::<
            PathEntry,
        >::empty(),
        canonical_path(sequence, actions) == seq![
            SegmentView::Seat(sequence[0]),
            SegmentView::Action(actions[0]),
            SegmentView::Seat(sequence[1]),
            SegmentView::Action("call"@),
        ],
{
    let first = PathEntry { seat: sequence[0], action: actions[0] };
    lemma_first_step_without_folds(sequence, actions);
    assert(entries_before(sequence, actions, 0) =~= Seq::<PathEntry>::empty());
    assert(entries_before(sequence, actions, 1) =~= seq![first]);
    assert(canonical_entries(sequence, actions) =~= seq![
        first,
        PathEntry { seat: sequence[1], action: "call"@ },
    ]);
    assert(canonical_path(sequence, actions) =~= seq![
        SegmentView::Seat(sequence[0]),
        SegmentView::Action(actions[0]),
        SegmentView::Seat(sequence[1]),
        SegmentView::Action("call"@),
    ]);
}

/// Where no seat that is skipped in the step from seat `at` to the next has
/// raised by then, the step inserts no fold.
pub proof fn lemma_step_without_folds(sequence: Seq<Position>, actions: Seq<Seq<char>>, at: int)
    requires
        0 <= at,
        forall|k: int|
            0 <= k < skipped_between(sequence[at], sequence[at + 1]).len() ==> !raised_seats(
                sequence,
                actions,
                at + 1,
            ).contains(#[trigger] skipped_between(sequence[at], sequence[at + 1])[k]),
    ensures
        fold_entries(sequence[at], sequence[at + 1], raised_seats(sequence, actions, at + 1))
            == Seq::<PathEntry>::empty(),
{
    let skipped = skipped_between(sequence[at], sequence[at + 1]);
    let raised = raised_seats(sequence, actions, at + 1);
    lemma_no_fold_upto(skipped, raised, skipped.len() as int);
    assert(skipped.take(skipped.len() as int) =~= skipped);
    assert(fold_entries_of(Seq::<Position>::empty()) =~= Seq::<PathEntry>::empty());
}

/// Of seats that have not raised none folds.
proof fn lemma_no_fold_upto(skipped: Seq<Position>, raised: Set<Position>, upto: int)
    requires
        0 <= upto <= skipped.len(),
        forall|k: int| 0 <= k < skipped.len() ==> !raised.contains(#[trigger] skipped[k]),
    ensures
        folded_seats(skipped.take(upto), raised) == Seq::<Position>::empty(),
    decreases upto,
{
    if upto == 0 {
        lemma_folded_seats_none(skipped, raised);
    } else {
        lemma_no_fold_upto(skipped, raised, upto - 1);
        lemma_folded_seats_step(skipped, raised, upto - 1);
    }
}

/// The first step of a sequence inserts no fold: only the first seat can have
/// raised by then, and it is not among the seats skipped after it.
proof fn lemma_first_step_without_folds(sequence: Seq<Position>, actions: Seq<Seq<char>>)
    ensures
        fold_entries(sequence[0], sequence[1], raised_seats(sequence, actions, 1)) == Seq::<
            PathEntry,
        >::empty(),
{
    let skipped = skipped_between(sequence[0], sequence[1]);
    assert forall|k: int| 0 <= k < skipped.len() implies !raised_seats(
        sequence,
        actions,
        1,
    ).contains(#[trigger] skipped[k]) by {
        lemma_skipped_walk(sequence[0], sequence[1], k);
    }
    lemma_step_without_folds(sequence, actions, 0);
}

/// A seat that never raises and is never recorded to fold does not fold in
/// the canonical path, however often it is passed over.
pub proof fn lemma_no_fold_without_raise(
    sequence: Seq<Position>,
    actions: Seq<Seq<char>>,
    seat: Position,
)
    requires
        forall|k: int|
            0 <= k < sequence.len() - 1 && #[trigger] sequence[k] == seat ==> !is_raise(actions[k])
                && actions[k] != "fold"@,
    ensures
        fold_count(canonical_entries(sequence, actions), seat) == 0,
        fold_pairs(
            canonical_path(sequence, actions),
            seat,
            canonical_path(sequence, actions).len() as int,
        ) == 0,
{
    lemma_folds_accounted(sequence, actions, seat);
    lemma_no_folds_before(sequence, actions, seat, sequence.len() - 1);
    lemma_fold_pairs_are_entries(canonical_entries(sequence, actions), seat);
}

/// Up to any seat, a seat that never raises and is never recorded to fold has
/// not folded.
proof fn lemma_no_folds_before(
    sequence: Seq<Position>,
    actions: Seq<Seq<char>>,
    seat: Position,
    count: int,
)
    requires
        count <= sequence.len() - 1,
        forall|k: int|
            0 <= k < sequence.len() - 1 && #[trigger] sequence[k] == seat ==> !is_raise(actions[k])
                && actions[k] != "fold"@,
    ensures
        folds_before(sequence, actions, seat, count) == 0,
    decreases count,
{
    if count > 0 {
        lemma_no_folds_before(sequence, actions, seat, count - 1);
        if raised_seats(sequence, actions, count).contains(seat) {
            let k = choose|k: int|
                0 <= k < count && #[trigger] sequence[k] == seat && is_raise(actions[k]);
            assert(false);
        }
    }
}

/// A seat that raises and is passed over in exactly one later step of the
/// action folds exactly once in the canonical path.
///
/// `raiser` is the seat at `raised_at`, and its action there is a raise. The
/// step from the seat at `skipped_at` to the next, later in the sequence,
/// passes over it, and no other step of the sequence does. Wherever the seat
/// acts itself, its recorded action is not a fold.
pub proof fn lemma_skipped_raiser_folds_once(
    sequence: Seq<Position>,
    actions: Seq<Seq<char>>,
    raiser: Position,
    raised_at: int,
    skipped_at: int,
)
    requires
        sequence.len() >= 2,
        actions.len() == sequence.len() - 1,
        0 <= raised_at < skipped_at < sequence.len() - 1,
        sequence[raised_at] == raiser,
        is_raise(actions[raised_at]),
        forall|j: int|
            0 <= j < sequence.len() - 1 ==> (#[trigger] skipped_between(
                sequence[j],
                sequence[j + 1],
            ).contains(raiser) <==> j == skipped_at),
        forall|k: int|
            0 <= k < sequence.len() - 1 && #[trigger] sequence[k] == raiser ==> actions[k]
                != "fold"@,
    ensures
        fold_count(canonical_entries(sequence, actions), raiser) == 1,
        fold_pairs(
            canonical_path(sequence, actions),
            raiser,
            canonical_path(sequence, actions).len() as int,
        ) == 1,
{
    lemma_folds_accounted(sequence, actions, raiser);
    lemma_one_fold_before(sequence, actions, raiser, raised_at, skipped_at, sequence.len() - 1);
    lemma_fold_pairs_are_entries(canonical_entries(sequence, actions), raiser);
}

/// Up to the step that passes over the raiser it has not folded; from there on
/// it has folded once.
proof fn lemma_one_fold_before(
    sequence: Seq<Position>,
    actions: Seq<Seq<char>>,
    raiser: Position,
    raised_at: int,
    skipped_at: int,
    count: int,
)
    requires
        sequence.len() >= 2,
        actions.len() == sequence.len() - 1,
        0 <= raised_at < skipped_at < sequence.len() - 1,
        sequence[raised_at] == raiser,
        is_raise(actions[raised_at]),
        forall|j: int|
            0 <= j < sequence.len() - 1 ==> (#[trigger] skipped_between(
                sequence[j],
                sequence[j + 1],
            ).contains(raiser) <==> j == skipped_at),
        forall|k: int|
            0 <= k < sequence.len() - 1 && #[trigger] sequence[k] == raiser ==> actions[k]
                != "fold"@,
        0 <= count <= sequence.len() - 1,
    ensures
        folds_before(sequence, actions, raiser, count) == if count > skipped_at {
            1nat
        } else {
            0nat
        },
    decreases count,
{
    if count > 0 {
        let at = count - 1;
        lemma_one_fold_before(sequence, actions, raiser, raised_at, skipped_at, at);
        let skipped = skipped_between(sequence[at], sequence[at + 1]);
        assert(skipped.contains(raiser) <==> at == skipped_at);
        if at == skipped_at {
            assert(0 <= raised_at < count && sequence[raised_at] == raiser && is_raise(
                actions[raised_at],
            ));
            assert(raised_seats(sequence, actions, count).contains(raiser));
        }
    }
}

} // verus!
