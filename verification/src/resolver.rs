//! The preflop path resolver.
//!
//! Resolving an action sequence yields its canonical path and the two players
//! who see the flop. The action of every seat but the last has to be looked
//! up in the action repository under the path built so far. Looking up is the
//! caller's part: a [`SequenceResolver`] hands out the path to look up and
//! takes the answer. [`resolve_sequence`] runs a resolver over answers that
//! were recorded beforehand.

use vstd::prelude::*;
use crate::canonical::{
    canonical_path, entries_before, fold_entries, fold_entries_of, folded_seats, in_position,
    is_raise, lemma_entries_ignore_later_answers, lemma_folded_seats_none,
    lemma_folded_seats_step, lemma_raised_seats_step, lemma_segments_of_add,
    lemma_segments_of_push, lookup_path, out_of_position, raised_seats, segments_of, PathEntry,
};
use crate::path::{PathSegment, SegmentView};
use crate::position::{get_skipped_positions, seat_named, Position};
use crate::text::{chars_of, copy_range, field_bounds, fields, pieces, same_chars};

verus! {

/// Whether `action` names a raise.
pub fn is_raise_action(action: &str) -> (raise: bool)
    ensures
        raise == is_raise(action@),
{
    let name = chars_of(action);
    !same_chars(&name, "call") && !same_chars(&name, "allin") && !same_chars(&name, "fold")
}

/// The seats that have raised so far.
pub struct RaisedSet {
    utg: bool,
    hj: bool,
    co: bool,
    btn: bool,
    sb: bool,
    bb: bool,
}

impl View for RaisedSet {
    type V = Set<Position>;

    closed spec fn view(&self) -> Set<Position> {
        Set::new(
            |p: Position|
                match p {
                    Position::Utg => self.utg,
                    Position::Hj => self.hj,
                    Position::Co => self.co,
                    Position::Btn => self.btn,
                    Position::Sb => self.sb,
                    Position::Bb => self.bb,
                },
        )
    }
}

impl RaisedSet {
    /// The set in which no seat has raised.
    pub fn new() -> (set: RaisedSet)
        ensures
            set@ == Set::<Position>::empty(),
    {
        let set = RaisedSet { utg: false, hj: false, co: false, btn: false, sb: false, bb: false };
        assert(set@ =~= Set::<Position>::empty());
        set
    }

    /// Whether `seat` has raised.
    pub fn contains(&self, seat: Position) -> (raised: bool)
        ensures
            raised == self@.contains(seat),
    {
        match seat {
            Position::Utg => self.utg,
            Position::Hj => self.hj,
            Position::Co => self.co,
            Position::Btn => self.btn,
            Position::Sb => self.sb,
            Position::Bb => self.bb,
        }
    }

    /// Records that `seat` has raised.
    pub fn insert(&mut self, seat: Position)
        ensures
            final(self)@ == old(self)@.insert(seat),
    {
        match seat {
            Position::Utg => self.utg = true,
            Position::Hj => self.hj = true,
            Position::Co => self.co = true,
            Position::Btn => self.btn = true,
            Position::Sb => self.sb = true,
            Position::Bb => self.bb = true,
        }
        assert(self@ =~= old(self)@.insert(seat));
    }
}

/// Why a sequence could not be resolved.
#[derive(Clone, Copy, Debug, PartialEq, Eq, Structural)]
pub enum ResolveError {
    /// The description holds a field that names no seat, the sequence has
    /// fewer than two seats, or its last two seats are the same seat.
    InvalidSequence,
    /// The repository records no action for this seat at the path that the
    /// sequence leads to.
    MissingAction(Position),
}

/// A resolved sequence: the canonical path and the two players who see the
/// flop.
#[derive(Debug, PartialEq, Eq)]
pub struct Resolution {
    /// The canonical path, under which both players' ranges are stored.
    pub path: Vec<PathSegment>,
    /// The player who acts first after the flop.
    pub oop: Position,
    /// The player who acts last after the flop.
    pub ip: Position,
}

/// A resolution in progress: the sequence, and the path built from the answers
/// received so far. It always waits for one answer, the action of
/// [`SequenceResolver::pending_seat`].
pub struct SequenceResolver {
    sequence: Vec<Position>,
    index: usize,
    path: Vec<PathSegment>,
    raised: RaisedSet,
    answers: Ghost<Seq<Seq<char>>>,
}

/// What a resolver does next.
pub enum Progress {
    /// Another action has to be looked up.
    Lookup(SequenceResolver),
    /// The sequence is resolved.
    Done(Resolution),
    /// The sequence cannot be resolved.
    Failed(ResolveError),
}

/// Appends to `path` the folds of one step: for every seat of `skipped` that is
/// in `raised`, the seat and `fold`.
fn push_folds(path: &mut Vec<PathSegment>, skipped: &Vec<Position>, raised: &RaisedSet)
    ensures
        final(path).deep_view() == old(path).deep_view() + segments_of(
            fold_entries_of(folded_seats(skipped@, raised@)),
        ),
{
    let ghost before = path.deep_view();
    let mut k: usize = 0;
    proof {
        lemma_folded_seats_none(skipped@, raised@);
        assert(path.deep_view() =~= before + segments_of(
            fold_entries_of(folded_seats(skipped@.take(0), raised@)),
        ));
    }
    while k < skipped.len()
        invariant
            k <= skipped.len(),
            path.deep_view() == before + segments_of(
                fold_entries_of(folded_seats(skipped@.take(k as int), raised@)),
            ),
        decreases skipped.len() - k,
    {
        let seat = skipped[k];
        let ghost folded = folded_seats(skipped@.take(k as int), raised@);
        let ghost shown = path.deep_view();
        proof {
            lemma_folded_seats_step(skipped@, raised@, k as int);
        }
        if raised.contains(seat) {
            path.push(PathSegment::Seat(seat));
            path.push(PathSegment::Action("fold".to_owned()));
            proof {
                let entry = PathEntry { seat: seat, action: "fold"@ };
                assert(fold_entries_of(folded.push(seat)) =~= fold_entries_of(folded).push(entry));
                lemma_segments_of_push(fold_entries_of(folded), entry);
                assert(path.deep_view() =~= shown.push(SegmentView::Seat(seat)).push(
                    SegmentView::Action("fold"@),
                ));
                assert(path.deep_view() =~= before + segments_of(
                    fold_entries_of(folded.push(seat)),
                ));
            }
        }
        k += 1;
    }
    assert(skipped@.take(skipped.len() as int) =~= skipped@);
}

impl SequenceResolver {
    #[verifier::type_invariant]
    spec fn well_formed(self) -> bool {
        &&& self.index + 1 < self.sequence.len()
        &&& self.answers@.len() == self.index
        &&& self.path.deep_view() == lookup_path(self.sequence@, self.answers@, self.index as int)
        &&& self.raised@ == raised_seats(self.sequence@, self.answers@, self.index as int)
    }

    /// The sequence that is being resolved.
    pub closed spec fn sequence(&self) -> Seq<Position> {
        self.sequence@
    }

    /// The answers received so far: `answers()[k]` is the action of
    /// `sequence()[k]`.
    pub closed spec fn answers(&self) -> Seq<Seq<char>> {
        self.answers@
    }

    /// Starts to resolve `sequence`. A sequence of fewer than two seats is
    /// refused; any other waits for the action of its first seat.
    pub fn start(sequence: Vec<Position>) -> (r: Result<SequenceResolver, ResolveError>)
        ensures
            sequence.len() < 2 ==> r == Err::<SequenceResolver, ResolveError>(
                ResolveError::InvalidSequence,
            ),
            sequence.len() >= 2 ==> (r matches Ok(resolver) && resolver.sequence() == sequence@
                && resolver.answers() == Seq::<Seq<char>>::empty()),
    {
        if sequence.len() < 2 {
            return Err(ResolveError::InvalidSequence);
        }
        let mut path: Vec<PathSegment> = Vec::new();
        path.push(PathSegment::Seat(sequence[0]));
        let raised = RaisedSet::new();
        proof {
            let none = Seq::<Seq<char>>::empty();
            lemma_raised_seats_step(sequence@, none, 0);
            assert(path.deep_view() =~= lookup_path(sequence@, none, 0));
        }
        Ok(SequenceResolver { sequence, index: 0, path, raised, answers: Ghost(Seq::empty()) })
    }

    /// The seat whose action has to be looked up next. It is never the last
    /// seat of the sequence.
    pub fn pending_seat(&self) -> (seat: Position)
        ensures
            self.answers().len() + 1 < self.sequence().len(),
            seat == self.sequence()[self.answers().len() as int],
    {
        proof {
            use_type_invariant(self);
        }
        self.sequence[self.index]
    }

    /// The path under which the pending seat's action is recorded: the
    /// entries of the seats before it, then the seat itself.
    pub fn pending_path(&self) -> (path: &Vec<PathSegment>)
        ensures
            path.deep_view() == lookup_path(
                self.sequence(),
                self.answers(),
                self.answers().len() as int,
            ),
    {
        proof {
            use_type_invariant(self);
        }
        &self.path
    }

    /// Takes the repository's answer for the pending seat.
    ///
    /// Without an answer the resolution fails, and names the seat. With one,
    /// the action and the folds of the step to the next seat are appended to
    /// the path. If the next seat is not the last, its action is to be looked up
    /// in turn. If it is the last, it closes the action with a call and the
    /// sequence is resolved, unless the last two seats are one and the same.
    pub fn advance(self, found: Option<String>) -> (r: Progress)
        ensures
            self.answers().len() + 1 < self.sequence().len(),
            match found {
                None => r matches Progress::Failed(e) && e == ResolveError::MissingAction(
                    self.sequence()[self.answers().len() as int],
                ),
                Some(action) => {
                    let sequence = self.sequence();
                    let answers = self.answers().push(action@);
                    if answers.len() + 1 < sequence.len() {
                        r matches Progress::Lookup(next) && next.sequence() == sequence
                            && next.answers() == answers
                    } else if sequence[sequence.len() - 2] == sequence.last() {
                        r matches Progress::Failed(e) && e == ResolveError::InvalidSequence
                    } else {
                        r matches Progress::Done(res) && res.path.deep_view() == canonical_path(
                            sequence,
                            answers,
                        ) && res.oop == out_of_position(
                            sequence[sequence.len() - 2],
                            sequence.last(),
                        ) && res.ip == in_position(sequence[sequence.len() - 2], sequence.last())
                    }
                },
            },
    {
        proof {
            use_type_invariant(&self);
        }
        let SequenceResolver { sequence, index, path, raised, answers } = self;
        let mut path = path;
        let mut raised = raised;
        let seat = sequence[index];
        let action = match found {
            None => {
                return Progress::Failed(ResolveError::MissingAction(seat));
            },
            Some(action) => action,
        };
        let next = sequence[index + 1];
        let ghost before = answers@;
        let ghost after = answers@.push(action@);
        let ghost entries = entries_before(sequence@, before, index as int);
        let ghost entry = PathEntry { seat: seat, action: action@ };
        proof {
            lemma_raised_seats_step(sequence@, after, index as int);
            lemma_entries_ignore_later_answers(sequence@, before, after, index as int);
            assert(raised_seats(sequence@, after, index as int) =~= raised_seats(
                sequence@,
                before,
                index as int,
            ));
            lemma_segments_of_push(entries, entry);
        }
        if is_raise_action(action.as_str()) {
            raised.insert(seat);
        }
        path.push(PathSegment::Action(action));
        assert(path.deep_view() =~= segments_of(entries.push(entry)));
        let skipped = get_skipped_positions(seat, next);
        push_folds(&mut path, &skipped, &raised);
        let ghost entries_after = entries_before(sequence@, after, index + 1);
        proof {
            lemma_segments_of_add(entries.push(entry), fold_entries(seat, next, raised@));
            assert(path.deep_view() == segments_of(entries_after));
        }
        path.push(PathSegment::Seat(next));
        assert(path.deep_view() =~= lookup_path(sequence@, after, index + 1));
        if index + 2 < sequence.len() {
            Progress::Lookup(
                SequenceResolver { sequence, index: index + 1, path, raised, answers: Ghost(after) },
            )
        } else {
            path.push(PathSegment::Action("call".to_owned()));
            proof {
                lemma_segments_of_push(entries_after, PathEntry { seat: next, action: "call"@ });
                assert(path.deep_view() =~= canonical_path(sequence@, after));
            }
            if seat == next {
                Progress::Failed(ResolveError::InvalidSequence)
            } else if seat.postflop_order() < next.postflop_order() {
                Progress::Done(Resolution { path, oop: seat, ip: next })
            } else {
                Progress::Done(Resolution { path, oop: next, ip: seat })
            }
        }
    }
}

/// The action sequence that `text` spells: its fields between commas, each
/// the name of a seat. `None` where a field is no seat's name; blanks round a
/// name are not dropped.
pub open spec fn sequence_of(text: Seq<char>) -> Option<Seq<Position>> {
    let names = fields(text, ',');
    if forall|j: int| 0 <= j < names.len() ==> seat_named(#[trigger] names[j]) is Some {
        Some(Seq::new(names.len(), |j: int| seat_named(names[j])->0))
    } else {
        None
    }
}

/// Reads an action sequence from its description, the seats' names separated
/// by commas. A description with a field that names no seat is an invalid
/// sequence.
pub fn parse_sequence(text: &str) -> (r: Result<Vec<Position>, ResolveError>)
    ensures
        match sequence_of(text@) {
            Some(sequence) => r matches Ok(seats) && seats@ == sequence,
            None => r == Err::<Vec<Position>, ResolveError>(ResolveError::InvalidSequence),
        },
{
    let chars = chars_of(text);
    let bounds = field_bounds(&chars, ',');
    let ghost names = fields(text@, ',');
    let mut seats: Vec<Position> = Vec::new();
    let mut j: usize = 0;
    while j < bounds.len()
        invariant
            j <= bounds.len(),
            chars@ == text@,
            names == fields(text@, ','),
            pieces(chars@, bounds@) == names,
            forall|k: int|
                0 <= k < bounds.len() ==> (#[trigger] bounds[k]).0 <= bounds[k].1 <= chars.len(),
            seats.len() == j,
            forall|k: int| 0 <= k < j ==> seat_named(#[trigger] names[k]) == Some(seats[k]),
        decreases bounds.len() - j,
    {
        let (start, end) = bounds[j];
        let name = copy_range(&chars, start, end);
        assert(name@ == names[j as int]);
        match Position::from_chars(&name) {
            Some(seat) => seats.push(seat),
            None => {
                return Err(ResolveError::InvalidSequence);
            },
        }
        j += 1;
    }
    assert(seats@ =~= sequence_of(text@)->0);
    Ok(seats)
}

/// How many of the first `limit` lookups were answered one after another
/// from the start: the number of the first lookup without an answer, or
/// `limit` where none of them is without.
pub open spec fn answered_prefix(answers: Seq<Option<Seq<char>>>, limit: int) -> int
    decreases limit,
{
    if limit <= 0 {
        0
    } else {
        let before = answered_prefix(answers, limit - 1);
        if before == limit - 1 && limit - 1 < answers.len() && answers[limit - 1] is Some {
            limit
        } else {
            before
        }
    }
}

/// The first `count` answers, each taken out of its `Some`.
pub open spec fn recorded_actions(answers: Seq<Option<Seq<char>>>, count: int) -> Seq<Seq<char>> {
    Seq::new(count as nat, |k: int| answers[k]->0)
}

/// Why `sequence` cannot be resolved against `answers`, or `None` where it
/// can. `answers[k]` is what the repository holds for `sequence[k]`; a lookup
/// beyond the end of `answers` has no answer.
///
/// A sequence of fewer than two seats is invalid. Otherwise the first seat
/// but the last one without an answer is reported as missing its action. If
/// none is, the sequence is invalid where its last two seats are the same.
pub open spec fn resolution_error(
    sequence: Seq<Position>,
    answers: Seq<Option<Seq<char>>>,
) -> Option<ResolveError> {
    let lookups = sequence.len() - 1;
    let answered = answered_prefix(answers, lookups);
    if sequence.len() < 2 {
        Some(ResolveError::InvalidSequence)
    } else if answered < lookups {
        Some(ResolveError::MissingAction(sequence[answered]))
    } else if sequence[sequence.len() - 2] == sequence.last() {
        Some(ResolveError::InvalidSequence)
    } else {
        None
    }
}

/// Whether `outcome` is what resolving `sequence` against `answers` gives: the
/// error that [`resolution_error`] names, or, where it names none, the
/// canonical path built from the answers and the last two seats of the
/// sequence, the one out of position first.
pub open spec fn is_resolution_of(
    sequence: Seq<Position>,
    answers: Seq<Option<Seq<char>>>,
    outcome: Result<Resolution, ResolveError>,
) -> bool {
    match resolution_error(sequence, answers) {
        Some(error) => outcome == Err::<Resolution, ResolveError>(error),
        None => {
            &&& outcome matches Ok(res)
            &&& res.path.deep_view() == canonical_path(
                sequence,
                recorded_actions(answers, sequence.len() - 1),
            )
            &&& res.oop == out_of_position(sequence[sequence.len() - 2], sequence.last())
            &&& res.ip == in_position(sequence[sequence.len() - 2], sequence.last())
        },
    }
}

/// Resolves `sequence` against recorded answers of the repository:
/// `answers[k]` is the action found for `sequence[k]` under the path that the
/// seats before it lead to, or `None` where nothing was found. Answers beyond
/// the lookups that the sequence needs are not read.
///
/// Returns the canonical path and the two players who see the flop, or the
/// error that [`resolution_error`] names.
pub fn resolve_sequence(sequence: Vec<Position>, answers: &Vec<Option<String>>) -> (r: Result<
    Resolution,
    ResolveError,
>)
    ensures
        is_resolution_of(sequence@, answers.deep_view(), r),
{
    let ghost seats = sequence@;
    let ghost given = answers.deep_view();
    let mut resolver = match SequenceResolver::start(sequence) {
        Err(error) => {
            return Err(error);
        },
        Ok(resolver) => resolver,
    };
    let mut i: usize = 0;
    loop
        invariant
            seats.len() >= 2,
            seats == sequence@,
            given == answers.deep_view(),
            resolver.sequence() == seats,
            resolver.answers() == recorded_actions(given, i as int),
            answered_prefix(given, i as int) == i,
            i + 1 < seats.len(),
        decreases seats.len() - i,
    {
        let found = if i < answers.len() {
            match &answers[i] {
                Some(action) => Some(action.clone()),
                None => None,
            }
        } else {
            None
        };
        proof {
            lemma_answered_prefix_stops(given, i as int, seats.len() - 1);
            assert(given.len() == answers.len());
            if i < answers.len() {
                assert(given[i as int] == answers[i as int].deep_view());
            }
            assert(found is Some <==> (i < given.len() && given[i as int] is Some));
            if found is Some {
                assert(found->0@ == given[i as int]->0);
                assert(recorded_actions(given, i + 1) =~= recorded_actions(given, i as int).push(
                    found->0@,
                ));
            }
        }
        match resolver.advance(found) {
            Progress::Lookup(next) => {
                resolver = next;
                i += 1;
            },
            Progress::Done(res) => {
                return Ok(res);
            },
            Progress::Failed(error) => {
                return Err(error);
            },
        }
    }
}

/// Resolves the preflop action `preflop_action`, the names of the seats that
/// put money in, separated by commas, against recorded answers of the
/// repository (see [`resolve_sequence`]).
///
/// A description that is no action sequence is an invalid sequence.
pub fn construct_ranges_path(preflop_action: &str, answers: &Vec<Option<String>>) -> (r: Result<
    Resolution,
    ResolveError,
>)
    ensures
        match sequence_of(preflop_action@) {
            Some(sequence) => is_resolution_of(sequence, answers.deep_view(), r),
            None => r == Err::<Resolution, ResolveError>(ResolveError::InvalidSequence),
        },
{
    match parse_sequence(preflop_action) {
        Ok(sequence) => resolve_sequence(sequence, answers),
        Err(error) => Err(error),
    }
}

/// The count of answered lookups is the number of the first lookup without an
/// answer: every lookup before it has one, and below the limit the lookup at
/// the count has none.
pub proof fn lemma_answered_prefix_first_gap(answers: Seq<Option<Seq<char>>>, limit: int)
    requires
        0 <= limit,
    ensures
        0 <= answered_prefix(answers, limit) <= limit,
        forall|k: int|
            0 <= k < answered_prefix(answers, limit) ==> k < answers.len()
                && (#[trigger] answers[k]) is Some,
        answered_prefix(answers, limit) < limit ==> !(answered_prefix(answers, limit)
            < answers.len() && answers[answered_prefix(answers, limit)] is Some),
    decreases limit,
{
    if limit > 0 {
        lemma_answered_prefix_first_gap(answers, limit - 1);
    }
}

/// Once a lookup is without an answer, the count of answered lookups stays
/// where it is; while every lookup is answered, it grows with the limit.
pub proof fn lemma_answered_prefix_stops(answers: Seq<Option<Seq<char>>>, at: int, limit: int)
    requires
        0 <= at < limit,
        answered_prefix(answers, at) == at,
    ensures
        at < answers.len() && answers[at] is Some ==> answered_prefix(answers, at + 1) == at + 1,
        !(at < answers.len() && answers[at] is Some) ==> answered_prefix(answers, limit) == at,
{
    if !(at < answers.len() && answers[at] is Some) {
        assert(answered_prefix(answers, at + 1) == at);
        if at + 1 < limit {
            lemma_answered_prefix_bounded(answers, at + 1, limit, at);
        }
    }
}

/// A count that has fallen behind the limit stays behind.
proof fn lemma_answered_prefix_bounded(
    answers: Seq<Option<Seq<char>>>,
    from: int,
    limit: int,
    value: int,
)
    requires
        0 <= from <= limit,
        answered_prefix(answers, from) == value,
        value < from,
    ensures
        answered_prefix(answers, limit) == value,
    decreases limit - from,
{
    if from < limit {
        assert(answered_prefix(answers, from + 1) == value);
        lemma_answered_prefix_bounded(answers, from + 1, limit, value);
    }
}

} // verus!
