//! The six seats of a six-max table, their names and their two acting orders.
//!
//! Before the flop the seats act in the order UTG, HJ, CO, BTN, SB, BB, and the
//! order is cyclic: after BB the action returns to UTG. After the flop the order
//! is SB, BB, UTG, HJ, CO, BTN; of two players the one who acts first after the
//! flop is out of position.

use vstd::prelude::*;
use crate::text::{chars_of, same_chars};

verus! {

/// A seat at a six-max table.
#[derive(Clone, Copy, Debug, PartialEq, Eq, Structural)]
pub enum Position {
    Utg,
    Hj,
    Co,
    Btn,
    Sb,
    Bb,
}

/// The seat that acts at place `i` of the preflop order, counted from zero.
/// Outside `0..6` the value is BB; callers stay inside the range.
pub open spec fn seat_at(i: int) -> Position {
    if i == 0 {
        Position::Utg
    } else if i == 1 {
        Position::Hj
    } else if i == 2 {
        Position::Co
    } else if i == 3 {
        Position::Btn
    } else if i == 4 {
        Position::Sb
    } else {
        Position::Bb
    }
}

impl Position {
    /// Place in the preflop acting order, counted from zero: UTG is 0, BB is 5.
    pub open spec fn spec_preflop_index(self) -> int {
        match self {
            Position::Utg => 0,
            Position::Hj => 1,
            Position::Co => 2,
            Position::Btn => 3,
            Position::Sb => 4,
            Position::Bb => 5,
        }
    }

    /// Place in the postflop acting order, counted from one: SB is 1, BTN is 6.
    /// No seat has order 0.
    pub open spec fn spec_postflop_order(self) -> int {
        match self {
            Position::Sb => 1,
            Position::Bb => 2,
            Position::Utg => 3,
            Position::Hj => 4,
            Position::Co => 5,
            Position::Btn => 6,
        }
    }

    /// The seat's name as it is written in an action sequence and in a path.
    pub open spec fn spec_name(self) -> Seq<char> {
        match self {
            Position::Utg => "UTG"@,
            Position::Hj => "HJ"@,
            Position::Co => "CO"@,
            Position::Btn => "BTN"@,
            Position::Sb => "SB"@,
            Position::Bb => "BB"@,
        }
    }

    /// The seat that acts next before the flop; after BB comes UTG.
    pub open spec fn spec_successor(self) -> Position {
        seat_at((self.spec_preflop_index() + 1) % 6)
    }

    /// Place in the preflop acting order, counted from zero.
    pub fn preflop_index(self) -> (r: usize)
        ensures
            r == self.spec_preflop_index(),
    {
        match self {
            Position::Utg => 0,
            Position::Hj => 1,
            Position::Co => 2,
            Position::Btn => 3,
            Position::Sb => 4,
            Position::Bb => 5,
        }
    }

    /// Place in the postflop acting order, counted from one.
    pub fn postflop_order(self) -> (r: u8)
        ensures
            r == self.spec_postflop_order(),
            1 <= r <= 6,
    {
        match self {
            Position::Sb => 1,
            Position::Bb => 2,
            Position::Utg => 3,
            Position::Hj => 4,
            Position::Co => 5,
            Position::Btn => 6,
        }
    }

    /// The seat's name.
    pub fn name(self) -> (r: &'static str)
        ensures
            r@ == self.spec_name(),
    {
        match self {
            Position::Utg => "UTG",
            Position::Hj => "HJ",
            Position::Co => "CO",
            Position::Btn => "BTN",
            Position::Sb => "SB",
            Position::Bb => "BB",
        }
    }

    /// The seat that acts next before the flop.
    pub fn successor(self) -> (r: Position)
        ensures
            r == self.spec_successor(),
    {
        match self {
            Position::Utg => Position::Hj,
            Position::Hj => Position::Co,
            Position::Co => Position::Btn,
            Position::Btn => Position::Sb,
            Position::Sb => Position::Bb,
            Position::Bb => Position::Utg,
        }
    }

    /// The seat that `name` spells, if it spells one. Names are matched exactly:
    /// upper case, no surrounding blanks.
    pub fn from_chars(name: &Vec<char>) -> (r: Option<Position>)
        ensures
            r == seat_named(name@),
    {
        if same_chars(name, "UTG") {
            Some(Position::Utg)
        } else if same_chars(name, "HJ") {
            Some(Position::Hj)
        } else if same_chars(name, "CO") {
            Some(Position::Co)
        } else if same_chars(name, "BTN") {
            Some(Position::Btn)
        } else if same_chars(name, "SB") {
            Some(Position::Sb)
        } else if same_chars(name, "BB") {
            Some(Position::Bb)
        } else {
            None
        }
    }

    /// The seat that `name` spells, if it spells one.
    pub fn from_name(name: &str) -> (r: Option<Position>)
        ensures
            r == seat_named(name@),
    {
        let chars = chars_of(name);
        Position::from_chars(&chars)
    }
}

/// The seat whose name is `name`, or `None` where `name` is no seat's name.
pub open spec fn seat_named(name: Seq<char>) -> Option<Position> {
    if name == "UTG"@ {
        Some(Position::Utg)
    } else if name == "HJ"@ {
        Some(Position::Hj)
    } else if name == "CO"@ {
        Some(Position::Co)
    } else if name == "BTN"@ {
        Some(Position::Btn)
    } else if name == "SB"@ {
        Some(Position::Sb)
    } else if name == "BB"@ {
        Some(Position::Bb)
    } else {
        None
    }
}

/// The postflop order of the seat that `name` spells, and 0 for any other text.
pub open spec fn order_of_name(name: Seq<char>) -> int {
    match seat_named(name) {
        Some(p) => p.spec_postflop_order(),
        None => 0,
    }
}

/// Postflop acting order of the seat named `position`: SB is 1, BB 2, UTG 3,
/// HJ 4, CO 5 and BTN 6. The result is 0 exactly when `position` names no
/// seat; callers reject that value.
pub fn position_to_order(position: &str) -> (order: u8)
    ensures
        order == order_of_name(position@),
        order == 0 <==> seat_named(position@) is None,
        order <= 6,
{
    match Position::from_name(position) {
        Some(p) => p.postflop_order(),
        None => 0,
    }
}

/// How many seats lie strictly between `current` and `next` when the preflop
/// order is walked forward from `current`. For `next == current` the walk goes
/// once round the table and passes the five other seats.
pub open spec fn skipped_count(current: Position, next: Position) -> int {
    (next.spec_preflop_index() - current.spec_preflop_index() + 5) % 6
}

/// The seats passed over when the action moves from `current` to `next`: the
/// preflop order walked cyclically from just after `current` up to, and not
/// including, `next`.
pub open spec fn skipped_between(current: Position, next: Position) -> Seq<Position> {
    Seq::new(
        skipped_count(current, next) as nat,
        |k: int| seat_at((current.spec_preflop_index() + 1 + k) % 6),
    )
}

/// The seats passed over when the action moves from `current` to `next`, in
/// acting order.
pub fn get_skipped_positions(current: Position, next: Position) -> (skipped: Vec<Position>)
    ensures
        skipped@ == skipped_between(current, next),
{
    let mut skipped: Vec<Position> = Vec::new();
    let mut seat = current.successor();
    while seat != next
        invariant
            skipped.len() <= skipped_count(current, next),
            seat == seat_at((current.spec_preflop_index() + 1 + skipped.len()) % 6),
            seat == next <==> skipped.len() == skipped_count(current, next),
            forall|k: int|
                0 <= k < skipped.len() ==> skipped[k] == seat_at(
                    (current.spec_preflop_index() + 1 + k) % 6,
                ),
        decreases skipped_count(current, next) - skipped.len(),
    {
        skipped.push(seat);
        seat = seat.successor();
    }
    assert(skipped@ =~= skipped_between(current, next));
    skipped
}

/// Every seat's place in the preflop order is in `0..6`, and `seat_at` leads
/// back from the place to the seat.
pub proof fn lemma_preflop_index_round_trip(p: Position)
    ensures
        0 <= p.spec_preflop_index() < 6,
        seat_at(p.spec_preflop_index()) == p,
{
}

/// Every seat has a postflop order from 1 to 6, never 0, and no two seats
/// share one.
pub proof fn lemma_postflop_order_distinct(p: Position, q: Position)
    ensures
        1 <= p.spec_postflop_order() <= 6,
        p.spec_postflop_order() == q.spec_postflop_order() ==> p == q,
        p.spec_preflop_index() == q.spec_preflop_index() ==> p == q,
{
}

/// No two seats share a name, and a seat is found again by its name.
pub proof fn lemma_names_distinct(p: Position, q: Position)
    ensures
        p.spec_name() == q.spec_name() ==> p == q,
        seat_named(p.spec_name()) == Some(p),
{
    lemma_names_spelled();
}

/// What each seat's name holds, character by character.
pub proof fn lemma_names_spelled()
    ensures
        "UTG"@ == seq!['U', 'T', 'G'],
        "HJ"@ == seq!['H', 'J'],
        "CO"@ == seq!['C', 'O'],
        "BTN"@ == seq!['B', 'T', 'N'],
        "SB"@ == seq!['S', 'B'],
        "BB"@ == seq!['B', 'B'],
{
    reveal_strlit("UTG");
    reveal_strlit("HJ");
    reveal_strlit("CO");
    reveal_strlit("BTN");
    reveal_strlit("SB");
    reveal_strlit("BB");
    assert("UTG"@ =~= seq!['U', 'T', 'G']);
    assert("HJ"@ =~= seq!['H', 'J']);
    assert("CO"@ =~= seq!['C', 'O']);
    assert("BTN"@ =~= seq!['B', 'T', 'N']);
    assert("SB"@ =~= seq!['S', 'B']);
    assert("BB"@ =~= seq!['B', 'B']);
}

/// The skipped seats are the walk from `current` to `next`: the first is the
/// seat right after `current`, each further one is the seat right after the one
/// before it, and the seat right after the last is `next`. None of them is
/// `current` or `next`.
pub proof fn lemma_skipped_walk(current: Position, next: Position, k: int)
    requires
        0 <= k < skipped_between(current, next).len(),
    ensures
        skipped_between(current, next)[k] != current,
        skipped_between(current, next)[k] != next,
        k == 0 ==> skipped_between(current, next)[k] == current.spec_successor(),
        k > 0 ==> skipped_between(current, next)[k] == skipped_between(
            current,
            next,
        )[k - 1].spec_successor(),
        k == skipped_between(current, next).len() - 1 ==> skipped_between(
            current,
            next,
        )[k].spec_successor() == next,
{
}

/// Nothing is skipped exactly when `next` is the seat right after `current`,
/// whether or not the step wraps round the end of the order.
pub proof fn lemma_skipped_empty(current: Position, next: Position)
    ensures
        skipped_between(current, next).len() == 0 <==> next == current.spec_successor(),
        skipped_between(current, next).len() <= 5,
{
}

/// No seat is skipped twice in one step.
pub proof fn lemma_skipped_distinct(current: Position, next: Position, j: int, k: int)
    requires
        0 <= j < k < skipped_between(current, next).len(),
    ensures
        skipped_between(current, next)[j] != skipped_between(current, next)[k],
{
}

} // verus!
