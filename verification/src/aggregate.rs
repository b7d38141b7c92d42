//! Turning the solver's raw arrays into per-hand and per-range figures.
//!
//! The solver reports a strategy as one flat array, action by action: first
//! the probability of the first action for every hand, then that of the second
//! action for every hand, and so on. The equities of a range are summed up in
//! a histogram of seven buckets by percentage: `[0, 25)`, `[25, 50)`,
//! `[50, 60)`, `[60, 70)`, `[70, 80)`, `[80, 90)` and `[90, 100]`.
//!
//! Every boundary of a bucket is a whole number, so the bucket of a percentage
//! is decided by its integer part alone, and that is what this module takes.

use vstd::prelude::*;

verus! {

/// How many buckets the equity histogram has.
pub const BUCKETS: usize = 7;

/// The strategy of hand `hand`: for each action the entry of the flat array
/// that belongs to the action and the hand.
pub open spec fn hand_strategy<T>(flat: Seq<T>, num_hands: int, hand: int) -> Seq<T> {
    Seq::new((flat.len() / num_hands as nat) as nat, |action: int| flat[action * num_hands + hand])
}

/// The strategy hand by hand: for each of `num_hands` hands its probabilities,
/// one per action. The number of actions is the length of the flat array
/// divided by the number of hands; entries beyond the last full action are
/// not read.
pub open spec fn per_hand<T>(flat: Seq<T>, num_hands: int) -> Seq<Seq<T>> {
    Seq::new(num_hands as nat, |hand: int| hand_strategy(flat, num_hands, hand))
}

/// The strategy as one flat array, action by action: the entry of action `a`
/// and hand `h` stands at `a * hands.len() + h`.
pub open spec fn action_major<T>(hands: Seq<Seq<T>>, num_actions: int) -> Seq<T> {
    Seq::new(
        (num_actions * hands.len()) as nat,
        |at: int| hands[at % (hands.len() as int)][at / (hands.len() as int)],
    )
}

/// The contents of the vectors of `hands`.
pub open spec fn rows_of<T>(hands: Seq<Vec<T>>) -> Seq<Seq<T>> {
    Seq::new(hands.len(), |hand: int| hands[hand]@)
}

/// An entry of a full action lies inside the flat array.
proof fn lemma_entry_in_bounds(len: int, num_hands: int, action: int, hand: int)
    requires
        0 < num_hands,
        0 <= len,
        0 <= hand < num_hands,
        0 <= action < len / num_hands,
    ensures
        0 <= action * num_hands + hand < len,
        (action * num_hands + hand) / num_hands == action,
        (action * num_hands + hand) % num_hands == hand,
{
    assert(0 <= action * num_hands + hand < len && (action * num_hands + hand) / num_hands
        == action && (action * num_hands + hand) % num_hands == hand) by (nonlinear_arith)
        requires
            0 < num_hands,
            0 <= len,
            0 <= hand < num_hands,
            0 <= action < len / num_hands,
    ;
}

/// Reshapes a flat strategy array into one vector of probabilities per hand:
/// the vector of hand `h` holds, for each action `a`, the entry at
/// `a * num_hands + h`.
pub fn reshape_strategy<T: Copy>(flat: &Vec<T>, num_hands: usize) -> (hands: Vec<Vec<T>>)
    requires
        num_hands > 0,
    ensures
        hands.len() == num_hands,
        forall|hand: int|
            0 <= hand < num_hands ==> (#[trigger] hands[hand]).len() == flat@.len() / (
            num_hands as nat),
        forall|hand: int, action: int|
            0 <= hand < num_hands && 0 <= action < flat@.len() / (num_hands as nat)
                ==> #[trigger] hands[hand][action] == flat[action * num_hands + hand],
        rows_of(hands@) == per_hand(flat@, num_hands as int),
{
    let num_actions: usize = flat.len() / num_hands;
    let mut hands: Vec<Vec<T>> = Vec::new();
    let mut hand: usize = 0;
    while hand < num_hands
        invariant
            0 < num_hands,
            hand <= num_hands,
            num_actions == flat.len() / num_hands,
            hands.len() == hand,
            forall|h: int|
                0 <= h < hand ==> (#[trigger] hands[h])@ == hand_strategy(
                    flat@,
                    num_hands as int,
                    h,
                ),
        decreases num_hands - hand,
    {
        let mut probabilities: Vec<T> = Vec::new();
        let mut action: usize = 0;
        while action < num_actions
            invariant
                0 < num_hands,
                hand < num_hands,
                num_actions == flat.len() / num_hands,
                action <= num_actions,
                probabilities.len() == action,
                forall|a: int|
                    0 <= a < action ==> #[trigger] probabilities[a] == flat[a * num_hands + hand],
            decreases num_actions - action,
        {
            proof {
                lemma_entry_in_bounds(
                    flat.len() as int,
                    num_hands as int,
                    action as int,
                    hand as int,
                );
            }
            probabilities.push(flat[action * num_hands + hand]);
            action += 1;
        }
        assert(probabilities@ =~= hand_strategy(flat@, num_hands as int, hand as int));
        hands.push(probabilities);
        hand += 1;
    }
    assert(rows_of(hands@) =~= per_hand(flat@, num_hands as int));
    hands
}

/// Lays a strategy given hand by hand out as one flat array, action by
/// action: the opposite of [`reshape_strategy`].
pub fn flatten_strategy<T: Copy>(hands: &Vec<Vec<T>>, num_actions: usize) -> (flat: Vec<T>)
    requires
        forall|hand: int| 0 <= hand < hands.len() ==> (#[trigger] hands[hand]).len() == num_actions,
        num_actions * hands.len() <= usize::MAX,
    ensures
        flat@ == action_major(rows_of(hands@), num_actions as int),
        flat.len() == num_actions * hands.len(),
        forall|action: int, hand: int|
            0 <= action < num_actions && 0 <= hand < hands.len() ==> flat[action * hands.len()
                + hand] == #[trigger] hands[hand][action],
{
    let ghost rows = rows_of(hands@);
    let num_hands = hands.len();
    let mut flat: Vec<T> = Vec::new();
    let mut action: usize = 0;
    while action < num_actions
        invariant
            num_hands == hands.len(),
            action <= num_actions,
            num_actions * num_hands <= usize::MAX,
            forall|hand: int|
                0 <= hand < hands.len() ==> (#[trigger] hands[hand]).len() == num_actions,
            flat.len() == action * num_hands,
            forall|at: int|
                0 <= at < flat.len() ==> #[trigger] flat[at] == hands[at % (num_hands as int)][at / (
                num_hands as int)],
        decreases num_actions - action,
    {
        let mut hand: usize = 0;
        while hand < num_hands
            invariant
                num_hands == hands.len(),
                action < num_actions,
                hand <= num_hands,
                num_actions * num_hands <= usize::MAX,
                forall|h: int| 0 <= h < hands.len() ==> (#[trigger] hands[h]).len() == num_actions,
                flat.len() == action * num_hands + hand,
                forall|at: int|
                    0 <= at < flat.len() ==> #[trigger] flat[at] == hands[at % (
                    num_hands as int)][at / (num_hands as int)],
            decreases num_hands - hand,
        {
            proof {
                let at = action * num_hands + hand;
                assert(at / (num_hands as int) == action && at % (num_hands as int) == hand
                    && at < num_actions * num_hands) by (nonlinear_arith)
                    requires
                        at == action * num_hands + hand,
                        0 <= hand < num_hands,
                        0 <= action < num_actions,
                ;
            }
            flat.push(hands[hand][action]);
            hand += 1;
        }
        assert(action * num_hands + num_hands == (action + 1) * num_hands) by (nonlinear_arith);
        action += 1;
    }
    assert(flat@ =~= action_major(rows, num_actions as int));
    assert forall|action: int, hand: int|
        0 <= action < num_actions && 0 <= hand < hands.len() implies flat[action * hands.len()
        + hand] == #[trigger] hands[hand][action] by {
        let at = action * num_hands + hand;
        assert(at / (num_hands as int) == action && at % (num_hands as int) == hand && 0 <= at
            < num_actions * num_hands) by (nonlinear_arith)
            requires
                at == action * num_hands + hand,
                0 <= hand < num_hands,
                0 <= action < num_actions,
        ;
    }
    flat
}

/// Reshaping a flat strategy and laying it out flat again gives back the
/// array, entry for entry, where the array holds whole actions only: its
/// length is a multiple of the number of hands.
pub proof fn lemma_reshape_round_trip<T>(flat: Seq<T>, num_hands: int)
    requires
        num_hands > 0,
        flat.len() % (num_hands as nat) == 0,
    ensures
        action_major(per_hand(flat, num_hands), flat.len() as int / num_hands) == flat,
{
    let num_actions = flat.len() as int / num_hands;
    let hands = per_hand(flat, num_hands);
    let back = action_major(hands, num_actions);
    assert(num_actions * num_hands == flat.len()) by (nonlinear_arith)
        requires
            num_hands > 0,
            flat.len() % (num_hands as nat) == 0,
            num_actions == flat.len() as int / num_hands,
    ;
    assert(back.len() == flat.len());
    assert forall|at: int| 0 <= at < flat.len() implies back[at] == flat[at] by {
        let hand = at % num_hands;
        let action = at / num_hands;
        assert(0 <= hand < num_hands && 0 <= action < num_actions && action * num_hands + hand
            == at) by (nonlinear_arith)
            requires
                num_hands > 0,
                0 <= at < num_actions * num_hands,
                hand == at % num_hands,
                action == at / num_hands,
        ;
        assert(hands[hand] == hand_strategy(flat, num_hands, hand));
        assert(hands[hand][action] == flat[action * num_hands + hand]);
    }
    assert(back =~= flat);
}

/// Laying a strategy out flat and reshaping it gives back every hand's
/// probabilities.
pub proof fn lemma_flatten_round_trip<T>(hands: Seq<Seq<T>>, num_actions: int)
    requires
        hands.len() > 0,
        num_actions >= 0,
        forall|hand: int| 0 <= hand < hands.len() ==> (#[trigger] hands[hand]).len() == num_actions,
    ensures
        per_hand(action_major(hands, num_actions), hands.len() as int) == hands,
{
    let num_hands = hands.len() as int;
    let flat = action_major(hands, num_actions);
    let back = per_hand(flat, num_hands);
    assert(flat.len() == num_actions * num_hands);
    assert(flat.len() as int / num_hands == num_actions) by (nonlinear_arith)
        requires
            num_hands > 0,
            num_actions >= 0,
            flat.len() == num_actions * num_hands,
    ;
    assert forall|hand: int| 0 <= hand < num_hands implies back[hand] =~= hands[hand] by {
        assert(back[hand] == hand_strategy(flat, num_hands, hand));
        assert forall|action: int| 0 <= action < num_actions implies back[hand][action]
            == hands[hand][action] by {
            lemma_entry_in_bounds(flat.len() as int, num_hands, action, hand);
        }
    }
    assert(back =~= hands);
}

/// The bucket of an equity whose percentage has the integer part
/// `whole_percent`. Below 25 is bucket 0, below 50 bucket 1, then one bucket
/// for every ten up to 90; 90 and all above is bucket 6.
pub open spec fn bucket_of(whole_percent: int) -> int {
    if whole_percent < 25 {
        0
    } else if whole_percent < 50 {
        1
    } else if whole_percent < 60 {
        2
    } else if whole_percent < 70 {
        3
    } else if whole_percent < 80 {
        4
    } else if whole_percent < 90 {
        5
    } else {
        6
    }
}

/// How many of `whole_percents` fall into `bucket`.
pub open spec fn bucket_count(whole_percents: Seq<i64>, bucket: int) -> nat
    decreases whole_percents.len(),
{
    if whole_percents.len() == 0 {
        0
    } else {
        bucket_count(whole_percents.drop_last(), bucket) + if bucket_of(
            whole_percents.last() as int,
        ) == bucket {
            1nat
        } else {
            0nat
        }
    }
}

/// The bucket of an equity, by the integer part of its percentage.
pub fn equity_bucket(whole_percent: i64) -> (bucket: usize)
    ensures
        bucket == bucket_of(whole_percent as int),
        bucket < BUCKETS,
{
    if whole_percent < 25 {
        0
    } else if whole_percent < 50 {
        1
    } else if whole_percent < 60 {
        2
    } else if whole_percent < 70 {
        3
    } else if whole_percent < 80 {
        4
    } else if whole_percent < 90 {
        5
    } else {
        6
    }
}

/// Every equity falls into one bucket: the counts of the seven buckets sum to
/// the number of equities, and none of them exceeds it.
pub proof fn lemma_bucket_counts_total(whole_percents: Seq<i64>)
    ensures
        bucket_count(whole_percents, 0) + bucket_count(whole_percents, 1) + bucket_count(
            whole_percents,
            2,
        ) + bucket_count(whole_percents, 3) + bucket_count(whole_percents, 4) + bucket_count(
            whole_percents,
            5,
        ) + bucket_count(whole_percents, 6) == whole_percents.len(),
        forall|bucket: int| #[trigger] bucket_count(whole_percents, bucket) <= whole_percents.len(),
    decreases whole_percents.len(),
{
    if whole_percents.len() > 0 {
        lemma_bucket_counts_total(whole_percents.drop_last());
        assert forall|bucket: int| #[trigger]
            bucket_count(whole_percents, bucket) <= whole_percents.len() by {
            assert(bucket_count(whole_percents.drop_last(), bucket)
                <= whole_percents.drop_last().len());
        }
    }
}

/// Counts the equities of a range by bucket. `whole_percents` holds for each
/// hand the integer part of its equity in percent; entry `b` of the result is
/// the number of hands in bucket `b`. The entries sum to the number of hands.
pub fn calculate_equity_buckets(whole_percents: &Vec<i64>) -> (counts: [usize; BUCKETS])
    ensures
        forall|bucket: int|
            0 <= bucket < 7 ==> #[trigger] counts[bucket] == bucket_count(whole_percents@, bucket),
        counts[0] + counts[1] + counts[2] + counts[3] + counts[4] + counts[5] + counts[6]
            == whole_percents.len(),
{
    let mut counts: [usize; BUCKETS] = [0; BUCKETS];
    let mut i: usize = 0;
    while i < whole_percents.len()
        invariant
            i <= whole_percents.len(),
            forall|bucket: int|
                0 <= bucket < 7 ==> #[trigger] counts[bucket] == bucket_count(
                    whole_percents@.take(i as int),
                    bucket,
                ),
        decreases whole_percents.len() - i,
    {
        let bucket = equity_bucket(whole_percents[i]);
        proof {
            let upto = whole_percents@.take(i + 1);
            assert(upto.drop_last() =~= whole_percents@.take(i as int));
            assert(upto.last() == whole_percents[i as int]);
            lemma_bucket_counts_total(whole_percents@.take(i as int));
        }
        counts[bucket] = counts[bucket] + 1;
        i += 1;
    }
    proof {
        assert(whole_percents@.take(whole_percents.len() as int) =~= whole_percents@);
        lemma_bucket_counts_total(whole_percents@);
    }
    counts
}

} // verus!
