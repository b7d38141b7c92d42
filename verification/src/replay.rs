//! Replaying a line of play after the flop.
//!
//! Once the spot is solved, the solver's cursor is moved to the node to be
//! analysed by playing actions one after another, each given by its index
//! among the actions available at the node reached so far. The caller names
//! the actions of each street as a list of indices separated by commas. A
//! token that is no index is kept as it was written and left out of the play:
//! one garbled token does not spoil the rest of the list. A turn or river card
//! is dealt by playing the card's number before the actions of its street.

use vstd::prelude::*;
use vstd::string::StrSliceExecFns;
use crate::text::{chars_of, field_bounds, fields, pieces};

verus! {

/// Whether `c` is white space, that is, has the Unicode property White_Space.
pub open spec fn is_blank(c: char) -> bool {
    let n = c as int;
    ||| 0x09 <= n <= 0x0D
    ||| n == 0x20
    ||| n == 0x85
    ||| n == 0xA0
    ||| n == 0x1680
    ||| 0x2000 <= n <= 0x200A
    ||| n == 0x2028
    ||| n == 0x2029
    ||| n == 0x202F
    ||| n == 0x205F
    ||| n == 0x3000
}

/// Where the first character of `s` stands that is not white space, or the
/// length of `s` where all of it is white space.
pub open spec fn solid_start(s: Seq<char>) -> int
    decreases s.len(),
{
    if s.len() == 0 || !is_blank(s[0]) {
        0
    } else {
        1 + solid_start(s.drop_first())
    }
}

/// One past the last character of `s` that is not white space, or 0 where all
/// of it is white space.
pub open spec fn solid_end(s: Seq<char>) -> int
    decreases s.len(),
{
    if s.len() == 0 || !is_blank(s.last()) {
        s.len() as int
    } else {
        solid_end(s.drop_last())
    }
}

/// `s` without the white space at its start and at its end.
pub open spec fn trimmed(s: Seq<char>) -> Seq<char> {
    if solid_start(s) < solid_end(s) {
        s.subrange(solid_start(s), solid_end(s))
    } else {
        Seq::empty()
    }
}

/// Whether `c` is one of the digits `0` to `9`.
pub open spec fn is_digit(c: char) -> bool {
    '0' <= c <= '9'
}

/// The number that the decimal digits `digits` spell; 0 for no digits.
pub open spec fn decimal_value(digits: Seq<char>) -> nat
    decreases digits.len(),
{
    if digits.len() == 0 {
        0
    } else {
        10 * decimal_value(digits.drop_last()) + (digits.last() as int - '0' as int) as nat
    }
}

/// The digits of a number written as `token`: the token itself, or what
/// follows its leading `+`.
pub open spec fn digits_of(token: Seq<char>) -> Seq<char> {
    if token.len() > 0 && token[0] == '+' {
        token.skip(1)
    } else {
        token
    }
}

/// The index that `token` spells, white space around it aside: one or more
/// decimal digits, with or without a `+` before them, whose value fits the
/// machine's index type. `None` for any other token.
pub open spec fn action_index_of(token: Seq<char>) -> Option<usize> {
    let digits = digits_of(trimmed(token));
    if digits.len() > 0 && (forall|k: int| 0 <= k < digits.len() ==> is_digit(#[trigger] digits[k]))
        && decimal_value(digits) <= usize::MAX {
        Some(decimal_value(digits) as usize)
    } else {
        None
    }
}

/// One token of a replay list.
#[derive(Debug, PartialEq, Eq)]
pub enum ReplayToken {
    /// An action to play, by its index.
    Play(usize),
    /// A token that is no index, as it was written. It is not played.
    Malformed(String),
}

/// What a [`ReplayToken`] stands for in contracts.
pub enum ReplayTokenView {
    Play(usize),
    Malformed(Seq<char>),
}

impl View for ReplayToken {
    type V = ReplayTokenView;

    open spec fn view(&self) -> ReplayTokenView {
        match self {
            ReplayToken::Play(index) => ReplayTokenView::Play(*index),
            ReplayToken::Malformed(text) => ReplayTokenView::Malformed(text@),
        }
    }
}

impl DeepView for ReplayToken {
    type V = ReplayTokenView;

    open spec fn deep_view(&self) -> ReplayTokenView {
        self@
    }
}

/// The replay token that the field `field` of a list stands for.
pub open spec fn token_of(field: Seq<char>) -> ReplayTokenView {
    match action_index_of(field) {
        Some(index) => ReplayTokenView::Play(index),
        None => ReplayTokenView::Malformed(field),
    }
}

/// The replay tokens of a list: one for each of its fields between commas.
pub open spec fn tokens_of(list: Seq<char>) -> Seq<ReplayTokenView> {
    fields(list, ',').map_values(|field: Seq<char>| token_of(field))
}

/// The tokens of one street: the card, if one is dealt, then the tokens of
/// the list, if there is one. Without a card the street is not played at
/// all, list or no list.
pub open spec fn street_tokens(card: Option<u8>, list: Option<Seq<char>>) -> Seq<ReplayTokenView> {
    match card {
        None => Seq::empty(),
        Some(number) => seq![ReplayTokenView::Play(number as usize)] + match list {
            Some(text) => tokens_of(text),
            None => Seq::empty(),
        },
    }
}

/// The tokens of the flop: those of its list, if there is one.
pub open spec fn flop_tokens(list: Option<Seq<char>>) -> Seq<ReplayTokenView> {
    match list {
        Some(text) => tokens_of(text),
        None => Seq::empty(),
    }
}

/// Whether `c` is white space.
pub fn is_blank_char(c: char) -> (blank: bool)
    ensures
        blank == is_blank(c),
{
    let n: u32 = c as u32;
    (0x09 <= n && n <= 0x0D) || n == 0x20 || n == 0x85 || n == 0xA0 || n == 0x1680 || (0x2000 <= n
        && n <= 0x200A) || n == 0x2028 || n == 0x2029 || n == 0x202F || n == 0x205F || n == 0x3000
}

/// The first solid character is at `at` when all before it is white space and
/// it is not.
proof fn lemma_solid_start(s: Seq<char>, at: int)
    requires
        0 <= at <= s.len(),
        forall|k: int| 0 <= k < at ==> is_blank(#[trigger] s[k]),
        at < s.len() ==> !is_blank(s[at]),
    ensures
        solid_start(s) == at,
    decreases at,
{
    if at > 0 {
        assert(is_blank(s[0]));
        assert forall|k: int| 0 <= k < at - 1 implies is_blank(#[trigger] s.drop_first()[k]) by {
            assert(s.drop_first()[k] == s[k + 1]);
        }
        lemma_solid_start(s.drop_first(), at - 1);
    }
}

/// The solid part ends at `at` when all from there on is white space and the
/// character before is not.
proof fn lemma_solid_end(s: Seq<char>, at: int)
    requires
        0 <= at <= s.len(),
        forall|k: int| at <= k < s.len() ==> is_blank(#[trigger] s[k]),
        at > 0 ==> !is_blank(s[at - 1]),
    ensures
        solid_end(s) == at,
    decreases s.len() - at,
{
    if at < s.len() {
        assert(is_blank(s[s.len() - 1]));
        assert forall|k: int| at <= k < s.len() - 1 implies is_blank(
            #[trigger] s.drop_last()[k],
        ) by {
            assert(s.drop_last()[k] == s[k]);
        }
        lemma_solid_end(s.drop_last(), at);
    }
}

/// The bounds of `chars[start..end]` without the white space at its start and
/// at its end.
fn trim_bounds(chars: &Vec<char>, start: usize, end: usize) -> (bounds: (usize, usize))
    requires
        start <= end <= chars.len(),
    ensures
        start <= bounds.0 <= bounds.1 <= end,
        chars@.subrange(bounds.0 as int, bounds.1 as int) == trimmed(
            chars@.subrange(start as int, end as int),
        ),
{
    let ghost piece = chars@.subrange(start as int, end as int);
    let mut from: usize = start;
    while from < end && is_blank_char(chars[from])
        invariant
            start <= from <= end <= chars.len(),
            forall|k: int| start <= k < from ==> is_blank(#[trigger] chars[k]),
        decreases end - from,
    {
        from += 1;
    }
    let mut to: usize = end;
    while to > from && is_blank_char(chars[to - 1])
        invariant
            from <= to <= end <= chars.len(),
            forall|k: int| to <= k < end ==> is_blank(#[trigger] chars[k]),
        decreases to - from,
    {
        to -= 1;
    }
    proof {
        assert forall|k: int| 0 <= k < from - start implies is_blank(#[trigger] piece[k]) by {
            assert(piece[k] == chars[start + k]);
        }
        lemma_solid_start(piece, from - start);
        if from < end {
            assert forall|k: int| to - start <= k < piece.len() implies is_blank(
                #[trigger] piece[k],
            ) by {
                assert(piece[k] == chars[start + k]);
            }
            lemma_solid_end(piece, to - start);
            assert(chars@.subrange(from as int, to as int) =~= piece.subrange(
                from - start,
                to - start,
            ));
        } else {
            lemma_solid_end_of_blank(piece);
            assert(chars@.subrange(from as int, to as int) =~= Seq::<char>::empty());
        }
    }
    (from, to)
}

/// A text of white space only has no solid part.
proof fn lemma_solid_end_of_blank(s: Seq<char>)
    requires
        forall|k: int| 0 <= k < s.len() ==> is_blank(#[trigger] s[k]),
    ensures
        solid_end(s) <= solid_start(s),
        solid_end(s) == 0,
{
    lemma_solid_end(s, 0);
    lemma_solid_part(s);
}

/// What trimming drops is white space, and what it keeps starts and ends
/// with a character that is none: all before the solid part and all behind it
/// is white space, and the solid part, if there is one, has a solid character
/// at either end.
pub proof fn lemma_solid_part(s: Seq<char>)
    ensures
        0 <= solid_start(s) <= s.len(),
        0 <= solid_end(s) <= s.len(),
        forall|k: int| 0 <= k < solid_start(s) ==> is_blank(#[trigger] s[k]),
        forall|k: int| solid_end(s) <= k < s.len() ==> is_blank(#[trigger] s[k]),
        solid_start(s) < s.len() ==> !is_blank(s[solid_start(s)]) && solid_start(s) < solid_end(s),
        solid_end(s) > 0 ==> !is_blank(s[solid_end(s) - 1]),
        trimmed(s).len() > 0 ==> !is_blank(trimmed(s).first()) && !is_blank(trimmed(s).last()),
    decreases s.len(),
{
    if s.len() > 0 {
        if is_blank(s[0]) {
            let rest = s.drop_first();
            lemma_solid_part(rest);
            assert forall|k: int| 0 <= k < solid_start(s) implies is_blank(#[trigger] s[k]) by {
                if k > 0 {
                    assert(s[k] == rest[k - 1]);
                }
            }
            if solid_start(s) < s.len() {
                assert(s[solid_start(s)] == rest[solid_start(rest)]);
            }
        }
        if is_blank(s.last()) {
            let rest = s.drop_last();
            lemma_solid_part(rest);
            assert forall|k: int| solid_end(s) <= k < s.len() implies is_blank(#[trigger] s[k]) by {
                if k < s.len() - 1 {
                    assert(s[k] == rest[k]);
                }
            }
            if solid_end(s) > 0 {
                assert(s[solid_end(s) - 1] == rest[solid_end(rest) - 1]);
            }
        }
        if solid_start(s) < s.len() && solid_end(s) <= solid_start(s) {
            assert(is_blank(s[solid_start(s)]));
        }
    }
}

/// More digits never spell a smaller number.
proof fn lemma_decimal_value_grows(digits: Seq<char>, upto: int)
    requires
        0 <= upto <= digits.len(),
    ensures
        decimal_value(digits.take(upto)) <= decimal_value(digits),
    decreases digits.len() - upto,
{
    if upto < digits.len() {
        lemma_decimal_value_grows(digits, upto + 1);
        assert(digits.take(upto + 1).drop_last() =~= digits.take(upto));
    } else {
        assert(digits.take(upto) =~= digits);
    }
}

/// The index that `chars[start..end]` spells, if it spells one.
fn parse_index_between(chars: &Vec<char>, start: usize, end: usize) -> (index: Option<usize>)
    requires
        start <= end <= chars.len(),
    ensures
        index == action_index_of(chars@.subrange(start as int, end as int)),
{
    let (from, to) = trim_bounds(chars, start, end);
    let ghost token = chars@.subrange(from as int, to as int);
    let first: usize = if from < to && chars[from] == '+' {
        from + 1
    } else {
        from
    };
    let ghost digits = chars@.subrange(first as int, to as int);
    proof {
        if from < to {
            assert(token[0] == chars[from as int]);
        }
        assert(digits =~= digits_of(token));
    }
    if first == to {
        return None;
    }
    let mut value: usize = 0;
    let mut i: usize = first;
    while i < to
        invariant
            first <= i <= to <= chars.len(),
            start <= end <= chars.len(),
            digits == chars@.subrange(first as int, to as int),
            digits == digits_of(trimmed(chars@.subrange(start as int, end as int))),
            forall|k: int| 0 <= k < i - first ==> is_digit(#[trigger] digits[k]),
            value == decimal_value(digits.take(i - first)),
        decreases to - i,
    {
        let c = chars[i];
        assert(c == digits[i - first]);
        if !(c >= '0' && c <= '9') {
            return None;
        }
        let digit: usize = (c as u32 - '0' as u32) as usize;
        proof {
            assert(digits.take(i - first + 1).drop_last() =~= digits.take(i - first));
            assert(digits.take(i - first + 1).last() == c);
            lemma_decimal_value_grows(digits, i - first + 1);
        }
        let scaled = match value.checked_mul(10) {
            Some(scaled) => scaled,
            None => {
                return None;
            },
        };
        value = match scaled.checked_add(digit) {
            Some(sum) => sum,
            None => {
                return None;
            },
        };
        i += 1;
    }
    assert(digits.take(to - first) =~= digits);
    Some(value)
}

/// Reads one token of a replay list as an action index. White space round
/// the token is dropped; what is left must be decimal digits, with or without
/// a `+` before them, and fit the machine's index type.
pub fn parse_action_index(token: &str) -> (index: Option<usize>)
    ensures
        index == action_index_of(token@),
{
    let chars = chars_of(token);
    assert(chars@.subrange(0, chars.len() as int) =~= chars@);
    parse_index_between(&chars, 0, chars.len())
}

/// Appends to `plan` the tokens of the replay list `list`.
fn push_tokens(plan: &mut Vec<ReplayToken>, list: &str)
    ensures
        final(plan).deep_view() == old(plan).deep_view() + tokens_of(list@),
{
    let ghost before = plan.deep_view();
    let ghost names = fields(list@, ',');
    let chars = chars_of(list);
    let bounds = field_bounds(&chars, ',');
    let mut j: usize = 0;
    assert(plan.deep_view() =~= before + tokens_of(list@).take(0));
    while j < bounds.len()
        invariant
            j <= bounds.len(),
            chars@ == list@,
            names == fields(list@, ','),
            pieces(chars@, bounds@) == names,
            forall|k: int|
                0 <= k < bounds.len() ==> (#[trigger] bounds[k]).0 <= bounds[k].1 <= chars.len(),
            plan.deep_view() == before + tokens_of(list@).take(j as int),
        decreases bounds.len() - j,
    {
        let (start, end) = bounds[j];
        let ghost shown = plan.deep_view();
        assert(chars@.subrange(start as int, end as int) == names[j as int]);
        match parse_index_between(&chars, start, end) {
            Some(index) => plan.push(ReplayToken::Play(index)),
            None => plan.push(ReplayToken::Malformed(list.substring_char(start, end).to_owned())),
        }
        proof {
            assert(plan.deep_view() =~= shown.push(token_of(names[j as int])));
            assert(tokens_of(list@).take(j + 1) =~= tokens_of(list@).take(j as int).push(
                token_of(names[j as int]),
            ));
        }
        j += 1;
    }
    assert(tokens_of(list@).take(bounds.len() as int) =~= tokens_of(list@));
}

/// The tokens of a replay list: for each field between commas the index it
/// spells, or the field itself where it spells none.
pub fn parse_replay_list(list: &str) -> (tokens: Vec<ReplayToken>)
    ensures
        tokens.deep_view() == tokens_of(list@),
{
    let mut tokens: Vec<ReplayToken> = Vec::new();
    assert(tokens.deep_view() =~= Seq::<ReplayTokenView>::empty());
    push_tokens(&mut tokens, list);
    tokens
}

/// Appends to `plan` the tokens of one street after the flop.
fn push_street(plan: &mut Vec<ReplayToken>, card: Option<u8>, list: Option<&str>)
    ensures
        final(plan).deep_view() == old(plan).deep_view() + street_tokens(
            card,
            match list {
                Some(text) => Some(text@),
                None => None,
            },
        ),
{
    let ghost before = plan.deep_view();
    if let Some(number) = card {
        plan.push(ReplayToken::Play(number as usize));
        assert(plan.deep_view() =~= before + seq![ReplayTokenView::Play(number as usize)]);
        if let Some(text) = list {
            push_tokens(plan, text);
        }
    }
}

/// The whole line to replay: the flop's actions, then for the turn and for
/// the river the card and the street's actions. A street whose card is not
/// dealt is left out together with its actions.
pub fn replay_plan(
    flop_actions: Option<&str>,
    turn: Option<u8>,
    turn_actions: Option<&str>,
    river: Option<u8>,
    river_actions: Option<&str>,
) -> (plan: Vec<ReplayToken>)
    ensures
        plan.deep_view() == flop_tokens(
            match flop_actions {
                Some(text) => Some(text@),
                None => None,
            },
        ) + street_tokens(
            turn,
            match turn_actions {
                Some(text) => Some(text@),
                None => None,
            },
        ) + street_tokens(
            river,
            match river_actions {
                Some(text) => Some(text@),
                None => None,
            },
        ),
{
    let mut plan: Vec<ReplayToken> = Vec::new();
    assert(plan.deep_view() =~= Seq::<ReplayTokenView>::empty());
    if let Some(text) = flop_actions {
        push_tokens(&mut plan, text);
    }
    push_street(&mut plan, turn, turn_actions);
    push_street(&mut plan, river, river_actions);
    plan
}

} // verus!
