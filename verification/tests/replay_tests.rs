use poker_spot::replay::{
    is_blank_char, parse_action_index, parse_replay_list, replay_plan, ReplayToken,
};

fn malformed(text: &str) -> ReplayToken {
    ReplayToken::Malformed(text.to_string())
}

#[test]
fn digits_are_an_index() {
    assert_eq!(parse_action_index("0"), Some(0));
    assert_eq!(parse_action_index("7"), Some(7));
    assert_eq!(parse_action_index("12"), Some(12));
    assert_eq!(parse_action_index("007"), Some(7));
    assert_eq!(parse_action_index("1326"), Some(1326));
}

#[test]
fn blanks_round_an_index_are_dropped() {
    assert_eq!(parse_action_index(" 3"), Some(3));
    assert_eq!(parse_action_index("3 "), Some(3));
    assert_eq!(parse_action_index("\t 42\r\n"), Some(42));
    assert_eq!(parse_action_index("\u{a0}5\u{3000}"), Some(5));
}

#[test]
fn plus_sign_is_accepted() {
    assert_eq!(parse_action_index("+5"), Some(5));
    assert_eq!(parse_action_index(" +10 "), Some(10));
}

#[test]
fn malformed_tokens_are_no_index() {
    for token in ["", " ", "+", "-", "-1", "-0", "1.5", "a", "1a", "a1", "1 2", "+ 1", "++1", "0x10", "١"] {
        assert_eq!(parse_action_index(token), None, "{:?}", token);
    }
}

#[test]
fn index_must_fit() {
    let max = usize::MAX.to_string();
    assert_eq!(parse_action_index(&max), Some(usize::MAX));
    let mut over = max.clone();
    over.push('0');
    assert_eq!(parse_action_index(&over), None);
    let last = max.chars().last().unwrap();
    if last != '9' {
        let mut next = max.clone();
        next.pop();
        next.push(char::from_u32(last as u32 + 1).unwrap());
        assert_eq!(parse_action_index(&next), None);
    }
    assert_eq!(parse_action_index("99999999999999999999999999999999"), None);
    assert_eq!(parse_action_index("000000000000000000000000000000001"), Some(1));
}

#[test]
fn index_agrees_with_std() {
    let tokens = [
        "", "0", "1", "+1", "-1", " 1", "1 ", " 1 ", "\n1\n", "1\u{85}", "\u{2003}8", "\u{200b}8",
        "18446744073709551615", "18446744073709551616", "4294967295", "4294967296", "+", "+-1",
        "1+", "１", "1,2", "12abc", "\u{1680}3\u{205f}", "\u{feff}3", "00", "+00012",
    ];
    for token in tokens {
        assert_eq!(parse_action_index(token), token.trim().parse::<usize>().ok(), "{:?}", token);
    }
}

#[test]
fn blank_agrees_with_std() {
    for code in 0..0x3100u32 {
        if let Some(c) = char::from_u32(code) {
            assert_eq!(is_blank_char(c), c.is_whitespace(), "{:?}", c);
        }
    }
    assert!(!is_blank_char('\u{feff}'));
    assert!(!is_blank_char('\u{10ffff}'));
}

#[test]
fn list_is_read_token_by_token() {
    assert_eq!(
        parse_replay_list("0,1,2"),
        vec![ReplayToken::Play(0), ReplayToken::Play(1), ReplayToken::Play(2)]
    );
    assert_eq!(parse_replay_list("4"), vec![ReplayToken::Play(4)]);
}

#[test]
fn malformed_token_is_kept_and_the_rest_is_read() {
    assert_eq!(
        parse_replay_list("0, x ,2"),
        vec![ReplayToken::Play(0), malformed(" x "), ReplayToken::Play(2)]
    );
    assert_eq!(
        parse_replay_list("1,,2,"),
        vec![ReplayToken::Play(1), malformed(""), ReplayToken::Play(2), malformed("")]
    );
    assert_eq!(parse_replay_list("-1"), vec![malformed("-1")]);
}

#[test]
fn empty_list_is_one_malformed_token() {
    assert_eq!(parse_replay_list(""), vec![malformed("")]);
}

#[test]
fn list_agrees_with_std_split() {
    for list in ["", ",", "1,2", " 1 , 2 ", "a,b,,3", ",,", "5,é,6", "1;2", "１,2"] {
        let expected: Vec<ReplayToken> = list
            .split(',')
            .map(|token| match token.trim().parse::<usize>() {
                Ok(index) => ReplayToken::Play(index),
                Err(_) => malformed(token),
            })
            .collect();
        assert_eq!(parse_replay_list(list), expected, "{:?}", list);
    }
}

#[test]
fn plan_without_anything_is_empty() {
    assert_eq!(replay_plan(None, None, None, None, None), vec![]);
}

#[test]
fn plan_plays_flop_then_turn_then_river() {
    let plan = replay_plan(Some("1,0"), Some(17), Some("2"), Some(40), Some("0,1"));
    assert_eq!(
        plan,
        vec![
            ReplayToken::Play(1),
            ReplayToken::Play(0),
            ReplayToken::Play(17),
            ReplayToken::Play(2),
            ReplayToken::Play(40),
            ReplayToken::Play(0),
            ReplayToken::Play(1),
        ]
    );
}

#[test]
fn card_is_played_before_the_actions_of_its_street() {
    assert_eq!(
        replay_plan(None, Some(51), Some("3"), None, None),
        vec![ReplayToken::Play(51), ReplayToken::Play(3)]
    );
    assert_eq!(replay_plan(None, Some(0), None, None, None), vec![ReplayToken::Play(0)]);
}

#[test]
fn street_without_card_is_left_out() {
    assert_eq!(replay_plan(None, None, Some("1,2"), None, Some("3")), vec![]);
    assert_eq!(
        replay_plan(Some("0"), None, Some("1"), Some(9), Some("2")),
        vec![ReplayToken::Play(0), ReplayToken::Play(9), ReplayToken::Play(2)]
    );
}

#[test]
fn plan_keeps_malformed_tokens_in_place() {
    assert_eq!(
        replay_plan(Some("0,oops"), Some(5), Some(""), None, None),
        vec![ReplayToken::Play(0), malformed("oops"), ReplayToken::Play(5), malformed("")]
    );
}
