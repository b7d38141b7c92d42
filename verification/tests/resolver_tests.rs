use poker_spot::path::{join_path, range_file, PathSegment};
use poker_spot::position::Position;
use poker_spot::resolver::{
    construct_ranges_path, is_raise_action, parse_sequence, resolve_sequence, Progress,
    RaisedSet, Resolution, ResolveError, SequenceResolver,
};

fn names(path: &Vec<PathSegment>) -> Vec<String> {
    path.iter().map(|segment| segment.name()).collect()
}

fn answers(found: &[&str]) -> Vec<Option<String>> {
    found.iter().map(|action| Some(action.to_string())).collect()
}

fn resolved(description: &str, found: &[&str]) -> Resolution {
    match construct_ranges_path(description, &answers(found)) {
        Ok(resolution) => resolution,
        Err(error) => panic!("{} did not resolve: {:?}", description, error),
    }
}

#[test]
fn raise_call_call_example() {
    let resolution = resolved("UTG,BTN,BB", &["raise", "call"]);
    assert_eq!(names(&resolution.path), vec!["UTG", "raise", "BTN", "call", "BB", "call"]);
    assert_eq!(resolution.oop, Position::Bb);
    assert_eq!(resolution.ip, Position::Btn);
    assert_eq!(
        resolution.path,
        vec![
            PathSegment::Seat(Position::Utg),
            PathSegment::Action("raise".to_string()),
            PathSegment::Seat(Position::Btn),
            PathSegment::Action("call".to_string()),
            PathSegment::Seat(Position::Bb),
            PathSegment::Action("call".to_string()),
        ]
    );
}

#[test]
fn two_seats_without_raise_have_no_fold() {
    let resolution = resolved("SB,BB", &["call"]);
    assert_eq!(names(&resolution.path), vec!["SB", "call", "BB", "call"]);
    assert_eq!(resolution.oop, Position::Sb);
    assert_eq!(resolution.ip, Position::Bb);
}

#[test]
fn two_seats_never_insert_a_fold() {
    let all = [
        Position::Utg,
        Position::Hj,
        Position::Co,
        Position::Btn,
        Position::Sb,
        Position::Bb,
    ];
    for a in all {
        for b in all {
            if a == b {
                continue;
            }
            for action in ["call", "allin", "raise_2.5x"] {
                let resolution = resolve_sequence(vec![a, b], &answers(&[action])).unwrap();
                assert_eq!(names(&resolution.path), vec![a.name(), action, b.name(), "call"]);
                assert!(resolution.oop.postflop_order() < resolution.ip.postflop_order());
                assert!(
                    (resolution.oop, resolution.ip) == (a, b)
                        || (resolution.oop, resolution.ip) == (b, a)
                );
            }
        }
    }
}

#[test]
fn skipped_raiser_folds_once() {
    let resolution = resolved("UTG,BTN,BB,BTN", &["raise_2.5x", "raise_7.5x", "raise_22x"]);
    assert_eq!(
        names(&resolution.path),
        vec![
            "UTG",
            "raise_2.5x",
            "BTN",
            "raise_7.5x",
            "BB",
            "raise_22x",
            "UTG",
            "fold",
            "BTN",
            "call"
        ]
    );
    let folds = resolution
        .path
        .windows(2)
        .filter(|pair| {
            pair[0] == PathSegment::Seat(Position::Utg)
                && pair[1] == PathSegment::Action("fold".to_string())
        })
        .count();
    assert_eq!(folds, 1);
    assert_eq!(resolution.oop, Position::Bb);
    assert_eq!(resolution.ip, Position::Btn);
}

#[test]
fn skipped_raiser_folds_once_among_distinct_seats() {
    let resolution = resolved("UTG,SB,HJ", &["raise_2.5x", "raise_11x"]);
    assert_eq!(
        names(&resolution.path),
        vec!["UTG", "raise_2.5x", "SB", "raise_11x", "UTG", "fold", "HJ", "call"]
    );
    assert_eq!(resolution.oop, Position::Sb);
    assert_eq!(resolution.ip, Position::Hj);
}

#[test]
fn raiser_that_is_not_skipped_does_not_fold() {
    let resolution = resolved("CO,BTN,SB", &["raise_2.5x", "raise_7.5x"]);
    assert_eq!(
        names(&resolution.path),
        vec!["CO", "raise_2.5x", "BTN", "raise_7.5x", "SB", "call"]
    );
    assert!(!names(&resolution.path).contains(&"fold".to_string()));
}

#[test]
fn skipped_seats_that_did_not_raise_are_not_recorded() {
    let resolution = resolved("UTG,BB", &["raise_2.5x"]);
    assert_eq!(names(&resolution.path), vec!["UTG", "raise_2.5x", "BB", "call"]);
    assert_eq!(resolution.oop, Position::Bb);
    assert_eq!(resolution.ip, Position::Utg);
}

#[test]
fn caller_that_is_skipped_does_not_fold() {
    let resolution = resolved("UTG,BTN,BB,BTN", &["call", "raise_5x", "raise_20x"]);
    assert_eq!(
        names(&resolution.path),
        vec!["UTG", "call", "BTN", "raise_5x", "BB", "raise_20x", "BTN", "call"]
    );
}

#[test]
fn folds_wrap_round_the_end_of_the_order() {
    let resolution = resolved("SB,BTN,UTG", &["raise_3x", "raise_9x"]);
    assert_eq!(
        names(&resolution.path),
        vec!["SB", "raise_3x", "BTN", "raise_9x", "SB", "fold", "UTG", "call"]
    );
}

#[test]
fn several_raisers_fold_in_acting_order() {
    let resolution =
        resolved("HJ,CO,BTN,SB,BTN", &["raise_2x", "raise_6x", "raise_15x", "raise_40x"]);
    assert_eq!(
        names(&resolution.path),
        vec![
            "HJ",
            "raise_2x",
            "CO",
            "raise_6x",
            "BTN",
            "raise_15x",
            "SB",
            "raise_40x",
            "HJ",
            "fold",
            "CO",
            "fold",
            "BTN",
            "call"
        ]
    );
    assert_eq!(resolution.oop, Position::Sb);
    assert_eq!(resolution.ip, Position::Btn);
}

#[test]
fn raiser_skipped_twice_folds_twice() {
    let resolution = resolved(
        "UTG,SB,HJ,BB,CO",
        &["raise_2x", "raise_6x", "raise_15x", "raise_40x"],
    );
    assert_eq!(
        names(&resolution.path),
        vec![
            "UTG",
            "raise_2x",
            "SB",
            "raise_6x",
            "UTG",
            "fold",
            "HJ",
            "raise_15x",
            "SB",
            "fold",
            "BB",
            "raise_40x",
            "UTG",
            "fold",
            "HJ",
            "fold",
            "CO",
            "call"
        ]
    );
}

#[test]
fn sequence_of_one_seat_is_invalid() {
    assert_eq!(construct_ranges_path("UTG", &answers(&[])), Err(ResolveError::InvalidSequence));
    assert_eq!(resolve_sequence(vec![Position::Utg], &vec![]), Err(ResolveError::InvalidSequence));
    assert_eq!(resolve_sequence(vec![], &vec![]), Err(ResolveError::InvalidSequence));
    assert!(matches!(SequenceResolver::start(vec![Position::Bb]), Err(ResolveError::InvalidSequence)));
}

#[test]
fn empty_description_is_invalid() {
    assert_eq!(construct_ranges_path("", &answers(&["raise"])), Err(ResolveError::InvalidSequence));
}

#[test]
fn unknown_seat_is_invalid() {
    assert_eq!(
        construct_ranges_path("UTG,XX,BB", &answers(&["raise", "call"])),
        Err(ResolveError::InvalidSequence)
    );
    assert_eq!(
        construct_ranges_path("UTG, BTN", &answers(&["raise"])),
        Err(ResolveError::InvalidSequence)
    );
    assert_eq!(
        construct_ranges_path("UTG,BTN,", &answers(&["raise", "call"])),
        Err(ResolveError::InvalidSequence)
    );
    assert_eq!(parse_sequence("utg,btn"), Err(ResolveError::InvalidSequence));
}

#[test]
fn parse_sequence_reads_seats_in_order() {
    assert_eq!(
        parse_sequence("UTG,BTN,BB"),
        Ok(vec![Position::Utg, Position::Btn, Position::Bb])
    );
    assert_eq!(parse_sequence("SB"), Ok(vec![Position::Sb]));
    assert_eq!(
        parse_sequence("HJ,HJ,CO,BTN,SB,BB,UTG"),
        Ok(vec![
            Position::Hj,
            Position::Hj,
            Position::Co,
            Position::Btn,
            Position::Sb,
            Position::Bb,
            Position::Utg
        ])
    );
}

#[test]
fn missing_action_names_the_seat() {
    assert_eq!(
        construct_ranges_path("UTG,BTN,BB", &vec![None, Some("call".to_string())]),
        Err(ResolveError::MissingAction(Position::Utg))
    );
    assert_eq!(
        construct_ranges_path("UTG,BTN,BB", &vec![Some("raise".to_string()), None]),
        Err(ResolveError::MissingAction(Position::Btn))
    );
    assert_eq!(
        construct_ranges_path("UTG,BTN,BB", &answers(&["raise"])),
        Err(ResolveError::MissingAction(Position::Btn))
    );
    assert_eq!(
        construct_ranges_path("UTG,BTN", &answers(&[])),
        Err(ResolveError::MissingAction(Position::Utg))
    );
}

#[test]
fn last_seat_is_never_looked_up() {
    let with_more = vec![
        Some("raise".to_string()),
        Some("call".to_string()),
        None,
        Some("raise_9x".to_string()),
    ];
    let resolution = construct_ranges_path("UTG,BTN,BB", &with_more).unwrap();
    assert_eq!(names(&resolution.path), vec!["UTG", "raise", "BTN", "call", "BB", "call"]);
}

#[test]
fn same_last_two_seats_is_invalid() {
    assert_eq!(
        construct_ranges_path("UTG,BB,BB", &answers(&["raise", "call"])),
        Err(ResolveError::InvalidSequence)
    );
    assert_eq!(
        construct_ranges_path("BTN,BTN", &answers(&["raise"])),
        Err(ResolveError::InvalidSequence)
    );
}

#[test]
fn missing_action_comes_before_same_last_two_seats() {
    assert_eq!(
        construct_ranges_path("UTG,BB,BB", &vec![Some("raise".to_string()), None]),
        Err(ResolveError::MissingAction(Position::Bb))
    );
}

#[test]
fn resolver_hands_out_the_path_to_look_up() {
    let sequence = vec![Position::Utg, Position::Sb, Position::Hj];
    let resolver = match SequenceResolver::start(sequence) {
        Ok(resolver) => resolver,
        Err(error) => panic!("{:?}", error),
    };
    assert_eq!(resolver.pending_seat(), Position::Utg);
    assert_eq!(names(resolver.pending_path()), vec!["UTG"]);

    let resolver = match resolver.advance(Some("raise_2.5x".to_string())) {
        Progress::Lookup(resolver) => resolver,
        _ => panic!("a second lookup is due"),
    };
    assert_eq!(resolver.pending_seat(), Position::Sb);
    assert_eq!(names(resolver.pending_path()), vec!["UTG", "raise_2.5x", "SB"]);

    match resolver.advance(Some("raise_11x".to_string())) {
        Progress::Done(resolution) => {
            assert_eq!(
                names(&resolution.path),
                vec!["UTG", "raise_2.5x", "SB", "raise_11x", "UTG", "fold", "HJ", "call"]
            );
            assert_eq!(resolution.oop, Position::Sb);
            assert_eq!(resolution.ip, Position::Hj);
        }
        _ => panic!("the sequence is resolved"),
    }
}

#[test]
fn resolver_puts_folds_before_the_next_lookup() {
    let sequence = vec![Position::Utg, Position::Btn, Position::Bb, Position::Btn, Position::Bb];
    let mut resolver = SequenceResolver::start(sequence).ok().unwrap();
    for action in ["raise_2x", "raise_6x", "raise_18x"] {
        resolver = match resolver.advance(Some(action.to_string())) {
            Progress::Lookup(resolver) => resolver,
            _ => panic!("another lookup is due"),
        };
    }
    assert_eq!(resolver.pending_seat(), Position::Btn);
    assert_eq!(
        names(resolver.pending_path()),
        vec!["UTG", "raise_2x", "BTN", "raise_6x", "BB", "raise_18x", "UTG", "fold", "BTN"]
    );
}

#[test]
fn resolver_fails_without_an_answer() {
    let resolver = SequenceResolver::start(vec![Position::Co, Position::Sb]).ok().unwrap();
    match resolver.advance(None) {
        Progress::Failed(error) => assert_eq!(error, ResolveError::MissingAction(Position::Co)),
        _ => panic!("the lookup failed"),
    }
}

#[test]
fn raise_is_what_is_not_call_allin_or_fold() {
    assert!(!is_raise_action("call"));
    assert!(!is_raise_action("allin"));
    assert!(!is_raise_action("fold"));
    assert!(is_raise_action("raise"));
    assert!(is_raise_action("raise_2.5x"));
    assert!(is_raise_action("Call"));
    assert!(is_raise_action("call "));
    assert!(is_raise_action(""));
}

#[test]
fn raised_set_remembers_seats() {
    let mut raised = RaisedSet::new();
    assert!(!raised.contains(Position::Utg));
    raised.insert(Position::Utg);
    raised.insert(Position::Bb);
    raised.insert(Position::Utg);
    assert!(raised.contains(Position::Utg));
    assert!(raised.contains(Position::Bb));
    assert!(!raised.contains(Position::Hj));
    assert!(!raised.contains(Position::Co));
    assert!(!raised.contains(Position::Btn));
    assert!(!raised.contains(Position::Sb));
}

#[test]
fn path_is_joined_with_slashes() {
    let resolution = resolved("UTG,BTN,BB", &["raise", "call"]);
    assert_eq!(join_path("ranges", &resolution.path), "ranges/UTG/raise/BTN/call/BB/call");
    assert_eq!(join_path("ranges", &vec![]), "ranges");
    assert_eq!(join_path("", &vec![PathSegment::Seat(Position::Hj)]), "/HJ");
}

#[test]
fn range_file_is_named_after_the_seat() {
    assert_eq!(range_file("ranges/SB/call/BB/call", Position::Sb), "ranges/SB/call/BB/call/SB.txt");
    assert_eq!(range_file("r", Position::Btn), "r/BTN.txt");
}
