use poker_spot::aggregate::{
    calculate_equity_buckets, equity_bucket, flatten_strategy, reshape_strategy, BUCKETS,
};

fn whole_percent(equity: f32) -> i64 {
    (equity * 100.0).floor() as i64
}

#[test]
fn reshape_reads_action_major() {
    let flat = vec![0.1f32, 0.2, 0.3, 0.9, 0.8, 0.7];
    let hands = reshape_strategy(&flat, 3);
    assert_eq!(hands, vec![vec![0.1f32, 0.9], vec![0.2, 0.8], vec![0.3, 0.7]]);
}

#[test]
fn reshape_of_one_hand_is_the_array() {
    let flat = vec![5u32, 6, 7];
    assert_eq!(reshape_strategy(&flat, 1), vec![vec![5u32, 6, 7]]);
}

#[test]
fn reshape_of_one_action_is_one_entry_per_hand() {
    let flat = vec![5u32, 6, 7];
    assert_eq!(reshape_strategy(&flat, 3), vec![vec![5u32], vec![6], vec![7]]);
}

#[test]
fn reshape_of_no_strategy_gives_empty_hands() {
    let flat: Vec<f32> = vec![];
    assert_eq!(reshape_strategy(&flat, 2), vec![Vec::<f32>::new(), Vec::new()]);
}

#[test]
fn reshape_leaves_out_a_broken_last_action() {
    let flat = vec![1u8, 2, 3, 4, 5];
    assert_eq!(reshape_strategy(&flat, 2), vec![vec![1u8, 3], vec![2, 4]]);
}

#[test]
fn reshape_round_trips() {
    let num_hands: usize = 5;
    let num_actions: usize = 4;
    let flat: Vec<f32> =
        (0..num_hands * num_actions).map(|at| at as f32 * 0.25 + 1000.0).collect();
    let hands = reshape_strategy(&flat, num_hands);
    assert_eq!(hands.len(), num_hands);
    for (hand, probabilities) in hands.iter().enumerate() {
        assert_eq!(probabilities.len(), num_actions);
        for (action, probability) in probabilities.iter().enumerate() {
            assert_eq!(*probability, flat[action * num_hands + hand]);
        }
    }
    assert_eq!(flatten_strategy(&hands, num_actions), flat);
}

#[test]
fn flatten_round_trips() {
    let hands = vec![vec![1u16, 2, 3], vec![4, 5, 6]];
    let flat = flatten_strategy(&hands, 3);
    assert_eq!(flat, vec![1u16, 4, 2, 5, 3, 6]);
    assert_eq!(reshape_strategy(&flat, 2), hands);
}

#[test]
fn flatten_of_nothing_is_empty() {
    let hands: Vec<Vec<u8>> = vec![];
    assert_eq!(flatten_strategy(&hands, 0), Vec::<u8>::new());
    let no_actions: Vec<Vec<u8>> = vec![vec![], vec![]];
    assert_eq!(flatten_strategy(&no_actions, 0), Vec::<u8>::new());
}

#[test]
fn sixty_percent_is_in_the_fourth_bucket() {
    assert_eq!(equity_bucket(60), 3);
    assert_eq!(equity_bucket(59), 2);
    assert_eq!(equity_bucket(whole_percent(0.6)), 3);
    assert_eq!(calculate_equity_buckets(&vec![60]), [0, 0, 0, 1, 0, 0, 0]);
}

#[test]
fn bucket_boundaries() {
    let expected = [
        (0, 0),
        (24, 0),
        (25, 1),
        (49, 1),
        (50, 2),
        (59, 2),
        (60, 3),
        (69, 3),
        (70, 4),
        (79, 4),
        (80, 5),
        (89, 5),
        (90, 6),
        (99, 6),
        (100, 6),
    ];
    for (percent, bucket) in expected {
        assert_eq!(equity_bucket(percent), bucket, "{}", percent);
    }
}

#[test]
fn out_of_range_equities_fall_into_the_end_buckets() {
    assert_eq!(equity_bucket(-1), 0);
    assert_eq!(equity_bucket(i64::MIN), 0);
    assert_eq!(equity_bucket(101), 6);
    assert_eq!(equity_bucket(i64::MAX), 6);
}

#[test]
fn bucket_agrees_with_comparing_the_percentage() {
    let mut step: u32 = 0;
    while step <= 4000 {
        let equity = step as f32 / 4000.0;
        let percentage = equity * 100.0;
        let expected = if percentage < 25.0 {
            0
        } else if percentage < 50.0 {
            1
        } else if percentage < 60.0 {
            2
        } else if percentage < 70.0 {
            3
        } else if percentage < 80.0 {
            4
        } else if percentage < 90.0 {
            5
        } else {
            6
        };
        assert_eq!(equity_bucket(whole_percent(equity)), expected, "{}", equity);
        step += 1;
    }
}

#[test]
fn buckets_count_hands() {
    let equities = [0.0f32, 0.1, 0.249, 0.25, 0.5, 0.55, 0.65, 0.75, 0.85, 0.95, 1.0, 0.3];
    let percents: Vec<i64> = equities.iter().map(|e| whole_percent(*e)).collect();
    assert_eq!(calculate_equity_buckets(&percents), [3, 2, 2, 1, 1, 1, 2]);
}

#[test]
fn buckets_of_no_hands_are_empty() {
    assert_eq!(calculate_equity_buckets(&vec![]), [0; BUCKETS]);
}

#[test]
fn bucket_counts_sum_to_the_hands() {
    let percents: Vec<i64> = (0..1326).map(|hand| (hand * 37 % 101) as i64).collect();
    let counts = calculate_equity_buckets(&percents);
    assert_eq!(counts.iter().sum::<usize>(), percents.len());
    for (bucket, count) in counts.iter().enumerate() {
        let expected = percents.iter().filter(|p| equity_bucket(**p) == bucket).count();
        assert_eq!(*count, expected);
    }
}

#[test]
fn bucket_percentages_sum_to_a_hundred() {
    let percents: Vec<i64> = (0..1326).map(|hand| (hand * 53 % 101) as i64).collect();
    let counts = calculate_equity_buckets(&percents);
    let total = percents.len() as f32;
    let sum: f32 = counts.iter().map(|count| (*count as f32 / total) * 100.0).sum();
    assert!((sum - 100.0).abs() <= 1e-4, "{}", sum);
}
