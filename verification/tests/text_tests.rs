use poker_spot::text::{chars_of, copy_range, field_bounds, same_chars};

fn chars(text: &str) -> Vec<char> {
    text.chars().collect()
}

fn split(text: &str, sep: char) -> Vec<String> {
    let all = chars_of(text);
    field_bounds(&all, sep)
        .iter()
        .map(|(start, end)| copy_range(&all, *start, *end).iter().collect())
        .collect()
}

#[test]
fn chars_are_read_in_order() {
    assert_eq!(chars_of(""), Vec::<char>::new());
    assert_eq!(chars_of("BTN"), vec!['B', 'T', 'N']);
    assert_eq!(chars_of("é,ß"), vec!['é', ',', 'ß']);
}

#[test]
fn same_chars_compares_whole_texts() {
    assert!(same_chars(&chars("call"), "call"));
    assert!(same_chars(&chars(""), ""));
    assert!(!same_chars(&chars("call"), "cal"));
    assert!(!same_chars(&chars("cal"), "call"));
    assert!(!same_chars(&chars("call"), "calm"));
    assert!(!same_chars(&chars("Call"), "call"));
}

#[test]
fn fields_lie_between_separators() {
    assert_eq!(split("UTG,BTN,BB", ','), vec!["UTG", "BTN", "BB"]);
    assert_eq!(split("UTG", ','), vec!["UTG"]);
    assert_eq!(split("", ','), vec![""]);
    assert_eq!(split(",", ','), vec!["", ""]);
    assert_eq!(split("a,,b,", ','), vec!["a", "", "b", ""]);
    assert_eq!(split(",a", ','), vec!["", "a"]);
    assert_eq!(split("a/b", '/'), vec!["a", "b"]);
}

#[test]
fn field_bounds_are_adjacent() {
    let all = chars("ab,c,,def");
    assert_eq!(field_bounds(&all, ','), vec![(0, 2), (3, 4), (5, 5), (6, 9)]);
    assert_eq!(field_bounds(&chars(""), ','), vec![(0, 0)]);
}

#[test]
fn fields_agree_with_std_split() {
    for text in ["", ",", "a", "a,b", ",a,", "a,,b", "1, 2 ,3", "é,ü", ",,,"] {
        let expected: Vec<String> = text.split(',').map(|field| field.to_string()).collect();
        assert_eq!(split(text, ','), expected, "{:?}", text);
        assert_eq!(split(text, ',').join(","), text);
    }
}

#[test]
fn copy_range_copies_a_piece() {
    let all = chars("raise_2.5x");
    assert_eq!(copy_range(&all, 0, 5), chars("raise"));
    assert_eq!(copy_range(&all, 6, 10), chars("2.5x"));
    assert_eq!(copy_range(&all, 4, 4), Vec::<char>::new());
    assert_eq!(copy_range(&all, 0, 10), all);
}
