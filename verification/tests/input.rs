use comlib::io::{
    parse_all, strip_prefix, Consumable, Input, InputPattern, Just, LineMatcher,
};
use comlib::range::Bound::{Excluded, Included, Unbounded};

fn s(text: &str) -> Vec<char> {
    text.chars().collect()
}

#[test]
fn input_test_parse_line() {
    let mut input = Input::from_text(&s("1\nasd\n3"));
    assert_eq!(input.parse_line_opt::<usize>(), Some(1));
    assert_eq!(input.parse_line_opt::<usize>(), None);
    assert_eq!(input.parse_line_opt::<Vec<char>>(), Some(s("asd")));
    assert_eq!(input.parse_line_opt::<usize>(), Some(3));
    assert_eq!(input.parse_line_opt::<usize>(), None);
    let mut input = Input::from_text(&s("-7\n"));
    assert_eq!(input.parse_line::<i64>(), -7);
}

#[test]
fn input_test_match_line() {
    let mut input = Input::from_text(&s("1\nasd\n3"));
    assert_eq!(input.match_line_opt(Just::<usize>::new()), Some(1));
    assert_eq!(input.match_line_opt(Just::<usize>::new()), None);
    assert_eq!(
        input.match_line_opt(Just::<Vec<char>>::new()),
        Some(s("asd"))
    );
    assert_eq!(input.match_line_opt(Just::<usize>::new()), Some(3));
    assert_eq!(input.match_line_opt(Just::<usize>::new()), None);
}

#[test]
fn input_test_match_lines() {
    let input = s("1\n2\n3\n4\n5\n6");
    assert_eq!(
        Input::from_text(&input).match_lines(Just::<usize>::new(), Unbounded, Included(1)),
        &[1]
    );
    assert_eq!(
        Input::from_text(&input).match_lines(Just::<usize>::new(), Included(1), Included(4)),
        &[1, 2, 3, 4]
    );
    assert_eq!(
        Input::from_text(&input).match_lines(Just::<usize>::new(), Unbounded, Excluded(100)),
        &[1, 2, 3, 4, 5, 6]
    );
    assert_eq!(
        Input::from_text(&input).match_lines(Just::<usize>::new(), Unbounded, Unbounded),
        &[1, 2, 3, 4, 5, 6]
    );
    assert_eq!(
        Input::from_text(&input).match_lines(Just::<usize>::new(), Included(4), Unbounded),
        &[1, 2, 3, 4, 5, 6]
    );
}

/// Numbers with a space after each of them but, maybe, the last one.
fn numbers(line: &[char]) -> Option<Vec<i32>> {
    let mut numbers = Vec::new();
    let mut input = line;
    while !input.is_empty() {
        let (item, rest) = comlib::io::split_before(input, &[' ']);
        match i32::consume(item) {
            Ok((number, left)) if left.is_empty() => numbers.push(number),
            _ => return None,
        }
        input = strip_prefix(rest, &[' ']).unwrap_or(rest);
    }
    Some(numbers)
}

#[test]
fn test_match_lines_opt() {
    let input = "1 2 3\n4 5 6\nhello";
    let mut reader = Input::from_text(&s(input));
    assert!(reader
        .match_lines_opt_by(numbers, Included(1), Unbounded)
        .is_some());
    assert_eq!(reader.read_line().unwrap(), s("hello"));
}

#[test]
fn test_match_string_lines() {
    assert_eq!(
        Input::from_text(&s("l1\nl2\n")).match_lines(Just::<Vec<char>>::new(), Unbounded, Unbounded),
        vec![s("l1"), s("l2")]
    );
}

#[test]
fn test_match_no_lines() {
    assert_eq!(
        Input::from_text(&s("hello\n")).match_lines(Just::<usize>::new(), Unbounded, Unbounded),
        vec![]
    );
}

#[test]
fn match_lines_opt_keeps_the_lines_when_too_few_match() {
    let mut input = Input::from_text(&s("1\n2\nx\n"));
    assert_eq!(
        input.match_lines_opt(Just::<usize>::new(), Included(3), Unbounded),
        None
    );
    assert_eq!(input.peek_line().unwrap(), &s("1")[..]);
    assert_eq!(
        input.match_lines_opt(Just::<usize>::new(), Included(2), Included(5)),
        Some(vec![1, 2])
    );
    assert_eq!(input.match_line(Just::<char>::new()), 'x');
    assert!(input.peek_line().is_err());
    assert!(input.read_line().is_err());
}

#[test]
fn lines_lose_the_control_characters_at_their_end() {
    let mut input = Input::from_text(&s("a b\r\n\n\tc\t\r\n"));
    assert_eq!(input.read_line().unwrap(), s("a b"));
    assert_eq!(input.read_line().unwrap(), s(""));
    assert_eq!(input.read_line().unwrap(), s("\tc"));
    assert!(input.read_line().is_err());
    let pattern = Just::<usize>::new();
    assert_eq!(parse_all(&pattern, &s("12")), Some(12));
    assert_eq!(parse_all(&pattern, &s("12 ")), None);
    assert_eq!(pattern.parse_prefix(&s("12 ")), Some((12, &s(" ")[..])));
}

/// Two numbers with a space between them.
fn pair(input: &[char]) -> Option<(usize, i64)> {
    let (first, rest) = usize::consume(input).ok()?;
    let rest = strip_prefix(rest, &[' '])?;
    let (second, rest) = i64::consume(rest).ok()?;
    if rest.is_empty() {
        Some((first, second))
    } else {
        None
    }
}

#[test]
fn a_function_of_two_numbers_matches_lines() {
    let mut input = Input::from_text(&s("1 -2\n3 4\n5 x\n"));
    assert_eq!(
        input.match_lines_opt_by(pair, Unbounded, Unbounded),
        Some(vec![(1, -2), (3, 4)])
    );
    assert_eq!(input.match_line_opt_by(pair), None);
    assert_eq!(input.read_line().unwrap(), s("5 x"));
    let mut input = Input::from_text(&s("7 8\n9 10\n11 12"));
    assert_eq!(input.match_lines_opt_by(pair, Included(3), Excluded(3)), None);
    assert_eq!(input.match_lines_opt_by(pair, Unbounded, Excluded(3)), Some(vec![(7, 8), (9, 10)]));
    assert_eq!(input.match_line_opt_by(pair), Some((11, 12)));
    assert_eq!(input.match_line_opt_by(pair), None);
}

#[test]
fn lines_are_taken_in_one_after_the_other() {
    let mut input = Input::new();
    assert_eq!(input.cached(), 0);
    assert!(input.peek_line().is_err());
    input.push_raw_line(s("first\r\n"));
    input.push_raw_line(s("\n"));
    input.push_raw_line(s("third"));
    assert_eq!(input.cached(), 3);
    assert_eq!(input.line_at(0), &s("first")[..]);
    assert_eq!(input.line_at(1), &s("")[..]);
    assert_eq!(input.line_at(2), &s("third")[..]);
    input.skip_lines(2);
    assert_eq!(input.read_line().unwrap(), s("third"));
    assert_eq!(input.cached(), 0);
}

#[test]
fn the_matcher_wants_lines_up_to_the_bounds() {
    // Two to three lines: a third line is wanted, a fourth one is not.
    let mut matcher = LineMatcher::new(Included(2), Included(3));
    assert!(matcher.wants_line() && !matcher.finish());
    matcher.accept();
    assert!(matcher.wants_line() && !matcher.finish());
    matcher.accept();
    assert!(matcher.wants_line() && matcher.finish());
    matcher.accept();
    assert!(!matcher.wants_line() && matcher.finish());
    assert_eq!(matcher.accepted(), 3);
    // No line: none is wanted.
    let matcher = LineMatcher::new(Unbounded, Excluded(1));
    assert!(!matcher.wants_line() && matcher.finish());
    // Bounds that nothing is within: every line is wanted, none is right.
    let mut matcher = LineMatcher::new(Included(3), Excluded(3));
    matcher.accept();
    matcher.accept();
    matcher.accept();
    assert!(matcher.wants_line() && !matcher.finish());
}
