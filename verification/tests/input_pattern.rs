use comlib::io::{split_before, strip_prefix, Consumable};

type Text<'a> = &'a [char];

fn s(text: &str) -> Vec<char> {
    text.chars().collect()
}

fn string(chars: Text) -> String {
    chars.iter().collect()
}

/// A text that must stand at the start.
fn must<'a>(input: Text<'a>, pattern: &str) -> Option<Text<'a>> {
    strip_prefix(input, &s(pattern))
}

/// A text that may stand at the start.
fn may<'a>(input: Text<'a>, pattern: &str) -> Text<'a> {
    must(input, pattern).unwrap_or(input)
}

/// A value that is followed by a text: what stands before the text is read
/// as a whole.
fn before<'a, T: Consumable>(input: Text<'a>, pattern: &str) -> Option<(T, Text<'a>)> {
    let (item, rest) = split_before(input, &s(pattern));
    match T::consume(item) {
        Ok((value, left)) if left.is_empty() => Some((value, rest)),
        _ => None,
    }
}

/// A string that is followed by a text.
fn string_before<'a>(input: Text<'a>, pattern: &str) -> Option<(String, Text<'a>)> {
    let (value, rest) = before::<Vec<char>>(input, pattern)?;
    Some((string(&value), rest))
}

/// A value that is matched greedily.
fn greedy<T: Consumable>(input: Text) -> Option<(T, Text)> {
    T::consume(input).ok()
}

/// A string takes the rest of the text.
fn greedy_string(input: Text) -> Option<(String, Text)> {
    let (value, rest) = greedy::<Vec<char>>(input)?;
    Some((string(&value), rest))
}

/// A list that is matched greedily, any number of times.
fn many<'a, O>(
    mut input: Text<'a>,
    inner: impl Fn(Text<'a>) -> Option<(O, Text<'a>)>,
) -> (Vec<O>, Text<'a>) {
    let mut vec = Vec::new();
    if !input.is_empty() {
        while let Some((parsed, rest)) = inner(input) {
            vec.push(parsed);
            input = rest;
            if input.is_empty() {
                break;
            }
        }
    }
    (vec, input)
}

/// The whole text must match.
fn all<O>(parsed: Option<(O, Text)>) -> Option<O> {
    match parsed {
        Some((output, rest)) if rest.is_empty() => Some(output),
        _ => None,
    }
}

/// `usize, "-"`
fn number_dash(input: Text) -> Option<(usize, Text)> {
    let (number, rest) = before::<usize>(input, "-")?;
    Some((number, must(rest, "-")?))
}

/// `usize, "-"?`
fn number_maybe_dash(input: Text) -> Option<(usize, Text)> {
    let (number, rest) = before::<usize>(input, "-")?;
    Some((number, may(rest, "-")))
}

#[test]
fn test_last_pattern() {
    assert_eq!(all(number_dash(&s("12-"))), Some(12));
    assert_eq!(all(number_dash(&s("12- "))), None);
    assert_eq!(all(number_dash(&s("12"))), None);

    assert_eq!(all(number_maybe_dash(&s("12-"))), Some(12));
    assert_eq!(all(number_maybe_dash(&s("12- "))), None);
    assert_eq!(all(number_maybe_dash(&s("12"))), Some(12));
}

/// `usize, " ", String, " bag", "s"?, ", "?`
fn bags_inside(input: Text) -> Option<((usize, String), Text)> {
    let (count, rest) = before::<usize>(input, " ")?;
    let rest = must(rest, " ")?;
    let (colour, rest) = string_before(rest, " bag")?;
    let rest = must(rest, " bag")?;
    let rest = may(rest, "s");
    Some(((count, colour), may(rest, ", ")))
}

/// `String, " bags", " contain ", [usize, " ", String, " bag", "s"?, ", "?],
/// "no other bags"?, "."`
fn bag_rule(input: Text) -> Option<((String, Vec<(usize, String)>), Text)> {
    let (colour, rest) = string_before(input, " bags")?;
    let rest = must(rest, " bags")?;
    let rest = must(rest, " contain ")?;
    let (inside, rest) = many(rest, bags_inside);
    let rest = may(rest, "no other bags");
    Some(((colour, inside), must(rest, ".")?))
}

#[test]
fn test_optional_pattern() {
    assert_eq!(
        all(bag_rule(&s("faded blue bags contain no other bags."))),
        Some(("faded blue".to_string(), vec![]))
    );
    assert_eq!(
        all(bag_rule(&s("bright white bags contain 1 shiny gold bag."))),
        Some((
            "bright white".to_string(),
            vec![(1, "shiny gold".to_string())]
        ))
    );
    assert_eq!(
        all(bag_rule(&s(
            "muted yellow bags contain 2 shiny gold bags, 9 faded blue bags."
        ))),
        Some((
            "muted yellow".to_string(),
            vec![(2, "shiny gold".to_string()), (9, "faded blue".to_string())]
        ))
    );
}

/// `usize, "-", usize, " ", char, ": ", String`
fn policy(input: Text) -> Option<((usize, usize, char, String), Text)> {
    let (low, rest) = before::<usize>(input, "-")?;
    let rest = must(rest, "-")?;
    let (high, rest) = before::<usize>(rest, " ")?;
    let rest = must(rest, " ")?;
    let (letter, rest) = before::<char>(rest, ": ")?;
    let rest = must(rest, ": ")?;
    let (word, rest) = greedy_string(rest)?;
    Some(((low, high, letter, word), rest))
}

/// `String, ' ', String, ' ', String`
fn three_words(input: Text) -> Option<((String, String, String), Text)> {
    let (first, rest) = string_before(input, " ")?;
    let rest = must(rest, " ")?;
    let (second, rest) = string_before(rest, " ")?;
    let rest = must(rest, " ")?;
    let (third, rest) = greedy_string(rest)?;
    Some(((first, second, third), rest))
}

/// `String, ' ', usize, ' ', String`
fn word_number_word(input: Text) -> Option<((String, usize, String), Text)> {
    let (first, rest) = string_before(input, " ")?;
    let rest = must(rest, " ")?;
    let (number, rest) = before::<usize>(rest, " ")?;
    let rest = must(rest, " ")?;
    let (last, rest) = greedy_string(rest)?;
    Some(((first, number, last), rest))
}

/// `String, ' ', usize, String, ' ', String`
fn word_number_words(input: Text) -> Option<((String, usize, String, String), Text)> {
    let (first, rest) = string_before(input, " ")?;
    let rest = must(rest, " ")?;
    let (number, rest) = greedy::<usize>(rest)?;
    let (second, rest) = string_before(rest, " ")?;
    let rest = must(rest, " ")?;
    let (last, rest) = greedy_string(rest)?;
    Some(((first, number, second, last), rest))
}

/// `usize, String`
fn number_word(input: Text) -> Option<((usize, String), Text)> {
    let (number, rest) = greedy::<usize>(input)?;
    let (word, rest) = greedy_string(rest)?;
    Some(((number, word), rest))
}

/// `">", usize, String`
fn quoted_number_word(input: Text) -> Option<((usize, String), Text)> {
    number_word(must(input, ">")?)
}

/// `usize, " ", String, " "`
fn number_and_word(input: Text) -> Option<((usize, String), Text)> {
    let (number, rest) = before::<usize>(input, " ")?;
    let rest = must(rest, " ")?;
    let (word, rest) = string_before(rest, " ")?;
    Some(((number, word), must(rest, " ")?))
}

/// `[usize, " ", String, " "], String`
fn pairs_and_word(input: Text) -> Option<((Vec<(usize, String)>, String), Text)> {
    let (pairs, rest) = many(input, number_and_word);
    let (word, rest) = greedy_string(rest)?;
    Some(((pairs, word), rest))
}

/// `usize, " "?`
fn spaced_number(input: Text) -> Option<(usize, Text)> {
    let (number, rest) = before::<usize>(input, " ")?;
    Some((number, may(rest, " ")))
}

/// `[usize, " "?]`
fn spaced_numbers(input: Text) -> Option<(Vec<usize>, Text)> {
    Some(many(input, spaced_number))
}

/// `[usize, " "?], String`
fn spaced_numbers_and_word(input: Text) -> Option<((Vec<usize>, String), Text)> {
    let (numbers, rest) = many(input, spaced_number);
    let (word, rest) = greedy_string(rest)?;
    Some(((numbers, word), rest))
}

/// `String, ":", String, " "?`
fn key_value(input: Text) -> Option<((String, String), Text)> {
    let (key, rest) = string_before(input, ":")?;
    let rest = must(rest, ":")?;
    let (value, rest) = string_before(rest, " ")?;
    Some(((key, value), may(rest, " ")))
}

#[test]
fn test_input_pattern() {
    assert_eq!(
        all(policy(&s("1-2 c: a b"))),
        Some((1, 2, 'c', "a b".to_string()))
    );
    assert_eq!(
        all(three_words(&s("word1 word2 word3"))),
        Some((
            "word1".to_string(),
            "word2".to_string(),
            "word3".to_string()
        ))
    );

    assert_eq!(all(word_number_word(&s("word1 word2 word3"))), None);

    assert_eq!(all(word_number_word(&s("word1 123word2 word3"))), None);
    assert_eq!(
        all(word_number_words(&s("word1 123word2 word3"))),
        Some((
            "word1".to_string(),
            123,
            "word2".to_string(),
            "word3".to_string()
        ))
    );

    assert_eq!(
        all(number_word(&s("123asd"))),
        Some((123, "asd".to_string()))
    );

    assert_eq!(
        all(quoted_number_word(&s(">123asd"))),
        Some((123, "asd".to_string()))
    );

    assert_eq!(all(quoted_number_word(&s("123asd"))), None);

    assert_eq!(
        all(pairs_and_word(&s("12 a 13 b c"))),
        Some((
            vec![(12, "a".to_string()), (13, "b".to_string())],
            "c".to_string()
        ))
    );

    assert_eq!(
        all(spaced_numbers(&s("1 2 3 4"))),
        Some(vec![1, 2, 3, 4])
    );

    assert_eq!(
        all(spaced_numbers(&s("1 2 3 4 "))),
        Some(vec![1, 2, 3, 4])
    );
    assert_eq!(all(spaced_numbers(&s("1 2 3 4 a"))), None);
    assert_eq!(
        all(spaced_numbers_and_word(&s("1 2 3 4 a"))),
        Some((vec![1, 2, 3, 4], "a".to_string()))
    );
    assert_eq!(
        all(spaced_numbers_and_word(&s("1 2 3 4a"))),
        Some((vec![1, 2, 3], "4a".to_string()))
    );

    assert_eq!(
        all(Some(many(&s("key:value key2:value2"), key_value))),
        Some(vec![
            ("key".to_string(), "value".to_string()),
            ("key2".to_string(), "value2".to_string())
        ])
    );
}

/// `String, " "?`
fn spaced_word(input: Text) -> Option<(String, Text)> {
    let (word, rest) = string_before(input, " ")?;
    Some((word, may(rest, " ")))
}

#[test]
fn test_array_of_strings() {
    assert_eq!(
        all(Some(many(&s("a b c"), spaced_word))),
        Some(vec!["a".to_string(), "b".to_string(), "c".to_string()])
    );

    assert_eq!(all(Some(many(&s(""), spaced_word))), Some(vec![]));
}

#[test]
fn split_before_finds_the_first_place() {
    let text = s("a, b, c");
    let (before, after) = split_before(&text, &s(", "));
    assert_eq!((string(before), string(after)), ("a".to_string(), ", b, c".to_string()));
    let (before, after) = split_before(&text, &s(";"));
    assert_eq!((string(before), string(after)), ("a, b, c".to_string(), String::new()));
    let (before, after) = split_before(&text, &s(""));
    assert_eq!((string(before), string(after)), (String::new(), "a, b, c".to_string()));
    let text = s("aab");
    let (before, after) = split_before(&text, &s("ab"));
    assert_eq!((string(before), string(after)), ("a".to_string(), "ab".to_string()));
}
