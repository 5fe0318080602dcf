//! Values that can be consumed greedily from the start of a text.
//!
//! A text is a slice of characters. An integer is consumed as the longest
//! start of the text that is made of an optional sign and of digits.
use vstd::prelude::*;
use vstd::slice::{slice_subrange, slice_to_vec};

verus! {

/// Why a value could not be consumed.
#[derive(Debug, Clone, Copy, PartialEq, Eq, Structural)]
pub enum ParseError {
    /// There was nothing to consume.
    Empty,
    /// There was a sign, but no digit.
    InvalidDigit,
    /// The number is too large for the type.
    PosOverflow,
    /// The number is too small for the type.
    NegOverflow,
}

/// Whether the character is a decimal digit.
pub open spec fn is_digit(c: char) -> bool {
    '0' <= c <= '9'
}

/// The value of a decimal digit.
pub open spec fn digit_of(c: char) -> nat {
    (c as u32 - '0' as u32) as nat
}

/// The number of digits at the start of the text.
pub open spec fn digits_len(s: Seq<char>) -> nat
    decreases s.len(),
{
    if s.len() > 0 && is_digit(s[0]) {
        1 + digits_len(s.skip(1))
    } else {
        0
    }
}

/// The length of the start of the text that an integer is read from: a digit
/// or a sign, and the digits that follow it.
pub open spec fn token_len(s: Seq<char>, allow_minus: bool) -> nat {
    if s.len() > 0 && (is_digit(s[0]) || s[0] == '+' || (allow_minus && s[0] == '-')) {
        1 + digits_len(s.skip(1))
    } else {
        0
    }
}

/// The number that the digits are the decimal notation of.
pub open spec fn decimal(s: Seq<char>) -> nat
    decreases s.len(),
{
    if s.len() == 0 {
        0
    } else {
        decimal(s.drop_last()) * 10 + digit_of(s.last())
    }
}

/// What is consumed from the text for an integer from `min` to `max`: the
/// number and the rest of the text, or the reason why there is none.
pub open spec fn parsed_integer(s: Seq<char>, allow_minus: bool, min: int, max: int) -> Result<
    (int, Seq<char>),
    ParseError,
> {
    let len = token_len(s, allow_minus);
    let token = s.take(len as int);
    if len == 0 {
        Err(ParseError::Empty)
    } else {
        let body = if is_digit(token[0]) {
            token
        } else {
            token.skip(1)
        };
        if body.len() == 0 {
            Err(ParseError::InvalidDigit)
        } else if token[0] == '-' {
            if -decimal(body) < min {
                Err(ParseError::NegOverflow)
            } else {
                Ok((-decimal(body), s.skip(len as int)))
            }
        } else if decimal(body) > max {
            Err(ParseError::PosOverflow)
        } else {
            Ok((decimal(body) as int, s.skip(len as int)))
        }
    }
}

/// Digits up to a character that is no digit, or up to the end, are all the
/// digits at the start.
pub proof fn lemma_digits_found(s: Seq<char>, k: int)
    requires
        0 <= k <= s.len(),
        forall|i: int| 0 <= i < k ==> is_digit(#[trigger] s[i]),
        k < s.len() ==> !is_digit(s[k]),
    ensures
        digits_len(s) == k,
    decreases s.len(),
{
    if k > 0 {
        assert(is_digit(s[0]));
        assert forall|i: int| 0 <= i < k - 1 implies is_digit(#[trigger] s.skip(1)[i]) by {
            assert(s.skip(1)[i] == s[i + 1]);
        }
        lemma_digits_found(s.skip(1), k - 1);
    }
}

/// More digits do not make a number smaller.
pub proof fn lemma_decimal_grows(s: Seq<char>, k: int)
    requires
        0 <= k <= s.len(),
    ensures
        decimal(s.take(k)) <= decimal(s),
    decreases s.len() - k,
{
    if k < s.len() {
        lemma_decimal_grows(s, k + 1);
        assert(s.take(k + 1).drop_last() =~= s.take(k));
    } else {
        assert(s.take(k) =~= s);
    }
}

/// Tests whether the character is a decimal digit.
fn is_decimal_digit(c: char) -> (r: bool)
    ensures
        r == is_digit(c),
{
    c >= '0' && c <= '9'
}

/// Consumes an integer from `min` to `max` from the start of the text.
pub fn consume_integer<'a>(input: &'a [char], allow_minus: bool, min: i128, max: i128) -> (r:
    Result<(i128, &'a [char]), ParseError>)
    requires
        -0x1_0000_0000_0000_0000 <= min <= 0 <= max <= 0x1_0000_0000_0000_0000,
    ensures
        match r {
            Ok((value, rest)) => parsed_integer(input@, allow_minus, min as int, max as int) == Ok::<
                (int, Seq<char>),
                ParseError,
            >((value as int, rest@)),
            Err(e) => parsed_integer(input@, allow_minus, min as int, max as int) == Err::<
                (int, Seq<char>),
                ParseError,
            >(e),
        },
{
    let n = input.len();
    if n == 0 {
        return Err(ParseError::Empty);
    }
    let first = input[0];
    let first_is_digit = is_decimal_digit(first);
    if !(first_is_digit || first == '+' || (allow_minus && first == '-')) {
        return Err(ParseError::Empty);
    }
    // The end of the token: the first character after the first one that is
    // no digit.

    let mut end: usize = 1;
    while end < n && is_decimal_digit(input[end])
        invariant
            1 <= end <= n,
            n == input@.len(),
            forall|i: int| 1 <= i < end ==> is_digit(#[trigger] input@[i]),
        decreases n - end,
    {
        end += 1;
    }
    proof {
        let tail = input@.skip(1);
        assert forall|i: int| 0 <= i < end - 1 implies is_digit(#[trigger] tail[i]) by {
            assert(tail[i] == input@[i + 1]);
        }
        lemma_digits_found(tail, end - 1);
    }
    let start: usize = if first_is_digit {
        0
    } else {
        1
    };
    let ghost token = input@.take(end as int);
    let ghost body = if first_is_digit {
        token
    } else {
        token.skip(1)
    };
    if start == end {
        return Err(ParseError::InvalidDigit);
    }
    let negative = first == '-';
    let limit: i128 = if negative {
        -min
    } else {
        max
    };
    let mut value: i128 = 0;
    let mut i: usize = start;
    while i < end
        invariant
            start <= i <= end <= n,
            n == input@.len(),
            token == input@.take(end as int),
            body.len() == end - start,
            forall|j: int| 0 <= j < body.len() ==> #[trigger] body[j] == input@[start + j],
            forall|j: int| start <= j < end ==> is_digit(#[trigger] input@[j]),
            0 <= limit <= 0x1_0000_0000_0000_0000,
            0 <= value <= limit,
            value == decimal(body.take(i - start)),
            token_len(input@, allow_minus) == end,
            start < end,
            body == (if is_digit(input@[0]) {
                token
            } else {
                token.skip(1)
            }),
            negative == (input@[0] == '-'),
            limit == (if negative {
                -min
            } else {
                max as int
            }),
        decreases end - i,
    {
        let c = input[i];
        let digit = (c as u32 - '0' as u32) as i128;
        proof {
            let upto = body.take(i - start + 1);
            assert(upto.drop_last() =~= body.take(i - start));
            assert(upto.last() == c);
            lemma_decimal_grows(body, i - start + 1);
        }
        value = value * 10 + digit;
        assert(value == decimal(body.take(i - start + 1)));
        assert(decimal(body) >= value);
        if value > limit {
            if negative {
                return Err(ParseError::NegOverflow);
            } else {
                return Err(ParseError::PosOverflow);
            }
        }
        i += 1;
    }
    proof {
        assert(body.take(end - start) =~= body);
    }
    let rest = slice_subrange(input, end, n);
    assert(rest@ =~= input@.skip(end as int));
    if negative {
        Ok((-value, rest))
    } else {
        Ok((value, rest))
    }
}

/// A value that can be consumed greedily from the start of a text.
pub trait Consumable: Sized {
    /// The reason why a value cannot be consumed.
    type InputError;

    /// Whether a value can be consumed from the text.
    spec fn parses(input: Seq<char>) -> bool;

    /// The rest of the text after the value, if one can be consumed.
    spec fn rest_of(input: Seq<char>) -> Seq<char>;

    /// Whether `value` is the value that is consumed from the text.
    spec fn yields(input: Seq<char>, value: Self) -> bool;

    /// The reason why no value can be consumed from the text, if none can.
    spec fn error_of(input: Seq<char>) -> Self::InputError;

    /// Consumes a value from the start of the text. Returns the value and
    /// the rest of the text, or the error.
    fn consume(input: &[char]) -> (r: Result<(Self, &[char]), Self::InputError>)
        ensures
            r.is_ok() == Self::parses(input@),
            r matches Ok(pair) ==> pair.1@ == Self::rest_of(input@) && Self::yields(input@, pair.0),
            r matches Err(e) ==> e == Self::error_of(input@),
    ;
}

impl Consumable for u64 {
    type InputError = ParseError;

    open spec fn parses(input: Seq<char>) -> bool {
        parsed_integer(input, false, 0, u64::MAX as int) is Ok
    }

    open spec fn rest_of(input: Seq<char>) -> Seq<char> {
        input.skip(token_len(input, false) as int)
    }

    open spec fn yields(input: Seq<char>, value: u64) -> bool {
        parsed_integer(input, false, 0, u64::MAX as int) matches Ok(pair) && pair.0 == value
    }

    open spec fn error_of(input: Seq<char>) -> ParseError {
        match parsed_integer(input, false, 0, u64::MAX as int) {
            Ok(_) => ParseError::Empty,
            Err(e) => e,
        }
    }

    fn consume(input: &[char]) -> (r: Result<(u64, &[char]), ParseError>) {
        match consume_integer(input, false, 0, u64::MAX as i128) {
            Ok((value, rest)) => Ok((value as u64, rest)),
            Err(e) => Err(e),
        }
    }
}

impl Consumable for usize {
    type InputError = ParseError;

    open spec fn parses(input: Seq<char>) -> bool {
        parsed_integer(input, false, 0, usize::MAX as int) is Ok
    }

    open spec fn rest_of(input: Seq<char>) -> Seq<char> {
        input.skip(token_len(input, false) as int)
    }

    open spec fn yields(input: Seq<char>, value: usize) -> bool {
        parsed_integer(input, false, 0, usize::MAX as int) matches Ok(pair) && pair.0 == value
    }

    open spec fn error_of(input: Seq<char>) -> ParseError {
        match parsed_integer(input, false, 0, usize::MAX as int) {
            Ok(_) => ParseError::Empty,
            Err(e) => e,
        }
    }

    fn consume(input: &[char]) -> (r: Result<(usize, &[char]), ParseError>) {
        match consume_integer(input, false, 0, usize::MAX as i128) {
            Ok((value, rest)) => Ok((value as usize, rest)),
            Err(e) => Err(e),
        }
    }
}

impl Consumable for i64 {
    type InputError = ParseError;

    open spec fn parses(input: Seq<char>) -> bool {
        parsed_integer(input, true, i64::MIN as int, i64::MAX as int) is Ok
    }

    open spec fn rest_of(input: Seq<char>) -> Seq<char> {
        input.skip(token_len(input, true) as int)
    }

    open spec fn yields(input: Seq<char>, value: i64) -> bool {
        parsed_integer(input, true, i64::MIN as int, i64::MAX as int) matches Ok(pair) && pair.0 == value
    }

    open spec fn error_of(input: Seq<char>) -> ParseError {
        match parsed_integer(input, true, i64::MIN as int, i64::MAX as int) {
            Ok(_) => ParseError::Empty,
            Err(e) => e,
        }
    }

    fn consume(input: &[char]) -> (r: Result<(i64, &[char]), ParseError>) {
        match consume_integer(input, true, i64::MIN as i128, i64::MAX as i128) {
            Ok((value, rest)) => Ok((value as i64, rest)),
            Err(e) => Err(e),
        }
    }
}

impl Consumable for isize {
    type InputError = ParseError;

    open spec fn parses(input: Seq<char>) -> bool {
        parsed_integer(input, true, isize::MIN as int, isize::MAX as int) is Ok
    }

    open spec fn rest_of(input: Seq<char>) -> Seq<char> {
        input.skip(token_len(input, true) as int)
    }

    open spec fn yields(input: Seq<char>, value: isize) -> bool {
        parsed_integer(input, true, isize::MIN as int, isize::MAX as int) matches Ok(pair) && pair.0 == value
    }

    open spec fn error_of(input: Seq<char>) -> ParseError {
        match parsed_integer(input, true, isize::MIN as int, isize::MAX as int) {
            Ok(_) => ParseError::Empty,
            Err(e) => e,
        }
    }

    fn consume(input: &[char]) -> (r: Result<(isize, &[char]), ParseError>) {
        match consume_integer(input, true, isize::MIN as i128, isize::MAX as i128) {
            Ok((value, rest)) => Ok((value as isize, rest)),
            Err(e) => Err(e),
        }
    }
}

impl Consumable for u32 {
    type InputError = ParseError;

    open spec fn parses(input: Seq<char>) -> bool {
        parsed_integer(input, false, 0, u32::MAX as int) is Ok
    }

    open spec fn rest_of(input: Seq<char>) -> Seq<char> {
        input.skip(token_len(input, false) as int)
    }

    open spec fn yields(input: Seq<char>, value: u32) -> bool {
        parsed_integer(input, false, 0, u32::MAX as int) matches Ok(pair) && pair.0 == value
    }

    open spec fn error_of(input: Seq<char>) -> ParseError {
        match parsed_integer(input, false, 0, u32::MAX as int) {
            Ok(_) => ParseError::Empty,
            Err(e) => e,
        }
    }

    fn consume(input: &[char]) -> (r: Result<(u32, &[char]), ParseError>) {
        match consume_integer(input, false, 0, u32::MAX as i128) {
            Ok((value, rest)) => Ok((value as u32, rest)),
            Err(e) => Err(e),
        }
    }
}

impl Consumable for i32 {
    type InputError = ParseError;

    open spec fn parses(input: Seq<char>) -> bool {
        parsed_integer(input, true, i32::MIN as int, i32::MAX as int) is Ok
    }

    open spec fn rest_of(input: Seq<char>) -> Seq<char> {
        input.skip(token_len(input, true) as int)
    }

    open spec fn yields(input: Seq<char>, value: i32) -> bool {
        parsed_integer(input, true, i32::MIN as int, i32::MAX as int) matches Ok(pair) && pair.0 == value
    }

    open spec fn error_of(input: Seq<char>) -> ParseError {
        match parsed_integer(input, true, i32::MIN as int, i32::MAX as int) {
            Ok(_) => ParseError::Empty,
            Err(e) => e,
        }
    }

    fn consume(input: &[char]) -> (r: Result<(i32, &[char]), ParseError>) {
        match consume_integer(input, true, i32::MIN as i128, i32::MAX as i128) {
            Ok((value, rest)) => Ok((value as i32, rest)),
            Err(e) => Err(e),
        }
    }
}

impl Consumable for char {
    type InputError = ParseError;

    /// A character is consumed from every text but the empty one.
    open spec fn parses(input: Seq<char>) -> bool {
        input.len() > 0
    }

    open spec fn rest_of(input: Seq<char>) -> Seq<char> {
        input.skip(1)
    }

    /// The character is the first one of the text.
    open spec fn yields(input: Seq<char>, value: char) -> bool {
        input.len() > 0 && value == input[0]
    }

    open spec fn error_of(input: Seq<char>) -> ParseError {
        ParseError::Empty
    }

    fn consume(input: &[char]) -> (r: Result<(char, &[char]), ParseError>) {
        if input.len() == 0 {
            Err(ParseError::Empty)
        } else {
            let rest = slice_subrange(input, 1, input.len());
            assert(rest@ =~= input@.skip(1));
            Ok((input[0], rest))
        }
    }
}

impl Consumable for Vec<char> {
    type InputError = ParseError;

    /// A string is consumed from every text.
    open spec fn parses(input: Seq<char>) -> bool {
        true
    }

    /// A string consumes the rest of the text.
    open spec fn rest_of(input: Seq<char>) -> Seq<char> {
        Seq::empty()
    }

    /// The string is the whole text.
    open spec fn yields(input: Seq<char>, value: Vec<char>) -> bool {
        value@ == input
    }

    open spec fn error_of(input: Seq<char>) -> ParseError {
        ParseError::Empty
    }

    fn consume(input: &[char]) -> (r: Result<(Vec<char>, &[char]), ParseError>) {
        let value = slice_to_vec(input);
        let rest = slice_subrange(input, input.len(), input.len());
        assert(rest@ =~= Seq::empty());
        Ok((value, rest))
    }
}

/// The number of characters at the start of the text that continue a
/// number with a fraction: digits, and one dot unless there was one.
pub open spec fn fraction_len(s: Seq<char>, has_dot: bool) -> nat
    decreases s.len(),
{
    if s.len() > 0 && (is_digit(s[0]) || (!has_dot && s[0] == '.')) {
        1 + fraction_len(s.skip(1), has_dot || s[0] == '.')
    } else {
        0
    }
}

/// The length of the start of the text that a number with a fraction is
/// read from: a sign, a dot or a digit, and then digits with at most one
/// dot among all of them.
pub open spec fn float_token_len(s: Seq<char>) -> nat {
    if s.len() > 0 && (is_digit(s[0]) || s[0] == '+' || s[0] == '-' || s[0] == '.') {
        1 + fraction_len(s.skip(1), s[0] == '.')
    } else {
        0
    }
}

/// Finds the start of the text that a number with a fraction is read from.
/// Returns that start and the rest of the text.
pub fn split_float<'a>(input: &'a [char]) -> (r: (&'a [char], &'a [char]))
    ensures
        r.0@ == input@.take(float_token_len(input@) as int),
        r.1@ == input@.skip(float_token_len(input@) as int),
        float_token_len(input@) <= input@.len(),
{
    let n = input.len();
    let mut end: usize = 0;
    if n > 0 {
        let first = input[0];
        if is_decimal_digit(first) || first == '+' || first == '-' || first == '.' {
            let mut has_dot = first == '.';
            end = 1;
            assert(input@.skip(1).skip(0) =~= input@.skip(1));
            while end < n && (is_decimal_digit(input[end]) || (!has_dot && input[end] == '.'))
                invariant
                    1 <= end <= n,
                    n == input@.len(),
                    float_token_len(input@) == end + fraction_len(
                        input@.skip(end as int),
                        has_dot,
                    ),
                decreases n - end,
            {
                proof {
                    assert(input@.skip(end as int)[0] == input@[end as int]);
                    assert(input@.skip(end as int).skip(1) =~= input@.skip(end + 1));
                }
                if input[end] == '.' {
                    has_dot = true;
                }
                end += 1;
            }
            proof {
                if end < n {
                    assert(input@.skip(end as int)[0] == input@[end as int]);
                }
            }
        }
    }
    let token = slice_subrange(input, 0, end);
    let rest = slice_subrange(input, end, n);
    assert(token@ =~= input@.take(end as int));
    assert(rest@ =~= input@.skip(end as int));
    (token, rest)
}

/// Whether the text starts with the prefix.
pub open spec fn starts_with(text: Seq<char>, prefix: Seq<char>) -> bool {
    prefix.len() <= text.len() && text.take(prefix.len() as int) == prefix
}

/// Takes the prefix from the start of the text. Returns the rest of the
/// text, or `None` if the text does not start with the prefix.
pub fn strip_prefix<'a>(string: &'a [char], prefix: &[char]) -> (r: Option<&'a [char]>)
    ensures
        r.is_some() == starts_with(string@, prefix@),
        r matches Some(rest) ==> rest@ == string@.skip(prefix@.len() as int),
{
    let n = prefix.len();
    if n > string.len() {
        return None;
    }
    let mut i: usize = 0;
    while i < n
        invariant
            0 <= i <= n,
            n == prefix@.len(),
            n <= string@.len(),
            forall|j: int| 0 <= j < i ==> #[trigger] string@[j] == prefix@[j],
        decreases n - i,
    {
        if string[i] != prefix[i] {
            assert(string@.take(n as int)[i as int] != prefix@[i as int]);
            return None;
        }
        i += 1;
    }
    assert(string@.take(n as int) =~= prefix@);
    let rest = slice_subrange(string, n, string.len());
    assert(rest@ =~= string@.skip(n as int));
    Some(rest)
}

/// Whether the pattern stands in the text at the index.
pub open spec fn occurs_at(text: Seq<char>, pattern: Seq<char>, at: int) -> bool {
    0 <= at && at + pattern.len() <= text.len() && text.subrange(at, at + pattern.len()) == pattern
}

/// Whether `at` is where the text is split for the pattern: at the first
/// place where the pattern stands, or at the end of the text if it stands
/// nowhere.
pub open spec fn splits_at(text: Seq<char>, pattern: Seq<char>, at: int) -> bool {
    &&& 0 <= at <= text.len()
    &&& occurs_at(text, pattern, at) || at == text.len()
    &&& forall|i: int| 0 <= i < at ==> !#[trigger] occurs_at(text, pattern, i)
}

/// Splits the text before the first place where the pattern stands.
/// Returns the text before that place and the text from that place on;
/// the second is empty if the pattern stands nowhere.
pub fn split_before<'a>(string: &'a [char], pattern: &[char]) -> (r: (&'a [char], &'a [char]))
    ensures
        splits_at(string@, pattern@, r.0@.len() as int),
        r.0@ == string@.take(r.0@.len() as int),
        r.1@ == string@.skip(r.0@.len() as int),
{
    let n = string.len();
    let m = pattern.len();
    let mut at: usize = 0;
    let mut found = false;
    while at < n && !found
        invariant
            0 <= at <= n,
            n == string@.len(),
            m == pattern@.len(),
            forall|i: int| 0 <= i < at ==> !#[trigger] occurs_at(string@, pattern@, i),
            found ==> occurs_at(string@, pattern@, at as int),
        decreases n - at + (if found {
            0int
        } else {
            1int
        }),
    {
        if m <= n - at {
            let mut k: usize = 0;
            while k < m && string[at + k] == pattern[k]
                invariant
                    0 <= k <= m,
                    at + m <= n,
                    n == string@.len(),
                    m == pattern@.len(),
                    forall|j: int| 0 <= j < k ==> string@[at + j] == #[trigger] pattern@[j],
                decreases m - k,
            {
                k += 1;
            }
            if k == m {
                assert(string@.subrange(at as int, at + m) =~= pattern@);
                found = true;
            } else {
                assert(string@.subrange(at as int, at + m)[k as int] != pattern@[k as int]);
            }
        } else {
            assert(!occurs_at(string@, pattern@, at as int));
        }
        if !found {
            at += 1;
        }
    }
    let before = slice_subrange(string, 0, at);
    let after = slice_subrange(string, at, n);
    assert(before@ =~= string@.take(at as int));
    assert(after@ =~= string@.skip(at as int));
    (before, after)
}

} // verus!
