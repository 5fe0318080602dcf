//! Reading lines and matching them against patterns.
//!
//! The text is split into lines when the input is made. A line ends with a
//! line feed, or with the text; the control characters at its end do not
//! belong to it.
use crate::io::consumable::Consumable;
use crate::range::bit::Bound;
use core::marker::PhantomData;
use std::collections::VecDeque;
use vstd::prelude::*;
use vstd::slice::slice_to_vec;

verus! {

/// A pattern that the start of a text can match, and that gives a value
/// when it does.
pub trait InputPattern: Clone {
    /// The type of the value that the pattern gives.
    type Output;

    /// Whether a start of the text matches the pattern.
    spec fn matches(&self, input: Seq<char>) -> bool;

    /// The rest of the text after the longest start that matches.
    spec fn rest_of(&self, input: Seq<char>) -> Seq<char>;

    /// Whether `output` is the value that the pattern gives for the text.
    spec fn yields(&self, input: Seq<char>, output: Self::Output) -> bool;

    /// Parses the longest start of the text that matches the pattern.
    /// Returns the value and the rest of the text, or `None` if no start of
    /// the text matches.
    fn parse_prefix<'a>(&self, input: &'a [char]) -> (r: Option<(Self::Output, &'a [char])>)
        ensures
            r.is_some() == self.matches(input@),
            r matches Some(pair) ==> pair.1@ == self.rest_of(input@) && self.yields(
                input@,
                pair.0,
            ),
    ;
}

/// Whether the whole text matches the pattern.
pub open spec fn matches_all<P: InputPattern>(pattern: &P, input: Seq<char>) -> bool {
    pattern.matches(input) && pattern.rest_of(input).len() == 0
}

/// Parses the whole text. Returns `None` if the text does not match the
/// pattern, or if something is left of it.
pub fn parse_all<P: InputPattern>(pattern: &P, input: &[char]) -> (r: Option<P::Output>)
    ensures
        r.is_some() == matches_all(pattern, input@),
        r matches Some(output) ==> pattern.yields(input@, output),
{
    match pattern.parse_prefix(input) {
        Some((output, rest)) => {
            if rest.len() == 0 {
                Some(output)
            } else {
                None
            }
        },
        None => None,
    }
}

/// The pattern of one value that is consumed greedily.
pub struct Just<T: Consumable> {
    of: PhantomData<T>,
}

impl<T: Consumable> Just<T> {
    /// The pattern of one value of the type.
    pub fn new() -> (r: Self) {
        Just { of: PhantomData }
    }
}

impl<T: Consumable> Clone for Just<T> {
    fn clone(&self) -> (r: Self) {
        Just { of: PhantomData }
    }
}

impl<T: Consumable> InputPattern for Just<T> {
    type Output = T;

    open spec fn matches(&self, input: Seq<char>) -> bool {
        T::parses(input)
    }

    open spec fn rest_of(&self, input: Seq<char>) -> Seq<char> {
        T::rest_of(input)
    }

    open spec fn yields(&self, input: Seq<char>, output: T) -> bool {
        T::yields(input, output)
    }

    fn parse_prefix<'a>(&self, input: &'a [char]) -> (r: Option<(T, &'a [char])>) {
        match T::consume(input) {
            Ok(pair) => Some(pair),
            Err(_) => None,
        }
    }
}

/// Whether the character is a control character: one of the code points up
/// to U+001F, or from U+007F to U+009F.
pub open spec fn is_control(c: char) -> bool {
    (c as u32) <= 0x1f || (0x7f <= (c as u32) <= 0x9f)
}

/// The text without the control characters at its end.
pub open spec fn trimmed(line: Seq<char>) -> Seq<char>
    decreases line.len(),
{
    if line.len() > 0 && is_control(line.last()) {
        trimmed(line.drop_last())
    } else {
        line
    }
}

/// The index after the first line feed from `from` on, or the length of
/// the text if there is none.
pub open spec fn line_end(text: Seq<char>, from: int) -> int
    decreases text.len() - from,
{
    if from < 0 || from >= text.len() {
        text.len() as int
    } else if text[from] == '\n' {
        from + 1
    } else {
        line_end(text, from + 1)
    }
}

/// The lines of the text from `from` on.
pub open spec fn lines_from(text: Seq<char>, from: int) -> Seq<Seq<char>>
    decreases text.len() - from,
    via lines_from_decreases
{
    if from < 0 || from >= text.len() {
        Seq::empty()
    } else {
        seq![trimmed(text.subrange(from, line_end(text, from)))] + lines_from(
            text,
            line_end(text, from),
        )
    }
}

#[via_fn]
proof fn lines_from_decreases(text: Seq<char>, from: int) {
    if !(from < 0 || from >= text.len()) {
        lemma_line_end(text, from);
    }
}

/// A line ends after where it starts, and within the text.
pub proof fn lemma_line_end(text: Seq<char>, from: int)
    requires
        0 <= from < text.len(),
    ensures
        from < line_end(text, from) <= text.len(),
    decreases text.len() - from,
{
    if text[from] != '\n' {
        if from + 1 < text.len() {
            lemma_line_end(text, from + 1);
        } else {
            assert(line_end(text, from + 1) == text.len());
        }
    }
}

/// Tests whether the character is a control character.
fn is_control_character(c: char) -> (r: bool)
    ensures
        r == is_control(c),
{
    let code = c as u32;
    code <= 0x1f || (0x7f <= code && code <= 0x9f)
}

/// The views of a sequence of lines.
pub open spec fn line_views(lines: Seq<Vec<char>>) -> Seq<Seq<char>> {
    lines.map_values(|line: Vec<char>| line@)
}

/// There is no line left to read.
#[derive(Debug, Clone, Copy, PartialEq, Eq, Structural)]
pub struct EndOfInput;

/// The lines of an input that were read and not yet consumed, to be handed
/// out one after the other.
pub struct Input {
    cache: VecDeque<Vec<char>>,
}

/// The decisions of matching a number of lines within two bounds: whether a
/// further line is wanted, and whether the lines that were accepted are as
/// many as the bounds allow.
pub struct LineMatcher {
    start: Bound,
    end: Bound,
    count: usize,
    reached: bool,
}

impl LineMatcher {
    /// The bounds of the number of lines.
    pub closed spec fn bounds(&self) -> (Bound, Bound) {
        (self.start, self.end)
    }

    /// The number of lines that were accepted.
    pub closed spec fn count(&self) -> nat {
        self.count as nat
    }

    /// Whether some number of lines up to the number that were accepted was
    /// within the bounds.
    pub closed spec fn reached(&self) -> bool {
        self.reached
    }

    /// Whether a further line is wanted: the lower bound was not reached, or
    /// the bounds allow one more line.
    pub open spec fn wants(&self) -> bool {
        self.count() < usize::MAX && (!self.reached() || within(
            self.bounds().0,
            self.bounds().1,
            self.count() as int + 1,
        ))
    }

    /// Starts the matching of lines within the bounds, with no line.
    pub fn new(start: Bound, end: Bound) -> (r: LineMatcher)
        ensures
            r.bounds() == (start, end),
            r.count() == 0,
            r.reached() == within(start, end, 0),
    {
        LineMatcher { start, end, count: 0, reached: is_within(start, end, 0) }
    }

    /// Tells whether a further line is wanted.
    pub fn wants_line(&self) -> (r: bool)
        ensures
            r == self.wants(),
    {
        self.count < usize::MAX && (!self.reached || is_within(
            self.start,
            self.end,
            self.count + 1,
        ))
    }

    /// Takes note that the line that was wanted was accepted.
    pub fn accept(&mut self)
        requires
            old(self).wants(),
        ensures
            final(self).bounds() == old(self).bounds(),
            final(self).count() == old(self).count() + 1,
            final(self).reached() == (old(self).reached() || within(
                old(self).bounds().0,
                old(self).bounds().1,
                old(self).count() as int + 1,
            )),
    {
        self.count = self.count + 1;
        if is_within(self.start, self.end, self.count) {
            self.reached = true;
        }
    }

    /// The number of lines that were accepted.
    pub fn accepted(&self) -> (r: usize)
        ensures
            r == self.count(),
    {
        self.count
    }

    /// Tells whether the lines that were accepted are as many as the bounds
    /// allow, so that they are to be consumed.
    pub fn finish(&self) -> (r: bool)
        ensures
            r == within(self.bounds().0, self.bounds().1, self.count() as int),
    {
        is_within(self.start, self.end, self.count)
    }
}

/// The number of lines at the start that match the pattern as a whole.
pub open spec fn leading_matches<P: InputPattern>(pattern: &P, lines: Seq<Seq<char>>) -> nat
    decreases lines.len(),
{
    if lines.len() > 0 && matches_all(pattern, lines[0]) {
        1 + leading_matches(pattern, lines.skip(1))
    } else {
        0
    }
}

/// Whether a number of lines is within the bounds.
pub open spec fn within(start: Bound, end: Bound, count: int) -> bool {
    &&& match start {
        Bound::Included(i) => i <= count,
        Bound::Excluded(i) => i < count,
        Bound::Unbounded => true,
    }
    &&& match end {
        Bound::Included(i) => count <= i,
        Bound::Excluded(i) => count < i,
        Bound::Unbounded => true,
    }
}

/// The number of lines that are matched for the bounds, of `available`
/// lines that match: as many as the bounds allow, once their lower end is
/// reached.
pub open spec fn matched_count(start: Bound, end: Bound, available: nat, count: nat, reached: bool) -> nat
    decreases available - count,
{
    if count < available && (!reached || within(start, end, count as int + 1)) {
        matched_count(
            start,
            end,
            available,
            count + 1,
            reached || within(start, end, count as int + 1),
        )
    } else {
        count
    }
}

/// Whether the function can return `outcome` for a slice that holds the
/// line.
pub open spec fn accepts<O, F: Fn(&[char]) -> Option<O>>(
    parse: F,
    line: Seq<char>,
    outcome: Option<O>,
) -> bool {
    exists|slice: &[char]| slice@ == line && #[trigger] call_ensures(parse, (slice,), outcome)
}

/// Whether the matching of lines stops after `count` lines: no line is left,
/// the function does not accept the next one, or the bounds, whose lower
/// end was reached, allow no further line.
pub open spec fn stops<O, F: Fn(&[char]) -> Option<O>>(
    parse: F,
    lines: Seq<Seq<char>>,
    start: Bound,
    end: Bound,
    count: int,
) -> bool {
    ||| count == lines.len()
    ||| count == usize::MAX
    ||| (count < lines.len() && accepts(parse, lines[count], None::<O>))
    ||| (!within(start, end, count + 1) && exists|j: int|
        0 <= j <= count && #[trigger] within(start, end, j))
}

/// Tests whether a number of lines is within the bounds.
fn is_within(start: Bound, end: Bound, count: usize) -> (r: bool)
    ensures
        r == within(start, end, count as int),
{
    let above = match start {
        Bound::Included(i) => i <= count,
        Bound::Excluded(i) => i < count,
        Bound::Unbounded => true,
    };
    let below = match end {
        Bound::Included(i) => count <= i,
        Bound::Excluded(i) => count < i,
        Bound::Unbounded => true,
    };
    above && below
}

impl Input {
    /// The lines that are still to be read.
    pub closed spec fn remaining(&self) -> Seq<Seq<char>> {
        line_views(self.cache@)
    }

    /// The input without a line.
    pub fn new() -> (r: Input)
        ensures
            r.remaining().len() == 0,
    {
        Input { cache: VecDeque::new() }
    }

    /// Takes in a line as it was read: without the control characters at
    /// its end, it becomes the last of the lines that are to be handed out.
    pub fn push_raw_line(&mut self, line: Vec<char>)
        ensures
            final(self).remaining() == old(self).remaining().push(trimmed(line@)),
    {
        let mut line = line;
        let ghost raw = line@;
        // Trim control characters from the end.
        while line.len() > 0 && is_control_character(line[line.len() - 1])
            invariant
                trimmed(line@) == trimmed(raw),
            decreases line@.len(),
        {
            line.pop();
        }
        self.cache.push_back(line);
        assert(final(self).remaining() =~= old(self).remaining().push(trimmed(raw)));
    }

    /// The number of lines that are to be handed out.
    pub fn cached(&self) -> (r: usize)
        ensures
            r == self.remaining().len(),
    {
        self.cache.len()
    }

    /// The line at the index among the lines that are to be handed out.
    pub fn line_at(&self, index: usize) -> (r: &[char])
        requires
            index < self.remaining().len(),
        ensures
            r@ == self.remaining()[index as int],
    {
        self.cache[index].as_slice()
    }

    /// Consumes the first `count` lines.
    pub fn skip_lines(&mut self, count: usize)
        requires
            count <= old(self).remaining().len(),
        ensures
            final(self).remaining() == old(self).remaining().skip(count as int),
    {
        let rest = self.cache.split_off(count);
        self.cache = rest;
        assert(final(self).remaining() =~= old(self).remaining().skip(count as int));
    }

    /// The input that reads the lines of the text.
    pub fn from_text(text: &[char]) -> (r: Input)
        ensures
            r.remaining() == lines_from(text@, 0),
    {
        let n = text.len();
        let mut lines: VecDeque<Vec<char>> = VecDeque::new();
        let mut start: usize = 0;
        while start < n
            invariant
                0 <= start <= n,
                n == text@.len(),
                line_views(lines@) + lines_from(text@, start as int) == lines_from(text@, 0),
            decreases n - start,
        {
            // The end of the line: after its line feed, or the end of the text.
            let mut end: usize = start;
            while end < n && text[end] != '\n'
                invariant
                    start <= end <= n,
                    n == text@.len(),
                    line_end(text@, end as int) == line_end(text@, start as int),
                decreases n - end,
            {
                end += 1;
            }
            if end < n {
                end += 1;
            }
            // Trim control characters from the end.

            let mut last: usize = end;
            while last > start && is_control_character(text[last - 1])
                invariant
                    start <= last <= end <= n,
                    n == text@.len(),
                    trimmed(text@.subrange(start as int, last as int)) == trimmed(
                        text@.subrange(start as int, end as int),
                    ),
                decreases last,
            {
                assert(text@.subrange(start as int, last as int).drop_last() =~= text@.subrange(
                    start as int,
                    last - 1,
                ));
                last -= 1;
            }
            let line = slice_to_vec(vstd::slice::slice_subrange(text, start, last));
            proof {
                let ghost shown = text@.subrange(start as int, last as int);
                assert(trimmed(shown) == shown);
                lemma_line_end(text@, start as int);
                assert(line_views(lines@.push(line)) =~= line_views(lines@) + seq![line@]);
                assert(line_views(lines@) + (seq![line@] + lines_from(text@, end as int))
                    =~= line_views(lines@) + seq![line@] + lines_from(text@, end as int));
            }
            lines.push_back(line);
            start = end;
        }
        let r = Input { cache: lines };
        assert(r.remaining() =~= lines_from(text@, 0));
        r
    }

    /// Peeks at the next line of the input without consuming it.
    pub fn peek_line(&self) -> (r: Result<&[char], EndOfInput>)
        ensures
            r.is_ok() == (self.remaining().len() > 0),
            r matches Ok(line) ==> line@ == self.remaining()[0],
    {
        if self.cache.len() > 0 {
            Ok(self.cache[0].as_slice())
        } else {
            Err(EndOfInput)
        }
    }

    /// Reads the next line of the input and consumes it.
    pub fn read_line(&mut self) -> (r: Result<Vec<char>, EndOfInput>)
        ensures
            r.is_ok() == (old(self).remaining().len() > 0),
            r matches Ok(line) ==> line@ == old(self).remaining()[0] && final(self).remaining()
                == old(self).remaining().skip(1),
            r is Err ==> final(self).remaining() == old(self).remaining(),
    {
        match self.cache.pop_front() {
            Some(line) => {
                assert(final(self).remaining() =~= old(self).remaining().skip(1));
                Ok(line)
            },
            None => Err(EndOfInput),
        }
    }

    /// Reads the next line as one value of the given type. If the line is
    /// not such a value, `None` is returned and the line is kept in the
    /// input.
    pub fn parse_line_opt<T: Consumable>(&mut self) -> (r: Option<T>)
        ensures
            r.is_some() == (old(self).remaining().len() > 0 && T::parses(old(self).remaining()[0])
                && T::rest_of(old(self).remaining()[0]).len() == 0),
            r matches Some(value) ==> T::yields(old(self).remaining()[0], value)
                && final(self).remaining() == old(self).remaining().skip(1),
            r is None ==> final(self).remaining() == old(self).remaining(),
    {
        self.match_line_opt(Just::<T>::new())
    }

    /// Reads the next line, which is one value of the given type.
    pub fn parse_line<T: Consumable>(&mut self) -> (r: T)
        requires
            old(self).remaining().len() > 0,
            T::parses(old(self).remaining()[0]),
            T::rest_of(old(self).remaining()[0]).len() == 0,
        ensures
            T::yields(old(self).remaining()[0], r),
            final(self).remaining() == old(self).remaining().skip(1),
    {
        self.parse_line_opt().unwrap()
    }

    /// Reads the next line if it matches the pattern. If it does not, `None`
    /// is returned and the line is kept in the input.
    pub fn match_line_opt<P: InputPattern>(&mut self, pattern: P) -> (r: Option<P::Output>)
        ensures
            r.is_some() == (old(self).remaining().len() > 0 && matches_all(
                &pattern,
                old(self).remaining()[0],
            )),
            r matches Some(output) ==> pattern.yields(old(self).remaining()[0], output)
                && final(self).remaining() == old(self).remaining().skip(1),
            r is None ==> final(self).remaining() == old(self).remaining(),
    {
        if self.cache.len() == 0 {
            return None;
        }
        match parse_all(&pattern, self.cache[0].as_slice()) {
            Some(output) => {
                self.cache.pop_front();
                assert(final(self).remaining() =~= old(self).remaining().skip(1));
                Some(output)
            },
            None => None,
        }
    }

    /// Reads the next line, which matches the pattern.
    pub fn match_line<P: InputPattern>(&mut self, pattern: P) -> (r: P::Output)
        requires
            old(self).remaining().len() > 0,
            matches_all(&pattern, old(self).remaining()[0]),
        ensures
            pattern.yields(old(self).remaining()[0], r),
            final(self).remaining() == old(self).remaining().skip(1),
    {
        self.match_line_opt(pattern).unwrap()
    }

    /// Reads the next line if the function accepts it. If there is no line,
    /// or if the function returns `None` for it, the input stays as it is.
    pub fn match_line_opt_by<O, F: Fn(&[char]) -> Option<O>>(&mut self, parse: F) -> (r: Option<O>)
        requires
            forall|line: &[char]| call_requires(parse, (line,)),
        ensures
            old(self).remaining().len() == 0 ==> r is None,
            old(self).remaining().len() > 0 ==> accepts(parse, old(self).remaining()[0], r),
            final(self).remaining() == (if r is Some {
                old(self).remaining().skip(1)
            } else {
                old(self).remaining()
            }),
    {
        if self.cache.len() == 0 {
            return None;
        }
        let r = parse(self.cache[0].as_slice());
        if r.is_some() {
            self.cache.pop_front();
            assert(final(self).remaining() =~= old(self).remaining().skip(1));
        }
        r
    }

    /// Reads the lines that the function accepts, as many as the bounds
    /// allow.
    ///
    /// The lines are handed to the function one after the other, until there
    /// is no line left, the function returns `None` for a line, or the
    /// bounds allow no further line once their lower end is reached.
    /// Returns `None` if the number of lines that were accepted is not
    /// within the bounds; no line is then consumed.
    pub fn match_lines_opt_by<O, F: Fn(&[char]) -> Option<O>>(
        &mut self,
        parse: F,
        start: Bound,
        end: Bound,
    ) -> (r: Option<Vec<O>>)
        requires
            forall|line: &[char]| call_requires(parse, (line,)),
        ensures
            r matches Some(outputs) ==> {
                &&& within(start, end, outputs@.len() as int)
                &&& outputs@.len() <= old(self).remaining().len()
                &&& forall|i: int|
                    0 <= i < outputs@.len() ==> accepts(
                        parse,
                        old(self).remaining()[i],
                        Some(#[trigger] outputs@[i]),
                    )
                &&& stops(parse, old(self).remaining(), start, end, outputs@.len() as int)
                &&& final(self).remaining() == old(self).remaining().skip(outputs@.len() as int)
            },
            r is None ==> final(self).remaining() == old(self).remaining() && (exists|count: int|
                0 <= count <= old(self).remaining().len() && !within(start, end, count)
                    && #[trigger] stops(parse, old(self).remaining(), start, end, count)),
    {
        let mut res: Vec<O> = Vec::new();
        let mut matcher = LineMatcher::new(start, end);
        let total = self.cache.len();
        let ghost lines = self.remaining();
        loop
            invariant
                total == self.cache@.len(),
                matcher.bounds() == (start, end),
                matcher.count() == res@.len(),
                lines == self.remaining(),
                lines == old(self).remaining(),
                forall|line: &[char]| call_requires(parse, (line,)),
                res@.len() <= lines.len(),
                matcher.reached() ==> exists|j: int|
                    0 <= j <= res@.len() && #[trigger] within(start, end, j),
                forall|i: int|
                    0 <= i < res@.len() ==> accepts(parse, lines[i], Some(#[trigger] res@[i])),
            ensures
                stops(parse, lines, start, end, res@.len() as int),
            decreases lines.len() - res@.len(),
        {
            let count = res.len();
            if !matcher.wants_line() {
                break ;
            }
            if count >= total {
                // No more input.
                break ;
            }
            assert(lines[count as int] == self.cache@[count as int]@);
            match parse(self.cache[count].as_slice()) {
                Some(item) => {
                    res.push(item);
                    matcher.accept();
                },
                None => {
                    // The function does not accept the line.
                    break ;
                },
            }
        }
        if matcher.finish() {
            // The result is right: consume the lines.
            let rest = self.cache.split_off(res.len());
            self.cache = rest;
            assert(final(self).remaining() =~= lines.skip(res@.len() as int));
            Some(res)
        } else {
            None
        }
    }

    /// The number of lines that [`Input::match_lines`] reads for the bounds.
    pub open spec fn lines_to_match<P: InputPattern>(&self, pattern: &P, end: Bound) -> nat {
        matched_count(
            Bound::Included(0),
            end,
            leading_matches(pattern, self.remaining()),
            0,
            within(Bound::Included(0), end, 0),
        )
    }

    /// Reads the lines that match the pattern, as many as the upper bound
    /// allows; they are as many as the lower bound asks for.
    pub fn match_lines<P: InputPattern>(&mut self, pattern: P, start: Bound, end: Bound) -> (r:
        Vec<P::Output>)
        requires
            within(start, end, old(self).lines_to_match(&pattern, end) as int),
        ensures
            r@.len() == old(self).lines_to_match(&pattern, end),
            r@.len() <= old(self).remaining().len(),
            forall|i: int|
                0 <= i < r@.len() ==> pattern.yields(old(self).remaining()[i], #[trigger] r@[i]),
            final(self).remaining() == old(self).remaining().skip(r@.len() as int),
    {
        self.match_lines_opt(pattern, Bound::Included(0), end).unwrap()
    }

    /// Reads the lines that match the pattern, as many as the bounds allow.
    ///
    /// Returns `None` if the number of lines that were matched is not
    /// within the bounds; no line is then consumed.
    pub fn match_lines_opt<P: InputPattern>(&mut self, pattern: P, start: Bound, end: Bound) -> (r:
        Option<Vec<P::Output>>)
        ensures
            ({
                let lines = old(self).remaining();
                let count = matched_count(
                    start,
                    end,
                    leading_matches(&pattern, lines),
                    0,
                    within(start, end, 0),
                );
                &&& r.is_some() == within(start, end, count as int)
                &&& r matches Some(outputs) ==> {
                    &&& outputs@.len() == count
                    &&& count <= lines.len()
                    &&& forall|i: int|
                        0 <= i < count ==> pattern.yields(lines[i], #[trigger] outputs@[i])
                    &&& final(self).remaining() == lines.skip(count as int)
                }
                &&& r is None ==> final(self).remaining() == lines
            }),
    {
        let mut res: Vec<P::Output> = Vec::new();
        let mut matcher = LineMatcher::new(start, end);
        let total = self.cache.len();
        let ghost lines = self.remaining();
        let ghost available = leading_matches(&pattern, lines);
        assert(lines.skip(0) =~= lines);
        loop
            invariant
                total == self.cache@.len(),
                matcher.bounds() == (start, end),
                matcher.count() == res@.len(),
                lines == self.remaining(),
                lines == old(self).remaining(),
                available == leading_matches(&pattern, lines),
                res@.len() <= lines.len(),
                res@.len() <= available,
                res@.len() + leading_matches(&pattern, lines.skip(res@.len() as int)) == available,
                forall|i: int| 0 <= i < res@.len() ==> pattern.yields(lines[i], #[trigger] res@[i]),
                matched_count(start, end, available, res@.len() as nat, matcher.reached())
                    == matched_count(start, end, available, 0, within(start, end, 0)),
            ensures
                matched_count(start, end, available, 0, within(start, end, 0)) == res@.len(),
            decreases lines.len() - res@.len(),
        {
            let count = res.len();
            if !matcher.wants_line() {
                break ;
            }
            if count >= total {
                // No more input.
                break ;
            }
            proof {
                assert(lines.skip(count as int)[0] == lines[count as int]);
                assert(lines[count as int] == self.cache@[count as int]@);
                assert(lines.skip(count as int).skip(1) =~= lines.skip(count + 1));
            }
            match parse_all(&pattern, self.cache[count].as_slice()) {
                Some(item) => {
                    res.push(item);
                    matcher.accept();
                },
                None => {
                    // The line does not match the pattern.
                    break ;
                },
            }
        }
        if matcher.finish() {
            // The result is right: consume the lines.
            let rest = self.cache.split_off(res.len());
            self.cache = rest;
            assert(final(self).remaining() =~= lines.skip(res@.len() as int));
            Some(res)
        } else {
            None
        }
    }
}

} // verus!
