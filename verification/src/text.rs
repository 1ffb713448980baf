use vstd::prelude::*;

verus! {

/// A stretch of a text: the bytes from `start` up to, not including, `end`.
#[derive(Clone, Copy, Debug, PartialEq, Eq, Structural)]
pub struct Span {
    pub start: usize,
    pub end: usize,
}

impl Span {
    /// The two bounds of the stretch.
    pub open spec fn range(self) -> (int, int) {
        (self.start as int, self.end as int)
    }

    /// The bytes of the stretch.
    pub open spec fn of(self, text: Seq<u8>) -> Seq<u8> {
        text.subrange(self.start as int, self.end as int)
    }

    /// The stretch lies inside a text of the given length.
    pub open spec fn within(self, len: nat) -> bool {
        self.start <= self.end <= len
    }
}

/// The bounds of a sequence of stretches.
pub open spec fn ranges(spans: Seq<Span>) -> Seq<(int, int)> {
    spans.map_values(|s: Span| s.range())
}

/// Blank, tab, line feed, vertical tab, form feed or carriage return.
pub open spec fn is_space(b: u8) -> bool {
    b == 32 || (9 <= b && b <= 13)
}

/// A decimal digit.
pub open spec fn is_digit(b: u8) -> bool {
    48 <= b && b <= 57
}

/// The position of the first line feed at or behind `from`, or the length
/// of the text if there is none.
pub open spec fn line_end(text: Seq<u8>, from: int) -> int
    decreases text.len() - from,
{
    if from >= text.len() {
        text.len() as int
    } else if text[from] == 10 {
        from
    } else {
        line_end(text, from + 1)
    }
}

/// The lines of the text from position `from` on.  A line ends in front of a
/// line feed or at the end of the text; a line feed at the very end of the
/// text starts no further line.
pub open spec fn lines_from(text: Seq<u8>, from: int) -> Seq<(int, int)>
    decreases text.len() - from,
{
    if from < 0 || from >= text.len() {
        Seq::empty()
    } else {
        let end = line_end(text, from);
        if end < from {
            Seq::empty()
        } else if end >= text.len() {
            seq![(from, end)]
        } else {
            seq![(from, end)] + lines_from(text, end + 1)
        }
    }
}

/// The position of the first byte in `[from, to)` that is no space, or `to`.
pub open spec fn skip_spaces(text: Seq<u8>, from: int, to: int) -> int
    decreases to - from,
{
    if from >= to {
        to
    } else if !is_space(text[from]) {
        from
    } else {
        skip_spaces(text, from + 1, to)
    }
}

/// The position of the first space in `[from, to)`, or `to`.
pub open spec fn token_end(text: Seq<u8>, from: int, to: int) -> int
    decreases to - from,
{
    if from >= to {
        to
    } else if is_space(text[from]) {
        from
    } else {
        token_end(text, from + 1, to)
    }
}

/// The tokens in `[from, to)`: the maximal stretches without a space.
pub open spec fn tokens_from(text: Seq<u8>, from: int, to: int) -> Seq<(int, int)>
    decreases to - from,
{
    let start = skip_spaces(text, from, to);
    if start < from || start >= to {
        Seq::empty()
    } else {
        let end = token_end(text, start + 1, to);
        if end <= start || end > to {
            Seq::empty()
        } else {
            seq![(start, end)] + tokens_from(text, end, to)
        }
    }
}

/// The number that a string of digits denotes.
pub open spec fn digits_value(digits: Seq<u8>) -> nat
    decreases digits.len(),
{
    if digits.len() == 0 {
        0
    } else {
        (10 * digits_value(digits.drop_last()) + (digits.last() - 48)) as nat
    }
}

/// The digits of a token that may start with a plus sign.
pub open spec fn unsigned_part(token: Seq<u8>) -> Seq<u8> {
    if token.len() > 0 && token[0] == 43 {
        token.subrange(1, token.len() as int)
    } else {
        token
    }
}

/// The number a token denotes: an optional plus sign and at least one digit.
pub open spec fn number(token: Seq<u8>) -> Option<nat> {
    let digits = unsigned_part(token);
    if digits.len() > 0 && (forall|i: int| 0 <= i < digits.len() ==> is_digit(#[trigger] digits[i])) {
        Some(digits_value(digits))
    } else {
        None
    }
}

/// The number a token denotes if it is at most `max`.
pub open spec fn number_up_to(token: Seq<u8>, max: u64) -> Option<u64> {
    match number(token) {
        Some(v) => if v <= max {
            Some(v as u64)
        } else {
            None
        },
        None => None,
    }
}

proof fn lemma_line_end_found(text: Seq<u8>, from: int, at: int)
    requires
        0 <= from <= at <= text.len(),
        forall|i: int| from <= i < at ==> text[i] != 10,
        at == text.len() || text[at] == 10,
    ensures
        line_end(text, from) == at,
    decreases at - from,
{
    if from < at {
        lemma_line_end_found(text, from + 1, at);
    }
}

proof fn lemma_skip_spaces_found(text: Seq<u8>, from: int, to: int, at: int)
    requires
        0 <= from <= at <= to <= text.len(),
        forall|i: int| from <= i < at ==> is_space(text[i]),
        at == to || !is_space(text[at]),
    ensures
        skip_spaces(text, from, to) == at,
    decreases at - from,
{
    if from < at {
        lemma_skip_spaces_found(text, from + 1, to, at);
    }
}

proof fn lemma_token_end_found(text: Seq<u8>, from: int, to: int, at: int)
    requires
        0 <= from <= at <= to <= text.len(),
        forall|i: int| from <= i < at ==> !is_space(text[i]),
        at == to || is_space(text[at]),
    ensures
        token_end(text, from, to) == at,
    decreases at - from,
{
    if from < at {
        lemma_token_end_found(text, from + 1, to, at);
    }
}

/// Lemma: more digits never make a number smaller.
proof fn lemma_digits_grow(digits: Seq<u8>, n: int)
    requires
        0 <= n <= digits.len(),
        forall|i: int| 0 <= i < digits.len() ==> is_digit(#[trigger] digits[i]),
    ensures
        digits_value(digits.take(n)) <= digits_value(digits),
    decreases digits.len() - n,
{
    if n < digits.len() {
        let longer = digits.take(n + 1);
        assert(longer.drop_last() =~= digits.take(n));
        assert(longer.last() == digits[n]);
        lemma_digits_grow(digits, n + 1);
    } else {
        assert(digits.take(n) =~= digits);
    }
}

/// Tells whether a byte is a space.
pub fn space(b: u8) -> (r: bool)
    ensures
        r == is_space(b),
{
    b == 32 || (9 <= b && b <= 13)
}

/// Splits a text into its lines.
pub fn split_lines(text: &Vec<u8>) -> (lines: Vec<Span>)
    ensures
        ranges(lines@) == lines_from(text@, 0),
        forall|i: int| 0 <= i < lines.len() ==> (#[trigger] lines[i]).within(text@.len()),
{
    let mut lines: Vec<Span> = Vec::new();
    let mut pos: usize = 0;
    assert(ranges(lines@) =~= Seq::<(int, int)>::empty());
    assert(ranges(lines@) + lines_from(text@, 0) =~= lines_from(text@, 0));
    if text.len() == 0 {
        return lines;
    }
    while pos < text.len()
        invariant_except_break
            lines_from(text@, 0) == ranges(lines@) + lines_from(text@, pos as int),
        invariant
            pos <= text.len(),
            forall|i: int| 0 <= i < lines.len() ==> (#[trigger] lines[i]).within(text@.len()),
        ensures
            ranges(lines@) == lines_from(text@, 0),
        decreases text.len() - pos,
    {
        let start: usize = pos;
        let mut end: usize = pos;
        while end < text.len() && text[end] != 10
            invariant
                start <= end <= text.len(),
                forall|i: int| start <= i < end ==> text@[i] != 10,
            decreases text.len() - end,
        {
            end += 1;
        }
        proof {
            lemma_line_end_found(text@, start as int, end as int);
            let prior = ranges(lines@);
            let span = Span { start, end };
            assert(ranges(lines@.push(span)) =~= prior.push(span.range()));
            assert(prior + (seq![(start as int, end as int)] + lines_from(text@, end + 1))
                =~= prior.push(span.range()) + lines_from(text@, end + 1));
            assert(prior + seq![(start as int, end as int)] =~= prior.push(span.range()));
        }
        lines.push(Span { start, end });
        if end == text.len() {
            break ;
        }
        pos = end + 1;
    }
    lines
}

/// Splits a stretch of a text into its tokens.
pub fn split_tokens(text: &Vec<u8>, line: Span) -> (tokens: Vec<Span>)
    requires
        line.within(text@.len()),
    ensures
        ranges(tokens@) == tokens_from(text@, line.start as int, line.end as int),
        forall|i: int|
            0 <= i < tokens.len() ==> (#[trigger] tokens[i]).within(text@.len()) && tokens[i].start
                < tokens[i].end,
{
    let mut tokens: Vec<Span> = Vec::new();
    let mut pos: usize = line.start;
    assert(ranges(tokens@) =~= Seq::<(int, int)>::empty());
    loop
        invariant
            line.within(text@.len()),
            line.start <= pos <= line.end,
            tokens_from(text@, line.start as int, line.end as int) == ranges(tokens@) + tokens_from(
                text@,
                pos as int,
                line.end as int,
            ),
            forall|i: int|
                0 <= i < tokens.len() ==> (#[trigger] tokens[i]).within(text@.len())
                    && tokens[i].start < tokens[i].end,
        ensures
            ranges(tokens@) == tokens_from(text@, line.start as int, line.end as int),
        decreases line.end - pos,
    {
        let mut start: usize = pos;
        while start < line.end && space(text[start])
            invariant
                line.within(text@.len()),
                pos <= start <= line.end,
                forall|i: int| pos <= i < start ==> is_space(text@[i]),
            decreases line.end - start,
        {
            start += 1;
        }
        proof {
            lemma_skip_spaces_found(text@, pos as int, line.end as int, start as int);
        }
        if start >= line.end {
            assert(tokens_from(text@, pos as int, line.end as int) =~= Seq::<(int, int)>::empty());
            assert(ranges(tokens@) + Seq::<(int, int)>::empty() =~= ranges(tokens@));
            break ;
        }
        let mut end: usize = start + 1;
        while end < line.end && !space(text[end])
            invariant
                line.within(text@.len()),
                start < end <= line.end,
                forall|i: int| start + 1 <= i < end ==> !is_space(text@[i]),
            decreases line.end - end,
        {
            end += 1;
        }
        proof {
            lemma_token_end_found(text@, start + 1, line.end as int, end as int);
            let prior = ranges(tokens@);
            let span = Span { start, end };
            assert(ranges(tokens@.push(span)) =~= prior.push(span.range()));
            assert(prior + (seq![(start as int, end as int)] + tokens_from(
                text@,
                end as int,
                line.end as int,
            )) =~= prior.push(span.range()) + tokens_from(text@, end as int, line.end as int));
        }
        tokens.push(Span { start, end });
        pos = end;
    }
    tokens
}

/// Reads a token as a number of at most `max`: an optional plus sign and at
/// least one decimal digit.
pub fn parse_number(text: &Vec<u8>, token: Span, max: u64) -> (r: Option<u64>)
    requires
        token.within(text@.len()),
    ensures
        r == number_up_to(token.of(text@), max),
{
    let ghost whole = token.of(text@);
    let mut pos: usize = token.start;
    if pos < token.end && text[pos] == 43 {
        pos += 1;
    }
    let first: usize = pos;
    let ghost digits = unsigned_part(whole);
    assert(digits =~= text@.subrange(first as int, token.end as int));
    if pos >= token.end {
        return None;
    }
    let mut value: u64 = 0;
    while pos < token.end
        invariant
            token.within(text@.len()),
            first <= pos <= token.end,
            digits == text@.subrange(first as int, token.end as int),
            digits == unsigned_part(token.of(text@)),
            forall|i: int| 0 <= i < pos - first ==> is_digit(#[trigger] digits[i]),
            value == digits_value(digits.take(pos - first)),
            value <= max,
        decreases token.end - pos,
    {
        let b: u8 = text[pos];
        assert(b == digits[pos - first]);
        if b < 48 || b > 57 {
            assert(!is_digit(digits[pos - first]));
            return None;
        }
        let d: u64 = (b - 48) as u64;
        proof {
            let longer = digits.take(pos + 1 - first);
            assert(longer.drop_last() =~= digits.take(pos - first));
            assert(longer.last() == b);
        }
        if d > max || value > (max - d) / 10 {
            proof {
                assert(digits_value(digits.take(pos + 1 - first)) == 10 * value + d);
                assert(10 * value + d > max);
                if forall|i: int| 0 <= i < digits.len() ==> is_digit(#[trigger] digits[i]) {
                    lemma_digits_grow(digits, pos + 1 - first);
                }
            }
            return None;
        }
        value = value * 10 + d;
        pos += 1;
    }
    assert(digits.take(pos - first) =~= digits);
    Some(value)
}

} // verus!
