//! The edge-list text format: one edge per line, written as two node IDs
//! with blanks between them.

use vstd::prelude::*;
use vstd::slice::slice_subrange;

verus! {

/// The ASCII code of the space.
pub const SPACE: u8 = 32;

/// The ASCII code of the tab, the first of the blank control characters.
pub const TAB: u8 = 9;

/// The ASCII code of the line feed, which ends a line.
pub const LINE_FEED: u8 = 10;

/// The ASCII code of the carriage return, the last of the blank control
/// characters.
pub const CARRIAGE_RETURN: u8 = 13;

/// The ASCII code of the plus sign.
pub const PLUS: u8 = 43;

/// The ASCII code of the digit zero.
pub const DIGIT_ZERO: u8 = 48;

/// The ASCII code of the digit nine.
pub const DIGIT_NINE: u8 = 57;

/// A blank: the space, or one of the control characters from tab to
/// carriage return.
pub open spec fn is_blank(byte: u8) -> bool {
    byte == SPACE || (TAB <= byte <= CARRIAGE_RETURN)
}

/// A decimal digit.
pub open spec fn is_digit(byte: u8) -> bool {
    DIGIT_ZERO <= byte <= DIGIT_NINE
}

/// The number that a row of decimal digits stands for.
pub open spec fn decimal_value(digits: Seq<u8>) -> nat
    decreases digits.len(),
{
    if digits.len() == 0 {
        0
    } else {
        10 * decimal_value(digits.drop_last()) + (digits.last() - DIGIT_ZERO) as nat
    }
}

/// A word without the plus sign that may stand in front of it.
pub open spec fn unsigned_part(word: Seq<u8>) -> Seq<u8> {
    if word.len() > 0 && word[0] == PLUS {
        word.skip(1)
    } else {
        word
    }
}

/// A numeral is a row of at least one decimal digit, with or without a plus
/// sign in front.
pub open spec fn is_numeral(word: Seq<u8>) -> bool {
    &&& unsigned_part(word).len() > 0
    &&& forall|i: int| 0 <= i < unsigned_part(word).len() ==> is_digit(#[trigger] unsigned_part(word)[i])
}

/// The node ID that a word stands for: the value of a numeral that fits
/// a machine word. Any other word stands for none.
pub open spec fn node_of(word: Seq<u8>) -> Option<usize> {
    if is_numeral(word) && decimal_value(unsigned_part(word)) <= usize::MAX {
        Some(decimal_value(unsigned_part(word)) as usize)
    } else {
        None
    }
}

/// The value of a row of digits is at least the value of each of its prefixes.
proof fn lemma_decimal_value_grows(digits: Seq<u8>, k: int)
    requires
        0 <= k <= digits.len(),
    ensures
        decimal_value(digits.take(k)) <= decimal_value(digits),
    decreases digits.len() - k,
{
    if k < digits.len() {
        lemma_decimal_value_grows(digits, k + 1);
        assert(digits.take(k + 1).drop_last() =~= digits.take(k));
    } else {
        assert(digits.take(k) =~= digits);
    }
}

/// Reads one node ID from a word.
pub fn parse_node(word: &[u8]) -> (node: Option<usize>)
    ensures
        node == node_of(word@),
{
    let start: usize = if word.len() > 0 && word[0] == PLUS {
        1
    } else {
        0
    };
    if start == word.len() {
        return None;
    }
    let ghost digits = unsigned_part(word@);
    assert(digits =~= word@.skip(start as int));
    let mut value: usize = 0;
    let mut at: usize = start;
    while at < word.len()
        invariant
            start <= at <= word.len(),
            digits == unsigned_part(word@),
            digits == word@.skip(start as int),
            forall|i: int| 0 <= i < at - start ==> is_digit(#[trigger] digits[i]),
            value == decimal_value(digits.take(at - start)),
        decreases word.len() - at,
    {
        let byte = word[at];
        if byte < DIGIT_ZERO || byte > DIGIT_NINE {
            assert(!is_digit(digits[at - start]));
            return None;
        }
        let ghost longer = digits.take(at - start + 1);
        proof {
            assert(longer.drop_last() =~= digits.take(at - start));
            assert(longer.last() == byte);
            lemma_decimal_value_grows(digits, at - start + 1);
        }
        let digit: usize = (byte - DIGIT_ZERO) as usize;
        value = match value.checked_mul(10) {
            Some(tens) => match tens.checked_add(digit) {
                Some(sum) => sum,
                None => {
                    return None;
                },
            },
            None => {
                return None;
            },
        };
        at = at + 1;
    }
    assert(digits.take(at - start) =~= digits);
    Some(value)
}

/// The line consists of two words, at `[a0, a1)` and at `[b0, b1)`, and of
/// blanks everywhere else. At least one blank parts the words.
pub open spec fn two_words_at(line: Seq<u8>, a0: int, a1: int, b0: int, b1: int) -> bool {
    &&& 0 <= a0 < a1 < b0 < b1 <= line.len()
    &&& forall|i: int|
        0 <= i < line.len() ==> (is_blank(#[trigger] line[i]) <==> !(a0 <= i < a1 || b0 <= i < b1))
}

/// The line consists of exactly two words and blanks.
pub open spec fn has_two_words(line: Seq<u8>) -> bool {
    exists|bounds: (int, int, int, int)|
        two_words_at(line, bounds.0, bounds.1, bounds.2, bounds.3)
}

/// Where the two words of a line are.
pub open spec fn word_bounds(line: Seq<u8>) -> (int, int, int, int) {
    choose|bounds: (int, int, int, int)|
        two_words_at(line, bounds.0, bounds.1, bounds.2, bounds.3)
}

/// The edge that a line stands for: the line consists of exactly two words,
/// and each of them stands for a node ID. Any other line stands for none.
pub open spec fn line_edge(line: Seq<u8>) -> Option<(usize, usize)> {
    let (a0, a1, b0, b1) = word_bounds(line);
    if has_two_words(line) {
        match (node_of(line.subrange(a0, a1)), node_of(line.subrange(b0, b1))) {
            (Some(a), Some(b)) => Some((a, b)),
            _ => None,
        }
    } else {
        None
    }
}

/// A line has its two words in one place only.
pub proof fn lemma_two_words_unique(
    line: Seq<u8>,
    a0: int,
    a1: int,
    b0: int,
    b1: int,
    c0: int,
    c1: int,
    d0: int,
    d1: int,
)
    requires
        two_words_at(line, a0, a1, b0, b1),
        two_words_at(line, c0, c1, d0, d1),
    ensures
        a0 == c0,
        a1 == c1,
        b0 == d0,
        b1 == d1,
{
    assert(a0 == c0) by {
        assert(!is_blank(line[a0]) && !is_blank(line[c0]));
    }
    assert(a1 == c1) by {
        assert(is_blank(line[a1]) && is_blank(line[c1]));
        assert(!is_blank(line[a1 - 1]) && !is_blank(line[c1 - 1]));
    }
    assert(b0 == d0) by {
        assert(!is_blank(line[b0]) && !is_blank(line[d0]));
    }
    assert(b1 == d1) by {
        assert(!is_blank(line[b1 - 1]) && !is_blank(line[d1 - 1]));
        if b1 < d1 {
            assert(is_blank(line[b1]));
        }
        if d1 < b1 {
            assert(is_blank(line[d1]));
        }
    }
}

/// The words of a line that has two are where `two_words_at` finds them.
pub proof fn lemma_word_bounds(line: Seq<u8>, a0: int, a1: int, b0: int, b1: int)
    requires
        two_words_at(line, a0, a1, b0, b1),
    ensures
        has_two_words(line),
        word_bounds(line) == (a0, a1, b0, b1),
{
    let found = (a0, a1, b0, b1);
    assert(two_words_at(line, found.0, found.1, found.2, found.3));
    let (c0, c1, d0, d1) = word_bounds(line);
    lemma_two_words_unique(line, a0, a1, b0, b1, c0, c1, d0, d1);
}

/// Tells whether a byte is a blank.
fn blank(byte: u8) -> (yes: bool)
    ensures
        yes == is_blank(byte),
{
    byte == SPACE || (TAB <= byte && byte <= CARRIAGE_RETURN)
}

/// Where the blanks that start at `from` end.
fn skip_blanks(line: &[u8], from: usize) -> (to: usize)
    requires
        from <= line@.len(),
    ensures
        from <= to <= line@.len(),
        forall|i: int| from <= i < to ==> is_blank(#[trigger] line@[i]),
        to < line@.len() ==> !is_blank(line@[to as int]),
{
    let mut to: usize = from;
    while to < line.len() && blank(line[to])
        invariant
            from <= to <= line@.len(),
            forall|i: int| from <= i < to ==> is_blank(#[trigger] line@[i]),
        decreases line@.len() - to,
    {
        to = to + 1;
    }
    to
}

/// Where the word that starts at `from` ends.
fn skip_word(line: &[u8], from: usize) -> (to: usize)
    requires
        from <= line@.len(),
    ensures
        from <= to <= line@.len(),
        forall|i: int| from <= i < to ==> !is_blank(#[trigger] line@[i]),
        to < line@.len() ==> is_blank(line@[to as int]),
{
    let mut to: usize = from;
    while to < line.len() && !blank(line[to])
        invariant
            from <= to <= line@.len(),
            forall|i: int| from <= i < to ==> !is_blank(#[trigger] line@[i]),
        decreases line@.len() - to,
    {
        to = to + 1;
    }
    to
}

/// Reads the edge of one line: two node IDs with blanks between them, and
/// possibly around them. `None` for every other line: one with fewer or more
/// words, or with a word that is no numeral or exceeds the largest node ID.
pub fn parse_edge_line(line: &[u8]) -> (edge: Option<(usize, usize)>)
    ensures
        edge == line_edge(line@),
{
    let a0 = skip_blanks(line, 0);
    let a1 = skip_word(line, a0);
    let b0 = skip_blanks(line, a1);
    let b1 = skip_word(line, b0);
    let end = skip_blanks(line, b1);
    if a0 == a1 || b0 == b1 || end != line.len() {
        proof {
            if has_two_words(line@) {
                let (c0, c1, d0, d1) = word_bounds(line@);
                assert(two_words_at(line@, c0, c1, d0, d1));
                assert(a0 == c0) by {
                    assert(!is_blank(line@[c0]));
                }
                assert(a1 == c1) by {
                    assert(is_blank(line@[c1]));
                    assert(!is_blank(line@[c1 - 1]));
                }
                assert(b0 == d0) by {
                    assert(!is_blank(line@[d0]));
                }
                assert(b1 == d1) by {
                    assert(!is_blank(line@[d1 - 1]));
                    if d1 < line@.len() {
                        assert(is_blank(line@[d1]));
                    }
                }
                if end < line@.len() {
                    assert(is_blank(line@[end as int]));
                }
            }
        }
        return None;
    }
    proof {
        assert(two_words_at(line@, a0 as int, a1 as int, b0 as int, b1 as int));
        lemma_word_bounds(line@, a0 as int, a1 as int, b0 as int, b1 as int);
    }
    let first = parse_node(slice_subrange(line, a0, a1));
    let second = parse_node(slice_subrange(line, b0, b1));
    match (first, second) {
        (Some(a), Some(b)) => Some((a, b)),
        _ => None,
    }
}

/// How many bytes stand before the first line feed of `text`, or in all of
/// `text` where it has none.
pub open spec fn first_line_len(text: Seq<u8>) -> nat
    decreases text.len(),
{
    if text.len() == 0 || text[0] == LINE_FEED {
        0
    } else {
        1 + first_line_len(text.skip(1))
    }
}

/// The lines of `text`. Every line feed ends a line and is not part of it;
/// what follows the last line feed is a line too, unless it is empty.
pub open spec fn lines_of(text: Seq<u8>) -> Seq<Seq<u8>>
    decreases text.len(),
{
    if text.len() == 0 {
        Seq::empty()
    } else {
        let n = first_line_len(text);
        if n < text.len() {
            seq![text.take(n as int)] + lines_of(text.skip(n as int + 1))
        } else {
            seq![text]
        }
    }
}

/// Line `index` is the first of `lines` that stands for no edge.
pub open spec fn first_malformed(lines: Seq<Seq<u8>>, index: int) -> bool {
    &&& 0 <= index < lines.len()
    &&& line_edge(lines[index]) is None
    &&& forall|i: int| 0 <= i < index ==> line_edge(#[trigger] lines[i]) is Some
}

/// A line of an edge list that does not stand for an edge.
#[derive(Debug, Clone, Copy, PartialEq, Eq)]
pub struct MalformedLine {
    /// The position of the line in the text, counted from zero.
    pub index: usize,
}

/// Where the line that starts at `start` ends: at the next line feed, or at
/// the end of the text.
fn line_end(text: &[u8], start: usize) -> (end: usize)
    requires
        start <= text@.len(),
    ensures
        start <= end <= text@.len(),
        end - start == first_line_len(text@.skip(start as int)),
{
    let mut end: usize = start;
    while end < text.len() && text[end] != LINE_FEED
        invariant
            start <= end <= text@.len(),
            first_line_len(text@.skip(start as int)) == (end - start) + first_line_len(
                text@.skip(end as int),
            ),
        decreases text@.len() - end,
    {
        assert(text@.skip(end as int).skip(1) =~= text@.skip(end + 1));
        end = end + 1;
    }
    end
}

/// Reads an edge list: one edge per line. The result holds the edge of
/// every line, in the order of the lines. The first line that stands for no
/// edge ends the reading, and the error tells which line it was.
pub fn parse_edge_list(text: &[u8]) -> (result: Result<Vec<(usize, usize)>, MalformedLine>)
    ensures
        match result {
            Ok(edges) => {
                &&& edges@.len() == lines_of(text@).len()
                &&& forall|i: int|
                    0 <= i < edges@.len() ==> line_edge(#[trigger] lines_of(text@)[i]) == Some(
                        edges@[i],
                    )
            },
            Err(error) => first_malformed(lines_of(text@), error.index as int),
        },
{
    let mut edges: Vec<(usize, usize)> = Vec::new();
    let mut start: usize = 0;
    let ghost lines = lines_of(text@);
    assert(text@.skip(0) =~= text@);
    assert(lines.skip(0) =~= lines);
    while start < text.len()
        invariant
            lines == lines_of(text@),
            start <= text@.len(),
            edges@.len() <= start,
            edges@.len() <= lines.len(),
            lines.skip(edges@.len() as int) == lines_of(text@.skip(start as int)),
            forall|i: int| 0 <= i < edges@.len() ==> line_edge(#[trigger] lines[i]) == Some(edges@[i]),
        decreases text@.len() - start,
    {
        let end = line_end(text, start);
        let line = slice_subrange(text, start, end);
        let ghost rest = text@.skip(start as int);
        let ghost count = edges@.len() as int;
        proof {
            assert(rest.len() > 0 && lines_of(rest).len() > 0);
            assert(lines.skip(count).len() == lines.len() - count);
            assert(lines.skip(count)[0] == lines[count]);
            if end < text@.len() {
                assert(rest.take(end - start) =~= line@);
                assert(rest.skip(end - start + 1) =~= text@.skip(end + 1));
                assert(lines.skip(count + 1) =~= lines.skip(count).skip(1));
                assert(lines_of(rest).skip(1) =~= lines_of(text@.skip(end + 1)));
            } else {
                assert(rest =~= line@);
                assert(lines.skip(count + 1) =~= lines.skip(count).skip(1));
                assert(lines_of(rest).skip(1) =~= Seq::<Seq<u8>>::empty());
                assert(text@.skip(end as int) =~= Seq::<u8>::empty());
            }
            assert(lines[count] == line@);
        }
        match parse_edge_line(line) {
            Some(edge) => {
                edges.push(edge);
            },
            None => {
                return Err(MalformedLine { index: edges.len() });
            },
        }
        start = if end < text.len() {
            end + 1
        } else {
            end
        };
    }
    assert(text@.skip(start as int) =~= Seq::<u8>::empty());
    Ok(edges)
}

} // verus!
