//! What is printed for a match: where it was found, and the line with the
//! matched part set apart.

use vstd::prelude::*;
use vstd::string::*;
use vstd::utf8::*;
use crate::frecency::MatchResult;
use crate::history::SCORE_SCALE;
use crate::search::{find_spans, spans_of, Pattern};

verus! {

/// A score is shown times 100 000 000 and with two decimals: it is counted
/// in hundredths of that, of which each is this many units of score.
pub const UNITS_PER_HUNDREDTH: u128 = 100_000_000;

/// The digit `0`; the other digits follow it.
pub const DIGIT_ZERO: u8 = 48;

/// `:`, which ends each part of the prefix.
pub const COLON: u8 = 58;

/// The space behind the colon of the score.
pub const SPACE: u8 = 32;

/// The decimal point.
pub const POINT: u8 = 46;

/// The two line terminators.
pub const LINE_FEED: u8 = 10;

pub const CARRIAGE_RETURN: u8 = 13;

/// What to print besides the place and the line.
#[derive(Debug, Clone, Copy)]
pub struct PrintOptions {
    /// Print the score before the place.
    pub show_score: bool,
    /// Print the column of the match behind the line number.
    pub show_column: bool,
}

/// One line of output, in the parts that are printed one after the other.
#[derive(Debug, Clone, PartialEq, Eq)]
pub struct PrintedLine {
    /// The score, if asked for, the path, the line number and, if asked
    /// for, the column, each with what separates it from the next.
    pub prefix: Vec<u8>,
    /// The line up to the match.
    pub before: Vec<u8>,
    /// The match, which is printed highlighted.
    pub matched: Vec<u8>,
    /// The line behind the match, without its terminator.
    pub after: Vec<u8>,
}

/// The bytes of a printed line.
pub struct PrintedText {
    pub prefix: Seq<u8>,
    pub before: Seq<u8>,
    pub matched: Seq<u8>,
    pub after: Seq<u8>,
}

impl View for PrintedLine {
    type V = PrintedText;

    open spec fn view(&self) -> PrintedText {
        PrintedText {
            prefix: self.prefix@,
            before: self.before@,
            matched: self.matched@,
            after: self.after@,
        }
    }
}

/// The decimal digits of a number.
pub open spec fn decimal_digits(n: nat) -> Seq<u8>
    decreases n,
{
    if n < 10 {
        seq![(DIGIT_ZERO + n) as u8]
    } else {
        decimal_digits(n / 10).push((DIGIT_ZERO + n % 10) as u8)
    }
}

/// A score in hundredths of the shown unit, rounded to the nearest, and up
/// from the half.
pub open spec fn shown_hundredths(score: nat) -> nat {
    score / (UNITS_PER_HUNDREDTH as nat) + if score % (UNITS_PER_HUNDREDTH as nat) >= (
    UNITS_PER_HUNDREDTH as nat) / 2 {
        1nat
    } else {
        0nat
    }
}

/// The score as it is shown: its count of hundredths, with the decimal point
/// before the last two digits.
pub open spec fn score_text(score: nat) -> Seq<u8> {
    let hundredths = shown_hundredths(score);
    decimal_digits(hundredths / 100) + seq![
        POINT,
        (DIGIT_ZERO + (hundredths % 100) / 10) as u8,
        (DIGIT_ZERO + hundredths % 10) as u8,
    ]
}

/// Length of a line without the line terminators at its end.
pub open spec fn trimmed_len(line: Seq<u8>) -> nat
    decreases line.len(),
{
    if line.len() > 0 && (line.last() == LINE_FEED || line.last() == CARRIAGE_RETURN) {
        trimmed_len(line.drop_last())
    } else {
        line.len()
    }
}

/// An offset into the line, held within the part of the line that is printed.
pub open spec fn within(offset: int, limit: int) -> int {
    if offset < limit {
        offset
    } else {
        limit
    }
}

/// What stands before the line: `score: ` if asked for, then `path:line:`,
/// then `column:` if asked for. The column is that of the first byte of the
/// match, counted from 1.
pub open spec fn prefix_text(m: MatchResult, start: int, options: PrintOptions) -> Seq<u8> {
    (if options.show_score {
        score_text(m.frecency_score as nat) + seq![COLON, SPACE]
    } else {
        Seq::<u8>::empty()
    }) + encode_utf8(m.path@) + seq![COLON] + decimal_digits(m.line_number as nat) + seq![COLON]
        + (if options.show_column {
        decimal_digits((start + 1) as nat) + seq![COLON]
    } else {
        Seq::<u8>::empty()
    })
}

/// The printed line of a match whose pattern matches from `start` to `end`
/// in its line. The line is printed without its terminators, and of a match
/// that reaches into them only the part before them. An end before the start
/// is taken as an empty match at the start.
pub open spec fn printed(m: MatchResult, start: int, end: int, options: PrintOptions) -> PrintedText {
    let line = encode_utf8(m.line_text@);
    let limit = trimmed_len(line) as int;
    let from = within(start, limit);
    let to = within(
        if end < start {
            start
        } else {
            end
        },
        limit,
    );
    PrintedText {
        prefix: prefix_text(m, start, options),
        before: line.subrange(0, from),
        matched: line.subrange(from, to),
        after: line.subrange(to, limit),
    }
}

/// Where the pattern matches in the line of match `at`; `None` where no span
/// is given for it.
pub open spec fn span_at(spans: Seq<Option<(usize, usize)>>, at: int) -> Option<(usize, usize)> {
    if 0 <= at < spans.len() {
        spans[at]
    } else {
        None
    }
}

/// The lines that are printed for the first `upto` matches: one for each
/// match in whose line the pattern was found, in the order of the matches.
pub open spec fn printed_lines(
    matches: Seq<MatchResult>,
    spans: Seq<Option<(usize, usize)>>,
    options: PrintOptions,
    upto: int,
) -> Seq<PrintedText>
    decreases upto,
{
    if upto <= 0 {
        Seq::<PrintedText>::empty()
    } else {
        let earlier = printed_lines(matches, spans, options, upto - 1);
        match span_at(spans, upto - 1) {
            Some((start, end)) => earlier.push(
                printed(matches[upto - 1], start as int, end as int, options),
            ),
            None => earlier,
        }
    }
}

/// A hundredth times the shown factor, times one hundred, is one whole.
pub proof fn lemma_hundredths_of_a_whole()
    ensures
        UNITS_PER_HUNDREDTH * 100_000_000 * 100 == SCORE_SCALE,
        shown_hundredths(SCORE_SCALE as nat) == 100_000_000 * 100,
{
}

/// The terminators at the end of a line are not counted into its length.
pub proof fn lemma_trimmed_len_bound(line: Seq<u8>)
    ensures
        trimmed_len(line) <= line.len(),
    decreases line.len(),
{
    if line.len() > 0 {
        lemma_trimmed_len_bound(line.drop_last());
    }
}

/// Appends the decimal digits of `n` to `out`.
pub fn push_decimal(out: &mut Vec<u8>, n: u128)
    ensures
        final(out)@ == old(out)@ + decimal_digits(n as nat),
{
    let mut rest: u128 = n;
    let mut low: Vec<u8> = Vec::new();
    while rest >= 10
        invariant
            decimal_digits(n as nat) == decimal_digits(rest as nat) + low@.reverse(),
        decreases rest,
    {
        let digit: u8 = DIGIT_ZERO + (rest % 10) as u8;
        proof {
            assert(low@.push(digit).reverse() =~= seq![digit] + low@.reverse());
            assert(decimal_digits((rest / 10) as nat).push(digit) + low@.reverse()
                =~= decimal_digits((rest / 10) as nat) + (seq![digit] + low@.reverse()));
        }
        low.push(digit);
        rest = rest / 10;
    }
    out.push(DIGIT_ZERO + rest as u8);
    let mut k: usize = low.len();
    while k > 0
        invariant
            k <= low@.len(),
            out@ == old(out)@ + decimal_digits(rest as nat) + low@.reverse().take(
                low@.len() - k,
            ),
        decreases k,
    {
        k = k - 1;
        proof {
            let turned = low@.reverse();
            assert(turned.take(low@.len() - k) =~= turned.take(low@.len() - k - 1).push(
                low@[k as int],
            ));
        }
        out.push(low[k]);
    }
    proof {
        assert(low@.reverse().take(low@.len() as int) =~= low@.reverse());
        assert(old(out)@ + decimal_digits(rest as nat) + low@.reverse() =~= old(out)@ + (
        decimal_digits(rest as nat) + low@.reverse()));
    }
}

/// Appends `bytes[from..to]` to `out`.
pub fn push_range(out: &mut Vec<u8>, bytes: &[u8], from: usize, to: usize)
    requires
        from <= to <= bytes@.len(),
    ensures
        final(out)@ == old(out)@ + bytes@.subrange(from as int, to as int),
{
    let mut i: usize = from;
    while i < to
        invariant
            from <= i <= to,
            to <= bytes@.len(),
            out@ == old(out)@ + bytes@.subrange(from as int, i as int),
        decreases to - i,
    {
        proof {
            assert(bytes@.subrange(from as int, i + 1) =~= bytes@.subrange(
                from as int,
                i as int,
            ).push(bytes@[i as int]));
        }
        out.push(bytes[i]);
        i = i + 1;
    }
}

/// Appends the score as it is shown to `out`.
pub fn push_score(out: &mut Vec<u8>, score: u128)
    ensures
        final(out)@ == old(out)@ + score_text(score as nat),
{
    let whole: u128 = score / UNITS_PER_HUNDREDTH;
    let hundredths: u128 = if score % UNITS_PER_HUNDREDTH >= UNITS_PER_HUNDREDTH / 2 {
        whole + 1
    } else {
        whole
    };
    assert(hundredths == shown_hundredths(score as nat));
    push_decimal(out, hundredths / 100);
    let ghost digits = out@;
    out.push(POINT);
    out.push(DIGIT_ZERO + ((hundredths % 100) / 10) as u8);
    out.push(DIGIT_ZERO + (hundredths % 10) as u8);
    proof {
        assert(out@ =~= old(out)@ + score_text(score as nat));
    }
}

/// Length of `line` without the line terminators at its end.
pub fn trimmed_length(line: &[u8]) -> (len: usize)
    ensures
        len == trimmed_len(line@),
        len <= line@.len(),
{
    let mut len: usize = line.len();
    proof {
        assert(line@.take(len as int) =~= line@);
    }
    while len > 0 && (line[len - 1] == LINE_FEED || line[len - 1] == CARRIAGE_RETURN)
        invariant
            len <= line@.len(),
            trimmed_len(line@) == trimmed_len(line@.take(len as int)),
        decreases len,
    {
        proof {
            assert(line@.take(len as int).drop_last() =~= line@.take(len - 1));
        }
        len = len - 1;
    }
    proof {
        lemma_trimmed_len_bound(line@);
    }
    len
}

/// The printed line of a match whose pattern matches from `start` to `end`
/// in its line.
pub fn layout_match(m: &MatchResult, start: usize, end: usize, options: &PrintOptions) -> (line:
    PrintedLine)
    ensures
        line@ == printed(*m, start as int, end as int, *options),
{
    let text: &[u8] = m.line_text.as_str().as_bytes();
    let limit: usize = trimmed_length(text);
    let from: usize = if start < limit {
        start
    } else {
        limit
    };
    let to: usize = if end < start {
        from
    } else if end < limit {
        end
    } else {
        limit
    };
    let mut prefix: Vec<u8> = Vec::new();
    if options.show_score {
        push_score(&mut prefix, m.frecency_score);
        prefix.push(COLON);
        prefix.push(SPACE);
    }
    let path: &[u8] = m.path.as_str().as_bytes();
    push_range(&mut prefix, path, 0, path.len());
    prefix.push(COLON);
    push_decimal(&mut prefix, m.line_number as u128);
    prefix.push(COLON);
    if options.show_column {
        push_decimal(&mut prefix, start as u128 + 1);
        prefix.push(COLON);
    }
    let mut before: Vec<u8> = Vec::new();
    push_range(&mut before, text, 0, from);
    let mut matched: Vec<u8> = Vec::new();
    push_range(&mut matched, text, from, to);
    let mut after: Vec<u8> = Vec::new();
    push_range(&mut after, text, to, limit);
    proof {
        assert(path@.subrange(0, path@.len() as int) =~= path@);
        assert(prefix@ =~= prefix_text(*m, start as int, *options));
        assert(before@ =~= text@.subrange(0, from as int));
        assert(matched@ =~= text@.subrange(from as int, to as int));
        assert(after@ =~= text@.subrange(to as int, limit as int));
    }
    PrintedLine { prefix, before, matched, after }
}

/// The lines to print for the matches, given where the pattern matches in
/// the line of each: a match in whose line it was not found is left out.
pub fn layout_matches(
    matches: &Vec<MatchResult>,
    spans: &Vec<Option<(usize, usize)>>,
    options: &PrintOptions,
) -> (lines: Vec<PrintedLine>)
    ensures
        lines@.map_values(|line: PrintedLine| line@) == printed_lines(
            matches@,
            spans@,
            *options,
            matches@.len() as int,
        ),
{
    let n: usize = matches.len();
    let mut lines: Vec<PrintedLine> = Vec::new();
    let mut i: usize = 0;
    assert(lines@.map_values(|line: PrintedLine| line@) =~= printed_lines(
        matches@,
        spans@,
        *options,
        0,
    ));
    while i < n
        invariant
            n == matches@.len(),
            i <= n,
            lines@.map_values(|line: PrintedLine| line@) == printed_lines(
                matches@,
                spans@,
                *options,
                i as int,
            ),
        decreases n - i,
    {
        let span: Option<(usize, usize)> = if i < spans.len() {
            spans[i]
        } else {
            None
        };
        match span {
            Some((start, end)) => {
                let line: PrintedLine = layout_match(&matches[i], start, end, options);
                proof {
                    assert(lines@.push(line).map_values(|line: PrintedLine| line@)
                        =~= lines@.map_values(|line: PrintedLine| line@).push(line@));
                }
                lines.push(line);
            },
            None => {},
        }
        i = i + 1;
    }
    lines
}

/// The lines to print for the matches: for each match in whose line the
/// pattern is found, the place and the line with the first match set apart.
pub fn print_matches(matches: &Vec<MatchResult>, pattern: &Pattern, options: &PrintOptions) -> (lines:
    Vec<PrintedLine>)
    ensures
        lines@.map_values(|line: PrintedLine| line@) == printed_lines(
            matches@,
            spans_of(pattern@, matches@),
            *options,
            matches@.len() as int,
        ),
{
    let spans: Vec<Option<(usize, usize)>> = find_spans(matches, pattern);
    layout_matches(matches, &spans, options)
}

} // verus!
