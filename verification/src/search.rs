//! The search itself: the pattern, and the lines of a file that match it.
//!
//! Matching is done by the regular-expression engine of the `grep` crate.
//! What is decided here is which pattern is searched for, and what a match
//! is made of.

use vstd::prelude::*;
use vstd::string::*;
use vstd::utf8::encode_utf8;
use crate::frecency::MatchResult;
use grep::matcher::Matcher;
use grep::regex::RegexMatcher;
use grep::searcher::sinks::UTF8;
use grep::searcher::{BinaryDetection, SearcherBuilder};

verus! {

/// A compiled pattern of the `grep` crate.
#[verifier::external_type_specification]
#[verifier::external_body]
pub struct ExRegexMatcher(grep::regex::RegexMatcher);

/// The byte that marks a content as binary. The engine looks for it at the
/// start of a content and in each line that matches, and ends the search
/// where it finds it.
pub const BINARY_BYTE: u8 = 0;

/// A pattern together with what the engine compiled it to. A pattern is
/// made by compiling its text, and in no other way.
pub struct Pattern {
    text: String,
    matcher: RegexMatcher,
}

impl View for Pattern {
    type V = Seq<char>;

    closed spec fn view(&self) -> Seq<char> {
        self.text@
    }
}

/// A line that the engine reported.
#[derive(Debug, Clone)]
pub struct FoundLine {
    /// The number of the line; the first line is 1.
    pub number: u64,
    /// The line, with its terminator.
    pub text: String,
}

/// The lowercase form of a text, as `str::to_lowercase` gives it.
pub uninterp spec fn lowercase_of(text: Seq<char>) -> Seq<char>;

/// Whether the engine accepts the pattern, as `RegexMatcher::new` decides it.
pub uninterp spec fn compiles(pattern: Seq<char>) -> bool;

/// Where the pattern first matches in a line, as `Matcher::find` gives it for
/// the compiled pattern: the byte offsets of the start and the end.
pub uninterp spec fn first_match_of(pattern: Seq<char>, line: Seq<u8>) -> Option<(usize, usize)>;

/// The lines of a content that match the pattern, each with its number, as
/// `Searcher::search_slice` reports them for the compiled pattern when it
/// counts lines and is set to quit on the byte `binary_byte`.
pub uninterp spec fn lines_matching(pattern: Seq<char>, content: Seq<u8>, binary_byte: u8) -> Seq<
    (u64, Seq<char>),
>;

/// The search ignores case: always when asked to, and under smart case when
/// the pattern has no uppercase letter, which is when lowering it changes
/// nothing.
pub open spec fn ignores_case(
    pattern: Seq<char>,
    lowered: Seq<char>,
    ignore_case: bool,
    smart_case: bool,
) -> bool {
    ignore_case || (smart_case && lowered == pattern)
}

/// The pattern that is handed to the engine: the pattern as given, behind
/// the flag `(?i)` where the search ignores case.
pub open spec fn pattern_for(
    pattern: Seq<char>,
    lowered: Seq<char>,
    ignore_case: bool,
    smart_case: bool,
) -> Seq<char> {
    if ignores_case(pattern, lowered, ignore_case, smart_case) {
        "(?i)"@ + pattern
    } else {
        pattern
    }
}

/// The lines are numbered from 1, and each has a higher number than the
/// line before it.
pub open spec fn are_in_order(lines: Seq<(u64, Seq<char>)>) -> bool {
    &&& forall|i: int| 0 <= i < lines.len() ==> (#[trigger] lines[i]).0 >= 1
    &&& forall|i: int, j: int| 0 <= i < j < lines.len() ==> lines[i].0 < lines[j].0
}

/// The number and the text of each reported line.
pub open spec fn numbered(found: Seq<FoundLine>) -> Seq<(u64, Seq<char>)> {
    Seq::new(found.len(), |i: int| (found[i].number, found[i].text@))
}

/// `matches` are the matches that the reported lines of the file `path`
/// stand for: one for each line, in order, none of them scored.
pub open spec fn is_unscored_from(
    matches: Seq<MatchResult>,
    path: Seq<char>,
    lines: Seq<(u64, Seq<char>)>,
) -> bool {
    &&& matches.len() == lines.len()
    &&& forall|i: int|
        0 <= i < matches.len() ==> {
            &&& (#[trigger] matches[i]).path@ == path
            &&& matches[i].line_number == lines[i].0
            &&& matches[i].line_text@ == lines[i].1
            &&& matches[i].frecency_score == 0
        }
}

/// Where the pattern first matches in the line of each match.
pub open spec fn spans_of(pattern: Seq<char>, matches: Seq<MatchResult>) -> Seq<
    Option<(usize, usize)>,
> {
    Seq::new(matches.len(), |i: int| first_match_of(pattern, encode_utf8(matches[i].line_text@)))
}

/// The lowercase form of `text`, by `str::to_lowercase` of std, which maps
/// each character as Unicode defines it.
#[verifier::external_body]
fn lowercase(text: &str) -> (lowered: String)
    ensures
        lowered@ == lowercase_of(text@),
{
    text.to_lowercase()
}

/// Compiles `text` with `RegexMatcher::new`, which takes the default
/// configuration; `None` where the engine refuses the pattern. The pattern
/// that comes back holds the text beside what the engine made of it.
#[verifier::external_body]
fn compile(text: &str) -> (pattern: Option<Pattern>)
    ensures
        pattern is Some <==> compiles(text@),
        pattern matches Some(compiled) ==> compiled@ == text@,
{
    RegexMatcher::new(text).ok().map(|matcher| Pattern { text: text.to_string(), matcher })
}

/// The first match of the pattern in `line`, by `Matcher::find`: the byte
/// offsets at which it starts and ends.
#[verifier::external_body]
fn first_match(pattern: &Pattern, line: &[u8]) -> (span: Option<(usize, usize)>)
    ensures
        span == first_match_of(pattern@, line@),
{
    match pattern.matcher.find(line) {
        Ok(Some(found)) => Some((found.start(), found.end())),
        _ => None,
    }
}

/// The lines of `content` that match, by `Searcher::search_slice` with line
/// numbers on and binary detection set to quit on `binary_byte`. The engine
/// numbers lines from 1 and reports them in their order, each once. It
/// looks for `binary_byte` at the start of the content and in each line that
/// matches, and reports no line behind the place where it finds it, nor the
/// line that holds it. A line that is not UTF-8 ends the search; what was
/// found before it stays.
#[verifier::external_body]
fn matching_lines(pattern: &Pattern, content: &[u8], binary_byte: u8) -> (found: Vec<FoundLine>)
    ensures
        numbered(found@) == lines_matching(pattern@, content@, binary_byte),
        are_in_order(numbered(found@)),
        forall|i: int|
            0 <= i < found@.len() ==> !encode_utf8((#[trigger] found@[i]).text@).contains(
                binary_byte,
            ),
{
    let mut found: Vec<FoundLine> = Vec::new();
    let mut searcher = SearcherBuilder::new()
        .line_number(true)
        .binary_detection(BinaryDetection::quit(binary_byte))
        .build();
    let sink = UTF8(|number, text| {
        found.push(FoundLine { number, text: text.to_string() });
        Ok(true)
    });
    let _ = searcher.search_slice(&pattern.matcher, content, sink);
    found
}

/// The pattern to search for, from the pattern as given and its lowercase
/// form.
pub fn pattern_with_case(pattern: &str, lowered: &str, ignore_case: bool, smart_case: bool) -> (text:
    String)
    ensures
        text@ == pattern_for(pattern@, lowered@, ignore_case, smart_case),
{
    let same: bool = lowered.to_owned() == pattern.to_owned();
    if ignore_case || (smart_case && same) {
        let mut text: String = "(?i)".to_owned();
        text.append(pattern);
        text
    } else {
        pattern.to_owned()
    }
}

/// The pattern to search for: `pattern`, made to ignore case where
/// `ignore_case` is set, or where `smart_case` is set and the pattern has no
/// uppercase letter.
pub fn search_pattern(pattern: &str, ignore_case: bool, smart_case: bool) -> (text: String)
    ensures
        text@ == pattern_for(pattern@, lowercase_of(pattern@), ignore_case, smart_case),
{
    let lowered: String = lowercase(pattern);
    pattern_with_case(pattern, lowered.as_str(), ignore_case, smart_case)
}

impl Pattern {
    /// The compiled pattern of a search for `pattern` under the two case
    /// options; `None` where the engine does not accept the pattern.
    pub fn new(pattern: &str, ignore_case: bool, smart_case: bool) -> (compiled: Option<Pattern>)
        ensures
            compiled is Some <==> compiles(
                pattern_for(pattern@, lowercase_of(pattern@), ignore_case, smart_case),
            ),
            compiled matches Some(p) ==> p@ == pattern_for(
                pattern@,
                lowercase_of(pattern@),
                ignore_case,
                smart_case,
            ),
    {
        let text: String = search_pattern(pattern, ignore_case, smart_case);
        compile(text.as_str())
    }

    /// The text that was compiled.
    pub fn text(&self) -> (text: &str)
        ensures
            text@ == self@,
    {
        self.text.as_str()
    }
}

/// The matches that the reported lines of the file `path` stand for.
pub fn matches_from_lines(path: &str, found: Vec<FoundLine>) -> (matches: Vec<MatchResult>)
    ensures
        is_unscored_from(matches@, path@, numbered(found@)),
{
    let n: usize = found.len();
    let mut matches: Vec<MatchResult> = Vec::new();
    let mut i: usize = 0;
    while i < n
        invariant
            n == found@.len(),
            i <= n,
            is_unscored_from(matches@, path@, numbered(found@).take(i as int)),
        decreases n - i,
    {
        let m = MatchResult::new(path.to_owned(), found[i].number, found[i].text.clone());
        matches.push(m);
        i = i + 1;
    }
    assert(numbered(found@).take(n as int) =~= numbered(found@));
    matches
}

/// Searches the content of the file `path` and gives a match for each line
/// that the engine reports, in their order, none of them scored. Nothing of
/// the content makes the search fail: of a binary content, the lines before
/// the binary byte that the engine meets are reported, and no line that
/// holds the byte.
pub fn search_content(pattern: &Pattern, path: &str, content: &[u8]) -> (matches: Vec<MatchResult>)
    ensures
        is_unscored_from(matches@, path@, lines_matching(pattern@, content@, BINARY_BYTE)),
        are_in_order(lines_matching(pattern@, content@, BINARY_BYTE)),
        forall|i: int|
            0 <= i < matches@.len() ==> !encode_utf8((#[trigger] matches@[i]).line_text@).contains(
                BINARY_BYTE,
            ),
{
    let found: Vec<FoundLine> = matching_lines(pattern, content, BINARY_BYTE);
    let ghost reported = found@;
    let matches: Vec<MatchResult> = matches_from_lines(path, found);
    assert forall|i: int| 0 <= i < matches@.len() implies !encode_utf8(
        (#[trigger] matches@[i]).line_text@,
    ).contains(BINARY_BYTE) by {
        assert(matches@[i].line_text@ == numbered(reported)[i].1);
        assert(!encode_utf8(reported[i].text@).contains(BINARY_BYTE));
    }
    matches
}

/// Where the pattern first matches in the line of each match, or `None` for
/// a line that it does not match.
pub fn find_spans(matches: &Vec<MatchResult>, pattern: &Pattern) -> (spans: Vec<
    Option<(usize, usize)>,
>)
    ensures
        spans@ == spans_of(pattern@, matches@),
{
    let n: usize = matches.len();
    let mut spans: Vec<Option<(usize, usize)>> = Vec::new();
    let mut i: usize = 0;
    while i < n
        invariant
            n == matches@.len(),
            i <= n,
            spans@ == spans_of(pattern@, matches@).take(i as int),
        decreases n - i,
    {
        let span: Option<(usize, usize)> = first_match(
            pattern,
            matches[i].line_text.as_str().as_bytes(),
        );
        proof {
            assert(spans_of(pattern@, matches@).take(i + 1) =~= spans_of(pattern@, matches@).take(
                i as int,
            ).push(span));
        }
        spans.push(span);
        i = i + 1;
    }
    assert(spans_of(pattern@, matches@).take(n as int) =~= spans_of(pattern@, matches@));
    spans
}

} // verus!
