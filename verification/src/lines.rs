//! Line counts of stored file versions.
//!
//! A version of a file is known by the id of its content. Its line count is
//! exact where the content is text, and an estimate from its size where it is
//! not, or where the content could not be had. A count is taken once for each
//! content id and remembered.

use vstd::prelude::*;
use vstd::hash_map::*;
use vstd::utf8::*;

verus! {

/// One estimated line for each 50 bytes of content that is not text.
pub const BYTES_PER_ESTIMATED_LINE: u64 = 50;

/// The line terminator.
pub const NEWLINE: u8 = 10;

/// Number of line terminators in `bytes`.
pub open spec fn newline_count(bytes: Seq<u8>) -> nat
    decreases bytes.len(),
{
    if bytes.len() == 0 {
        0
    } else {
        newline_count(bytes.drop_last()) + if bytes.last() == NEWLINE {
            1nat
        } else {
            0nat
        }
    }
}

/// Number of lines of a text: each terminated line, and a last line that
/// lacks its terminator.
pub open spec fn text_line_count(bytes: Seq<u8>) -> nat {
    newline_count(bytes) + if bytes.len() > 0 && bytes.last() != NEWLINE {
        1nat
    } else {
        0nat
    }
}

/// The line count assumed for `byte_size` bytes that cannot be read as text.
pub open spec fn estimated_line_count(byte_size: nat) -> nat {
    if byte_size / (BYTES_PER_ESTIMATED_LINE as nat) < 1 {
        1
    } else {
        byte_size / (BYTES_PER_ESTIMATED_LINE as nat)
    }
}

/// The line count of a content: that of the text where it is well-formed
/// UTF-8, with 1 for the empty text, and the estimate otherwise.
pub open spec fn content_line_count(bytes: Seq<u8>) -> nat {
    if valid_utf8(bytes) {
        if text_line_count(bytes) == 0 {
            1
        } else {
            text_line_count(bytes)
        }
    } else {
        estimated_line_count(bytes.len())
    }
}

/// What the object store gave for a content id.
#[derive(Debug, Clone)]
pub enum Blob {
    /// The stored bytes.
    Content(Vec<u8>),
    /// The bytes could not be fetched; `byte_size` is the size that the store
    /// reports for them, 0 where it reports none.
    Unavailable { byte_size: u64 },
}

/// The line count of what the store gave.
pub open spec fn blob_line_count(blob: Blob) -> nat {
    match blob {
        Blob::Content(bytes) => content_line_count(bytes@),
        Blob::Unavailable { byte_size } => estimated_line_count(byte_size as nat),
    }
}

/// A table of counts after the count `lines` was offered for `id`: a count
/// that is already there stays.
pub open spec fn remembered(table: Map<Seq<char>, u64>, id: Seq<char>, lines: u64) -> Map<
    Seq<char>,
    u64,
> {
    if table.contains_key(id) {
        table
    } else {
        table.insert(id, lines)
    }
}

pub proof fn lemma_newline_count_bound(bytes: Seq<u8>)
    ensures
        newline_count(bytes) <= bytes.len(),
    decreases bytes.len(),
{
    if bytes.len() > 0 {
        lemma_newline_count_bound(bytes.drop_last());
    }
}

/// A text has at most as many lines as bytes.
pub proof fn lemma_text_line_count_bound(bytes: Seq<u8>)
    ensures
        text_line_count(bytes) <= bytes.len(),
{
    if bytes.len() > 0 {
        lemma_newline_count_bound(bytes.drop_last());
    }
}

/// Every line count is at least 1, and no more than the content has bytes,
/// but for the empty content.
pub proof fn lemma_content_line_count_bound(bytes: Seq<u8>)
    ensures
        1 <= content_line_count(bytes),
        content_line_count(bytes) <= bytes.len() || content_line_count(bytes) == 1,
{
    lemma_text_line_count_bound(bytes);
}

/// What is remembered first for a content id is what stays: a second count
/// that is offered for the id changes nothing, and the id then stands for
/// the count that it stood for before.
pub proof fn lemma_first_count_stays(
    table: Map<Seq<char>, u64>,
    id: Seq<char>,
    first: u64,
    second: u64,
)
    ensures
        remembered(remembered(table, id, first), id, second) == remembered(table, id, first),
        remembered(table, id, first).contains_key(id),
        remembered(table, id, first)[id] == if table.contains_key(id) {
            table[id]
        } else {
            first
        },
        forall|other: Seq<char>|
            other != id ==> remembered(table, id, first).contains_key(other)
                == table.contains_key(other),
        forall|other: Seq<char>|
            other != id && table.contains_key(other) ==> remembered(table, id, first)[other]
                == table[other],
{
}

/// Tells whether `bytes` is well-formed UTF-8, which is what
/// `std::str::from_utf8` accepts.
#[verifier::external_body]
fn is_utf8(bytes: &[u8]) -> (ok: bool)
    ensures
        ok == valid_utf8(bytes@),
{
    std::str::from_utf8(bytes).is_ok()
}

/// The estimate for content of `byte_size` bytes that is not text.
pub fn estimate_lines(byte_size: u64) -> (lines: u64)
    ensures
        lines == estimated_line_count(byte_size as nat),
        lines >= 1,
{
    let lines: u64 = byte_size / BYTES_PER_ESTIMATED_LINE;
    if lines < 1 {
        1
    } else {
        lines
    }
}

/// Counts the lines of `content` as a text, whatever its encoding.
pub fn count_text_lines(content: &[u8]) -> (lines: usize)
    ensures
        lines == text_line_count(content@),
{
    let n: usize = content.len();
    let mut lines: usize = 0;
    let mut i: usize = 0;
    while i < n
        invariant
            n == content@.len(),
            i <= n,
            lines == newline_count(content@.take(i as int)),
            lines <= i,
        decreases n - i,
    {
        proof {
            assert(content@.take(i + 1).drop_last() =~= content@.take(i as int));
        }
        if content[i] == NEWLINE {
            lines = lines + 1;
        }
        i = i + 1;
    }
    proof {
        assert(content@.take(n as int) =~= content@);
        lemma_text_line_count_bound(content@);
    }
    if n > 0 && content[n - 1] != NEWLINE {
        lines + 1
    } else {
        lines
    }
}

/// The line count of a stored content: exact for text, estimated from the
/// size for anything else.
pub fn count_content_lines(content: &[u8]) -> (lines: u64)
    ensures
        lines == content_line_count(content@),
        lines >= 1,
{
    if is_utf8(content) {
        let lines: usize = count_text_lines(content);
        if lines == 0 {
            1
        } else {
            lines as u64
        }
    } else {
        estimate_lines(content.len() as u64)
    }
}

/// The line count of what the store gave for a content id.
pub fn count_blob_lines(blob: &Blob) -> (lines: u64)
    ensures
        lines == blob_line_count(*blob),
        lines >= 1,
{
    match blob {
        Blob::Content(bytes) => count_content_lines(bytes.as_slice()),
        Blob::Unavailable { byte_size } => estimate_lines(*byte_size),
    }
}

/// The line counts taken so far, by content id.
pub struct LineCounts {
    counts: StringHashMap<u64>,
}

impl View for LineCounts {
    type V = Map<Seq<char>, u64>;

    closed spec fn view(&self) -> Map<Seq<char>, u64> {
        self.counts@
    }
}

impl LineCounts {
    /// Every count in the table is at least 1.
    #[verifier::type_invariant]
    spec fn counts_are_positive(self) -> bool {
        forall|id: Seq<char>| #[trigger] self.counts@.contains_key(id) ==> self.counts@[id] >= 1
    }

    /// A table without any count.
    pub fn new() -> (table: LineCounts)
        ensures
            table@ == Map::<Seq<char>, u64>::empty(),
    {
        LineCounts { counts: StringHashMap::new() }
    }

    /// The count remembered for `object_id`, if one was taken.
    pub fn get(&self, object_id: &str) -> (lines: Option<u64>)
        ensures
            lines == if self@.contains_key(object_id@) {
                Some(self@[object_id@])
            } else {
                None::<u64>
            },
            lines matches Some(n) ==> n >= 1,
    {
        proof {
            use_type_invariant(self);
        }
        match self.counts.get(object_id) {
            Some(lines) => Some(*lines),
            None => None,
        }
    }

    /// The line count of the content `object_id`, taken from `blob` unless a
    /// count for that id is remembered: the first count taken for an id is
    /// the one that every later call returns.
    pub fn count_lines(&mut self, object_id: &str, blob: &Blob) -> (lines: u64)
        ensures
            final(self)@ == remembered(old(self)@, object_id@, blob_line_count(*blob) as u64),
            lines == final(self)@[object_id@],
            lines >= 1,
    {
        proof {
            use_type_invariant(&*self);
        }
        match self.counts.get(object_id) {
            Some(lines) => *lines,
            None => {
                let lines: u64 = count_blob_lines(blob);
                // The table is taken out while the count goes in, and put
                // back whole.
                let mut counts: StringHashMap<u64> = StringHashMap::new();
                std::mem::swap(&mut self.counts, &mut counts);
                counts.insert(object_id.to_owned(), lines);
                std::mem::swap(&mut self.counts, &mut counts);
                lines
            },
        }
    }
}

} // verus!
