//! Line provenance: which lines of a file are committed, and the bonus that
//! a matched line earns from it.
//!
//! For each line of a file as it stands in the working tree, the blame names
//! the commit that last touched it. A line that no commit holds is attributed
//! to the zero id. A match on such a line earns the larger bonus; both are
//! divided by the file's present line count, so that a long file does not win
//! by its length.

use vstd::prelude::*;
use vstd::arithmetic::div_mod::{
    lemma_div_by_multiple, lemma_div_denominator, lemma_div_is_ordered,
    lemma_div_is_ordered_by_denominator, lemma_fundamental_div_mod,
};
use vstd::hash_map::*;
use vstd::string::*;
use crate::history::{contribution, SCORE_SCALE};
use crate::lines::{blob_line_count, count_blob_lines, Blob};
use crate::path::{normalize_repo_path, repo_key};

verus! {

/// Weight of a match on a line that is not committed.
pub const UNCOMMITTED_WEIGHT: u128 = 5;

/// Weight of a match on a committed line.
pub const COMMITTED_WEIGHT: u128 = 2;

/// The digit that the zero id is made of.
pub const ZERO_DIGIT: u8 = 48;

/// Where a line of the working copy comes from.
#[derive(Debug, Clone, PartialEq, Eq)]
pub enum BlameEntry {
    /// The line stands only in the working copy.
    Uncommitted,
    /// The commit that last touched the line.
    CommittedAt(String),
}

/// What is known of one file of the working tree.
#[derive(Debug, Clone)]
pub struct FileState {
    /// The provenance of each line, in order; `None` where no blame could be
    /// had for the file.
    pub blame: Option<Vec<BlameEntry>>,
    /// Line count of the file as it stands now.
    pub current_lines: u64,
}

/// The id is the zero id: it has digits, and all of them are `0`.
pub open spec fn is_zero_id(id: Seq<char>) -> bool {
    id.len() > 0 && forall|i: int| 0 <= i < id.len() ==> id[i] == '0'
}

/// The provenance that a commit id stands for.
pub open spec fn entry_for(commit_id: String) -> BlameEntry {
    if is_zero_id(commit_id@) {
        BlameEntry::Uncommitted
    } else {
        BlameEntry::CommittedAt(commit_id)
    }
}

/// The weight of a match on a line of that provenance.
pub open spec fn weight_of(entry: BlameEntry) -> nat {
    match entry {
        BlameEntry::Uncommitted => UNCOMMITTED_WEIGHT as nat,
        BlameEntry::CommittedAt(_) => COMMITTED_WEIGHT as nat,
    }
}

/// The bonus of a match on a line of that provenance, in a file of
/// `current_lines` lines: `weight / current_lines`, with a line count below 1
/// taken as 1.
pub open spec fn line_bonus(entry: BlameEntry, current_lines: int) -> nat {
    let lines = if current_lines < 1 {
        1
    } else {
        current_lines
    };
    ((weight_of(entry) * SCORE_SCALE) as int / lines) as nat
}

/// The bonus of a match on line `line_number` (the first line is 1) of a
/// file: none where the file has no blame, or the blame has no such line.
pub open spec fn match_bonus(file: Option<FileState>, line_number: int) -> nat {
    match file {
        Some(state) => match state.blame {
            Some(entries) => if 1 <= line_number <= entries@.len() {
                line_bonus(entries@[line_number - 1], state.current_lines as int)
            } else {
                0
            },
            None => 0,
        },
        None => 0,
    }
}

/// No bonus is more than the larger weight.
pub proof fn lemma_line_bonus_bound(entry: BlameEntry, current_lines: int)
    ensures
        line_bonus(entry, current_lines) <= UNCOMMITTED_WEIGHT * SCORE_SCALE,
{
    let lines = if current_lines < 1 {
        1
    } else {
        current_lines
    };
    let whole = (weight_of(entry) * SCORE_SCALE) as int;
    assert(0 <= whole / lines <= whole) by (nonlinear_arith)
        requires
            lines >= 1,
            whole >= 0,
    ;
}

/// Normalisation: in a file of twice the length, a line earns half the
/// bonus, rounded down.
pub proof fn lemma_double_length_halves_bonus(entry: BlameEntry, current_lines: int)
    requires
        1 <= current_lines,
    ensures
        line_bonus(entry, 2 * current_lines) == line_bonus(entry, current_lines) / 2,
{
    let whole = (weight_of(entry) * SCORE_SCALE) as int;
    lemma_div_denominator(whole, current_lines, 2);
    assert(current_lines * 2 == 2 * current_lines);
}

/// A match on a line that is not committed earns more than one on a
/// committed line of the same file, unless the file is so long that both
/// bonuses are rounded down to nothing.
pub proof fn lemma_uncommitted_earns_more(commit_id: String, current_lines: int)
    ensures
        line_bonus(BlameEntry::Uncommitted, current_lines) > line_bonus(
            BlameEntry::CommittedAt(commit_id),
            current_lines,
        ) <==> current_lines <= UNCOMMITTED_WEIGHT * SCORE_SCALE,
{
    let lines = if current_lines < 1 {
        1
    } else {
        current_lines
    };
    let more = (UNCOMMITTED_WEIGHT * SCORE_SCALE) as int;
    let less = (COMMITTED_WEIGHT * SCORE_SCALE) as int;
    let rest = more - less;
    lemma_fundamental_div_mod(more, lines);
    lemma_fundamental_div_mod(less, lines);
    if lines <= rest {
        // The two wholes lie a full line count apart, so the quotients differ.
        lemma_div_is_ordered(less + lines, more, lines);
        assert((less + lines) / lines == less / lines + 1) by (nonlinear_arith)
            requires
                lines >= 1,
                less >= 0,
        ;
    } else if lines <= more {
        lemma_div_is_ordered(lines, more, lines);
        assert(lines / lines == 1) by (nonlinear_arith)
            requires
                lines >= 1,
        ;
        assert(less / lines == 0) by (nonlinear_arith)
            requires
                0 <= less < lines,
        ;
    } else {
        assert(more / lines == 0) by (nonlinear_arith)
            requires
                0 <= more < lines,
        ;
        assert(less / lines == 0) by (nonlinear_arith)
            requires
                0 <= less < lines,
        ;
    }
}

/// The two bonuses stand as 5 to 2: exactly where the line count divides the
/// scale, and within rounding everywhere.
pub proof fn lemma_bonus_ratio(commit_id: String, current_lines: int)
    ensures
        ({
            let high = line_bonus(BlameEntry::Uncommitted, current_lines);
            let low = line_bonus(BlameEntry::CommittedAt(commit_id), current_lines);
            &&& COMMITTED_WEIGHT * high - UNCOMMITTED_WEIGHT * low < UNCOMMITTED_WEIGHT
            &&& UNCOMMITTED_WEIGHT * low - COMMITTED_WEIGHT * high < UNCOMMITTED_WEIGHT
            &&& current_lines >= 1 && SCORE_SCALE as int % current_lines == 0
                ==> COMMITTED_WEIGHT * high == UNCOMMITTED_WEIGHT * low
        }),
{
    let lines = if current_lines < 1 {
        1
    } else {
        current_lines
    };
    let more = (UNCOMMITTED_WEIGHT * SCORE_SCALE) as int;
    let less = (COMMITTED_WEIGHT * SCORE_SCALE) as int;
    let high = more / lines;
    let low = less / lines;
    lemma_fundamental_div_mod(more, lines);
    lemma_fundamental_div_mod(less, lines);
    assert(0 <= more % lines < lines && 0 <= less % lines < lines) by (nonlinear_arith)
        requires
            lines >= 1,
    ;
    assert(2 * more == 5 * less);
    assert(2 * (lines * high) + 2 * (more % lines) == 5 * (lines * low) + 5 * (less % lines));
    assert(lines * (2 * high - 5 * low) == 5 * (less % lines) - 2 * (more % lines))
        by (nonlinear_arith)
        requires
            2 * (lines * high) + 2 * (more % lines) == 5 * (lines * low) + 5 * (less % lines),
    ;
    assert(2 * high - 5 * low < 5 && 5 * low - 2 * high < 5) by (nonlinear_arith)
        requires
            lines * (2 * high - 5 * low) == 5 * (less % lines) - 2 * (more % lines),
            0 <= more % lines < lines,
            0 <= less % lines < lines,
            lines >= 1,
    ;
    if current_lines >= 1 && SCORE_SCALE as int % current_lines == 0 {
        let unit = SCORE_SCALE as int / lines;
        lemma_fundamental_div_mod(SCORE_SCALE as int, lines);
        assert(more == (5 * unit) * lines && less == (2 * unit) * lines) by (nonlinear_arith)
            requires
                SCORE_SCALE as int == lines * unit,
                more == 5 * SCORE_SCALE as int,
                less == 2 * SCORE_SCALE as int,
        ;
        lemma_div_by_multiple(5 * unit, lines);
        lemma_div_by_multiple(2 * unit, lines);
    }
}

/// A line that is not committed outweighs a commit: a match on such a line
/// earns more than a match on a committed line of a file of the same length
/// and the share of one commit of that file taken together, however young
/// the commit is.
pub proof fn lemma_uncommitted_outweighs_a_commit(commit_id: String, lines: int, days: int)
    requires
        1 <= lines <= UNCOMMITTED_WEIGHT * SCORE_SCALE,
    ensures
        line_bonus(BlameEntry::Uncommitted, lines) > line_bonus(
            BlameEntry::CommittedAt(commit_id),
            lines,
        ) + contribution(lines, days),
{
    let whole = SCORE_SCALE as int;
    let d = if days < 1 {
        1
    } else {
        days
    };
    let unit = whole / lines;
    let high = (5 * whole) / lines;
    let low = (2 * whole) / lines;
    let share = whole / (lines * d);
    assert(lines <= lines * d) by (nonlinear_arith)
        requires
            lines >= 1,
            d >= 1,
    ;
    lemma_div_is_ordered_by_denominator(whole, lines, lines * d);
    lemma_fundamental_div_mod(whole, lines);
    lemma_fundamental_div_mod(2 * whole, lines);
    lemma_fundamental_div_mod(5 * whole, lines);
    assert(0 <= whole % lines < lines && 0 <= (2 * whole) % lines < lines && 0 <= (5 * whole)
        % lines < lines) by (nonlinear_arith)
        requires
            lines >= 1,
    ;
    // 5 * whole == lines * high + r5, 2 * whole == lines * low + r2, whole == lines * unit + r1.
    assert(high >= 5 * unit) by (nonlinear_arith)
        requires
            5 * whole == lines * high + (5 * whole) % lines,
            whole == lines * unit + whole % lines,
            0 <= whole % lines,
            (5 * whole) % lines < lines,
            lines >= 1,
    ;
    assert(low <= 2 * unit + 1) by (nonlinear_arith)
        requires
            2 * whole == lines * low + (2 * whole) % lines,
            whole == lines * unit + whole % lines,
            whole % lines < lines,
            0 <= (2 * whole) % lines,
            lines >= 1,
    ;
    assert(0 <= share <= unit);
    if unit >= 1 {
        assert(high > low + share);
    } else {
        assert(whole < lines) by (nonlinear_arith)
            requires
                whole == lines * unit + whole % lines,
                whole % lines < lines,
                unit < 1,
                lines >= 1,
        ;
        assert(share == 0) by (nonlinear_arith)
            requires
                share == whole / (lines * d),
                0 <= whole < lines,
                lines <= lines * d,
        ;
        assert(high >= 1) by (nonlinear_arith)
            requires
                5 * whole == lines * high + (5 * whole) % lines,
                (5 * whole) % lines < lines,
                lines <= 5 * whole,
                lines >= 1,
        ;
        if low >= 1 {
            assert(high >= 2) by (nonlinear_arith)
                requires
                    5 * whole == lines * high + (5 * whole) % lines,
                    2 * whole == lines * low + (2 * whole) % lines,
                    (5 * whole) % lines < lines,
                    0 <= (2 * whole) % lines,
                    low >= 1,
                    lines >= 1,
            ;
        }
    }
}

/// Tells whether `id` is the zero id.
pub fn is_zero(id: &str) -> (zero: bool)
    ensures
        zero == is_zero_id(id@),
{
    broadcast use is_ascii_spec_bytes;

    if id.unicode_len() == 0 {
        return false;
    }
    if !id.is_ascii() {
        proof {
            let i = choose|i: int| 0 <= i < id@.len() && !('\0' <= #[trigger] id@[i] <= '\u{7f}');
            assert(id@[i] != '0');
        }
        return false;
    }
    let bytes: &[u8] = id.as_bytes();
    let n: usize = bytes.len();
    let mut i: usize = 0;
    while i < n
        invariant
            n == bytes@.len(),
            n == id@.len(),
            i <= n,
            bytes@ == Seq::new(id@.len(), |k: int| id@[k] as u8),
            is_ascii(id),
            forall|k: int| 0 <= k < i ==> id@[k] == '0',
        decreases n - i,
    {
        if bytes[i] != ZERO_DIGIT {
            assert(id@[i as int] != '0');
            return false;
        }
        assert(id@[i as int] as u8 == 48u8);
        assert(id@[i as int] == '0');
        i = i + 1;
    }
    true
}

/// The provenance of each line, from the commit ids that the blame names.
pub open spec fn resolved(line_commits: Seq<String>) -> Seq<BlameEntry> {
    Seq::new(line_commits.len(), |i: int| entry_for(line_commits[i]))
}

/// `state` is what the blame `line_commits` and the working copy `content`
/// say of a file.
pub open spec fn describes(state: FileState, line_commits: Option<Vec<String>>, content: Blob) -> bool {
    &&& state.current_lines == blob_line_count(content)
    &&& match line_commits {
        Some(ids) => state.blame is Some && state.blame->0@ == resolved(ids@),
        None => state.blame is None,
    }
}

/// The provenance that the commit id stands for.
pub fn blame_entry(commit_id: String) -> (entry: BlameEntry)
    ensures
        entry == entry_for(commit_id),
{
    if is_zero(commit_id.as_str()) {
        BlameEntry::Uncommitted
    } else {
        BlameEntry::CommittedAt(commit_id)
    }
}

/// The provenance of each line of a file, from the commit id that the blame
/// names for each.
pub fn resolve_blame(line_commits: &Vec<String>) -> (entries: Vec<BlameEntry>)
    ensures
        entries@ == resolved(line_commits@),
{
    let n: usize = line_commits.len();
    let mut entries: Vec<BlameEntry> = Vec::new();
    let mut i: usize = 0;
    while i < n
        invariant
            n == line_commits@.len(),
            i <= n,
            entries@.len() == i,
            forall|k: int| 0 <= k < i ==> entries@[k] == entry_for(line_commits@[k]),
        decreases n - i,
    {
        entries.push(blame_entry(line_commits[i].clone()));
        i = i + 1;
    }
    assert(entries@ =~= resolved(line_commits@));
    entries
}

/// The bonus of a match on a line of provenance `entry`, in a file of
/// `current_lines` lines.
pub fn bonus_for(entry: &BlameEntry, current_lines: u64) -> (bonus: u128)
    ensures
        bonus == line_bonus(*entry, current_lines as int),
        bonus <= UNCOMMITTED_WEIGHT * SCORE_SCALE,
{
    let lines: u128 = if current_lines < 1 {
        1
    } else {
        current_lines as u128
    };
    let weight: u128 = match entry {
        BlameEntry::Uncommitted => UNCOMMITTED_WEIGHT,
        BlameEntry::CommittedAt(_) => COMMITTED_WEIGHT,
    };
    proof {
        lemma_line_bonus_bound(*entry, current_lines as int);
    }
    weight * SCORE_SCALE / lines
}

/// What is known of the files of the working tree that stands at a root, by
/// the key that each file has in the repository. What is recorded first for
/// a file is what stays.
pub struct WorkingTree {
    root: String,
    files: StringHashMap<FileState>,
}

impl View for WorkingTree {
    type V = Map<Seq<char>, FileState>;

    closed spec fn view(&self) -> Map<Seq<char>, FileState> {
        self.files@
    }
}

impl WorkingTree {
    /// The directory at which the tree stands.
    pub closed spec fn root_text(&self) -> Seq<char> {
        self.root@
    }

    /// The key under which the file `path` is kept.
    pub open spec fn key_of(&self, path: Seq<char>) -> Seq<char> {
        repo_key(self.root_text(), path)
    }

    /// The tree at `root`, of which nothing is known yet. `root` is named
    /// from the root of the file system; it is empty where it is not known.
    pub fn new(root: String) -> (tree: WorkingTree)
        ensures
            tree@ == Map::<Seq<char>, FileState>::empty(),
            tree.root_text() == root@,
    {
        WorkingTree { root, files: StringHashMap::new() }
    }

    /// The directory at which the tree stands.
    pub fn root(&self) -> (root: &str)
        ensures
            root@ == self.root_text(),
    {
        self.root.as_str()
    }

    /// Tells whether the file at `path` has been recorded.
    pub fn knows(&self, path: &str) -> (known: bool)
        ensures
            known == self@.contains_key(self.key_of(path@)),
    {
        self.files.contains_key(normalize_repo_path(self.root.as_str(), path))
    }

    /// Records what the blame and the working copy say of the file at
    /// `path`, unless the file has been recorded before. `line_commits` names
    /// the commit of each line, and is `None` where no blame can be had;
    /// `content` is the file as it stands now.
    pub fn record(&mut self, path: &str, line_commits: Option<Vec<String>>, content: &Blob)
        ensures
            final(self).root_text() == old(self).root_text(),
            old(self)@.contains_key(old(self).key_of(path@)) ==> final(self)@ == old(self)@,
            !old(self)@.contains_key(old(self).key_of(path@)) ==> {
                &&& final(self)@.dom() == old(self)@.dom().insert(old(self).key_of(path@))
                &&& describes(final(self)@[old(self).key_of(path@)], line_commits, *content)
                &&& forall|p: Seq<char>|
                    old(self)@.contains_key(p) ==> final(self)@[p] == old(self)@[p]
            },
    {
        let key: &str = normalize_repo_path(self.root.as_str(), path);
        if !self.files.contains_key(key) {
            let blame: Option<Vec<BlameEntry>> = match &line_commits {
                Some(ids) => Some(resolve_blame(ids)),
                None => None,
            };
            let state = FileState { blame, current_lines: count_blob_lines(content) };
            let owned: String = key.to_owned();
            self.files.insert(owned, state);
        }
    }

    /// The bonus of a match on line `line_number` of the file at `path`.
    pub fn bonus_at(&self, path: &str, line_number: u64) -> (bonus: u128)
        ensures
            bonus == match_bonus(self@.get(self.key_of(path@)), line_number as int),
            bonus <= UNCOMMITTED_WEIGHT * SCORE_SCALE,
    {
        match self.files.get(normalize_repo_path(self.root.as_str(), path)) {
            Some(state) => match &state.blame {
                Some(entries) => {
                    if 1 <= line_number && line_number - 1 < entries.len() as u64 {
                        bonus_for(&entries[(line_number - 1) as usize], state.current_lines)
                    } else {
                        0
                    }
                },
                None => 0,
            },
            None => 0,
        }
    }
}

} // verus!
