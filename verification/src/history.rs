//! The history score of a path: what the commits that hold it add up to.
//!
//! The walk from the head along first parents is handed over as a sequence of
//! commit records, newest first. A commit with more than one parent adds
//! nothing. Every other commit adds, for each path that its tree holds, the
//! share `1 / (lines * age in days)`, where `lines` is the line count of the
//! content that the tree holds at that path.

use vstd::prelude::*;
use vstd::arithmetic::div_mod::{
    lemma_div_by_multiple, lemma_div_is_ordered, lemma_div_is_ordered_by_denominator,
};
use vstd::hash_map::*;
use crate::keys::{
    all_distinct, distinct_in_order, lemma_all_distinct, lemma_distinct_in_order,
    lemma_text_set_push, push_if_new, text_set, texts,
};
use crate::lines::LineCounts;

verus! {

/// Scores are counted in units of `1 / SCORE_SCALE`.
pub const SCORE_SCALE: u128 = 1_000_000_000_000_000_000;

/// Length of a day in seconds.
pub const SECONDS_PER_DAY: u64 = 86_400;

/// What a commit's tree holds at one path.
#[derive(Debug, Clone)]
pub struct TreeEntry {
    /// The key of the path.
    pub path: String,
    /// The id of the content at that path.
    pub object_id: String,
}

/// One commit of the walk.
#[derive(Debug, Clone)]
pub struct CommitRecord {
    /// Commit time in seconds since the epoch.
    pub time_seconds: i64,
    /// Number of parents; more than one makes it a merge.
    pub parent_count: usize,
    /// What the commit's tree holds at the paths that were asked for, each
    /// path once. Where a path occurs again, its first entry counts.
    pub entries: Vec<TreeEntry>,
}

/// Age of a commit in whole days, at least 1.
pub open spec fn age_days(now: int, commit_time: int) -> int {
    let days = (now - commit_time) / (SECONDS_PER_DAY as int);
    if days < 1 {
        1
    } else {
        days
    }
}

/// A number that is divided by, taken as 1 where it is less.
pub open spec fn at_least_one(n: int) -> int {
    if n < 1 {
        1
    } else {
        n
    }
}

/// The share that one version of a file adds: `SCORE_SCALE / (lines * days)`,
/// rounded down, with `lines` and `days` taken as 1 where they are less.
pub open spec fn contribution(lines: int, days: int) -> nat {
    (SCORE_SCALE as int / (at_least_one(lines) * at_least_one(days))) as nat
}

/// The line count that stands for a content id: the one in the table, and 1
/// for an id without one, as for content of unknown size.
pub open spec fn known_lines(counts: Map<Seq<char>, u64>, object_id: Seq<char>) -> int {
    if counts.contains_key(object_id) {
        counts[object_id] as int
    } else {
        1
    }
}

/// Position of the first entry at or after `from` that is for `path`, or the
/// number of entries if there is none.
pub open spec fn entry_index(entries: Seq<TreeEntry>, path: Seq<char>, from: int) -> int
    decreases entries.len() - from,
{
    if from < 0 || from >= entries.len() {
        entries.len() as int
    } else if entries[from].path@ == path {
        from
    } else {
        entry_index(entries, path, from + 1)
    }
}

/// The id of the content that the tree holds at `path`, if it holds the path.
pub open spec fn object_at(entries: Seq<TreeEntry>, path: Seq<char>) -> Option<Seq<char>> {
    let at = entry_index(entries, path, 0);
    if at < entries.len() {
        Some(entries[at].object_id@)
    } else {
        None
    }
}

/// A commit counts unless it is a merge.
pub open spec fn counts_in_history(commit: CommitRecord) -> bool {
    commit.parent_count <= 1
}

/// What one commit adds to the score of `path`.
pub open spec fn commit_contribution(
    commit: CommitRecord,
    counts: Map<Seq<char>, u64>,
    path: Seq<char>,
    now: int,
) -> nat {
    if counts_in_history(commit) {
        match object_at(commit.entries@, path) {
            Some(object_id) => contribution(
                known_lines(counts, object_id),
                age_days(now, commit.time_seconds as int),
            ),
            None => 0,
        }
    } else {
        0
    }
}

/// The history score of `path`: the sum of what each commit adds.
pub open spec fn history_score(
    commits: Seq<CommitRecord>,
    counts: Map<Seq<char>, u64>,
    path: Seq<char>,
    now: int,
) -> nat
    decreases commits.len(),
{
    if commits.len() == 0 {
        0
    } else {
        history_score(commits.drop_last(), counts, path, now) + commit_contribution(
            commits.last(),
            counts,
            path,
            now,
        )
    }
}

/// The commits of the walk that count: the walk without its merges.
pub open spec fn mainline(commits: Seq<CommitRecord>) -> Seq<CommitRecord>
    decreases commits.len(),
{
    if commits.len() == 0 {
        Seq::<CommitRecord>::empty()
    } else if counts_in_history(commits.last()) {
        mainline(commits.drop_last()).push(commits.last())
    } else {
        mainline(commits.drop_last())
    }
}

/// The commits that are scored: all that count, or the first `max_commits`
/// of them. A merge takes nothing from that allowance.
pub open spec fn walked(commits: Seq<CommitRecord>, max_commits: Option<usize>) -> Seq<
    CommitRecord,
> {
    let line = mainline(commits);
    match max_commits {
        Some(limit) => if limit < line.len() {
            line.take(limit as int)
        } else {
            line
        },
        None => line,
    }
}

/// No share is more than one whole.
pub proof fn lemma_contribution_bound(lines: int, days: int)
    ensures
        contribution(lines, days) <= SCORE_SCALE,
{
    let l = if lines < 1 {
        1
    } else {
        lines
    };
    let d = if days < 1 {
        1
    } else {
        days
    };
    assert(l * d >= 1) by (nonlinear_arith)
        requires
            l >= 1,
            d >= 1,
    ;
    assert(SCORE_SCALE as int / (l * d) <= SCORE_SCALE as int) by (nonlinear_arith)
        requires
            l * d >= 1,
    ;
    assert(SCORE_SCALE as int / (l * d) >= 0) by (nonlinear_arith)
        requires
            l * d >= 1,
    ;
}

/// A history of `n` commits scores at most `n` wholes.
pub proof fn lemma_history_score_bound(
    commits: Seq<CommitRecord>,
    counts: Map<Seq<char>, u64>,
    path: Seq<char>,
    now: int,
)
    ensures
        history_score(commits, counts, path, now) <= commits.len() * SCORE_SCALE,
    decreases commits.len(),
{
    if commits.len() > 0 {
        lemma_history_score_bound(commits.drop_last(), counts, path, now);
        let last = commits.last();
        if counts_in_history(last) {
            match object_at(last.entries@, path) {
                Some(object_id) => {
                    lemma_contribution_bound(
                        known_lines(counts, object_id),
                        age_days(now, last.time_seconds as int),
                    );
                },
                None => {},
            }
        }
        assert((commits.len() - 1) * SCORE_SCALE + SCORE_SCALE == commits.len() * SCORE_SCALE)
            by (nonlinear_arith);
    }
}

impl CommitRecord {
    /// Tells whether the commit counts: it is no merge.
    pub fn counts(&self) -> (counts: bool)
        ensures
            counts == counts_in_history(*self),
    {
        self.parent_count <= 1
    }
}

/// Age in whole days of a commit made at `commit_time`, seen at `now`; a
/// commit of the last day, or of the future, is one day old.
pub fn commit_age_days(now: i64, commit_time: i64) -> (days: u64)
    ensures
        days == age_days(now as int, commit_time as int),
        days >= 1,
{
    if now <= commit_time {
        1
    } else {
        let elapsed: u128 = (now as i128 - commit_time as i128) as u128;
        let days: u128 = elapsed / (SECONDS_PER_DAY as u128);
        if days < 1 {
            1
        } else {
            days as u64
        }
    }
}

/// The share that a version of `lines` lines adds at an age of `days` days.
pub fn version_contribution(lines: u64, days: u64) -> (share: u128)
    ensures
        share == contribution(lines as int, days as int),
        share <= SCORE_SCALE,
{
    let lines: u128 = if lines < 1 {
        1
    } else {
        lines as u128
    };
    let days: u128 = if days < 1 {
        1
    } else {
        days as u128
    };
    proof {
        lemma_contribution_bound(lines as int, days as int);
        assert(lines * days <= 0xffff_ffff_ffff_ffff * 0xffff_ffff_ffff_ffff) by (nonlinear_arith)
            requires
                1 <= lines <= 0xffff_ffff_ffff_ffff,
                1 <= days <= 0xffff_ffff_ffff_ffff,
        ;
        assert(lines * days >= 1) by (nonlinear_arith)
            requires
                1 <= lines,
                1 <= days,
        ;
    }
    SCORE_SCALE / (lines * days)
}

/// The content id that a tree holds at `path`, if it holds the path.
pub fn find_object<'a>(entries: &'a Vec<TreeEntry>, path: &String) -> (found: Option<&'a String>)
    ensures
        match found {
            Some(object_id) => object_at(entries@, path@) == Some(object_id@),
            None => object_at(entries@, path@) is None,
        },
{
    let n: usize = entries.len();
    let mut i: usize = 0;
    while i < n
        invariant
            n == entries@.len(),
            i <= n,
            entry_index(entries@, path@, 0) == entry_index(entries@, path@, i as int),
        decreases n - i,
    {
        if entries[i].path == *path {
            return Some(&entries[i].object_id);
        }
        i = i + 1;
    }
    None
}

/// No more commits are scored than the walk has.
pub proof fn lemma_walked_len(commits: Seq<CommitRecord>, max_commits: Option<usize>)
    ensures
        mainline(commits).len() <= commits.len(),
        walked(commits, max_commits).len() <= commits.len(),
    decreases commits.len(),
{
    if commits.len() > 0 {
        lemma_walked_len(commits.drop_last(), max_commits);
    }
}

/// The walk up to a commit is scored before the whole walk is: its mainline
/// is the beginning of the mainline of the whole.
pub proof fn lemma_mainline_prefix(commits: Seq<CommitRecord>, upto: int)
    requires
        0 <= upto <= commits.len(),
    ensures
        mainline(commits.take(upto)).len() <= mainline(commits).len(),
        mainline(commits).take(mainline(commits.take(upto)).len() as int) == mainline(
            commits.take(upto),
        ),
    decreases commits.len() - upto,
{
    if upto == commits.len() {
        assert(commits.take(upto) =~= commits);
        assert(mainline(commits).take(mainline(commits).len() as int) =~= mainline(commits));
    } else {
        lemma_mainline_prefix(commits, upto + 1);
        assert(commits.take(upto + 1).drop_last() =~= commits.take(upto));
        let longer = mainline(commits.take(upto + 1));
        let shorter = mainline(commits.take(upto));
        assert(mainline(commits).take(shorter.len() as int) =~= shorter) by {
            assert(mainline(commits).take(longer.len() as int) == longer);
            assert forall|k: int| 0 <= k < shorter.len() implies mainline(commits)[k]
                == shorter[k] by {
                assert(mainline(commits).take(longer.len() as int)[k] == longer[k]);
            }
        }
    }
}

/// Where the walk stops: the number of its records that are read until
/// `max_commits` of them have counted, or all of them.
pub fn walk_end(commits: &Vec<CommitRecord>, max_commits: Option<usize>) -> (end: usize)
    ensures
        end <= commits@.len(),
        walked(commits@, max_commits) == mainline(commits@.take(end as int)),
        match max_commits {
            Some(limit) => if mainline(commits@).len() < limit {
                end == commits@.len()
            } else {
                // The walk stops right behind the commit that uses up the
                // allowance.
                &&& mainline(commits@.take(end as int)).len() == limit
                &&& end == 0 || counts_in_history(commits@[end - 1])
            },
            None => end == commits@.len(),
        },
{
    let n: usize = commits.len();
    let limit: usize = match max_commits {
        Some(limit) => limit,
        None => {
            proof {
                assert(commits@.take(n as int) =~= commits@);
            }
            return n;
        },
    };
    let mut end: usize = 0;
    let mut taken: usize = 0;
    while end < n && taken < limit
        invariant
            n == commits@.len(),
            end <= n,
            taken <= limit,
            taken <= end,
            taken == mainline(commits@.take(end as int)).len(),
            taken == limit && end > 0 ==> counts_in_history(commits@[end - 1]),
        decreases n - end,
    {
        proof {
            assert(commits@.take(end + 1).drop_last() =~= commits@.take(end as int));
        }
        if commits[end].counts() {
            taken = taken + 1;
        }
        end = end + 1;
    }
    proof {
        lemma_mainline_prefix(commits@, end as int);
        if end == n {
            assert(commits@.take(n as int) =~= commits@);
        }
        let line = mainline(commits@);
        if limit >= line.len() {
            assert(line.take(taken as int) =~= line);
        }
    }
    end
}

/// Behind the commit that uses up the allowance, nothing of the walk is
/// scored: what follows changes no score.
pub proof fn lemma_walk_is_complete(
    commits: Seq<CommitRecord>,
    more: Seq<CommitRecord>,
    limit: usize,
)
    requires
        mainline(commits).len() >= limit,
    ensures
        walked(commits + more, Some(limit)) == walked(commits, Some(limit)),
{
    lemma_mainline_concat(commits, more);
    assert((mainline(commits) + mainline(more)).take(limit as int) =~= mainline(commits).take(
        limit as int,
    ));
    if mainline(commits).len() == limit {
        assert(mainline(commits).take(limit as int) =~= mainline(commits));
    }
}

/// The commits of a walk as they are read, newest first, with the count of
/// those that are scored.
pub struct Walk {
    commits: Vec<CommitRecord>,
    counted: usize,
    max_commits: Option<usize>,
}

impl View for Walk {
    type V = Seq<CommitRecord>;

    closed spec fn view(&self) -> Seq<CommitRecord> {
        self.commits@
    }
}

impl Walk {
    /// As many commits are counted as the walk has on its mainline.
    #[verifier::type_invariant]
    spec fn count_is_true(self) -> bool {
        self.counted == mainline(self.commits@).len()
    }

    /// The number of commits that are scored at most; `None` for all.
    pub closed spec fn limit(&self) -> Option<usize> {
        self.max_commits
    }

    /// The walk of which `max_commits` commits are scored at most, before
    /// its first commit is read.
    pub fn new(max_commits: Option<usize>) -> (walk: Walk)
        ensures
            walk@ == Seq::<CommitRecord>::empty(),
            walk.limit() == max_commits,
    {
        Walk { commits: Vec::new(), counted: 0, max_commits }
    }

    /// Tells whether the allowance is used up: no commit that is read from
    /// here on is scored.
    pub fn is_complete(&self) -> (complete: bool)
        ensures
            complete == match self.limit() {
                Some(limit) => mainline(self@).len() >= limit,
                None => false,
            },
    {
        proof {
            use_type_invariant(self);
        }
        match self.max_commits {
            Some(limit) => self.counted >= limit,
            None => false,
        }
    }

    /// The walk with `commit` read behind the others.
    pub fn with(self, commit: CommitRecord) -> (walk: Walk)
        ensures
            walk@ == self@.push(commit),
            walk.limit() == self.limit(),
    {
        proof {
            use_type_invariant(&self);
        }
        let counts: bool = commit.counts();
        let Walk { commits, counted, max_commits } = self;
        let mut commits: Vec<CommitRecord> = commits;
        let ghost before = commits@;
        commits.push(commit);
        let read: usize = commits.len();
        proof {
            assert(counted == mainline(before).len());
            assert(commits@.drop_last() =~= before);
            assert(commits@.last() == commit);
            lemma_walked_len(commits@, max_commits);
            assert(mainline(commits@).len() <= read);
        }
        let counted: usize = if counts {
            counted + 1
        } else {
            counted
        };
        Walk { commits, counted, max_commits }
    }

    /// The commits that were read.
    pub fn into_commits(self) -> (commits: Vec<CommitRecord>)
        ensures
            commits@ == self@,
    {
        self.commits
    }
}

/// The content ids of the entries of a tree, in their order.
pub open spec fn entry_ids(entries: Seq<TreeEntry>) -> Seq<Seq<char>> {
    Seq::new(entries.len(), |j: int| entries[j].object_id@)
}

/// The content ids that the trees of the commits name, in the order of the
/// walk; the tree of a merge is passed over.
pub open spec fn object_ids(commits: Seq<CommitRecord>) -> Seq<Seq<char>>
    decreases commits.len(),
{
    if commits.len() == 0 {
        Seq::<Seq<char>>::empty()
    } else if counts_in_history(commits.last()) {
        object_ids(commits.drop_last()) + entry_ids(commits.last().entries@)
    } else {
        object_ids(commits.drop_last())
    }
}

/// The merges of a walk name no content.
pub proof fn lemma_object_ids_of_mainline(commits: Seq<CommitRecord>)
    ensures
        object_ids(mainline(commits)) == object_ids(commits),
    decreases commits.len(),
{
    if commits.len() > 0 {
        lemma_object_ids_of_mainline(commits.drop_last());
        if counts_in_history(commits.last()) {
            assert(mainline(commits).drop_last() =~= mainline(commits.drop_last()));
        }
    }
}

/// The content ids whose line counts the walk asks for: each id that the
/// tree of a scored commit names, once, in the order in which the walk meets
/// them. A merge asks for none, and neither does a commit behind the end of
/// the walk.
pub fn objects_to_count(commits: &Vec<CommitRecord>, max_commits: Option<usize>) -> (ids: Vec<
    String,
>)
    ensures
        texts(ids@) == distinct_in_order(object_ids(walked(commits@, max_commits))),
        all_distinct(ids@),
{
    let end: usize = walk_end(commits, max_commits);
    let mut ids: Vec<String> = Vec::new();
    let mut seen: StringHashMap<bool> = StringHashMap::new();
    let mut i: usize = 0;
    proof {
        assert(seen@.dom() =~= text_set(ids@));
        assert(texts(ids@) =~= distinct_in_order(object_ids(commits@.take(0))));
    }
    while i < end
        invariant
            end <= commits@.len(),
            i <= end,
            seen@.dom() == text_set(ids@),
            texts(ids@) == distinct_in_order(object_ids(commits@.take(i as int))),
        decreases end - i,
    {
        let commit: &CommitRecord = &commits[i];
        proof {
            assert(commits@.take(i + 1).drop_last() =~= commits@.take(i as int));
            assert(commits@.take(i + 1).last() == *commit);
        }
        if commit.counts() {
            let n: usize = commit.entries.len();
            let ghost earlier = object_ids(commits@.take(i as int));
            let ghost named = entry_ids(commit.entries@);
            let mut j: usize = 0;
            proof {
                assert(earlier + named.take(0) =~= earlier);
            }
            while j < n
                invariant
                    n == commit.entries@.len(),
                    j <= n,
                    named == entry_ids(commit.entries@),
                    seen@.dom() == text_set(ids@),
                    texts(ids@) == distinct_in_order(earlier + named.take(j as int)),
                decreases n - j,
            {
                proof {
                    let longer = earlier + named.take(j + 1);
                    assert(longer.drop_last() =~= earlier + named.take(j as int));
                    assert(longer.last() == commit.entries@[j as int].object_id@);
                }
                push_if_new(&mut ids, &mut seen, commit.entries[j].object_id.as_str());
                j = j + 1;
            }
            proof {
                assert(named.take(n as int) =~= named);
            }
        }
        i = i + 1;
    }
    proof {
        lemma_object_ids_of_mainline(commits@.take(end as int));
        lemma_distinct_in_order(object_ids(walked(commits@, max_commits)));
        lemma_all_distinct(ids@);
    }
    ids
}

/// The history scores of the paths of one run.
pub struct HistoryScores {
    scores: StringHashMap<u128>,
}

impl View for HistoryScores {
    type V = Map<Seq<char>, u128>;

    closed spec fn view(&self) -> Map<Seq<char>, u128> {
        self.scores@
    }
}

impl HistoryScores {
    /// The score of `path`; a path that no commit of the walk held scores 0,
    /// and so does one that was not asked for.
    pub fn score_of(&self, path: &str) -> (score: u128)
        ensures
            score == if self@.contains_key(path@) {
                self@[path@]
            } else {
                0
            },
    {
        match self.scores.get(path) {
            Some(score) => *score,
            None => 0,
        }
    }
}

/// The score of a walk is that of its mainline.
pub proof fn lemma_history_score_of_mainline(
    commits: Seq<CommitRecord>,
    counts: Map<Seq<char>, u64>,
    path: Seq<char>,
    now: int,
)
    ensures
        history_score(mainline(commits), counts, path, now) == history_score(
            commits,
            counts,
            path,
            now,
        ),
    decreases commits.len(),
{
    if commits.len() > 0 {
        lemma_history_score_of_mainline(commits.drop_last(), counts, path, now);
        if counts_in_history(commits.last()) {
            assert(mainline(commits).drop_last() =~= mainline(commits.drop_last()));
        }
    }
}

/// Walks the commits once and sums, for each of `paths`, what each commit
/// adds to it. The walk ends when `max_commits` commits have counted.
pub fn aggregate(
    paths: &Vec<String>,
    commits: &Vec<CommitRecord>,
    counts: &LineCounts,
    now: i64,
    max_commits: Option<usize>,
) -> (scores: HistoryScores)
    ensures
        scores@.dom() == text_set(paths@),
        forall|p: Seq<char>| #[trigger]
            scores@.contains_key(p) ==> scores@[p] == history_score(
                walked(commits@, max_commits),
                counts@,
                p,
                now as int,
            ),
{
    let m: usize = paths.len();
    let end: usize = walk_end(commits, max_commits);
    let mut totals: Vec<u128> = Vec::new();
    let mut k: usize = 0;
    while k < m
        invariant
            k <= m,
            totals@.len() == k,
            forall|j: int| 0 <= j < k ==> totals@[j] == 0,
        decreases m - k,
    {
        totals.push(0);
        k = k + 1;
    }
    let mut i: usize = 0;
    while i < end
        invariant
            m == paths@.len(),
            end <= commits@.len(),
            i <= end,
            totals@.len() == m,
            forall|j: int|
                0 <= j < m ==> totals@[j] == history_score(
                    commits@.take(i as int),
                    counts@,
                    #[trigger] paths@[j]@,
                    now as int,
                ),
        decreases end - i,
    {
        let commit: &CommitRecord = &commits[i];
        proof {
            assert(commits@.take(i + 1).drop_last() =~= commits@.take(i as int));
            assert(commits@.take(i + 1).last() == commits@[i as int]);
        }
        if commit.counts() {
            let days: u64 = commit_age_days(now, commit.time_seconds);
            let mut k: usize = 0;
            while k < m
                invariant
                    m == paths@.len(),
                    i < end <= commits@.len(),
                    k <= m,
                    totals@.len() == m,
                    *commit == commits@[i as int],
                    counts_in_history(*commit),
                    days == age_days(now as int, commit.time_seconds as int),
                    commits@.take(i + 1).drop_last() == commits@.take(i as int),
                    commits@.take(i + 1).last() == commits@[i as int],
                    forall|j: int|
                        0 <= j < k ==> totals@[j] == history_score(
                            commits@.take(i + 1),
                            counts@,
                            #[trigger] paths@[j]@,
                            now as int,
                        ),
                    forall|j: int|
                        k <= j < m ==> totals@[j] == history_score(
                            commits@.take(i as int),
                            counts@,
                            #[trigger] paths@[j]@,
                            now as int,
                        ),
                decreases m - k,
            {
                match find_object(&commit.entries, &paths[k]) {
                    Some(object_id) => {
                        let lines: u64 = match counts.get(object_id.as_str()) {
                            Some(lines) => lines,
                            None => 1,
                        };
                        let share: u128 = version_contribution(lines, days);
                        proof {
                            lemma_history_score_bound(
                                commits@.take(i as int),
                                counts@,
                                paths@[k as int]@,
                                now as int,
                            );
                        }
                        let total: u128 = totals[k] + share;
                        totals.set(k, total);
                    },
                    None => {},
                }
                k = k + 1;
            }
        }
        i = i + 1;
    }
    let mut scores: StringHashMap<u128> = StringHashMap::new();
    let mut k: usize = 0;
    assert(scores@.dom() =~= text_set(paths@.take(0)));
    while k < m
        invariant
            m == paths@.len(),
            k <= m,
            totals@.len() == m,
            forall|j: int|
                0 <= j < m ==> totals@[j] == history_score(
                    commits@.take(end as int),
                    counts@,
                    #[trigger] paths@[j]@,
                    now as int,
                ),
            scores@.dom() == text_set(paths@.take(k as int)),
            forall|p: Seq<char>| #[trigger]
                scores@.contains_key(p) ==> scores@[p] == history_score(
                    commits@.take(end as int),
                    counts@,
                    p,
                    now as int,
                ),
        decreases m - k,
    {
        proof {
            assert(paths@.take(k + 1) =~= paths@.take(k as int).push(paths@[k as int]));
            lemma_text_set_push(paths@.take(k as int), paths@[k as int]);
        }
        scores.insert(paths[k].clone(), totals[k]);
        k = k + 1;
    }
    proof {
        assert(paths@.take(m as int) =~= paths@);
        assert forall|p: Seq<char>| #[trigger] scores@.contains_key(p) implies scores@[p]
            == history_score(walked(commits@, max_commits), counts@, p, now as int) by {
            lemma_history_score_of_mainline(commits@.take(end as int), counts@, p, now as int);
        }
    }
    HistoryScores { scores }
}

/// Each commit of the mainline is a commit of the walk.
pub proof fn lemma_mainline_members(commits: Seq<CommitRecord>, at: int)
    requires
        0 <= at < mainline(commits).len(),
    ensures
        exists|i: int| 0 <= i < commits.len() && #[trigger] commits[i] == mainline(commits)[at],
    decreases commits.len(),
{
    if commits.len() > 0 {
        let rest = commits.drop_last();
        if counts_in_history(commits.last()) && at == mainline(rest).len() {
            assert(commits[commits.len() - 1] == mainline(commits)[at]);
        } else {
            lemma_mainline_members(rest, at);
            let i = choose|i: int| 0 <= i < rest.len() && #[trigger] rest[i] == mainline(rest)[at];
            assert(commits[i] == mainline(commits)[at]);
        }
    }
}

/// A path that no commit of a history holds has the score 0.
pub proof fn lemma_absent_path_in_history(
    commits: Seq<CommitRecord>,
    counts: Map<Seq<char>, u64>,
    path: Seq<char>,
    now: int,
)
    requires
        forall|i: int|
            0 <= i < commits.len() ==> object_at((#[trigger] commits[i]).entries@, path) is None,
    ensures
        history_score(commits, counts, path, now) == 0,
    decreases commits.len(),
{
    if commits.len() > 0 {
        assert(object_at(commits[commits.len() - 1].entries@, path) is None);
        assert forall|i: int| 0 <= i < commits.drop_last().len() implies object_at(
            (#[trigger] commits.drop_last()[i]).entries@,
            path,
        ) is None by {
            assert(commits.drop_last()[i] == commits[i]);
        }
        lemma_absent_path_in_history(commits.drop_last(), counts, path, now);
    }
}

/// A path that no commit of the walk holds ends with the score 0.
pub proof fn lemma_absent_path_scores_nothing(
    commits: Seq<CommitRecord>,
    max_commits: Option<usize>,
    counts: Map<Seq<char>, u64>,
    path: Seq<char>,
    now: int,
)
    requires
        forall|i: int|
            0 <= i < commits.len() ==> object_at((#[trigger] commits[i]).entries@, path) is None,
    ensures
        history_score(walked(commits, max_commits), counts, path, now) == 0,
{
    let walk = walked(commits, max_commits);
    assert forall|k: int| 0 <= k < walk.len() implies object_at(
        (#[trigger] walk[k]).entries@,
        path,
    ) is None by {
        assert(walk[k] == mainline(commits)[k]);
        lemma_mainline_members(commits, k);
        let i = choose|i: int|
            0 <= i < commits.len() && #[trigger] commits[i] == mainline(commits)[k];
        assert(object_at(commits[i].entries@, path) is None);
    }
    lemma_absent_path_in_history(walk, counts, path, now);
}

/// The mainline of two walks in a row is the mainline of the first and then
/// that of the second.
pub proof fn lemma_mainline_concat(a: Seq<CommitRecord>, b: Seq<CommitRecord>)
    ensures
        mainline(a + b) == mainline(a) + mainline(b),
    decreases b.len(),
{
    if b.len() == 0 {
        assert(a + b =~= a);
        assert(mainline(a) + mainline(b) =~= mainline(a));
    } else {
        lemma_mainline_concat(a, b.drop_last());
        assert((a + b).drop_last() =~= a + b.drop_last());
        assert((a + b).last() == b.last());
        if counts_in_history(b.last()) {
            assert(mainline(a) + mainline(b.drop_last()).push(b.last()) =~= (mainline(a)
                + mainline(b.drop_last())).push(b.last()));
        }
    }
}

/// The score of two histories in a row is the sum of their scores.
pub proof fn lemma_history_score_concat(
    a: Seq<CommitRecord>,
    b: Seq<CommitRecord>,
    counts: Map<Seq<char>, u64>,
    path: Seq<char>,
    now: int,
)
    ensures
        history_score(a + b, counts, path, now) == history_score(a, counts, path, now)
            + history_score(b, counts, path, now),
    decreases b.len(),
{
    if b.len() == 0 {
        assert(a + b =~= a);
    } else {
        lemma_history_score_concat(a, b.drop_last(), counts, path, now);
        assert((a + b).drop_last() =~= a + b.drop_last());
        assert((a + b).last() == b.last());
    }
}

/// A history of one commit scores what that commit adds.
pub proof fn lemma_history_score_single(
    commit: CommitRecord,
    counts: Map<Seq<char>, u64>,
    path: Seq<char>,
    now: int,
)
    ensures
        history_score(seq![commit], counts, path, now) == commit_contribution(
            commit,
            counts,
            path,
            now,
        ),
{
    assert(seq![commit].drop_last() =~= Seq::<CommitRecord>::empty());
    assert(seq![commit].last() == commit);
    assert(history_score(Seq::<CommitRecord>::empty(), counts, path, now) == 0);
}

/// Frequency: a history scores what it scores without one of its commits,
/// plus what that commit adds. So the score with the commit is never lower,
/// and it is higher wherever the commit adds a share that is not rounded
/// down to nothing.
pub proof fn lemma_commit_adds_its_share(
    commits: Seq<CommitRecord>,
    at: int,
    counts: Map<Seq<char>, u64>,
    path: Seq<char>,
    now: int,
)
    requires
        0 <= at < commits.len(),
    ensures
        history_score(commits, counts, path, now) == history_score(
            commits.remove(at),
            counts,
            path,
            now,
        ) + commit_contribution(commits[at], counts, path, now),
        history_score(commits, counts, path, now) >= history_score(
            commits.remove(at),
            counts,
            path,
            now,
        ),
        commit_contribution(commits[at], counts, path, now) > 0 ==> history_score(
            commits,
            counts,
            path,
            now,
        ) > history_score(commits.remove(at), counts, path, now),
{
    let before = commits.take(at);
    let after = commits.skip(at + 1);
    assert(commits =~= before + seq![commits[at]] + after);
    assert(commits.remove(at) =~= before + after);
    lemma_history_score_concat(before, seq![commits[at]], counts, path, now);
    lemma_history_score_concat(before + seq![commits[at]], after, counts, path, now);
    lemma_history_score_concat(before, after, counts, path, now);
    lemma_history_score_single(commits[at], counts, path, now);
}

/// Merge exclusion: a merge put anywhere into the walk changes neither the
/// commits that are scored nor, then, any score.
pub proof fn lemma_merge_adds_nothing(
    commits: Seq<CommitRecord>,
    at: int,
    merge: CommitRecord,
    max_commits: Option<usize>,
)
    requires
        0 <= at <= commits.len(),
        merge.parent_count > 1,
    ensures
        walked(commits.insert(at, merge), max_commits) == walked(commits, max_commits),
{
    let before = commits.take(at);
    let after = commits.skip(at);
    assert(commits =~= before + after);
    assert(commits.insert(at, merge) =~= before + seq![merge] + after);
    lemma_mainline_concat(before, seq![merge]);
    lemma_mainline_concat(before + seq![merge], after);
    lemma_mainline_concat(before, after);
    assert(seq![merge].last() == merge);
    assert(seq![merge].drop_last() =~= Seq::<CommitRecord>::empty());
    assert(mainline(Seq::<CommitRecord>::empty()) =~= Seq::<CommitRecord>::empty());
    assert(mainline(seq![merge]) =~= Seq::<CommitRecord>::empty());
    assert(mainline(before) + Seq::<CommitRecord>::empty() =~= mainline(before));
}

/// Recency: a version adds no less when it is younger.
pub proof fn lemma_contribution_grows_with_recency(lines: int, days: int, more_days: int)
    requires
        days <= more_days,
    ensures
        contribution(lines, days) >= contribution(lines, more_days),
{
    let l = if lines < 1 {
        1
    } else {
        lines
    };
    let d1 = if days < 1 {
        1
    } else {
        days
    };
    let d2 = if more_days < 1 {
        1
    } else {
        more_days
    };
    assert(1 <= l * d1 <= l * d2) by (nonlinear_arith)
        requires
            l >= 1,
            1 <= d1 <= d2,
    ;
    lemma_div_is_ordered_by_denominator(SCORE_SCALE as int, l * d1, l * d2);
}

/// Recency: a version adds more when it is younger by a day or more, as long
/// as the two shares are not so small that rounding makes them one.
pub proof fn lemma_contribution_strict_in_recency(lines: int, days: int, more_days: int)
    requires
        1 <= lines,
        1 <= days < more_days,
        lines * days * more_days <= SCORE_SCALE,
    ensures
        contribution(lines, days) > contribution(lines, more_days),
{
    let whole = SCORE_SCALE as int;
    let near = lines * days;
    let far = lines * more_days;
    assert(1 <= near && near + lines <= far) by (nonlinear_arith)
        requires
            1 <= lines,
            1 <= days < more_days,
            near == lines * days,
            far == lines * more_days,
    ;
    let low = whole / far;
    assert(days * far == lines * days * more_days) by (nonlinear_arith)
        requires
            far == lines * more_days,
    ;
    lemma_div_is_ordered(days * far, whole, far);
    lemma_div_by_multiple(days, far);
    assert(days <= low);
    assert(low * far <= whole) by (nonlinear_arith)
        requires
            low == whole / far,
            far > 0,
            whole >= 0,
    ;
    assert(low * (near + lines) <= low * far) by (nonlinear_arith)
        requires
            0 <= low,
            near + lines <= far,
    ;
    assert(days * lines <= low * lines) by (nonlinear_arith)
        requires
            days <= low,
            1 <= lines,
    ;
    assert((low + 1) * near == low * (near + lines) - low * lines + days * lines)
        by (nonlinear_arith)
        requires
            near == lines * days,
    ;
    assert((low + 1) * near <= whole);
    lemma_div_is_ordered((low + 1) * near, whole, near);
    lemma_div_by_multiple(low + 1, near);
}

/// Recency: of two histories of one commit that differ in nothing but the
/// time of the commit, the one with the later commit scores no lower.
pub proof fn lemma_recent_commit_scores_no_lower(
    recent: CommitRecord,
    earlier: CommitRecord,
    counts: Map<Seq<char>, u64>,
    path: Seq<char>,
    now: int,
)
    requires
        recent.parent_count == earlier.parent_count,
        recent.entries == earlier.entries,
        recent.time_seconds >= earlier.time_seconds,
    ensures
        history_score(seq![recent], counts, path, now) >= history_score(
            seq![earlier],
            counts,
            path,
            now,
        ),
{
    lemma_history_score_single(recent, counts, path, now);
    lemma_history_score_single(earlier, counts, path, now);
    let near = age_days(now, recent.time_seconds as int);
    let far = age_days(now, earlier.time_seconds as int);
    lemma_div_is_ordered(
        now - recent.time_seconds,
        now - earlier.time_seconds,
        SECONDS_PER_DAY as int,
    );
    if counts_in_history(recent) {
        match object_at(recent.entries@, path) {
            Some(object_id) => {
                lemma_contribution_grows_with_recency(known_lines(counts, object_id), near, far);
            },
            None => {},
        }
    }
}

/// Recency: of two histories of one commit that differ in nothing but the
/// time of the commit, the one with the commit that is younger in days
/// scores higher. The commit is no merge and holds the path, and the shares
/// are not so small that rounding makes them one.
pub proof fn lemma_recent_commit_scores_higher(
    recent: CommitRecord,
    earlier: CommitRecord,
    counts: Map<Seq<char>, u64>,
    path: Seq<char>,
    now: int,
)
    requires
        recent.parent_count == earlier.parent_count,
        recent.entries == earlier.entries,
        counts_in_history(recent),
        object_at(recent.entries@, path) is Some,
        age_days(now, recent.time_seconds as int) < age_days(now, earlier.time_seconds as int),
        at_least_one(known_lines(counts, object_at(recent.entries@, path)->0)) * age_days(
            now,
            recent.time_seconds as int,
        ) * age_days(now, earlier.time_seconds as int) <= SCORE_SCALE,
    ensures
        history_score(seq![recent], counts, path, now) > history_score(
            seq![earlier],
            counts,
            path,
            now,
        ),
{
    lemma_history_score_single(recent, counts, path, now);
    lemma_history_score_single(earlier, counts, path, now);
    lemma_contribution_strict_in_recency(
        at_least_one(known_lines(counts, object_at(recent.entries@, path)->0)),
        age_days(now, recent.time_seconds as int),
        age_days(now, earlier.time_seconds as int),
    );
}

/// A longer version adds no more than a shorter one of the same age.
pub proof fn lemma_contribution_shrinks_with_length(lines: int, more_lines: int, days: int)
    requires
        lines <= more_lines,
    ensures
        contribution(lines, days) >= contribution(more_lines, days),
{
    let l1 = at_least_one(lines);
    let l2 = at_least_one(more_lines);
    let d = at_least_one(days);
    assert(1 <= l1 * d <= l2 * d) by (nonlinear_arith)
        requires
            1 <= l1 <= l2,
            d >= 1,
    ;
    lemma_div_is_ordered_by_denominator(SCORE_SCALE as int, l1 * d, l2 * d);
}

/// A commit that is younger by a day or more, and is not of the last day
/// when it is older, is younger in whole days.
pub proof fn lemma_a_day_apart(now: int, earlier: int, later: int)
    requires
        later - earlier >= SECONDS_PER_DAY,
        later <= now,
        now - earlier >= 2 * SECONDS_PER_DAY,
    ensures
        age_days(now, later) < age_days(now, earlier),
{
}

/// The commits that are scored add no more than all commits of the walk.
pub proof fn lemma_walked_scores_no_more(
    commits: Seq<CommitRecord>,
    max_commits: Option<usize>,
    counts: Map<Seq<char>, u64>,
    path: Seq<char>,
    now: int,
)
    ensures
        history_score(walked(commits, max_commits), counts, path, now) <= history_score(
            commits,
            counts,
            path,
            now,
        ),
{
    let line = mainline(commits);
    let walk = walked(commits, max_commits);
    lemma_history_score_of_mainline(commits, counts, path, now);
    if walk != line {
        let limit = max_commits->0 as int;
        assert(line =~= line.take(limit) + line.skip(limit));
        lemma_history_score_concat(line.take(limit), line.skip(limit), counts, path, now);
    }
}

/// Where the walk is not cut short, the commits that are scored add what all
/// commits of the walk add.
pub proof fn lemma_whole_walk_is_scored(
    commits: Seq<CommitRecord>,
    max_commits: Option<usize>,
    counts: Map<Seq<char>, u64>,
    path: Seq<char>,
    now: int,
)
    requires
        max_commits matches Some(limit) ==> mainline(commits).len() <= limit,
    ensures
        walked(commits, max_commits) == mainline(commits),
        history_score(walked(commits, max_commits), counts, path, now) == history_score(
            commits,
            counts,
            path,
            now,
        ),
{
    lemma_history_score_of_mainline(commits, counts, path, now);
}

/// The number of scored commits whose tree holds the path.
pub open spec fn held_count(commits: Seq<CommitRecord>, path: Seq<char>) -> nat
    decreases commits.len(),
{
    if commits.len() == 0 {
        0
    } else {
        held_count(commits.drop_last(), path) + if counts_in_history(commits.last()) && object_at(
            commits.last().entries@,
            path,
        ) is Some {
            1nat
        } else {
            0nat
        }
    }
}

/// Where each commit that holds the path adds the same share, the history
/// score is that share times the number of those commits.
pub proof fn lemma_history_of_equal_shares(
    commits: Seq<CommitRecord>,
    counts: Map<Seq<char>, u64>,
    path: Seq<char>,
    now: int,
    share: nat,
)
    requires
        forall|i: int|
            0 <= i < commits.len() && counts_in_history(#[trigger] commits[i]) && object_at(
                commits[i].entries@,
                path,
            ) is Some ==> commit_contribution(commits[i], counts, path, now) == share,
    ensures
        history_score(commits, counts, path, now) == held_count(commits, path) * share,
    decreases commits.len(),
{
    if commits.len() > 0 {
        let rest = commits.drop_last();
        assert forall|i: int|
            0 <= i < rest.len() && counts_in_history(#[trigger] rest[i]) && object_at(
                rest[i].entries@,
                path,
            ) is Some implies commit_contribution(rest[i], counts, path, now) == share by {
            assert(rest[i] == commits[i]);
        }
        lemma_history_of_equal_shares(rest, counts, path, now, share);
        let last = commits[commits.len() - 1];
        assert(last == commits.last());
        let held = held_count(rest, path);
        if counts_in_history(last) && object_at(last.entries@, path) is Some {
            assert(commit_contribution(last, counts, path, now) == share);
            assert((held + 1) * share == held * share + share) by (nonlinear_arith);
        } else {
            assert(commit_contribution(last, counts, path, now) == 0);
        }
    } else {
        assert(0 * share == 0) by (nonlinear_arith);
    }
}

/// Frequency: of two paths whose commits all add the same share, the one
/// that more scored commits hold has the higher history score.
pub proof fn lemma_more_commits_score_higher(
    commits: Seq<CommitRecord>,
    counts: Map<Seq<char>, u64>,
    often: Seq<char>,
    seldom: Seq<char>,
    now: int,
    share: nat,
)
    requires
        share > 0,
        held_count(commits, often) > held_count(commits, seldom),
        forall|i: int|
            0 <= i < commits.len() && counts_in_history(#[trigger] commits[i]) && object_at(
                commits[i].entries@,
                often,
            ) is Some ==> commit_contribution(commits[i], counts, often, now) == share,
        forall|i: int|
            0 <= i < commits.len() && counts_in_history(#[trigger] commits[i]) && object_at(
                commits[i].entries@,
                seldom,
            ) is Some ==> commit_contribution(commits[i], counts, seldom, now) == share,
    ensures
        history_score(commits, counts, often, now) > history_score(commits, counts, seldom, now),
{
    lemma_history_of_equal_shares(commits, counts, often, now, share);
    lemma_history_of_equal_shares(commits, counts, seldom, now, share);
    assert(held_count(commits, often) * share > held_count(commits, seldom) * share)
        by (nonlinear_arith)
        requires
            share > 0,
            held_count(commits, often) > held_count(commits, seldom),
    ;
}

} // verus!
