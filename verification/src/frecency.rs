//! The frecency score of a match: the history score of its file plus the
//! bonus of its line.

use vstd::prelude::*;
use vstd::hash_map::*;
use crate::blame::{
    lemma_uncommitted_earns_more, lemma_uncommitted_outweighs_a_commit, line_bonus, match_bonus,
    BlameEntry, WorkingTree, UNCOMMITTED_WEIGHT,
};
use crate::history::{
    age_days, aggregate, at_least_one, commit_contribution, contribution, counts_in_history,
    held_count, history_score, known_lines, lemma_a_day_apart, lemma_absent_path_scores_nothing,
    lemma_commit_adds_its_share, lemma_contribution_shrinks_with_length,
    lemma_history_score_bound, lemma_history_score_single, lemma_mainline_concat,
    lemma_more_commits_score_higher, lemma_recent_commit_scores_higher, lemma_walked_len,
    lemma_walked_scores_no_more, lemma_whole_walk_is_scored, mainline, object_at, walked,
    CommitRecord, HistoryScores, SCORE_SCALE, SECONDS_PER_DAY,
};
use crate::keys::{
    all_distinct, distinct_in_order, lemma_all_distinct, lemma_distinct_in_order,
    lemma_text_set_is_contains, push_if_new, text_set, texts,
};
use crate::lines::LineCounts;
use crate::path::{normalize_repo_path, repo_key};

verus! {

/// A line that the search matched.
#[derive(Debug, Clone)]
pub struct MatchResult {
    /// The file, as the search named it.
    pub path: String,
    /// The number of the line in the file; the first line is 1.
    pub line_number: u64,
    /// The line itself.
    pub line_text: String,
    /// The score, in units of `1 / SCORE_SCALE`; 0 until the match is scored.
    pub frecency_score: u128,
}

/// What was read from the repository for one run.
pub struct RepoSnapshot {
    /// The time of the run, in seconds since the epoch.
    pub now: i64,
    /// The walk from the head along first parents, newest first.
    pub commits: Vec<CommitRecord>,
    /// The line counts of the contents that the commits name.
    pub line_counts: LineCounts,
    /// The blame and present size of the files that were matched.
    pub working_tree: WorkingTree,
}

/// Why the matches could not be scored.
#[derive(Debug, Clone, Copy, PartialEq, Eq, Structural)]
pub enum ScoringError {
    /// The directory is not a version-controlled tree, or its store cannot
    /// be opened.
    RepositoryUnavailable,
    /// The walk over the commits cannot be started.
    HistoryUnavailable,
}

/// The score of a match on line `line_number` of the file `path`.
pub open spec fn frecency(
    repo: RepoSnapshot,
    max_commits: Option<usize>,
    path: Seq<char>,
    line_number: int,
) -> nat {
    let key = repo.working_tree.key_of(path);
    history_score(walked(repo.commits@, max_commits), repo.line_counts@, key, repo.now as int)
        + match_bonus(repo.working_tree@.get(key), line_number)
}

/// The match with its score set; nothing else of it changes.
pub open spec fn scored(m: MatchResult, repo: RepoSnapshot, max_commits: Option<usize>) -> MatchResult {
    MatchResult {
        frecency_score: frecency(repo, max_commits, m.path@, m.line_number as int) as u128,
        ..m
    }
}

/// The key of the file of each match, in the order of the matches.
pub open spec fn keys_of(matches: Seq<MatchResult>, root: Seq<char>) -> Seq<Seq<char>> {
    Seq::new(matches.len(), |i: int| repo_key(root, matches[i].path@))
}

/// `after` is `before` with each match scored, and nothing else changed.
pub open spec fn is_scoring_of(
    after: Seq<MatchResult>,
    before: Seq<MatchResult>,
    repo: RepoSnapshot,
    max_commits: Option<usize>,
) -> bool {
    &&& after.len() == before.len()
    &&& forall|i: int|
        0 <= i < before.len() ==> #[trigger] after[i] == scored(before[i], repo, max_commits)
}

/// The set of the keys of the files of the matches.
pub open spec fn matched_keys(matches: Seq<MatchResult>, root: Seq<char>) -> Set<Seq<char>> {
    Set::new(
        |p: Seq<char>|
            exists|i: int|
                0 <= i < matches.len() && repo_key(root, #[trigger] matches[i].path@) == p,
    )
}

/// Every score fits the type that holds it.
pub proof fn lemma_frecency_bound(
    repo: RepoSnapshot,
    max_commits: Option<usize>,
    path: Seq<char>,
    line_number: int,
)
    ensures
        frecency(repo, max_commits, path, line_number) <= (repo.commits@.len() + UNCOMMITTED_WEIGHT)
            * SCORE_SCALE,
        frecency(repo, max_commits, path, line_number) <= u128::MAX,
{
    let walk = walked(repo.commits@, max_commits);
    let key = repo.working_tree.key_of(path);
    lemma_history_score_bound(walk, repo.line_counts@, key, repo.now as int);
    lemma_walked_len(repo.commits@, max_commits);
    match repo.working_tree@.get(key) {
        Some(state) => match state.blame {
            Some(entries) => {
                if 1 <= line_number <= entries@.len() {
                    crate::blame::lemma_line_bonus_bound(
                        entries@[line_number - 1],
                        state.current_lines as int,
                    );
                }
            },
            None => {},
        },
        None => {},
    }
    assert(repo.commits.len() == repo.commits@.len());
}

/// Two runs on the same matches and the same repository give the same
/// scores.
pub proof fn lemma_scoring_is_determined(
    before: Seq<MatchResult>,
    first: Seq<MatchResult>,
    second: Seq<MatchResult>,
    repo: RepoSnapshot,
    max_commits: Option<usize>,
)
    requires
        is_scoring_of(first, before, repo, max_commits),
        is_scoring_of(second, before, repo, max_commits),
    ensures
        first == second,
{
    assert(first =~= second);
}

/// Two matches on the same line of the same file get the same score, however
/// the search named the file.
pub proof fn lemma_same_line_same_score(
    a: MatchResult,
    b: MatchResult,
    repo: RepoSnapshot,
    max_commits: Option<usize>,
)
    requires
        repo.working_tree.key_of(a.path@) == repo.working_tree.key_of(b.path@),
        a.line_number == b.line_number,
    ensures
        scored(a, repo, max_commits).frecency_score == scored(
            b,
            repo,
            max_commits,
        ).frecency_score,
{
}

/// A match on a line of a file that no scored commit holds, and of which no
/// blame is known, scores nothing.
pub proof fn lemma_unknown_file_scores_nothing(
    repo: RepoSnapshot,
    max_commits: Option<usize>,
    path: Seq<char>,
    line_number: int,
)
    requires
        forall|i: int|
            0 <= i < repo.commits@.len() ==> object_at(
                (#[trigger] repo.commits@[i]).entries@,
                repo.working_tree.key_of(path),
            ) is None,
        !repo.working_tree@.contains_key(repo.working_tree.key_of(path)),
    ensures
        frecency(repo, max_commits, path, line_number) == 0,
{
    lemma_absent_path_scores_nothing(
        repo.commits@,
        max_commits,
        repo.line_counts@,
        repo.working_tree.key_of(path),
        repo.now as int,
    );
}

/// The two repositories differ in nothing but their commits.
pub open spec fn differ_in_commits_only(a: RepoSnapshot, b: RepoSnapshot) -> bool {
    &&& a.now == b.now
    &&& a.line_counts@ == b.line_counts@
    &&& a.working_tree@ == b.working_tree@
    &&& a.working_tree.root_text() == b.working_tree.root_text()
}

/// The matched line is a line of the blame of its file, and is not committed.
pub open spec fn is_on_uncommitted_line(repo: RepoSnapshot, path: Seq<char>, line_number: int) -> bool {
    let key = repo.working_tree.key_of(path);
    &&& repo.working_tree@.contains_key(key)
    &&& repo.working_tree@[key].blame is Some
    &&& 1 <= line_number <= repo.working_tree@[key].blame->0@.len()
    &&& repo.working_tree@[key].blame->0@[line_number - 1] is Uncommitted
}

/// The matched line is a line of the blame of its file, and is committed.
pub open spec fn is_on_committed_line(repo: RepoSnapshot, path: Seq<char>, line_number: int) -> bool {
    let key = repo.working_tree.key_of(path);
    &&& repo.working_tree@.contains_key(key)
    &&& repo.working_tree@[key].blame is Some
    &&& 1 <= line_number <= repo.working_tree@[key].blame->0@.len()
    &&& repo.working_tree@[key].blame->0@[line_number - 1] is CommittedAt
}

/// Recency: of two repositories with one commit each, which differ in
/// nothing but the time of that commit, the one with the commit that is
/// younger by a day or more gives the match the higher score. The commit is
/// no merge and holds the file, the older commit is two days old or more,
/// the walk is not cut off before its first commit, and the two shares are
/// not so small that rounding makes them one.
pub proof fn lemma_younger_commit_scores_higher(
    earlier: RepoSnapshot,
    later: RepoSnapshot,
    max_commits: Option<usize>,
    path: Seq<char>,
    line_number: int,
)
    requires
        differ_in_commits_only(earlier, later),
        earlier.commits@.len() == 1,
        later.commits@.len() == 1,
        later.commits@[0].parent_count == earlier.commits@[0].parent_count,
        later.commits@[0].entries == earlier.commits@[0].entries,
        counts_in_history(earlier.commits@[0]),
        object_at(earlier.commits@[0].entries@, earlier.working_tree.key_of(path)) is Some,
        max_commits != Some(0usize),
        later.commits@[0].time_seconds - earlier.commits@[0].time_seconds >= SECONDS_PER_DAY,
        later.commits@[0].time_seconds <= later.now,
        earlier.now - earlier.commits@[0].time_seconds >= 2 * SECONDS_PER_DAY,
        at_least_one(
            known_lines(
                earlier.line_counts@,
                object_at(earlier.commits@[0].entries@, earlier.working_tree.key_of(path))->0,
            ),
        ) * age_days(later.now as int, later.commits@[0].time_seconds as int) * age_days(
            earlier.now as int,
            earlier.commits@[0].time_seconds as int,
        ) <= SCORE_SCALE,
    ensures
        frecency(later, max_commits, path, line_number) > frecency(
            earlier,
            max_commits,
            path,
            line_number,
        ),
{
    let key = earlier.working_tree.key_of(path);
    let old_commit = earlier.commits@[0];
    let new_commit = later.commits@[0];
    let now = earlier.now as int;
    assert(earlier.commits@ =~= seq![old_commit]);
    assert(later.commits@ =~= seq![new_commit]);
    lemma_walked_len(earlier.commits@, max_commits);
    lemma_walked_len(later.commits@, max_commits);
    lemma_whole_walk_is_scored(earlier.commits@, max_commits, earlier.line_counts@, key, now);
    lemma_whole_walk_is_scored(later.commits@, max_commits, later.line_counts@, key, now);
    lemma_a_day_apart(now, old_commit.time_seconds as int, new_commit.time_seconds as int);
    lemma_recent_commit_scores_higher(new_commit, old_commit, earlier.line_counts@, key, now);
}

/// Frequency: a repository gives a match what it gives it without one of
/// its commits, plus what that commit adds to the file of the match. So one
/// more commit never lowers a score, and raises it wherever its share is not
/// rounded down to nothing. The walk is not cut short.
pub proof fn lemma_one_more_commit_scores_no_lower(
    with: RepoSnapshot,
    without: RepoSnapshot,
    at: int,
    max_commits: Option<usize>,
    path: Seq<char>,
    line_number: int,
)
    requires
        differ_in_commits_only(with, without),
        0 <= at < with.commits@.len(),
        without.commits@ == with.commits@.remove(at),
        max_commits matches Some(limit) ==> mainline(with.commits@).len() <= limit,
    ensures
        frecency(with, max_commits, path, line_number) == frecency(
            without,
            max_commits,
            path,
            line_number,
        ) + commit_contribution(
            with.commits@[at],
            with.line_counts@,
            with.working_tree.key_of(path),
            with.now as int,
        ),
        frecency(with, max_commits, path, line_number) >= frecency(
            without,
            max_commits,
            path,
            line_number,
        ),
        commit_contribution(
            with.commits@[at],
            with.line_counts@,
            with.working_tree.key_of(path),
            with.now as int,
        ) > 0 ==> frecency(with, max_commits, path, line_number) > frecency(
            without,
            max_commits,
            path,
            line_number,
        ),
{
    let key = with.working_tree.key_of(path);
    let commits = with.commits@;
    let before = commits.take(at);
    let after = commits.skip(at + 1);
    assert(commits =~= before + seq![commits[at]] + after);
    assert(commits.remove(at) =~= before + after);
    lemma_mainline_concat(before, seq![commits[at]]);
    lemma_mainline_concat(before + seq![commits[at]], after);
    lemma_mainline_concat(before, after);
    lemma_whole_walk_is_scored(commits, max_commits, with.line_counts@, key, with.now as int);
    lemma_whole_walk_is_scored(
        without.commits@,
        max_commits,
        with.line_counts@,
        key,
        with.now as int,
    );
    lemma_commit_adds_its_share(commits, at, with.line_counts@, key, with.now as int);
}

/// Of two matches in files of one length and one history score, the one on
/// a line that is not committed scores higher than the one on a committed
/// line, by the difference of the two bonuses. The files are not so long
/// that both bonuses are rounded down to nothing.
pub proof fn lemma_uncommitted_match_scores_higher(
    repo: RepoSnapshot,
    max_commits: Option<usize>,
    edited: Seq<char>,
    edited_line: int,
    settled: Seq<char>,
    settled_line: int,
)
    requires
        is_on_uncommitted_line(repo, edited, edited_line),
        is_on_committed_line(repo, settled, settled_line),
        repo.working_tree@[repo.working_tree.key_of(edited)].current_lines
            == repo.working_tree@[repo.working_tree.key_of(settled)].current_lines,
        repo.working_tree@[repo.working_tree.key_of(edited)].current_lines <= UNCOMMITTED_WEIGHT
            * SCORE_SCALE,
        history_score(
            walked(repo.commits@, max_commits),
            repo.line_counts@,
            repo.working_tree.key_of(edited),
            repo.now as int,
        ) == history_score(
            walked(repo.commits@, max_commits),
            repo.line_counts@,
            repo.working_tree.key_of(settled),
            repo.now as int,
        ),
    ensures
        frecency(repo, max_commits, edited, edited_line) > frecency(
            repo,
            max_commits,
            settled,
            settled_line,
        ),
        frecency(repo, max_commits, edited, edited_line) - frecency(
            repo,
            max_commits,
            settled,
            settled_line,
        ) == line_bonus(
            BlameEntry::Uncommitted,
            repo.working_tree@[repo.working_tree.key_of(edited)].current_lines as int,
        ) - line_bonus(
            repo.working_tree@[repo.working_tree.key_of(settled)].blame->0@[settled_line - 1],
            repo.working_tree@[repo.working_tree.key_of(settled)].current_lines as int,
        ),
{
    let state = repo.working_tree@[repo.working_tree.key_of(settled)];
    let entry = state.blame->0@[settled_line - 1];
    lemma_uncommitted_earns_more(entry->CommittedAt_0, state.current_lines as int);
}

/// A match on a line that is not committed scores higher than a match on a
/// committed line of a file of the same length whose whole history is one
/// commit, however old or young that commit is. The committed version is no
/// shorter than the file is now, and the files are not so long that the
/// bonus is rounded down to nothing.
pub proof fn lemma_uncommitted_edit_outranks_one_commit(
    repo: RepoSnapshot,
    max_commits: Option<usize>,
    edited: Seq<char>,
    edited_line: int,
    settled: Seq<char>,
    settled_line: int,
)
    requires
        is_on_uncommitted_line(repo, edited, edited_line),
        is_on_committed_line(repo, settled, settled_line),
        repo.working_tree@[repo.working_tree.key_of(edited)].current_lines
            == repo.working_tree@[repo.working_tree.key_of(settled)].current_lines,
        1 <= repo.working_tree@[repo.working_tree.key_of(edited)].current_lines
            <= UNCOMMITTED_WEIGHT * SCORE_SCALE,
        repo.commits@.len() == 1,
        object_at(repo.commits@[0].entries@, repo.working_tree.key_of(settled)) matches Some(
            object_id,
        ) ==> known_lines(repo.line_counts@, object_id)
            >= repo.working_tree@[repo.working_tree.key_of(settled)].current_lines,
    ensures
        frecency(repo, max_commits, edited, edited_line) > frecency(
            repo,
            max_commits,
            settled,
            settled_line,
        ),
{
    let key = repo.working_tree.key_of(settled);
    let state = repo.working_tree@[key];
    let lines = state.current_lines as int;
    let entry = state.blame->0@[settled_line - 1];
    let commit = repo.commits@[0];
    let now = repo.now as int;
    let days = age_days(now, commit.time_seconds as int);
    assert(repo.commits@ =~= seq![commit]);
    lemma_walked_scores_no_more(repo.commits@, max_commits, repo.line_counts@, key, now);
    lemma_history_score_single(commit, repo.line_counts@, key, now);
    match object_at(commit.entries@, key) {
        Some(object_id) => {
            lemma_contribution_shrinks_with_length(
                lines,
                known_lines(repo.line_counts@, object_id),
                days,
            );
        },
        None => {},
    }
    lemma_uncommitted_outweighs_a_commit(entry->CommittedAt_0, lines, days);
}

/// Frequency: of two matches with the same bonus, the one in the file that
/// more of the scored commits hold scores higher, where each commit adds the
/// same share to either file.
pub proof fn lemma_file_in_more_commits_scores_higher(
    repo: RepoSnapshot,
    max_commits: Option<usize>,
    often: Seq<char>,
    often_line: int,
    seldom: Seq<char>,
    seldom_line: int,
    share: nat,
)
    requires
        share > 0,
        held_count(walked(repo.commits@, max_commits), repo.working_tree.key_of(often))
            > held_count(walked(repo.commits@, max_commits), repo.working_tree.key_of(seldom)),
        forall|i: int|
            0 <= i < walked(repo.commits@, max_commits).len() && counts_in_history(
                #[trigger] walked(repo.commits@, max_commits)[i],
            ) && object_at(
                walked(repo.commits@, max_commits)[i].entries@,
                repo.working_tree.key_of(often),
            ) is Some ==> commit_contribution(
                walked(repo.commits@, max_commits)[i],
                repo.line_counts@,
                repo.working_tree.key_of(often),
                repo.now as int,
            ) == share,
        forall|i: int|
            0 <= i < walked(repo.commits@, max_commits).len() && counts_in_history(
                #[trigger] walked(repo.commits@, max_commits)[i],
            ) && object_at(
                walked(repo.commits@, max_commits)[i].entries@,
                repo.working_tree.key_of(seldom),
            ) is Some ==> commit_contribution(
                walked(repo.commits@, max_commits)[i],
                repo.line_counts@,
                repo.working_tree.key_of(seldom),
                repo.now as int,
            ) == share,
        match_bonus(repo.working_tree@.get(repo.working_tree.key_of(often)), often_line)
            >= match_bonus(repo.working_tree@.get(repo.working_tree.key_of(seldom)), seldom_line),
    ensures
        frecency(repo, max_commits, often, often_line) > frecency(
            repo,
            max_commits,
            seldom,
            seldom_line,
        ),
{
    lemma_more_commits_score_higher(
        walked(repo.commits@, max_commits),
        repo.line_counts@,
        repo.working_tree.key_of(often),
        repo.working_tree.key_of(seldom),
        repo.now as int,
        share,
    );
}

impl MatchResult {
    /// A match that is not scored yet.
    pub fn new(path: String, line_number: u64, line_text: String) -> (m: MatchResult)
        ensures
            m.path == path,
            m.line_number == line_number,
            m.line_text == line_text,
            m.frecency_score == 0,
    {
        MatchResult { path, line_number, line_text, frecency_score: 0 }
    }
}

/// The keys of the files that the matches lie in, in the repository at
/// `root`: each key once, in the order in which the matches first name them.
pub fn paths_of_interest(matches: &Vec<MatchResult>, root: &str) -> (paths: Vec<String>)
    ensures
        texts(paths@) == distinct_in_order(keys_of(matches@, root@)),
        all_distinct(paths@),
        text_set(paths@) == matched_keys(matches@, root@),
{
    let n: usize = matches.len();
    let mut paths: Vec<String> = Vec::new();
    let mut seen: StringHashMap<bool> = StringHashMap::new();
    let mut i: usize = 0;
    proof {
        assert(seen@.dom() =~= text_set(paths@));
        assert(texts(paths@) =~= distinct_in_order(keys_of(matches@, root@).take(0)));
    }
    while i < n
        invariant
            n == matches@.len(),
            i <= n,
            seen@.dom() == text_set(paths@),
            texts(paths@) == distinct_in_order(keys_of(matches@, root@).take(i as int)),
        decreases n - i,
    {
        proof {
            let keys = keys_of(matches@, root@);
            assert(keys.take(i + 1).drop_last() =~= keys.take(i as int));
            assert(keys.take(i + 1).last() == repo_key(root@, matches@[i as int].path@));
        }
        push_if_new(&mut paths, &mut seen, normalize_repo_path(root, matches[i].path.as_str()));
        i = i + 1;
    }
    proof {
        let keys = keys_of(matches@, root@);
        assert(keys.take(n as int) =~= keys);
        lemma_distinct_in_order(keys);
        lemma_all_distinct(paths@);
        assert forall|p: Seq<char>| text_set(paths@).contains(p) <==> matched_keys(
            matches@,
            root@,
        ).contains(p) by {
            lemma_text_set_is_contains(paths@, p);
            if keys.contains(p) {
                let k = choose|k: int| 0 <= k < keys.len() && keys[k] == p;
                assert(repo_key(root@, matches@[k].path@) == p);
            }
            if matched_keys(matches@, root@).contains(p) {
                let k = choose|k: int|
                    0 <= k < matches@.len() && repo_key(root@, #[trigger] matches@[k].path@) == p;
                assert(keys[k] == p);
            }
        }
        assert(text_set(paths@) =~= matched_keys(matches@, root@));
    }
    paths
}

/// Sets the score of each match from what was read from the repository.
///
/// Without any match nothing is asked of the repository, and the call
/// succeeds. Where the repository could not be read, the error is handed on
/// and the matches stay as they are. Neither the order of the matches nor
/// anything of a match but its score changes.
pub fn calculate_frecencies(
    matches: &mut Vec<MatchResult>,
    repo: &Result<RepoSnapshot, ScoringError>,
    max_commits: Option<usize>,
) -> (outcome: Result<(), ScoringError>)
    ensures
        final(matches)@.len() == old(matches)@.len(),
        old(matches)@.len() == 0 ==> outcome is Ok && final(matches)@ == old(matches)@,
        old(matches)@.len() > 0 ==> match *repo {
            Ok(snapshot) => outcome is Ok && is_scoring_of(
                final(matches)@,
                old(matches)@,
                snapshot,
                max_commits,
            ),
            Err(error) => outcome == Err::<(), ScoringError>(error) && final(matches)@ == old(
                matches,
            )@,
        },
{
    let n: usize = matches.len();
    if n == 0 {
        return Ok(());
    }
    let snapshot: &RepoSnapshot = match repo {
        Ok(snapshot) => snapshot,
        Err(error) => {
            return Err(*error);
        },
    };
    let paths: Vec<String> = paths_of_interest(matches, snapshot.working_tree.root());
    let history: HistoryScores = aggregate(
        &paths,
        &snapshot.commits,
        &snapshot.line_counts,
        snapshot.now,
        max_commits,
    );
    let mut i: usize = 0;
    while i < n
        invariant
            n == matches@.len(),
            n == old(matches)@.len(),
            i <= n,
            history@.dom() == matched_keys(old(matches)@, snapshot.working_tree.root_text()),
            forall|p: Seq<char>| #[trigger]
                history@.contains_key(p) ==> history@[p] == history_score(
                    walked(snapshot.commits@, max_commits),
                    snapshot.line_counts@,
                    p,
                    snapshot.now as int,
                ),
            forall|k: int|
                0 <= k < i ==> #[trigger] matches@[k] == scored(
                    old(matches)@[k],
                    *snapshot,
                    max_commits,
                ),
            forall|k: int| i <= k < n ==> #[trigger] matches@[k] == old(matches)@[k],
        decreases n - i,
    {
        let key: &str = normalize_repo_path(snapshot.working_tree.root(), matches[i].path.as_str());
        proof {
            assert(snapshot.working_tree.key_of(old(matches)@[i as int].path@) == key@);
            assert(matched_keys(old(matches)@, snapshot.working_tree.root_text()).contains(key@));
            lemma_frecency_bound(
                *snapshot,
                max_commits,
                matches@[i as int].path@,
                matches@[i as int].line_number as int,
            );
        }
        let bonus: u128 = snapshot.working_tree.bonus_at(
            matches[i].path.as_str(),
            matches[i].line_number,
        );
        let past: u128 = history.score_of(key);
        matches[i].frecency_score = past + bonus;
        i = i + 1;
    }
    Ok(())
}

} // verus!
