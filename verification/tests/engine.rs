//! The parts of the scoring, each on values that can be checked by hand.

use zg::blame::{blame_entry, bonus_for, is_zero, resolve_blame, BlameEntry, WorkingTree};
use zg::frecency::{calculate_frecencies, paths_of_interest, MatchResult, RepoSnapshot};
use zg::history::{
    aggregate, commit_age_days, find_object, objects_to_count, version_contribution, walk_end,
    CommitRecord, TreeEntry, Walk, SCORE_SCALE,
};
use zg::lines::{
    count_blob_lines, count_content_lines, count_text_lines, estimate_lines, Blob, LineCounts,
};
use zg::path::{lies_under, normalize_repo_path};

const ONE: u128 = 1_000_000_000_000_000_000;
const DAY: i64 = 86_400;
const NOW: i64 = 1_750_000_000;
const ZERO_ID: &str = "0000000000000000000000000000000000000000";

fn entry(path: &str, object_id: &str) -> TreeEntry {
    TreeEntry { path: path.to_string(), object_id: object_id.to_string() }
}

fn commit(age_days: i64, parent_count: usize, entries: Vec<TreeEntry>) -> CommitRecord {
    CommitRecord { time_seconds: NOW - age_days * DAY, parent_count, entries }
}

fn counts_of(lines: &[(&str, usize)]) -> LineCounts {
    let mut counts = LineCounts::new();
    for (id, n) in lines {
        counts.count_lines(id, &Blob::Content("x\n".repeat(*n).into_bytes()));
    }
    counts
}

fn history_of(path: &str, commits: &Vec<CommitRecord>, counts: &LineCounts) -> u128 {
    let paths = vec![path.to_string()];
    aggregate(&paths, commits, counts, NOW, None).score_of(path)
}

#[test]
fn scale_is_one_whole() {
    assert_eq!(SCORE_SCALE, ONE);
}

#[test]
fn path_key_drops_leading_current_directory() {
    for root in ["/repo", ""] {
        assert_eq!(normalize_repo_path(root, "./alpha.rs"), "alpha.rs");
        assert_eq!(normalize_repo_path(root, "alpha.rs"), "alpha.rs");
        assert_eq!(normalize_repo_path(root, "./src/lib.rs"), "src/lib.rs");
        assert_eq!(normalize_repo_path(root, ".//src/lib.rs"), "src/lib.rs");
        assert_eq!(normalize_repo_path(root, "././src/lib.rs"), "src/lib.rs");
        assert_eq!(normalize_repo_path(root, "."), "");
        assert_eq!(normalize_repo_path(root, "./"), "");
        assert_eq!(normalize_repo_path(root, ""), "");
    }
}

#[test]
fn path_key_keeps_what_is_no_marker() {
    assert_eq!(normalize_repo_path("/repo", ".gitignore"), ".gitignore");
    assert_eq!(normalize_repo_path("/repo", "./.gitignore"), ".gitignore");
    assert_eq!(normalize_repo_path("/repo", "../up.rs"), "../up.rs");
    assert_eq!(normalize_repo_path("/repo", "src/./lib.rs"), "src/./lib.rs");
    assert_eq!(normalize_repo_path("/repo", "./h\u{e9}llo.rs"), "h\u{e9}llo.rs");
}

#[test]
fn path_key_is_idempotent() {
    for path in ["./a", "././a/b", ".", "a/./b", ".hidden", "./.hidden", "/repo/a", "/repo/./a"] {
        let once = normalize_repo_path("/repo", path);
        assert_eq!(normalize_repo_path("/repo", once), once);
    }
}

#[test]
fn one_file_has_one_key() {
    // Named from the root of the repository, from the current directory
    // there, and from the root of the file system.
    for rel in ["alpha.rs", "src/lib.rs", ".gitignore", "a/./b.rs"] {
        assert_eq!(normalize_repo_path("/repo", rel), rel);
        assert_eq!(normalize_repo_path("/repo", &format!("./{rel}")), rel);
        assert_eq!(normalize_repo_path("/repo", &format!("/repo/{rel}")), rel);
    }
}

#[test]
fn key_in_a_repository_is_the_path_from_its_root() {
    assert_eq!(normalize_repo_path("/repo", "/repo/src/lib.rs"), "src/lib.rs");
    assert_eq!(normalize_repo_path("/repo", "/repo//src/lib.rs"), "src/lib.rs");
    assert_eq!(normalize_repo_path("/repo", "/repo/./src/lib.rs"), "src/lib.rs");
    assert_eq!(normalize_repo_path("/repo/", "/repo/src/lib.rs"), "src/lib.rs");
    assert_eq!(normalize_repo_path("/", "/src/lib.rs"), "src/lib.rs");
    assert_eq!(normalize_repo_path("/repo", "/repo"), "");
    assert_eq!(normalize_repo_path("/repo", "/repo/"), "");
    assert_eq!(normalize_repo_path("/r\u{e9}po", "/r\u{e9}po/\u{e9}.rs"), "\u{e9}.rs");
}

#[test]
fn path_outside_the_repository_keeps_its_name() {
    assert_eq!(normalize_repo_path("/repo", "/repository/src/lib.rs"), "/repository/src/lib.rs");
    assert_eq!(normalize_repo_path("/repo", "/other/lib.rs"), "/other/lib.rs");
    assert_eq!(normalize_repo_path("/repo", "/rep"), "/rep");
    assert_eq!(normalize_repo_path("/repo", "repo/lib.rs"), "repo/lib.rs");
    // A root that is not named from the root of the file system is none.
    assert_eq!(normalize_repo_path("repo", "repo/lib.rs"), "repo/lib.rs");
    // Nor is a root that is not known.
    assert_eq!(normalize_repo_path("", "/repo/lib.rs"), "/repo/lib.rs");
}

#[test]
fn path_lies_under_its_root() {
    assert!(lies_under("/repo", "/repo/a.rs"));
    assert!(lies_under("/repo", "/repo"));
    assert!(lies_under("/repo/", "/repo/a.rs"));
    assert!(lies_under("/", "/a.rs"));
    assert!(!lies_under("/repo", "/repository/a.rs"));
    assert!(!lies_under("/repo", "/rep"));
    assert!(!lies_under("/repo", "a.rs"));
    assert!(!lies_under("repo", "repo/a.rs"));
    assert!(!lies_under("", "/repo/a.rs"));
}

#[test]
fn text_lines_are_counted() {
    assert_eq!(count_text_lines(b""), 0);
    assert_eq!(count_text_lines(b"a"), 1);
    assert_eq!(count_text_lines(b"a\n"), 1);
    assert_eq!(count_text_lines(b"a\nb"), 2);
    assert_eq!(count_text_lines(b"a\nb\n"), 2);
    assert_eq!(count_text_lines(b"\n\n\n"), 3);
}

#[test]
fn empty_content_counts_as_one_line() {
    assert_eq!(count_content_lines(b""), 1);
}

#[test]
fn last_line_without_terminator_counts() {
    assert_eq!(count_content_lines(b"one\ntwo\nthree"), 3);
    assert_eq!(count_content_lines(b"one\ntwo\nthree\n"), 3);
}

#[test]
fn binary_content_is_estimated_from_its_size() {
    // 0xff is no UTF-8: 500 bytes are taken as 10 lines, however many
    // terminators they hold.
    let mut bytes = vec![0xffu8; 500];
    bytes[10] = b'\n';
    bytes[20] = b'\n';
    assert_eq!(count_content_lines(&bytes), 10);
    assert_eq!(count_content_lines(&[0xff, b'\n', b'\n', b'\n']), 1);
    // The same length as text is counted by its lines.
    assert_eq!(count_content_lines(&vec![b'\n'; 500]), 500);
}

#[test]
fn estimate_is_size_over_fifty_and_at_least_one() {
    assert_eq!(estimate_lines(0), 1);
    assert_eq!(estimate_lines(49), 1);
    assert_eq!(estimate_lines(50), 1);
    assert_eq!(estimate_lines(99), 1);
    assert_eq!(estimate_lines(100), 2);
    assert_eq!(estimate_lines(5000), 100);
}

#[test]
fn unavailable_blob_is_estimated() {
    assert_eq!(count_blob_lines(&Blob::Unavailable { byte_size: 0 }), 1);
    assert_eq!(count_blob_lines(&Blob::Unavailable { byte_size: 1000 }), 20);
    assert_eq!(count_blob_lines(&Blob::Content(b"a\nb\n".to_vec())), 2);
}

#[test]
fn first_count_for_an_id_stays() {
    let mut counts = LineCounts::new();
    assert_eq!(counts.get("abc"), None);
    assert_eq!(counts.count_lines("abc", &Blob::Content(b"1\n2\n3\n".to_vec())), 3);
    assert_eq!(counts.get("abc"), Some(3));
    // A second fetch of the same id, whatever it brings, changes nothing.
    assert_eq!(counts.count_lines("abc", &Blob::Content(b"1\n".to_vec())), 3);
    assert_eq!(counts.count_lines("abc", &Blob::Unavailable { byte_size: 5000 }), 3);
    assert_eq!(counts.get("abc"), Some(3));
    assert_eq!(counts.get("abd"), None);
}

#[test]
fn each_object_is_asked_for_once() {
    let commits = vec![
        commit(1, 1, vec![entry("a.rs", "a2"), entry("b.rs", "b1")]),
        commit(2, 2, vec![entry("a.rs", "merged")]),
        commit(3, 1, vec![entry("a.rs", "a1"), entry("b.rs", "b1")]),
        commit(4, 0, vec![entry("a.rs", "a1")]),
    ];
    assert_eq!(objects_to_count(&commits, None), vec!["a2", "b1", "a1"]);
    assert_eq!(objects_to_count(&commits, Some(1)), vec!["a2", "b1"]);
    assert_eq!(objects_to_count(&commits, Some(0)), Vec::<String>::new());
}

#[test]
fn age_is_whole_days_and_at_least_one() {
    assert_eq!(commit_age_days(NOW, NOW), 1);
    assert_eq!(commit_age_days(NOW, NOW - 1), 1);
    assert_eq!(commit_age_days(NOW, NOW - DAY + 1), 1);
    assert_eq!(commit_age_days(NOW, NOW - DAY), 1);
    assert_eq!(commit_age_days(NOW, NOW - 2 * DAY + 1), 1);
    assert_eq!(commit_age_days(NOW, NOW - 2 * DAY), 2);
    assert_eq!(commit_age_days(NOW, NOW - 3650 * DAY), 3650);
    // A commit from the future.
    assert_eq!(commit_age_days(NOW, NOW + 5 * DAY), 1);
    assert_eq!(commit_age_days(i64::MAX, i64::MIN), 213_503_982_334_601);
    assert_eq!(commit_age_days(i64::MIN, i64::MAX), 1);
}

#[test]
fn contribution_is_one_over_lines_times_days() {
    assert_eq!(version_contribution(1, 1), ONE);
    assert_eq!(version_contribution(4, 2), 125_000_000_000_000_000);
    assert_eq!(version_contribution(3, 1), 333_333_333_333_333_333);
    assert_eq!(version_contribution(100, 365), ONE / 36_500);
    // Denominators below 1 are taken as 1.
    assert_eq!(version_contribution(0, 0), ONE);
    assert_eq!(version_contribution(0, 5), ONE / 5);
    // What is too small for the scale is lost.
    assert_eq!(version_contribution(u64::MAX, u64::MAX), 0);
    assert_eq!(version_contribution(2_000_000_000, 1_000_000_000), 0);
    assert_eq!(version_contribution(1_000_000_000, 1_000_000_000), 1);
}

#[test]
fn tree_lookup_takes_the_first_entry_of_a_path() {
    let entries = vec![entry("a.rs", "1"), entry("b.rs", "2"), entry("a.rs", "3")];
    assert_eq!(find_object(&entries, &"a.rs".to_string()), Some(&"1".to_string()));
    assert_eq!(find_object(&entries, &"b.rs".to_string()), Some(&"2".to_string()));
    assert_eq!(find_object(&entries, &"c.rs".to_string()), None);
}

#[test]
fn history_sums_the_contributions() {
    let commits = vec![
        commit(1, 1, vec![entry("a.rs", "a2")]),
        commit(2, 1, vec![entry("a.rs", "a1"), entry("b.rs", "b1")]),
        commit(10, 0, vec![entry("b.rs", "b1")]),
    ];
    let counts = counts_of(&[("a2", 4), ("a1", 2), ("b1", 5)]);
    // a.rs: 1/(4*1) + 1/(2*2); b.rs: 1/(5*2) + 1/(5*10).
    assert_eq!(history_of("a.rs", &commits, &counts), ONE / 4 + ONE / 4);
    assert_eq!(history_of("b.rs", &commits, &counts), ONE / 10 + ONE / 50);
    // A path that no commit holds ends with 0.
    assert_eq!(history_of("new.rs", &commits, &counts), 0);
}

#[test]
fn history_of_all_paths_comes_from_one_walk() {
    let commits = vec![
        commit(1, 1, vec![entry("a.rs", "a1"), entry("b.rs", "b1")]),
        commit(2, 0, vec![entry("a.rs", "a1")]),
    ];
    let counts = counts_of(&[("a1", 1), ("b1", 2)]);
    let paths = vec!["a.rs".to_string(), "b.rs".to_string(), "c.rs".to_string()];
    let scores = aggregate(&paths, &commits, &counts, NOW, None);
    assert_eq!(scores.score_of("a.rs"), ONE + ONE / 2);
    assert_eq!(scores.score_of("b.rs"), ONE / 2);
    assert_eq!(scores.score_of("c.rs"), 0);
    assert_eq!(scores.score_of("not asked for"), 0);
}

#[test]
fn unknown_object_counts_as_one_line() {
    let commits = vec![commit(2, 0, vec![entry("a.rs", "nobody fetched this")])];
    assert_eq!(history_of("a.rs", &commits, &LineCounts::new()), ONE / 2);
}

#[test]
fn more_recent_commit_scores_higher() {
    let counts = counts_of(&[("a1", 10)]);
    let recent = vec![commit(3, 0, vec![entry("a.rs", "a1")])];
    let older = vec![commit(30, 0, vec![entry("a.rs", "a1")])];
    let recent_score = history_of("a.rs", &recent, &counts);
    let older_score = history_of("a.rs", &older, &counts);
    assert_eq!(recent_score, ONE / 30);
    assert_eq!(older_score, ONE / 300);
    assert!(recent_score > older_score);
}

#[test]
fn commits_of_the_same_day_score_the_same() {
    let counts = counts_of(&[("a1", 10)]);
    let morning = vec![CommitRecord {
        time_seconds: NOW - 100,
        parent_count: 0,
        entries: vec![entry("a.rs", "a1")],
    }];
    let evening = vec![CommitRecord {
        time_seconds: NOW - 50_000,
        parent_count: 0,
        entries: vec![entry("a.rs", "a1")],
    }];
    assert_eq!(history_of("a.rs", &morning, &counts), history_of("a.rs", &evening, &counts));
}

#[test]
fn one_more_commit_never_lowers_the_score() {
    let counts = counts_of(&[("a1", 3), ("a2", 3), ("a3", 3)]);
    let three = vec![
        commit(1, 1, vec![entry("a.rs", "a3")]),
        commit(5, 1, vec![entry("a.rs", "a2")]),
        commit(9, 0, vec![entry("a.rs", "a1")]),
    ];
    let mut two = three.clone();
    two.remove(1);
    let with = history_of("a.rs", &three, &counts);
    let without = history_of("a.rs", &two, &counts);
    assert_eq!(with - without, ONE / 15);
    assert!(with > without);
}

#[test]
fn a_contribution_too_small_for_the_scale_adds_nothing() {
    let mut counts = LineCounts::new();
    counts.count_lines("huge", &Blob::Unavailable { byte_size: u64::MAX });
    counts.count_lines("small", &Blob::Content(b"x\n".to_vec()));
    let base = vec![commit(1, 0, vec![entry("a.rs", "small")])];
    let mut more = base.clone();
    more.push(commit(100_000, 0, vec![entry("a.rs", "huge")]));
    assert_eq!(history_of("a.rs", &more, &counts), history_of("a.rs", &base, &counts));
}

#[test]
fn commit_with_several_parents_is_a_merge() {
    assert!(commit(1, 0, Vec::new()).counts());
    assert!(commit(1, 1, Vec::new()).counts());
    assert!(!commit(1, 2, Vec::new()).counts());
    assert!(!commit(1, 8, Vec::new()).counts());
}

#[test]
fn merge_commit_adds_nothing() {
    let counts = counts_of(&[("a1", 2), ("a2", 2), ("m", 1)]);
    let plain = vec![
        commit(1, 1, vec![entry("a.rs", "a2")]),
        commit(4, 0, vec![entry("a.rs", "a1")]),
    ];
    let mut merged = plain.clone();
    merged.insert(1, commit(2, 2, vec![entry("a.rs", "m")]));
    assert_eq!(history_of("a.rs", &merged, &counts), history_of("a.rs", &plain, &counts));
    assert_eq!(history_of("a.rs", &plain, &counts), ONE / 2 + ONE / 8);
    // Nor is its content asked for.
    assert_eq!(objects_to_count(&merged, None), objects_to_count(&plain, None));
}

#[test]
fn walk_limit_counts_no_merges_and_fails_nothing() {
    let commits = vec![
        commit(1, 2, vec![entry("a.rs", "m1")]),
        commit(1, 1, vec![entry("a.rs", "a3")]),
        commit(1, 3, vec![entry("a.rs", "m2")]),
        commit(1, 1, vec![entry("a.rs", "a2")]),
        commit(1, 0, vec![entry("a.rs", "a1")]),
    ];
    let counts = counts_of(&[("a1", 1), ("a2", 1), ("a3", 1)]);
    let paths = vec!["a.rs".to_string()];
    let score = |limit| aggregate(&paths, &commits, &counts, NOW, limit).score_of("a.rs");
    assert_eq!(score(None), 3 * ONE);
    assert_eq!(score(Some(3000)), 3 * ONE);
    assert_eq!(score(Some(3)), 3 * ONE);
    assert_eq!(score(Some(2)), 2 * ONE);
    assert_eq!(score(Some(1)), ONE);
    assert_eq!(score(Some(0)), 0);
    assert_eq!(walk_end(&commits, None), 5);
    assert_eq!(walk_end(&commits, Some(2)), 4);
    assert_eq!(walk_end(&commits, Some(1)), 2);
    assert_eq!(walk_end(&commits, Some(0)), 0);
}

#[test]
fn walk_is_read_until_the_allowance_is_used_up() {
    let mut walk = Walk::new(Some(2));
    assert!(!walk.is_complete());
    walk = walk.with(commit(1, 2, Vec::new()));
    assert!(!walk.is_complete());
    walk = walk.with(commit(2, 1, Vec::new()));
    assert!(!walk.is_complete());
    walk = walk.with(commit(3, 3, Vec::new()));
    assert!(!walk.is_complete());
    walk = walk.with(commit(4, 0, Vec::new()));
    assert!(walk.is_complete());
    let commits = walk.into_commits();
    let parents: Vec<usize> = commits.iter().map(|c| c.parent_count).collect();
    assert_eq!(parents, vec![2, 1, 3, 0]);
    assert_eq!(walk_end(&commits, Some(2)), 4);

    assert!(Walk::new(Some(0)).is_complete());
    let mut all = Walk::new(None);
    for age in 1..50 {
        all = all.with(commit(age, 1, Vec::new()));
        assert!(!all.is_complete());
    }
    assert_eq!(all.into_commits().len(), 49);
}

#[test]
fn commits_behind_the_allowance_change_no_score() {
    let counts = counts_of(&[("a1", 1), ("a2", 1), ("a3", 1)]);
    let read = vec![
        commit(1, 1, vec![entry("a.rs", "a3")]),
        commit(2, 1, vec![entry("a.rs", "a2")]),
    ];
    let mut longer = read.clone();
    longer.push(commit(3, 0, vec![entry("a.rs", "a1")]));
    let paths = vec!["a.rs".to_string()];
    let score = |commits: &Vec<CommitRecord>| {
        aggregate(&paths, commits, &counts, NOW, Some(2)).score_of("a.rs")
    };
    assert_eq!(score(&read), ONE + ONE / 2);
    assert_eq!(score(&longer), score(&read));
}

#[test]
fn zero_id_means_uncommitted() {
    assert!(is_zero(ZERO_ID));
    assert!(is_zero("0"));
    assert!(!is_zero(""));
    assert_eq!(blame_entry(String::new()), BlameEntry::CommittedAt(String::new()));
    assert!(!is_zero("0000000000000000000000000000000000000001"));
    assert!(!is_zero("a3f0"));
    assert!(!is_zero("00\u{e9}0"));
    assert_eq!(blame_entry(ZERO_ID.to_string()), BlameEntry::Uncommitted);
    assert_eq!(
        blame_entry("a3f0".to_string()),
        BlameEntry::CommittedAt("a3f0".to_string())
    );
    assert_eq!(
        resolve_blame(&vec!["a3f0".to_string(), ZERO_ID.to_string()]),
        vec![BlameEntry::CommittedAt("a3f0".to_string()), BlameEntry::Uncommitted]
    );
}

#[test]
fn line_bonus_is_weight_over_current_lines() {
    let committed = BlameEntry::CommittedAt("a3f0".to_string());
    assert_eq!(bonus_for(&BlameEntry::Uncommitted, 1), 5 * ONE);
    assert_eq!(bonus_for(&committed, 1), 2 * ONE);
    assert_eq!(bonus_for(&BlameEntry::Uncommitted, 4), 1_250_000_000_000_000_000);
    assert_eq!(bonus_for(&committed, 4), 500_000_000_000_000_000);
    assert_eq!(bonus_for(&BlameEntry::Uncommitted, 3), 1_666_666_666_666_666_666);
    // A file without lines is taken as one of 1 line.
    assert_eq!(bonus_for(&BlameEntry::Uncommitted, 0), 5 * ONE);
}

#[test]
fn doubling_the_file_halves_the_bonus() {
    for lines in [1u64, 2, 3, 7, 50, 1000, 123_456] {
        assert_eq!(
            bonus_for(&BlameEntry::Uncommitted, 2 * lines),
            bonus_for(&BlameEntry::Uncommitted, lines) / 2
        );
    }
    assert_eq!(bonus_for(&BlameEntry::Uncommitted, 10), ONE / 2);
    assert_eq!(bonus_for(&BlameEntry::Uncommitted, 20), ONE / 4);
}

#[test]
fn uncommitted_line_earns_five_to_two() {
    let committed = BlameEntry::CommittedAt("a3f0".to_string());
    for lines in [1u64, 2, 4, 5, 10, 1000] {
        let high = bonus_for(&BlameEntry::Uncommitted, lines);
        let low = bonus_for(&committed, lines);
        assert!(high > low);
        assert_eq!(2 * high, 5 * low);
    }
    // Where the line count does not divide the scale, within rounding.
    let high = bonus_for(&BlameEntry::Uncommitted, 3);
    let low = bonus_for(&committed, 3);
    assert!(high > low);
    assert_eq!((high, low), (1_666_666_666_666_666_666, 666_666_666_666_666_666));
    assert_eq!(2 * high - 5 * low, 2);
}

#[test]
fn bonus_of_a_match_depends_on_its_line() {
    let mut tree = WorkingTree::new("/repo".to_string());
    assert_eq!(tree.root(), "/repo");
    let blame = vec!["a3f0".to_string(), ZERO_ID.to_string(), "a3f0".to_string(), "b771".to_string()];
    tree.record("./src/lib.rs", Some(blame), &Blob::Content(b"1\n2\n3\n4\n".to_vec()));
    assert!(tree.knows("src/lib.rs"));
    assert!(tree.knows("./src/lib.rs"));
    assert!(tree.knows("/repo/src/lib.rs"));
    assert!(!tree.knows("/other/src/lib.rs"));
    assert!(!tree.knows("src/main.rs"));
    assert_eq!(tree.bonus_at("/repo/src/lib.rs", 2), 5 * ONE / 4);
    assert_eq!(tree.bonus_at("src/lib.rs", 1), ONE / 2);
    assert_eq!(tree.bonus_at("./src/lib.rs", 2), 5 * ONE / 4);
    assert_eq!(tree.bonus_at("src/lib.rs", 4), ONE / 2);
    // No such line in the blame.
    assert_eq!(tree.bonus_at("src/lib.rs", 0), 0);
    assert_eq!(tree.bonus_at("src/lib.rs", 5), 0);
    assert_eq!(tree.bonus_at("src/lib.rs", u64::MAX), 0);
    // No such file.
    assert_eq!(tree.bonus_at("src/main.rs", 1), 0);
}

#[test]
fn file_recorded_under_its_full_name_is_known_by_its_key() {
    let mut tree = WorkingTree::new("/repo".to_string());
    tree.record("/repo/a.rs", Some(vec![ZERO_ID.to_string()]), &Blob::Content(b"1\n".to_vec()));
    assert!(tree.knows("a.rs"));
    assert_eq!(tree.bonus_at("a.rs", 1), 5 * ONE);
    assert_eq!(tree.bonus_at("./a.rs", 1), 5 * ONE);
}

#[test]
fn file_without_blame_earns_no_bonus() {
    let mut tree = WorkingTree::new("/repo".to_string());
    tree.record("new.rs", None, &Blob::Content(b"1\n2\n".to_vec()));
    assert!(tree.knows("new.rs"));
    assert_eq!(tree.bonus_at("new.rs", 1), 0);
    assert_eq!(tree.bonus_at("new.rs", 2), 0);
}

#[test]
fn first_record_of_a_file_stays() {
    let mut tree = WorkingTree::new("/repo".to_string());
    tree.record("a.rs", Some(vec![ZERO_ID.to_string()]), &Blob::Content(b"1\n".to_vec()));
    assert_eq!(tree.bonus_at("a.rs", 1), 5 * ONE);
    tree.record("./a.rs", None, &Blob::Content(b"1\n2\n3\n".to_vec()));
    tree.record("/repo/a.rs", None, &Blob::Content(b"1\n2\n3\n".to_vec()));
    tree.record("a.rs", Some(vec!["a3f0".to_string()]), &Blob::Content(b"1\n".to_vec()));
    assert_eq!(tree.bonus_at("a.rs", 1), 5 * ONE);
}

#[test]
fn bonus_goes_by_the_present_line_count() {
    // The blame knows two lines, the file has four by now.
    let mut tree = WorkingTree::new("/repo".to_string());
    let blame = vec!["a3f0".to_string(), "a3f0".to_string()];
    tree.record("a.rs", Some(blame), &Blob::Content(b"1\n2\n3\n4\n".to_vec()));
    assert_eq!(tree.bonus_at("a.rs", 2), ONE / 2);
    assert_eq!(tree.bonus_at("a.rs", 3), 0);
}

#[test]
fn paths_of_interest_are_distinct_keys() {
    let m = |path: &str, line: u64| MatchResult::new(path.to_string(), line, "x\n".to_string());
    let matches = vec![m("./b.rs", 1), m("a.rs", 1), m("b.rs", 7), m("./a.rs", 2), m("././b.rs", 3)];
    assert_eq!(paths_of_interest(&matches, ""), vec!["b.rs", "a.rs"]);
    assert_eq!(paths_of_interest(&matches, "/repo"), vec!["b.rs", "a.rs"]);
    assert_eq!(paths_of_interest(&Vec::new(), "/repo"), Vec::<String>::new());
    let named = vec![m("/repo/src/a.rs", 1), m("./src/a.rs", 2), m("/other/src/a.rs", 3)];
    assert_eq!(paths_of_interest(&named, "/repo"), vec!["src/a.rs", "/other/src/a.rs"]);
    assert_eq!(
        paths_of_interest(&named, ""),
        vec!["/repo/src/a.rs", "src/a.rs", "/other/src/a.rs"]
    );
}

#[test]
fn new_match_is_unscored() {
    let m = MatchResult::new("./a.rs".to_string(), 3, "text\n".to_string());
    assert_eq!(m.path, "./a.rs");
    assert_eq!(m.line_number, 3);
    assert_eq!(m.line_text, "text\n");
    assert_eq!(m.frecency_score, 0);
}

#[test]
fn score_is_history_plus_bonus() {
    let commits = vec![
        commit(2, 1, vec![entry("a.rs", "a2")]),
        commit(8, 0, vec![entry("a.rs", "a1")]),
    ];
    let line_counts = counts_of(&[("a2", 5), ("a1", 1)]);
    let mut working_tree = WorkingTree::new("/repo".to_string());
    let blame = vec!["c1".to_string(), ZERO_ID.to_string()];
    working_tree.record("a.rs", Some(blame), &Blob::Content(b"1\n2\n".to_vec()));
    let repo = Ok(RepoSnapshot { now: NOW, commits, line_counts, working_tree });
    let m = |path: &str, line: u64| MatchResult::new(path.to_string(), line, "x\n".to_string());
    let mut matches = vec![m("./a.rs", 1), m("a.rs", 2), m("./a.rs", 3), m("a.rs", 2), m("b.rs", 1)];
    assert_eq!(calculate_frecencies(&mut matches, &repo, None), Ok(()));
    let history = ONE / 10 + ONE / 8;
    assert_eq!(matches[0].frecency_score, history + ONE);
    assert_eq!(matches[1].frecency_score, history + 5 * ONE / 2);
    assert_eq!(matches[2].frecency_score, history);
    // The same line reported twice is scored twice, the same.
    assert_eq!(matches[3].frecency_score, matches[1].frecency_score);
    assert_eq!(matches[4].frecency_score, 0);
    let paths: Vec<&str> = matches.iter().map(|m| m.path.as_str()).collect();
    assert_eq!(paths, vec!["./a.rs", "a.rs", "./a.rs", "a.rs", "b.rs"]);
}
