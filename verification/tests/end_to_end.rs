//! The whole run on a small repository: search, score, rank, print.

use zg::blame::WorkingTree;
use zg::frecency::{
    calculate_frecencies, paths_of_interest, MatchResult, RepoSnapshot, ScoringError,
};
use zg::history::{objects_to_count, CommitRecord, TreeEntry};
use zg::lines::{Blob, LineCounts};
use zg::present::{print_matches, PrintOptions};
use zg::rank::sort_matches;
use zg::search::{search_content, Pattern};

const NOW: i64 = 1_750_000_000;
const ZERO_ID: &str = "0000000000000000000000000000000000000000";
const ROOT: &str = "/home/dev/project";

/// A repository in memory: its commits, its stored contents and its working
/// copy.
struct MockRepo {
    /// Newest first.
    commits: Vec<CommitRecord>,
    /// Content by object id.
    blobs: Vec<(String, Vec<u8>)>,
    /// The working copy: file name, content, and the commit that holds the
    /// committed version.
    files: Vec<(String, Vec<u8>, String)>,
}

impl MockRepo {
    /// Overwrites a file of the working copy without committing it.
    fn write(&mut self, name: &str, content: &str) {
        for file in self.files.iter_mut() {
            if file.0 == name {
                file.1 = content.as_bytes().to_vec();
            }
        }
    }

    fn committed(&self, name: &str) -> Vec<u8> {
        for commit in &self.commits {
            for entry in &commit.entries {
                if entry.path == name {
                    for blob in &self.blobs {
                        if blob.0 == entry.object_id {
                            return blob.1.clone();
                        }
                    }
                }
            }
        }
        Vec::new()
    }

    /// The commit of each line of the working copy of a file: a line that
    /// differs from the committed one gets the zero id.
    fn blame(&self, name: &str, content: &[u8], commit_id: &str) -> Vec<String> {
        let committed = self.committed(name);
        let old: Vec<&[u8]> = committed.split_inclusive(|b| *b == b'\n').collect();
        let new: Vec<&[u8]> = content.split_inclusive(|b| *b == b'\n').collect();
        let mut ids = Vec::new();
        for (i, line) in new.iter().enumerate() {
            if i < old.len() && old[i] == *line {
                ids.push(commit_id.to_string());
            } else {
                ids.push(ZERO_ID.to_string());
            }
        }
        ids
    }

    fn snapshot(&self, paths: &[String]) -> RepoSnapshot {
        let mut line_counts = LineCounts::new();
        for id in objects_to_count(&self.commits, Some(3000)) {
            let content = self.blobs.iter().find(|blob| blob.0 == id).map(|blob| blob.1.clone());
            let blob = match content {
                Some(bytes) => Blob::Content(bytes),
                None => Blob::Unavailable { byte_size: 0 },
            };
            line_counts.count_lines(&id, &blob);
        }
        let mut working_tree = WorkingTree::new(ROOT.to_string());
        for path in paths {
            for (name, content, commit_id) in &self.files {
                if name == path {
                    let blame = self.blame(name, content, commit_id);
                    working_tree.record(path, Some(blame), &Blob::Content(content.clone()));
                }
            }
        }
        RepoSnapshot { now: NOW, commits: self.commits.clone(), line_counts, working_tree }
    }
}

/// A repository in which each file of `spec` was committed as many times as
/// `spec` says, one file after the other.
fn create_mock_repo(spec: &[(&str, usize)]) -> MockRepo {
    let mut commits: Vec<CommitRecord> = Vec::new();
    let mut blobs: Vec<(String, Vec<u8>)> = Vec::new();
    let mut tree: Vec<TreeEntry> = Vec::new();
    let mut files: Vec<(String, Vec<u8>, String)> = Vec::new();
    for (file_name, commit_count) in spec {
        for n in 0..*commit_count {
            let content = format!("fn f_{n}() {{ println!(\"{file_name} #{n}\"); }}\n");
            let object_id = format!("{:040x}", 0xb10b_0000 + blobs.len());
            let commit_id = format!("{:040x}", 0xc0de_0000 + commits.len());
            blobs.push((object_id.clone(), content.clone().into_bytes()));
            tree.retain(|entry| entry.path != *file_name);
            tree.push(TreeEntry { path: file_name.to_string(), object_id });
            files.retain(|file| file.0 != *file_name);
            files.push((file_name.to_string(), content.into_bytes(), commit_id));
            let parent_count = if commits.is_empty() { 0 } else { 1 };
            commits.push(CommitRecord { time_seconds: NOW, parent_count, entries: tree.clone() });
        }
    }
    commits.reverse();
    MockRepo { commits, blobs, files }
}

fn search(repo: &MockRepo, args: &[&str]) -> Vec<MatchResult> {
    let ignore_case = args.contains(&"-i") || args.contains(&"--ignore-case");
    let smart_case = args.contains(&"-S") || args.contains(&"--smart-case");
    let pattern = args.iter().find(|arg| !arg.starts_with('-')).expect("a pattern");
    let compiled =
        Pattern::new(pattern, ignore_case, smart_case).expect("Invalid regular expression");
    let mut matches = Vec::new();
    // The walk hands the files over in no particular order: here, last first.
    for (name, content, _) in repo.files.iter().rev() {
        matches.extend(search_content(&compiled, &format!("./{name}"), content));
    }
    matches
}

fn print(repo_matches: Vec<MatchResult>, args: &[&str]) -> String {
    let ignore_case = args.contains(&"-i") || args.contains(&"--ignore-case");
    let smart_case = args.contains(&"-S") || args.contains(&"--smart-case");
    let pattern = args.iter().find(|arg| !arg.starts_with('-')).expect("a pattern");
    let compiled =
        Pattern::new(pattern, ignore_case, smart_case).expect("Invalid regular expression");
    let options = PrintOptions {
        show_score: args.contains(&"--score"),
        show_column: args.contains(&"--column"),
    };
    let sorted = sort_matches(repo_matches);
    let mut stdout: Vec<u8> = Vec::new();
    for line in print_matches(&sorted, &compiled, &options) {
        stdout.extend(line.prefix);
        stdout.extend(line.before);
        stdout.extend(line.matched);
        stdout.extend(line.after);
        stdout.push(b'\n');
    }
    String::from_utf8_lossy(&stdout).into_owned()
}

/// One run of the program in the repository, and what it prints.
fn run_zg(repo: &MockRepo, args: &[&str]) -> String {
    let mut matches = search(repo, args);
    let paths: Vec<String> = repo.files.iter().map(|file| file.0.clone()).collect();
    let snapshot: Result<RepoSnapshot, ScoringError> = Ok(repo.snapshot(&paths));
    calculate_frecencies(&mut matches, &snapshot, Some(3000)).expect("scoring");
    print(matches, args)
}

/// The scale of the scores: one whole.
const ONE: u128 = 1_000_000_000_000_000_000;

#[test]
fn sorts_files_correctly_based_on_frecency() {
    let repo_dir = create_mock_repo(&[("alpha.rs", 5), ("beta.rs", 3), ("gamma.rs", 1)]);
    let stdout = run_zg(&repo_dir, &["println!"]);

    let pos = |needle: &str| stdout.find(needle).expect(needle);

    let p_alpha = pos("alpha.rs");
    let p_beta = pos("beta.rs");
    let p_gamma = pos("gamma.rs");

    assert!(
        p_alpha < p_beta && p_beta < p_gamma,
        "order wrong:\n{stdout}"
    );
}

#[test]
fn placeholder_scores_match_stdout() {
    let dir = create_mock_repo(&[("alpha.rs", 5), ("beta.rs", 3), ("gamma.rs", 1)]);
    let stdout = run_zg(&dir, &["println!", "--score"]);

    // Each file has one line and every commit is of today: a commit adds one
    // whole for each file in its tree, and the matched line, committed, adds 2.
    // alpha.rs stands in 9 trees, beta.rs in 4, gamma.rs in 1.
    let expected = [
        ("alpha.rs", 1100000000.0_f32),
        ("beta.rs", 600000000.0_f32),
        ("gamma.rs", 300000000.0_f32),
    ];
    for (file, want) in expected {
        let line = stdout.lines().find(|l| l.contains(file)).expect(file);
        let score_str = line.split(':').next().unwrap();
        let got: f32 = score_str.parse().unwrap();
        assert!((got - want).abs() < 1e-3, "{file}: got {got}, want {want}");
    }
}

#[test]
fn whole_output_of_the_mock_repo() {
    let dir = create_mock_repo(&[("alpha.rs", 5), ("beta.rs", 3), ("gamma.rs", 1)]);
    let stdout = run_zg(&dir, &["println!", "--score"]);

    let expected = [
        "1100000000.00: ./alpha.rs:1:fn f_4() { println!(\"alpha.rs #4\"); }",
        "600000000.00: ./beta.rs:1:fn f_2() { println!(\"beta.rs #2\"); }",
        "300000000.00: ./gamma.rs:1:fn f_0() { println!(\"gamma.rs #0\"); }",
    ];
    assert_eq!(stdout.lines().collect::<Vec<&str>>(), expected);
}

#[test]
fn scores_of_the_mock_repo_are_exact() {
    let dir = create_mock_repo(&[("alpha.rs", 5), ("beta.rs", 3), ("gamma.rs", 1)]);
    let mut matches = search(&dir, &["println!"]);
    let paths: Vec<String> = dir.files.iter().map(|file| file.0.clone()).collect();
    let snapshot = Ok(dir.snapshot(&paths));
    assert_eq!(calculate_frecencies(&mut matches, &snapshot, Some(3000)), Ok(()));
    assert_eq!(matches.len(), 3);
    for m in &matches {
        let want = match m.path.as_str() {
            "./alpha.rs" => 11 * ONE,
            "./beta.rs" => 6 * ONE,
            "./gamma.rs" => 3 * ONE,
            other => panic!("unexpected path {other}"),
        };
        assert_eq!(m.frecency_score, want, "{}", m.path);
        assert_eq!(m.line_number, 1);
    }
}

#[test]
fn scoring_keeps_order_and_text() {
    let dir = create_mock_repo(&[("alpha.rs", 5), ("beta.rs", 3), ("gamma.rs", 1)]);
    let before = search(&dir, &["println!"]);
    let mut after = before.clone();
    let paths: Vec<String> = dir.files.iter().map(|file| file.0.clone()).collect();
    calculate_frecencies(&mut after, &Ok(dir.snapshot(&paths)), None).unwrap();
    assert_eq!(before.len(), after.len());
    for (b, a) in before.iter().zip(after.iter()) {
        assert_eq!(b.path, a.path);
        assert_eq!(b.line_number, a.line_number);
        assert_eq!(b.line_text, a.line_text);
        assert_eq!(b.frecency_score, 0);
        assert!(a.frecency_score > 0);
    }
}

#[test]
fn file_has_one_score_however_it_is_named() {
    let dir = create_mock_repo(&[("alpha.rs", 5), ("beta.rs", 3)]);
    let paths: Vec<String> = dir.files.iter().map(|file| file.0.clone()).collect();
    let m = |path: &str| MatchResult::new(path.to_string(), 1, "println!\n".to_string());
    let mut matches = vec![
        m("alpha.rs"),
        m("./alpha.rs"),
        m("/home/dev/project/alpha.rs"),
        m("/home/dev/project/./alpha.rs"),
        m("/home/dev/project//alpha.rs"),
        m("/home/dev/projects/alpha.rs"),
        m("/home/dev/project/beta.rs"),
        m("/alpha.rs"),
    ];
    calculate_frecencies(&mut matches, &Ok(dir.snapshot(&paths)), Some(3000)).unwrap();
    let scores: Vec<u128> = matches.iter().map(|m| m.frecency_score).collect();
    // alpha.rs stands in 8 trees, beta.rs in 3; each is one committed line.
    assert_eq!(
        scores,
        vec![10 * ONE, 10 * ONE, 10 * ONE, 10 * ONE, 10 * ONE, 0, 5 * ONE, 0]
    );
}

#[test]
fn store_is_asked_once_for_each_key() {
    let dir = create_mock_repo(&[("alpha.rs", 5), ("beta.rs", 3), ("gamma.rs", 1)]);

    // A store that fails when it is asked for a content a second time.
    let mut fetched: Vec<String> = Vec::new();
    for id in objects_to_count(&dir.commits, Some(3000)) {
        assert!(!fetched.contains(&id), "{id} asked for twice");
        fetched.push(id);
    }
    assert_eq!(fetched.len(), 9);

    // And one that fails when it is asked for the blame of a file again.
    let mut matches = search(&dir, &["println!"]);
    matches.extend(search(&dir, &["fn"]));
    assert_eq!(matches.len(), 6);
    let mut blamed: Vec<String> = Vec::new();
    for path in paths_of_interest(&matches, ROOT) {
        assert!(!blamed.contains(&path), "{path} asked for twice");
        blamed.push(path);
    }
    assert_eq!(blamed, vec!["gamma.rs", "beta.rs", "alpha.rs"]);
}

#[test]
fn scoring_twice_gives_identical_scores() {
    let dir = create_mock_repo(&[("alpha.rs", 5), ("beta.rs", 3), ("gamma.rs", 1)]);
    let first = run_zg(&dir, &["println!", "--score"]);
    let second = run_zg(&dir, &["println!", "--score"]);
    assert_eq!(first, second);
}

#[test]
fn column_flag_outputs_correct_columns() {
    let mut dir = create_mock_repo(&[("main.rs", 1), ("lib.rs", 1)]);

    dir.write("main.rs", "fn main() {\n    println!(\"main\");\n}\n");
    dir.write("lib.rs", "fn lib() {\nprintln!(\"lib\");\n}\n");

    let stdout = run_zg(&dir, &["println!", "--column"]);
    let mut found_main = false;
    let mut found_lib = false;

    for line in stdout.lines() {
        let mut parts = line.splitn(4, ':');
        let file = parts.next().unwrap_or("");
        let line_no = parts.next().unwrap_or("");
        let col_no = parts.next().unwrap_or("");
        let _rest = parts.next().unwrap_or("");

        if !line_no.is_empty() && !col_no.is_empty() {
            let col: usize = col_no.parse().expect("valid column number");

            if file.contains("main.rs") {
                assert_eq!(col, 5, "wrong column number for main.rs");
                found_main = true;
            } else if file.contains("lib.rs") {
                assert_eq!(col, 1, "wrong column number for lib.rs");
                found_lib = true;
            }
        }
    }

    assert!(found_main, "no output for main.rs");
    assert!(found_lib, "no output for lib.rs");
}

#[test]
fn default_search_is_case_sensitive() {
    let mut dir = create_mock_repo(&[("case.rs", 1)]);
    dir.write("case.rs", "Hello\nhello\nHELLO\n");

    let stdout = run_zg(&dir, &["hello"]);

    assert!(
        stdout.contains("case.rs:2"),
        "Expected match for lowercase 'hello', got:\n{}",
        stdout
    );
    assert!(
        !stdout.contains("case.rs:1"),
        "Unexpected match for 'Hello'"
    );
    assert!(
        !stdout.contains("case.rs:3"),
        "Unexpected match for 'HELLO'"
    );
}

#[test]
fn ignore_case_short_flag_matches_all_cases() {
    let mut dir = create_mock_repo(&[("case.rs", 1)]);
    dir.write("case.rs", "Hello\nhello\nHELLO\n");

    let stdout = run_zg(&dir, &["-i", "hello"]);

    assert!(stdout.contains("case.rs:1"), "Expected match for 'Hello'");
    assert!(stdout.contains("case.rs:2"), "Expected match for 'hello'");
    assert!(stdout.contains("case.rs:3"), "Expected match for 'HELLO'");
}

#[test]
fn smart_case_no_uppercase_letters() {
    let mut dir = create_mock_repo(&[("case.rs", 1)]);
    dir.write("case.rs", "Hello\nhello\nHELLO\n");

    let stdout = run_zg(&dir, &["-S", "hello"]);

    assert!(stdout.contains("case.rs:1"), "Expected match for 'Hello'");
    assert!(stdout.contains("case.rs:2"), "Expected match for 'hello'");
    assert!(stdout.contains("case.rs:3"), "Expected match for 'HELLO'");
}

#[test]
fn smart_case_has_uppercase_letters() {
    let mut dir = create_mock_repo(&[("case.rs", 1)]);
    dir.write("case.rs", "Hello\nhello\nHELLO\n");

    let stdout = run_zg(&dir, &["--smart-case", "Hello"]);

    assert!(stdout.contains("case.rs:1"), "Expected match for 'Hello'");
    assert!(
        !stdout.contains("case.rs:2"),
        "Unexpected match for 'hello'"
    );
    assert!(
        !stdout.contains("case.rs:3"),
        "Unexpected match for 'HELLO'"
    );
}

#[test]
fn ignore_case_long_flag_matches_all_cases() {
    let mut dir = create_mock_repo(&[("case.rs", 1)]);
    dir.write("case.rs", "Hello\nhello\nHELLO\n");

    let stdout = run_zg(&dir, &["--ignore-case", "HelLo"]);

    assert!(stdout.contains("case.rs:1"), "Expected match for 'Hello'");
    assert!(stdout.contains("case.rs:2"), "Expected match for 'hello'");
    assert!(stdout.contains("case.rs:3"), "Expected match for 'HELLO'");
}

#[test]
fn uncommitted_edit_outranks_decade_old_commit() {
    // fresh.rs was never committed; its second line is a local edit.
    // stale.rs has one commit, ten years old, and no local change.
    let ten_years: i64 = 3650 * 86_400;
    let stale_commit = format!("{:040x}", 0xc0de_0001u64);
    let stale_blob = format!("{:040x}", 0xb10b_0001u64);
    let stale_text = b"fn a() {}\nfn needle() {}\n".to_vec();
    let fresh_text = b"fn b() {}\nfn needle() {}\n".to_vec();
    let repo = MockRepo {
        commits: vec![CommitRecord {
            time_seconds: NOW - ten_years,
            parent_count: 0,
            entries: vec![TreeEntry { path: "stale.rs".to_string(), object_id: stale_blob.clone() }],
        }],
        blobs: vec![(stale_blob, stale_text.clone())],
        files: vec![
            ("stale.rs".to_string(), stale_text, stale_commit),
            ("fresh.rs".to_string(), fresh_text, ZERO_ID.to_string()),
        ],
    };
    let stdout = run_zg(&repo, &["needle", "--score"]);
    let fresh = stdout.find("fresh.rs").expect("fresh.rs");
    let stale = stdout.find("stale.rs").expect("stale.rs");
    assert!(fresh < stale, "order wrong:\n{stdout}");

    let mut matches = search(&repo, &["needle"]);
    let paths = vec!["stale.rs".to_string(), "fresh.rs".to_string()];
    calculate_frecencies(&mut matches, &Ok(repo.snapshot(&paths)), Some(3000)).unwrap();
    for m in &matches {
        if m.path == "./fresh.rs" {
            // No history; line 2 of 2 is not committed: 5 / 2.
            assert_eq!(m.frecency_score, 5 * ONE / 2);
        } else {
            // One commit of 2 lines, 3650 days old, and a committed line: 2 / 2.
            assert_eq!(m.frecency_score, ONE / (2 * 3650) + ONE);
        }
    }
}

#[test]
fn binary_file_does_not_fail_the_run() {
    let mut dir = create_mock_repo(&[("data.bin", 2), ("text.rs", 1)]);
    dir.write("data.bin", "\u{0}\u{0}println!\u{0}\n");
    dir.write("text.rs", "println!(\"text\");\n");
    let stdout = run_zg(&dir, &["println!"]);
    assert!(stdout.contains("text.rs:1"), "got:\n{stdout}");
    assert!(!stdout.contains("data.bin"), "got:\n{stdout}");
}

#[test]
fn unreadable_repository_is_an_error_and_leaves_matches_unscored() {
    let dir = create_mock_repo(&[("alpha.rs", 2)]);
    let mut matches = search(&dir, &["println!"]);
    assert_eq!(matches.len(), 1);
    let outcome =
        calculate_frecencies(&mut matches, &Err(ScoringError::RepositoryUnavailable), Some(3000));
    assert_eq!(outcome, Err(ScoringError::RepositoryUnavailable));
    assert_eq!(matches[0].frecency_score, 0);

    let outcome =
        calculate_frecencies(&mut matches, &Err(ScoringError::HistoryUnavailable), Some(3000));
    assert_eq!(outcome, Err(ScoringError::HistoryUnavailable));
    assert_eq!(matches[0].frecency_score, 0);
    assert_eq!(matches[0].path, "./alpha.rs");
}

#[test]
fn no_matches_need_no_repository() {
    let mut matches: Vec<MatchResult> = Vec::new();
    let outcome =
        calculate_frecencies(&mut matches, &Err(ScoringError::RepositoryUnavailable), Some(3000));
    assert_eq!(outcome, Ok(()));
    assert!(matches.is_empty());
}

#[test]
fn invalid_pattern_is_refused() {
    assert!(Pattern::new("(", false, false).is_none());
    assert!(Pattern::new("println!", false, false).is_some());
}
