//! Path keys: the one form under which a file is looked up.
//!
//! The search reports paths as it walked them (`./src/lib.rs`, or from the
//! root of the file system), the history names them from the root of the
//! repository (`src/lib.rs`). All must meet under the same key: the path from
//! the root of the repository, without any leading "current directory"
//! component.

use vstd::prelude::*;
use vstd::string::*;

verus! {

/// A "current directory" component starts at position `at` of `p`: a `.` that
/// ends the path or is followed by `/`.
pub open spec fn cur_dir_at(p: Seq<char>, at: int) -> bool {
    0 <= at < p.len() && p[at] == '.' && (at + 1 == p.len() || p[at + 1] == '/')
}

/// The path begins with a "current directory" component: it is `.` or starts with `./`.
pub open spec fn has_cur_dir_marker(p: Seq<char>) -> bool {
    cur_dir_at(p, 0)
}

/// How far the leading current-directory components of `p` reach, counted
/// from `from`: each such component, and each `/` behind one, adds a character.
pub open spec fn marker_len(p: Seq<char>, from: int) -> nat
    decreases p.len() - from,
{
    if cur_dir_at(p, from) || (0 < from < p.len() && p[from] == '/') {
        1 + marker_len(p, from + 1)
    } else {
        0
    }
}

/// The key of a path: the path without its leading current-directory components.
pub open spec fn path_key(p: Seq<char>) -> Seq<char> {
    p.skip(marker_len(p, 0) as int)
}

/// The path lies in the directory `root`, which is named from the root of
/// the file system: it is `root` itself, or `root`, a `/` and more.
pub open spec fn is_under(root: Seq<char>, path: Seq<char>) -> bool {
    &&& 0 < root.len() <= path.len()
    &&& root[0] == '/'
    &&& path.subrange(0, root.len() as int) == root
    &&& (root.last() == '/' || path.len() == root.len() || path[root.len() as int] == '/')
}

/// The key of a path in the repository at `root`: for a path in `root`, what
/// follows `root`, without the separators and the current-directory
/// components that it begins with; for any other path, its key as it stands.
pub open spec fn repo_key(root: Seq<char>, path: Seq<char>) -> Seq<char> {
    if is_under(root, path) {
        path.skip((root.len() + marker_len(path, root.len() as int)) as int)
    } else {
        path_key(path)
    }
}

/// The marker prefix ends within the path; no current-directory component
/// starts where it ends, and no separator stands there unless the path
/// begins with it.
pub proof fn lemma_marker_end(p: Seq<char>, from: int)
    requires
        0 <= from <= p.len(),
    ensures
        from + marker_len(p, from) <= p.len(),
        !cur_dir_at(p, from + marker_len(p, from)),
        0 < from + marker_len(p, from) < p.len() ==> p[from + marker_len(p, from)] != '/',
    decreases p.len() - from,
{
    if cur_dir_at(p, from) || (0 < from < p.len() && p[from] == '/') {
        lemma_marker_end(p, from + 1);
    }
}

/// A key begins with no current-directory component.
pub proof fn lemma_path_key_unmarked(p: Seq<char>)
    ensures
        !has_cur_dir_marker(path_key(p)),
{
    lemma_marker_end(p, 0);
}

/// The key of a key is the key itself.
pub proof fn lemma_path_key_idempotent(p: Seq<char>)
    ensures
        path_key(path_key(p)) == path_key(p),
{
    lemma_path_key_unmarked(p);
    assert(path_key(p).skip(0) =~= path_key(p));
}

/// Behind its first character, a path with `prefix` put before it has the
/// marker prefix that it has alone.
proof fn lemma_marker_len_shift(prefix: Seq<char>, p: Seq<char>, from: int)
    requires
        0 < from <= p.len(),
    ensures
        marker_len(prefix + p, prefix.len() + from) == marker_len(p, from),
    decreases p.len() - from,
{
    let whole = prefix + p;
    if from < p.len() {
        assert(whole[prefix.len() + from] == p[from]);
        if from + 1 < p.len() {
            assert(whole[prefix.len() + from + 1] == p[from + 1]);
        }
        lemma_marker_len_shift(prefix, p, from + 1);
    }
}

/// A relative path behind a prefix has the marker prefix that it has alone.
proof fn lemma_marker_len_behind(prefix: Seq<char>, p: Seq<char>)
    requires
        prefix.len() > 0,
        p.len() == 0 || p[0] != '/',
    ensures
        marker_len(prefix + p, prefix.len() as int) == marker_len(p, 0),
{
    let whole = prefix + p;
    let at = prefix.len() as int;
    if p.len() > 0 {
        assert(whole[at] == p[0]);
        if p.len() > 1 {
            assert(whole[at + 1] == p[1]);
        }
        assert(cur_dir_at(whole, at) == cur_dir_at(p, 0));
        if cur_dir_at(p, 0) {
            lemma_marker_len_shift(prefix, p, 1);
        }
    }
}

/// A relative path has the same key with and without `./` before it.
pub proof fn lemma_marker_is_ignored(p: Seq<char>)
    requires
        p.len() == 0 || p[0] != '/',
    ensures
        path_key(seq!['.', '/'] + p) == path_key(p),
{
    let prefix = seq!['.', '/'];
    let whole = prefix + p;
    assert(cur_dir_at(whole, 0));
    assert(marker_len(whole, 0) == 1 + marker_len(whole, 1));
    assert(marker_len(whole, 1) == 1 + marker_len(whole, 2));
    lemma_marker_len_behind(prefix, p);
    lemma_marker_end(p, 0);
    assert(whole.skip(2 + marker_len(p, 0) as int) =~= p.skip(marker_len(p, 0) as int));
}

/// A key in a repository begins with no current-directory component, and is
/// its own key.
pub proof fn lemma_repo_key_is_a_key(root: Seq<char>, path: Seq<char>)
    ensures
        !has_cur_dir_marker(repo_key(root, path)),
        path_key(repo_key(root, path)) == repo_key(root, path),
{
    if is_under(root, path) {
        lemma_marker_end(path, root.len() as int);
    } else {
        lemma_path_key_unmarked(path);
    }
    assert(repo_key(root, path).skip(0) =~= repo_key(root, path));
}

/// A file has one key, whether it is named from the root of the repository
/// or, through the root of the repository, from the root of the file system.
pub proof fn lemma_absolute_and_relative_agree(root: Seq<char>, p: Seq<char>)
    requires
        root.len() > 0,
        root[0] == '/',
        p.len() == 0 || p[0] != '/',
    ensures
        repo_key(root, root + seq!['/'] + p) == path_key(p),
        repo_key(root, p) == path_key(p),
{
    let prefix = root + seq!['/'];
    let whole = prefix + p;
    let at = root.len() as int;
    assert(whole.subrange(0, at) =~= root);
    assert(whole[at] == '/');
    assert(is_under(root, whole));
    assert(marker_len(whole, at) == 1 + marker_len(whole, at + 1));
    lemma_marker_len_behind(prefix, p);
    lemma_marker_end(p, 0);
    assert(whole.skip(at + 1 + marker_len(p, 0)) =~= p.skip(marker_len(p, 0) as int));
    if is_under(root, p) {
        assert(p.subrange(0, at)[0] == root[0]);
    }
}

/// One file has one key: named from the root of the repository, named from
/// the current directory there, and named through the root of the repository
/// from the root of the file system, it has as its key the path from the
/// root of the repository.
pub proof fn lemma_one_key_for_one_file(root: Seq<char>, rel: Seq<char>)
    requires
        root.len() > 0,
        root[0] == '/',
        rel.len() == 0 || rel[0] != '/',
        !has_cur_dir_marker(rel),
    ensures
        repo_key(root, rel) == rel,
        repo_key(root, seq!['.', '/'] + rel) == rel,
        repo_key(root, root + seq!['/'] + rel) == rel,
{
    lemma_absolute_and_relative_agree(root, rel);
    lemma_marker_is_ignored(rel);
    assert(path_key(rel) =~= rel);
    let marked = seq!['.', '/'] + rel;
    if is_under(root, marked) {
        assert(marked.subrange(0, root.len() as int)[0] == root[0]);
    }
}

/// Without a known root, the key in a repository is the key of the path.
pub proof fn lemma_repo_key_without_root(path: Seq<char>)
    ensures
        repo_key(Seq::<char>::empty(), path) == path_key(path),
{
}

/// The key of a key is the key itself.
pub proof fn lemma_repo_key_idempotent(root: Seq<char>, path: Seq<char>)
    ensures
        repo_key(root, repo_key(root, path)) == repo_key(root, path),
{
    let key = repo_key(root, path);
    lemma_repo_key_is_a_key(root, path);
    if is_under(root, path) {
        lemma_marker_end(path, root.len() as int);
    } else {
        lemma_marker_end(path, 0);
        if marker_len(path, 0) == 0 {
            assert(key =~= path);
        }
    }
    if is_under(root, key) {
        assert(key.subrange(0, root.len() as int)[0] == root[0]);
    }
}

/// Tells whether `path` lies in the directory `root`.
pub fn lies_under(root: &str, path: &str) -> (under: bool)
    ensures
        under == is_under(root@, path@),
{
    let r: usize = root.unicode_len();
    let n: usize = path.unicode_len();
    if r == 0 || r > n || root.get_char(0) != '/' {
        return false;
    }
    let mut i: usize = 0;
    while i < r
        invariant
            r == root@.len(),
            n == path@.len(),
            0 < r <= n,
            i <= r,
            forall|k: int| 0 <= k < i ==> path@[k] == root@[k],
        decreases r - i,
    {
        if path.get_char(i) != root.get_char(i) {
            assert(path@.subrange(0, r as int)[i as int] != root@[i as int]);
            return false;
        }
        i = i + 1;
    }
    assert(path@.subrange(0, r as int) =~= root@);
    root.get_char(r - 1) == '/' || r == n || path.get_char(r) == '/'
}

/// The key of `path` in the repository whose working tree stands at `root`:
/// the path from `root`, without any leading current-directory component.
/// `root` is named from the root of the file system; it is empty where it is
/// not known.
pub fn normalize_repo_path<'a>(root: &str, path: &'a str) -> (key: &'a str)
    ensures
        key@ == repo_key(root@, path@),
{
    let n: usize = path.unicode_len();
    let from: usize = if lies_under(root, path) {
        root.unicode_len()
    } else {
        0
    };
    let mut start: usize = from;
    while start < n && ((start > 0 && path.get_char(start) == '/') || (path.get_char(start) == '.'
        && (start + 1 == n || path.get_char(start + 1) == '/')))
        invariant
            n == path@.len(),
            from <= start <= n,
            from + marker_len(path@, from as int) == start + marker_len(path@, start as int),
        decreases n - start,
    {
        start = start + 1;
    }
    path.substring_char(start, n)
}

} // verus!
