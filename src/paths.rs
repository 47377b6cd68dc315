//! Names of the repository's control files and the component-wise path rules
//! that decide which entries are ignored.
use vstd::prelude::*;
use crate::error::Error;
use crate::text::{chars_of, split, split_at_char, string_of, views};

verus! {

broadcast use vstd::string::group_string_axioms;

/// Control directory at the root of a working directory.
pub const REPO_DIR: &'static str = ".get";
/// Configuration file at the root of a working directory.
pub const CONFIG_FILE: &'static str = ".get.toml";
/// Reference file holding the current commit digest.
pub const HEAD_FILE: &'static str = "HEAD";
/// Human-readable log file.
pub const LOG_FILE: &'static str = "LOG";
/// Directory of the object store.
pub const OBJECTS_DIR: &'static str = "objects";
/// Store directory of commit objects; also the kind word of a commit.
pub const COMMITS_DIR: &'static str = "commit";
/// Store directory of tree objects; also the kind word of a tree line.
pub const TREE_DIR: &'static str = "tree";
/// Store directory of blob objects; also the kind word of a blob line.
pub const BLOB_DIR: &'static str = "blob";

/// Whether a piece of a slash-separated path is a normal component (a file or
/// directory name), as opposed to empty, `.` or `..`.
pub open spec fn is_normal_component(p: Seq<char>) -> bool {
    p.len() > 0 && p != seq!['.'] && p != seq!['.', '.']
}

/// The normal components among `pieces`, in order.
pub open spec fn normal_components(pieces: Seq<Seq<char>>) -> Seq<Seq<char>>
    decreases pieces.len(),
{
    if pieces.len() == 0 {
        Seq::empty()
    } else if is_normal_component(pieces.last()) {
        normal_components(pieces.drop_last()).push(pieces.last())
    } else {
        normal_components(pieces.drop_last())
    }
}

/// The file and directory names along a slash-separated path.
pub open spec fn path_components(s: Seq<char>) -> Seq<Seq<char>> {
    normal_components(split(s, '/'))
}

/// The file and directory names along the slash-separated path `s`: a root,
/// `.` and `..` name nothing and are left out.
pub fn parse_path(s: &str) -> (r: Vec<String>)
    ensures
        views(r@) == path_components(s@),
{
    let chars = chars_of(s);
    let pieces = split_at_char(&chars, '/');
    let ghost pv = pieces@.map_values(|p: Vec<char>| p@);
    let mut out: Vec<String> = Vec::new();
    let mut i: usize = 0;
    while i < pieces.len()
        invariant
            i <= pieces.len(),
            pv == pieces@.map_values(|p: Vec<char>| p@),
            pv == split(s@, '/'),
            views(out@) == normal_components(pv.subrange(0, i as int)),
        decreases pieces.len() - i,
    {
        let p = &pieces[i];
        assert(pv.subrange(0, i + 1).drop_last() =~= pv.subrange(0, i as int));
        let normal = p.len() > 0 && !(p.len() == 1 && p[0] == '.') && !(p.len() == 2 && p[0] == '.'
            && p[1] == '.');
        proof {
            assert(p@ == pv[i as int]);
            if p.len() == 1 && p[0] == '.' {
                assert(p@ =~= seq!['.']);
            }
            if p.len() == 2 && p[0] == '.' && p[1] == '.' {
                assert(p@ =~= seq!['.', '.']);
            }
            assert(normal == is_normal_component(p@));
        }
        if normal {
            let name = string_of(p);
            out.push(name);
            assert(views(out@) =~= normal_components(pv.subrange(0, i as int)).push(p@));
        }
        i = i + 1;
    }
    assert(pv.subrange(0, pieces.len() as int) =~= pv);
    out
}

/// Whether some component of `path` equals some pattern: whole names only,
/// never a part of one.
pub open spec fn matches_any(path: Seq<Seq<char>>, patterns: Seq<Seq<char>>) -> bool {
    exists|i: int, j: int| 0 <= i < path.len() && 0 <= j < patterns.len() && path[i] == patterns[j]
}

/// Whether `name` equals one of `patterns`.
fn is_pattern(name: &String, patterns: &Vec<String>) -> (r: bool)
    ensures
        r == (exists|j: int| 0 <= j < patterns.len() && patterns@[j]@ == name@),
{
    let mut j: usize = 0;
    while j < patterns.len()
        invariant
            j <= patterns.len(),
            forall|k: int| 0 <= k < j ==> patterns@[k]@ != name@,
        decreases patterns.len() - j,
    {
        if patterns[j] == *name {
            return true;
        }
        j = j + 1;
    }
    false
}

/// Whether the entry at `path` is excluded from snapshots: some component of
/// it equals a user pattern or a default pattern.
pub fn is_ignored(path: &Vec<String>, ignored: &Vec<String>, default_ignored: &Vec<String>) -> (r:
    bool)
    ensures
        r == (matches_any(views(path@), views(ignored@)) || matches_any(
            views(path@),
            views(default_ignored@),
        )),
{
    let mut i: usize = 0;
    while i < path.len()
        invariant
            i <= path.len(),
            forall|k: int, j: int|
                0 <= k < i && 0 <= j < ignored.len() ==> path@[k]@ != ignored@[j]@,
            forall|k: int, j: int|
                0 <= k < i && 0 <= j < default_ignored.len() ==> path@[k]@
                    != default_ignored@[j]@,
        decreases path.len() - i,
    {
        if is_pattern(&path[i], ignored) || is_pattern(&path[i], default_ignored) {
            proof {
                let k = i as int;
                if exists|j: int| 0 <= j < ignored.len() && ignored@[j]@ == path@[k]@ {
                    let j = choose|j: int| 0 <= j < ignored.len() && ignored@[j]@ == path@[k]@;
                    assert(views(path@)[k] == views(ignored@)[j]);
                } else {
                    let j = choose|j: int|
                        0 <= j < default_ignored.len() && default_ignored@[j]@ == path@[k]@;
                    assert(views(path@)[k] == views(default_ignored@)[j]);
                }
            }
            return true;
        }
        i = i + 1;
    }
    proof {
        if matches_any(views(path@), views(ignored@)) {
            let (k, j) = choose|k: int, j: int|
                0 <= k < path.len() && 0 <= j < ignored.len() && views(path@)[k] == views(
                    ignored@,
                )[j];
            assert(path@[k]@ == ignored@[j]@);
        }
        if matches_any(views(path@), views(default_ignored@)) {
            let (k, j) = choose|k: int, j: int|
                0 <= k < path.len() && 0 <= j < default_ignored.len() && views(path@)[k] == views(
                    default_ignored@,
                )[j];
            assert(path@[k]@ == default_ignored@[j]@);
        }
    }
    false
}

/// The patterns that are always ignored: the control directory and the
/// configuration file.
pub fn default_ignore() -> (r: Vec<String>)
    ensures
        views(r@) == seq![REPO_DIR@, CONFIG_FILE@],
{
    let r = vec![REPO_DIR.to_string(), CONFIG_FILE.to_string()];
    assert(views(r@) =~= seq![REPO_DIR@, CONFIG_FILE@]);
    r
}

/// Fails when the directory already holds a repository.
pub fn check_no_repo_dir(has_repo_dir: bool) -> (r: Result<(), Error>)
    ensures
        r is Ok <==> !has_repo_dir,
        r is Err ==> r == Err::<(), Error>(Error::RepoAlreadyExist),
{
    if has_repo_dir {
        return Err(Error::RepoAlreadyExist);
    }
    Ok(())
}

/// Given, for a directory and each of its ancestors from the nearest on,
/// whether it holds a control directory, the position of the first that does:
/// the root of the repository.
pub fn repo_dir(has_repo_dir: &Vec<bool>) -> (r: Result<usize, Error>)
    ensures
        r is Err <==> forall|j: int| 0 <= j < has_repo_dir.len() ==> !has_repo_dir@[j],
        r is Err ==> r == Err::<usize, Error>(Error::NotAGetRepo),
        r matches Ok(i) ==> i < has_repo_dir.len() && has_repo_dir@[i as int] && forall|j: int|
            0 <= j < i ==> !has_repo_dir@[j],
{
    let mut i: usize = 0;
    while i < has_repo_dir.len()
        invariant
            i <= has_repo_dir.len(),
            forall|j: int| 0 <= j < i ==> !has_repo_dir@[j],
        decreases has_repo_dir.len() - i,
    {
        if has_repo_dir[i] {
            return Ok(i);
        }
        i = i + 1;
    }
    Err(Error::NotAGetRepo)
}

/// The path of a file or directory of the control directory, from the root of
/// the working directory.
fn control_path(parts: &Vec<&'static str>) -> (r: Vec<String>)
    ensures
        views(r@) == seq![REPO_DIR@] + parts@.map_values(|p: &str| p@),
{
    let mut r: Vec<String> = vec![REPO_DIR.to_string()];
    let mut i: usize = 0;
    while i < parts.len()
        invariant
            i <= parts.len(),
            views(r@) == seq![REPO_DIR@] + parts@.subrange(0, i as int).map_values(|p: &str| p@),
        decreases parts.len() - i,
    {
        let ghost before = r@;
        r.push(parts[i].to_string());
        assert(views(r@) =~= views(before).push(parts@[i as int]@));
        assert(parts@.subrange(0, i + 1).map_values(|p: &str| p@) =~= parts@.subrange(0, i as int).map_values(|p: &str| p@).push(parts@[i as int]@));
        i = i + 1;
    }
    assert(parts@.subrange(0, parts.len() as int) =~= parts@);
    r
}

/// The directory of commit archives, from the root of the working directory.
pub fn commits_path() -> (r: Vec<String>)
    ensures
        views(r@) == seq![REPO_DIR@, OBJECTS_DIR@, COMMITS_DIR@],
{
    let r = control_path(&vec![OBJECTS_DIR, COMMITS_DIR]);
    assert(views(r@) =~= seq![REPO_DIR@, OBJECTS_DIR@, COMMITS_DIR@]);
    r
}

/// The directory of tree archives, from the root of the working directory.
pub fn tree_path() -> (r: Vec<String>)
    ensures
        views(r@) == seq![REPO_DIR@, OBJECTS_DIR@, TREE_DIR@],
{
    let r = control_path(&vec![OBJECTS_DIR, TREE_DIR]);
    assert(views(r@) =~= seq![REPO_DIR@, OBJECTS_DIR@, TREE_DIR@]);
    r
}

/// The directory of blob archives, from the root of the working directory.
pub fn blob_path() -> (r: Vec<String>)
    ensures
        views(r@) == seq![REPO_DIR@, OBJECTS_DIR@, BLOB_DIR@],
{
    let r = control_path(&vec![OBJECTS_DIR, BLOB_DIR]);
    assert(views(r@) =~= seq![REPO_DIR@, OBJECTS_DIR@, BLOB_DIR@]);
    r
}

/// The head reference file, from the root of the working directory.
pub fn head_path() -> (r: Vec<String>)
    ensures
        views(r@) == seq![REPO_DIR@, HEAD_FILE@],
{
    let r = control_path(&vec![HEAD_FILE]);
    assert(views(r@) =~= seq![REPO_DIR@, HEAD_FILE@]);
    r
}

/// The log file, from the root of the working directory.
pub fn log_path() -> (r: Vec<String>)
    ensures
        views(r@) == seq![REPO_DIR@, LOG_FILE@],
{
    let r = control_path(&vec![LOG_FILE]);
    assert(views(r@) =~= seq![REPO_DIR@, LOG_FILE@]);
    r
}

/// The directories that a new repository needs, each after its parent: the
/// control directory, the object store, and its part for each kind.
pub fn create_utility_dirs() -> (r: Vec<Vec<String>>)
    ensures
        r@.map_values(|p: Vec<String>| views(p@)) == seq![
            seq![REPO_DIR@],
            seq![REPO_DIR@, OBJECTS_DIR@],
            seq![REPO_DIR@, OBJECTS_DIR@, COMMITS_DIR@],
            seq![REPO_DIR@, OBJECTS_DIR@, TREE_DIR@],
            seq![REPO_DIR@, OBJECTS_DIR@, BLOB_DIR@],
        ],
{
    let repo = control_path(&Vec::new());
    let objects = control_path(&vec![OBJECTS_DIR]);
    let r = vec![repo, objects, commits_path(), tree_path(), blob_path()];
    proof {
        assert(views(r@[0]@) =~= seq![REPO_DIR@]);
        assert(views(r@[1]@) =~= seq![REPO_DIR@, OBJECTS_DIR@]);
    }
    assert(r@.map_values(|p: Vec<String>| views(p@)) =~= seq![
        seq![REPO_DIR@],
        seq![REPO_DIR@, OBJECTS_DIR@],
        seq![REPO_DIR@, OBJECTS_DIR@, COMMITS_DIR@],
        seq![REPO_DIR@, OBJECTS_DIR@, TREE_DIR@],
        seq![REPO_DIR@, OBJECTS_DIR@, BLOB_DIR@],
    ]);
    r
}

/// Below a path none of whose components is ignored, an entry is ignored
/// exactly when its own name is a pattern.
pub proof fn lemma_ignored_component(
    prefix: Seq<Seq<char>>,
    name: Seq<char>,
    p1: Seq<Seq<char>>,
    p2: Seq<Seq<char>>,
)
    requires
        !matches_any(prefix, p1),
        !matches_any(prefix, p2),
    ensures
        (matches_any(prefix.push(name), p1) || matches_any(prefix.push(name), p2)) == (p1
            + p2).contains(name),
{
    let path = prefix.push(name);
    let all = p1 + p2;
    if matches_any(path, p1) {
        let (i, j) = choose|i: int, j: int|
            0 <= i < path.len() && 0 <= j < p1.len() && path[i] == p1[j];
        if i < prefix.len() {
            assert(prefix[i] == p1[j]);
        }
        assert(all[j] == name);
    }
    if matches_any(path, p2) {
        let (i, j) = choose|i: int, j: int|
            0 <= i < path.len() && 0 <= j < p2.len() && path[i] == p2[j];
        if i < prefix.len() {
            assert(prefix[i] == p2[j]);
        }
        assert(all[p1.len() + j] == name);
    }
    if all.contains(name) {
        let j = choose|j: int| 0 <= j < all.len() && all[j] == name;
        let i = prefix.len() as int;
        assert(path[i] == name);
        if j < p1.len() {
            assert(path[i] == p1[j]);
        } else {
            assert(path[i] == p2[j - p1.len()]);
        }
    }
}

} // verus!
