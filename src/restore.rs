//! Restoring a commit: reading its objects back from the store, and the plan
//! of filesystem steps that replaces the working directory with it.
use vstd::prelude::*;
use vstd::utf8::{decode_utf8, valid_utf8};
use crate::archive::{gunzip, gunzip_of, gz_header, gz_header_of};
use crate::encoding::{is_decimal, parse_decimal, text_from_utf8, text_value};
use crate::object::Object;
use crate::error::Error;
use crate::paths::{is_ignored, is_normal_component, matches_any, BLOB_DIR, TREE_DIR};
use crate::snapshot::Entry;
use crate::store::{ObjectKind, ObjectStore};
use crate::worktree::child_path;
use crate::object::line_of;
use crate::text::{chars_of, join, lemma_split_after_sep, lemma_split_join, split, split_at_char, string_of, views};
use vstd::utf8::encode_utf8;

verus! {

broadcast use vstd::string::group_string_axioms;

/// A filesystem step, with paths given from the root of the working directory.
pub enum FsAction {
    RemoveFile(Vec<String>),
    RemoveDir(Vec<String>),
    CreateDir(Vec<String>),
    WriteFile(Vec<String>, String),
}

/// What a filesystem step does, as plain values.
pub enum FsStep {
    RemoveFile(Seq<Seq<char>>),
    RemoveDir(Seq<Seq<char>>),
    CreateDir(Seq<Seq<char>>),
    WriteFile(Seq<Seq<char>>, Seq<char>),
}

impl FsAction {
    pub open spec fn view(&self) -> FsStep {
        match self {
            FsAction::RemoveFile(p) => FsStep::RemoveFile(views(p@)),
            FsAction::RemoveDir(p) => FsStep::RemoveDir(views(p@)),
            FsAction::CreateDir(p) => FsStep::CreateDir(views(p@)),
            FsAction::WriteFile(p, t) => FsStep::WriteFile(views(p@), t@),
        }
    }
}

/// The steps of a list of actions.
pub open spec fn steps(v: Seq<FsAction>) -> Seq<FsStep> {
    v.map_values(|a: FsAction| a.view())
}

/// The error for an object that is not in the store.
pub open spec fn missing(kind: ObjectKind) -> Error {
    if kind == ObjectKind::Commit {
        Error::CommitNotFound
    } else {
        Error::ObjectNotFound
    }
}

/// The text of the stored object with this kind and digest.
pub open spec fn stored_text(
    m: Map<(ObjectKind, Seq<char>), Seq<u8>>,
    kind: ObjectKind,
    digest: Seq<char>,
) -> Result<Seq<char>, Error> {
    if !m.contains_key((kind, digest)) {
        Err(missing(kind))
    } else {
        match gunzip_of(m[(kind, digest)]) {
            None => Err(Error::Unexpected),
            Some(bytes) => if valid_utf8(bytes) {
                Ok(decode_utf8(bytes))
            } else {
                Err(Error::UnsupportedEncoding)
            },
        }
    }
}

/// Reads and decodes the stored object with this kind and digest.
pub fn read_text(store: &ObjectStore, kind: ObjectKind, digest: &String) -> (r: Result<String, Error>)
    requires
        store.wf(),
    ensures
        match stored_text(store.view(), kind, digest@) {
            Ok(t) => r matches Ok(s) && s@ == t,
            Err(e) => r == Err::<String, Error>(e),
        },
{
    let archive = match store.read(kind, digest) {
        Some(a) => a,
        None => {
            return Err(
                if kind == ObjectKind::Commit {
                    Error::CommitNotFound
                } else {
                    Error::ObjectNotFound
                },
            );
        },
    };
    let bytes = match gunzip(archive.as_slice()) {
        Some(b) => b,
        None => {
            return Err(Error::Unexpected);
        },
    };
    match text_from_utf8(bytes.as_slice()) {
        Some(t) => Ok(t),
        None => Err(Error::UnsupportedEncoding),
    }
}

/// Whether `n` can name an entry of a directory: a normal component without
/// a slash.
pub open spec fn valid_name(n: Seq<char>) -> bool {
    is_normal_component(n) && !n.contains('/')
}

/// The kind, digest and name of a listing line, when it has that shape.
pub open spec fn parsed_line(line: Seq<char>) -> Option<(ObjectKind, Seq<char>, Seq<char>)> {
    let p = split(line, '\t');
    if p.len() != 3 || !valid_name(p[2]) {
        None
    } else if p[0] == TREE_DIR@ {
        Some((ObjectKind::Tree, p[1], p[2]))
    } else if p[0] == BLOB_DIR@ {
        Some((ObjectKind::Blob, p[1], p[2]))
    } else {
        None
    }
}

fn check_name(n: &Vec<char>) -> (r: bool)
    ensures
        r == valid_name(n@),
{
    if n.len() == 0 || (n.len() == 1 && n[0] == '.') || (n.len() == 2 && n[0] == '.' && n[1] == '.') {
        proof {
            if n.len() == 1 {
                assert(n@ =~= seq!['.']);
            }
            if n.len() == 2 {
                assert(n@ =~= seq!['.', '.']);
            }
        }
        return false;
    }
    let mut i: usize = 0;
    while i < n.len()
        invariant
            i <= n.len(),
            forall|k: int| 0 <= k < i ==> n@[k] != '/',
        decreases n.len() - i,
    {
        if n[i] == '/' {
            return false;
        }
        i = i + 1;
    }
    proof {
        assert(n@ != seq!['.']);
        assert(n@ != seq!['.', '.']);
    }
    true
}

/// Splits a listing line into its kind, digest and name.
pub fn parse_line(line: &Vec<char>) -> (r: Result<(ObjectKind, String, String), Error>)
    ensures
        match parsed_line(line@) {
            None => r == Err::<(ObjectKind, String, String), Error>(Error::Unexpected),
            Some((k, d, n)) => r matches Ok((k2, d2, n2)) && k2 == k && d2@ == d && n2@ == n,
        },
{
    let parts = split_at_char(line, '\t');
    let ghost p = split(line@, '\t');
    assert(parts@.map_values(|v: Vec<char>| v@) == p);
    if parts.len() != 3 || !check_name(&parts[2]) {
        proof {
            if parts.len() == 3 {
                assert(parts@[2]@ == p[2]);
            }
        }
        return Err(Error::Unexpected);
    }
    assert(parts@[0]@ == p[0] && parts@[1]@ == p[1] && parts@[2]@ == p[2]);
    let kind_word = string_of(&parts[0]);
    let kind = if kind_word == TREE_DIR.to_string() {
        ObjectKind::Tree
    } else if kind_word == BLOB_DIR.to_string() {
        ObjectKind::Blob
    } else {
        return Err(Error::Unexpected);
    };
    Ok((kind, string_of(&parts[1]), string_of(&parts[2])))
}

/// The lines of an object's text: none for an empty text.
pub open spec fn body_lines(text: Seq<char>) -> Seq<Seq<char>> {
    if text.len() == 0 {
        Seq::empty()
    } else {
        split(text, '\n')
    }
}

fn lines_of(text: &String) -> (r: Vec<Vec<char>>)
    ensures
        r@.map_values(|v: Vec<char>| v@) == body_lines(text@),
{
    let chars = chars_of(text.as_str());
    if chars.len() == 0 {
        let r: Vec<Vec<char>> = Vec::new();
        assert(r@.map_values(|v: Vec<char>| v@) =~= body_lines(text@));
        r
    } else {
        split_at_char(&chars, '\n')
    }
}

/// The properties and listing of a commit's text: its first four lines (parent
/// digest, author, timestamp, message), whose timestamp must be a decimal
/// `u64`, and what follows them, none when only an empty line does.
pub open spec fn commit_parts(text: Seq<char>) -> Option<(Seq<Seq<char>>, Seq<Seq<char>>)> {
    let ls = split(text, '\n');
    if ls.len() < 4 || !is_decimal(ls[2]) {
        None
    } else {
        let rest = ls.subrange(4, ls.len() as int);
        Some(
            (
                ls.subrange(0, 4),
                if rest == seq![Seq::<char>::empty()] {
                    Seq::empty()
                } else {
                    rest
                },
            ),
        )
    }
}

/// The listing of a commit's text.
pub open spec fn commit_lines(text: Seq<char>) -> Option<Seq<Seq<char>>> {
    match commit_parts(text) {
        None => None,
        Some(parts) => Some(parts.1),
    }
}

/// Splits a commit's text into its four properties, its listing lines and
/// its timestamp.
pub fn parse_commit(text: &String) -> (r: Result<(Vec<Vec<char>>, Vec<Vec<char>>, u64), Error>)
    ensures
        match commit_parts(text@) {
            None => r == Err::<(Vec<Vec<char>>, Vec<Vec<char>>, u64), Error>(Error::Unexpected),
            Some((props, ls)) => r matches Ok((p, v, t)) && p@.map_values(|x: Vec<char>| x@) == props
                && v@.map_values(|x: Vec<char>| x@) == ls && t == text_value(props[2]),
        },
{
    let chars = chars_of(text.as_str());
    let mut ls = split_at_char(&chars, '\n');
    let ghost lv = split(text@, '\n');
    if ls.len() < 4 {
        return Err(Error::Unexpected);
    }
    assert(ls@[2]@ == lv[2]);
    let timestamp = match parse_decimal(&ls[2]) {
        Some(t) => t,
        None => {
            return Err(Error::Unexpected);
        },
    };
    let ghost all = ls@;
    let rest = ls.split_off(4);
    assert(ls@ == all.subrange(0, 4));
    assert(ls@.map_values(|x: Vec<char>| x@) =~= lv.subrange(0, 4));
    assert(rest@ == all.subrange(4, all.len() as int));
    assert(rest@.map_values(|x: Vec<char>| x@) =~= lv.subrange(4, lv.len() as int));
    if rest.len() == 1 && rest[0].len() == 0 {
        let none: Vec<Vec<char>> = Vec::new();
        assert(rest@[0]@ =~= Seq::<char>::empty());
        assert(lv.subrange(4, lv.len() as int) =~= seq![Seq::<char>::empty()]);
        assert(none@.map_values(|x: Vec<char>| x@) =~= Seq::<Seq<char>>::empty());
        return Ok((ls, none, timestamp));
    }
    proof {
        if lv.subrange(4, lv.len() as int) == seq![Seq::<char>::empty()] {
            assert(rest@.map_values(|x: Vec<char>| x@)[0] == rest@[0]@);
        }
    }
    Ok((ls, rest, timestamp))
}

fn strings_of(v: &Vec<Vec<char>>) -> (r: Vec<String>)
    ensures
        views(r@) == v@.map_values(|x: Vec<char>| x@),
{
    let mut r: Vec<String> = Vec::new();
    let mut i: usize = 0;
    while i < v.len()
        invariant
            i <= v.len(),
            views(r@) == v@.map_values(|x: Vec<char>| x@).subrange(0, i as int),
        decreases v.len() - i,
    {
        let ghost before = r@;
        let s = string_of(&v[i]);
        r.push(s);
        assert(views(r@) =~= views(before).push(s@));
        assert(v@.map_values(|x: Vec<char>| x@).subrange(0, i + 1) =~= v@.map_values(|x: Vec<char>| x@).subrange(0, i as int).push(v@[i as int]@));
        i = i + 1;
    }
    assert(v@.map_values(|x: Vec<char>| x@).subrange(0, v.len() as int) =~= v@.map_values(|x: Vec<char>| x@));
    r
}

/// Reads a commit object back from its text and digest: its properties
/// (parent digest, author, timestamp, message), its listing lines, its message
/// and its timestamp. The text must hold the four properties, the timestamp in
/// decimal.
pub fn read_commit(text: &String, digest: String) -> (r: Result<Object, Error>)
    ensures
        match commit_parts(text@) {
            None => r == Err::<Object, Error>(Error::Unexpected),
            Some((props, ls)) => r matches Ok(o) && o matches Object::Commit {
                path: pa,
                content: c,
                properties: q,
                message: m,
                timestamp: t,
                digest: d,
            } && pa@.len() == 0 && views(c@) == ls && views(q@) == props && m@ == props[3] && t
                == text_value(props[2]) && d == digest,
        },
{
    let (props, lines, timestamp) = match parse_commit(text) {
        Ok(parts) => parts,
        Err(e) => {
            return Err(e);
        },
    };
    let ghost parts = commit_parts(text@)->Some_0;
    assert(commit_parts(text@) is Some);
    assert(props@.map_values(|x: Vec<char>| x@) == parts.0);
    assert(props@.len() == 4);
    assert(props@[3]@ == parts.0[3]);
    let properties = strings_of(&props);
    let content = strings_of(&lines);
    let message = string_of(&props[3]);
    Ok(Object::new_commit(Vec::new(), content, properties, message, timestamp).with_digest(digest))
}

/// The steps that recreate the entries of a listing below `prefix`, read from
/// the store: for a tree, its directory and then its own entries; for a blob,
/// its file. `fuel` bounds the depth of trees, so a store whose trees refer
/// to each other in a cycle is rejected.
pub open spec fn restored(
    m: Map<(ObjectKind, Seq<char>), Seq<u8>>,
    lines: Seq<Seq<char>>,
    prefix: Seq<Seq<char>>,
    fuel: nat,
) -> Result<Seq<FsStep>, Error>
    decreases fuel, lines.len(),
{
    if lines.len() == 0 {
        Ok(Seq::empty())
    } else {
        match restored(m, lines.drop_last(), prefix, fuel) {
            Err(e) => Err(e),
            Ok(s1) => match restored_entry(m, lines.last(), prefix, fuel) {
                Err(e) => Err(e),
                Ok(s2) => Ok(s1 + s2),
            },
        }
    }
}

/// The steps that recreate the entry of one listing line below `prefix`.
pub open spec fn restored_entry(
    m: Map<(ObjectKind, Seq<char>), Seq<u8>>,
    line: Seq<char>,
    prefix: Seq<Seq<char>>,
    fuel: nat,
) -> Result<Seq<FsStep>, Error>
    decreases fuel, 0nat,
{
    match parsed_line(line) {
        None => Err(Error::Unexpected),
        Some((kind, digest, name)) => {
            let path = prefix.push(name);
            match stored_text(m, kind, digest) {
                Err(e) => Err(e),
                Ok(text) => if kind == ObjectKind::Blob {
                    Ok(seq![FsStep::WriteFile(path, text)])
                } else if fuel == 0 {
                    Err(Error::Unexpected)
                } else {
                    match restored(m, body_lines(text), path, (fuel - 1) as nat) {
                        Err(e) => Err(e),
                        Ok(s) => Ok(seq![FsStep::CreateDir(path)] + s),
                    }
                },
            }
        },
    }
}

proof fn lemma_restored_prefix(
    m: Map<(ObjectKind, Seq<char>), Seq<u8>>,
    lines: Seq<Seq<char>>,
    prefix: Seq<Seq<char>>,
    fuel: nat,
    k: int,
)
    requires
        0 <= k <= lines.len(),
        restored(m, lines.subrange(0, k), prefix, fuel) is Err,
    ensures
        restored(m, lines, prefix, fuel) == restored(m, lines.subrange(0, k), prefix, fuel),
    decreases lines.len() - k,
{
    if k < lines.len() {
        let s1 = lines.subrange(0, k + 1);
        assert(s1.drop_last() =~= lines.subrange(0, k));
        lemma_restored_prefix(m, lines, prefix, fuel, k + 1);
    } else {
        assert(lines.subrange(0, k) =~= lines);
    }
}

proof fn lemma_restored_step(
    m: Map<(ObjectKind, Seq<char>), Seq<u8>>,
    lines: Seq<Seq<char>>,
    prefix: Seq<Seq<char>>,
    fuel: nat,
    i: int,
)
    requires
        0 <= i < lines.len(),
        restored(m, lines.subrange(0, i), prefix, fuel) is Ok,
    ensures
        restored(m, lines.subrange(0, i + 1), prefix, fuel) == match restored_entry(m, lines[i], prefix, fuel) {
            Err(e) => Err(e),
            Ok(s2) => Ok(restored(m, lines.subrange(0, i), prefix, fuel)->Ok_0 + s2),
        },
{
    let next = lines.subrange(0, i + 1);
    assert(next.drop_last() =~= lines.subrange(0, i));
    assert(next.last() == lines[i]);
}

/// Adds to `out` the steps that recreate the listing `lines` below `prefix`,
/// reading each tree and blob from the store as its line is met.
pub fn restore_tree_from_storage(
    store: &ObjectStore,
    lines: &Vec<Vec<char>>,
    prefix: &Vec<String>,
    fuel: usize,
    out: &mut Vec<FsAction>,
) -> (r: Result<(), Error>)
    requires
        store.wf(),
    ensures
        match restored(store.view(), lines@.map_values(|x: Vec<char>| x@), views(prefix@), fuel as nat) {
            Ok(s) => r is Ok && steps(final(out)@) == steps(old(out)@) + s,
            Err(e) => r == Err::<(), Error>(e),
        },
    decreases fuel,
{
    let ghost m = store.view();
    let ghost lv = lines@.map_values(|x: Vec<char>| x@);
    let ghost start = steps(out@);
    let mut i: usize = 0;
    while i < lines.len()
        invariant
            i <= lines.len(),
            store.wf(),
            m == store.view(),
            lv == lines@.map_values(|x: Vec<char>| x@),
            start == steps(old(out)@),
            restored(m, lv.subrange(0, i as int), views(prefix@), fuel as nat) matches Ok(s)
                && steps(out@) == start + s,
        decreases lines.len() - i,
    {
        let ghost pre = lv.subrange(0, i as int);
        let ghost next = lv.subrange(0, i + 1);
        assert(next.drop_last() =~= pre);
        assert(next.last() == lines@[i as int]@);
        let ghost done = restored(m, pre, views(prefix@), fuel as nat)->Ok_0;
        let ghost line = lv[i as int];
        proof {
            lemma_restored_step(m, lv, views(prefix@), fuel as nat, i as int);
        }
        let ghost before = out@;
        let (kind, digest, name) = match parse_line(&lines[i]) {
            Ok(p) => p,
            Err(e) => {
                proof {
                    assert(restored_entry(m, line, views(prefix@), fuel as nat) == Err::<Seq<FsStep>, Error>(e));
                    lemma_restored_prefix(m, lv, views(prefix@), fuel as nat, i + 1);
                }
                return Err(e);
            },
        };
        let path = child_path(prefix, &name);
        let text = match read_text(store, kind, &digest) {
            Ok(t) => t,
            Err(e) => {
                proof {
                    assert(restored_entry(m, line, views(prefix@), fuel as nat) == Err::<Seq<FsStep>, Error>(e));
                    lemma_restored_prefix(m, lv, views(prefix@), fuel as nat, i + 1);
                }
                return Err(e);
            },
        };
        if kind == ObjectKind::Blob {
            out.push(FsAction::WriteFile(path, text));
            proof {
                assert(steps(out@) =~= steps(before).push(FsStep::WriteFile(views(prefix@).push(name@), text@)));
                assert(steps(out@) =~= start + (done + seq![FsStep::WriteFile(views(prefix@).push(name@), text@)]));
            }
        } else {
            if fuel == 0 {
                proof {
                    assert(restored_entry(m, line, views(prefix@), fuel as nat) == Err::<Seq<FsStep>, Error>(Error::Unexpected));
                    lemma_restored_prefix(m, lv, views(prefix@), fuel as nat, i + 1);
                }
                return Err(Error::Unexpected);
            }
            let sub = lines_of(&text);
            let sub_prefix = child_path(prefix, &name);
            out.push(FsAction::CreateDir(path));
            let ghost mid = out@;
            assert(steps(mid) =~= steps(before).push(FsStep::CreateDir(views(prefix@).push(name@))));
            match restore_tree_from_storage(store, &sub, &sub_prefix, fuel - 1, out) {
                Ok(()) => {},
                Err(e) => {
                    proof {
                        assert(restored_entry(m, line, views(prefix@), fuel as nat) == Err::<Seq<FsStep>, Error>(e));
                        lemma_restored_prefix(m, lv, views(prefix@), fuel as nat, i + 1);
                    }
                    return Err(e);
                },
            }
            proof {
                let s2 = restored(m, body_lines(text@), views(prefix@).push(name@), (fuel - 1) as nat)->Ok_0;
                assert(steps(out@) =~= start + (done + (seq![FsStep::CreateDir(views(prefix@).push(name@))] + s2)));
            }
        }
        i = i + 1;
    }
    assert(lv.subrange(0, lines.len() as int) =~= lv);
    Ok(())
}

/// The steps that empty a listing below `prefix` before a restore, deepest
/// first, and whether something stays in it: an ignored entry stays, and so
/// does every directory above it. A symbolic link cannot be handled.
pub open spec fn cleaned(es: Seq<Entry>, prefix: Seq<Seq<char>>, ign: Seq<Seq<char>>) -> Result<
    (Seq<FsStep>, bool),
    Error,
>
    decreases es,
{
    if es.len() == 0 {
        Ok((Seq::empty(), false))
    } else {
        match cleaned(es.subrange(0, es.len() - 1), prefix, ign) {
            Err(e) => Err(e),
            Ok((s1, kept)) => {
                let e = es[es.len() - 1];
                if ign.contains(e.spec_name()) {
                    Ok((s1, true))
                } else {
                    match cleaned_entry(e, prefix, ign) {
                        Err(x) => Err(x),
                        Ok((s2, k2)) => Ok((s1 + s2, kept || k2)),
                    }
                }
            },
        }
    }
}

/// The steps that remove one non-ignored entry below `prefix`, and whether
/// something inside it stays.
pub open spec fn cleaned_entry(e: Entry, prefix: Seq<Seq<char>>, ign: Seq<Seq<char>>) -> Result<
    (Seq<FsStep>, bool),
    Error,
>
    decreases e,
{
    let path = prefix.push(e.spec_name());
    match e {
        Entry::Dir { entries, .. } => match cleaned(entries@, path, ign) {
            Err(x) => Err(x),
            Ok((s, kept)) => if kept {
                Ok((s, true))
            } else {
                Ok((s.push(FsStep::RemoveDir(path)), false))
            },
        },
        Entry::File { .. } => Ok((seq![FsStep::RemoveFile(path)], false)),
        Entry::Symlink { .. } => Err(Error::Unsupported),
    }
}

proof fn lemma_cleaned_prefix(es: Seq<Entry>, prefix: Seq<Seq<char>>, ign: Seq<Seq<char>>, k: int)
    requires
        0 <= k <= es.len(),
        cleaned(es.subrange(0, k), prefix, ign) is Err,
    ensures
        cleaned(es, prefix, ign) == cleaned(es.subrange(0, k), prefix, ign),
    decreases es.len() - k,
{
    if k < es.len() {
        let s1 = es.subrange(0, k + 1);
        assert(s1.subrange(0, k) =~= es.subrange(0, k));
        assert(cleaned(s1, prefix, ign) == cleaned(es.subrange(0, k), prefix, ign));
        lemma_cleaned_prefix(es, prefix, ign, k + 1);
    } else {
        assert(es.subrange(0, k) =~= es);
    }
}

proof fn lemma_cleaned_step(es: Seq<Entry>, prefix: Seq<Seq<char>>, ign: Seq<Seq<char>>, i: int)
    requires
        0 <= i < es.len(),
        cleaned(es.subrange(0, i), prefix, ign) is Ok,
    ensures
        cleaned(es.subrange(0, i + 1), prefix, ign) == ({
            let (s1, kept) = cleaned(es.subrange(0, i), prefix, ign)->Ok_0;
            if ign.contains(es[i].spec_name()) {
                Ok((s1, true))
            } else {
                match cleaned_entry(es[i], prefix, ign) {
                    Err(x) => Err(x),
                    Ok((s2, k2)) => Ok((s1 + s2, kept || k2)),
                }
            }
        }),
{
    let next = es.subrange(0, i + 1);
    assert(next.subrange(0, i) =~= es.subrange(0, i));
    assert(next[i] == es[i]);
}

/// Adds to `out` the steps that empty the listing `entries` of the directory
/// at `prefix`, deepest first, and says whether something in it stays.
pub fn clean_before_restore(
    entries: &Vec<Entry>,
    prefix: &Vec<String>,
    ignore: &Vec<String>,
    default_ignore: &Vec<String>,
    out: &mut Vec<FsAction>,
) -> (r: Result<bool, Error>)
    requires
        !matches_any(views(prefix@), views(ignore@)),
        !matches_any(views(prefix@), views(default_ignore@)),
    ensures
        match cleaned(entries@, views(prefix@), views(ignore@) + views(default_ignore@)) {
            Ok((s, kept)) => r == Ok::<bool, Error>(kept) && steps(final(out)@) == steps(old(out)@) + s,
            Err(e) => r == Err::<bool, Error>(e),
        },
    decreases entries@,
{
    let ghost ign = views(ignore@) + views(default_ignore@);
    let ghost start = steps(out@);
    let ghost mut acc: Seq<FsStep> = Seq::empty();
    let mut kept = false;
    let mut i: usize = 0;
    assert(steps(out@) =~= start + acc);
    while i < entries.len()
        invariant
            i <= entries.len(),
            ign == views(ignore@) + views(default_ignore@),
            start == steps(old(out)@),
            !matches_any(views(prefix@), views(ignore@)),
            !matches_any(views(prefix@), views(default_ignore@)),
            cleaned(entries@.subrange(0, i as int), views(prefix@), ign) == Ok::<(Seq<FsStep>, bool), Error>(
                (acc, kept),
            ),
            steps(out@) == start + acc,
        decreases entries.len() - i,
    {
        let e = &entries[i];
        let ghost done = entries@.subrange(0, i as int);
        let ghost next = entries@.subrange(0, i + 1);
        assert(next.subrange(0, i as int) =~= done);
        assert(next[i as int] == *e);
        let ghost before = out@;
        let path = child_path(prefix, e.name());
        proof {
            lemma_cleaned_step(entries@, views(prefix@), ign, i as int);
            crate::paths::lemma_ignored_component(views(prefix@), e.spec_name(), views(ignore@), views(default_ignore@));
        }
        if is_ignored(&path, ignore, default_ignore) {
            kept = true;
        } else {
            let ghost epath = views(prefix@).push(e.spec_name());
            match e {
                Entry::Dir { entries: sub, .. } => {
                    let sub_prefix = child_path(prefix, e.name());
                    assert(decreases_to!(entries@ => sub@)) by {
                        assert(decreases_to!(entries@ => entries@[i as int]));
                    }
                    match clean_before_restore(sub, &sub_prefix, ignore, default_ignore, out) {
                        Err(x) => {
                            proof {
                                lemma_cleaned_prefix(entries@, views(prefix@), ign, i + 1);
                            }
                            return Err(x);
                        },
                        Ok(sub_kept) => {
                            let ghost sub_steps = cleaned(sub@, epath, ign)->Ok_0.0;
                            if sub_kept {
                                kept = true;
                                proof {
                                    acc = acc + sub_steps;
                                    assert(steps(out@) =~= start + acc);
                                }
                            } else {
                                let ghost mid = out@;
                                out.push(FsAction::RemoveDir(path));
                                proof {
                                    assert(steps(out@) =~= steps(mid).push(FsStep::RemoveDir(epath)));
                                    acc = acc + sub_steps.push(FsStep::RemoveDir(epath));
                                    assert(steps(out@) =~= start + acc);
                                }
                            }
                        },
                    }
                },
                Entry::File { .. } => {
                    out.push(FsAction::RemoveFile(path));
                    proof {
                        assert(steps(out@) =~= steps(before).push(FsStep::RemoveFile(epath)));
                        acc = acc + seq![FsStep::RemoveFile(epath)];
                        assert(steps(out@) =~= start + acc);
                    }
                },
                Entry::Symlink { .. } => {
                    proof {
                        lemma_cleaned_prefix(entries@, views(prefix@), ign, i + 1);
                    }
                    return Err(Error::Unsupported);
                },
            }
        }
        i = i + 1;
    }
    assert(entries@.subrange(0, entries.len() as int) =~= entries@);
    Ok(kept)
}

/// An archive whose payload is the UTF-8 encoding of a text is read back as
/// that text.
pub proof fn lemma_text_read_back(
    m: Map<(ObjectKind, Seq<char>), Seq<u8>>,
    kind: ObjectKind,
    digest: Seq<char>,
    text: Seq<char>,
)
    requires
        m.contains_key((kind, digest)),
        gunzip_of(m[(kind, digest)]) == Some(encode_utf8(text)),
    ensures
        stored_text(m, kind, digest) == Ok::<Seq<char>, Error>(text),
{
    vstd::utf8::encode_utf8_valid_utf8(text);
    vstd::utf8::encode_utf8_decode_utf8(text);
}

/// The listing line of a tree or blob is read back as its kind, digest and
/// name, when neither the digest nor the name holds a tab and the name is a
/// plain file name.
pub proof fn lemma_line_read_back(digest: Seq<char>, name: Seq<char>)
    requires
        !digest.contains('\t'),
        !name.contains('\t'),
        valid_name(name),
    ensures
        parsed_line(line_of(TREE_DIR@, digest, name)) == Some((ObjectKind::Tree, digest, name)),
        parsed_line(line_of(BLOB_DIR@, digest, name)) == Some((ObjectKind::Blob, digest, name)),
{
    reveal_strlit("tree");
    reveal_strlit("blob");
    assert(TREE_DIR@ =~= seq!['t', 'r', 'e', 'e']);
    assert(BLOB_DIR@ =~= seq!['b', 'l', 'o', 'b']);
    assert(TREE_DIR@ != BLOB_DIR@) by {
        assert(TREE_DIR@[0] != BLOB_DIR@[0]);
    }
    lemma_kind_line(TREE_DIR@, digest, name);
    lemma_kind_line(BLOB_DIR@, digest, name);
}

proof fn lemma_kind_line(k: Seq<char>, digest: Seq<char>, name: Seq<char>)
    requires
        !k.contains('\t'),
        !digest.contains('\t'),
        !name.contains('\t'),
    ensures
        split(line_of(k, digest, name), '\t') == seq![k, digest, name],
{
    let p = seq![k, digest, name];
    let p2 = seq![k, digest];
    assert(p.drop_last() =~= p2);
    assert(p2.drop_last() =~= seq![k]);
    assert(join(seq![k], '\t') == k);
    assert(join(p2, '\t') == join(p2.drop_last(), '\t') + seq!['\t'] + p2.last());
    assert(join(p2, '\t') =~= k + seq!['\t'] + digest);
    assert(join(p, '\t') == join(p.drop_last(), '\t') + seq!['\t'] + p.last());
    assert(join(p, '\t') =~= line_of(k, digest, name));
    assert forall|i: int| 0 <= i < p.len() implies !(#[trigger] p[i]).contains('\t') by {}
    lemma_split_join(p, '\t');
}

/// The text of a tree is read back as its listing lines, when no line is
/// empty or holds a line break.
pub proof fn lemma_tree_text_read_back(lines: Seq<Seq<char>>)
    requires
        forall|i: int| 0 <= i < lines.len() ==> (#[trigger] lines[i]).len() > 0 && !lines[i].contains('\n'),
    ensures
        body_lines(join(lines, '\n')) == lines,
    decreases lines.len(),
{
    if lines.len() > 0 {
        lemma_join_nonempty(lines);
        lemma_split_join(lines, '\n');
    }
}

proof fn lemma_join_nonempty(lines: Seq<Seq<char>>)
    requires
        lines.len() > 0,
        lines[0].len() > 0,
    ensures
        join(lines, '\n').len() > 0,
    decreases lines.len(),
{
    if lines.len() > 1 {
        lemma_join_nonempty(lines.drop_last());
    }
}

/// The text of a commit is read back as its listing lines, when it has four
/// properties and neither they nor the lines hold a line break, and no line
/// is empty.
pub proof fn lemma_commit_text_read_back(properties: Seq<Seq<char>>, lines: Seq<Seq<char>>)
    requires
        properties.len() == 4,
        forall|i: int| 0 <= i < properties.len() ==> !(#[trigger] properties[i]).contains('\n'),
        forall|i: int| 0 <= i < lines.len() ==> (#[trigger] lines[i]).len() > 0 && !lines[i].contains('\n'),
        is_decimal(properties[2]),
    ensures
        commit_parts(join(properties, '\n') + seq!['\n'] + join(lines, '\n')) == Some((properties, lines)),
        commit_lines(join(properties, '\n') + seq!['\n'] + join(lines, '\n')) == Some(lines),
{
    let text = join(properties, '\n') + seq!['\n'] + join(lines, '\n');
    if lines.len() == 0 {
        lemma_split_join(properties, '\n');
        assert(join(lines, '\n') =~= Seq::<char>::empty());
        lemma_split_after_sep(join(properties, '\n'), Seq::empty(), '\n');
        let ls = properties.push(Seq::<char>::empty());
        assert(ls.subrange(4, ls.len() as int) =~= seq![Seq::<char>::empty()]);
        assert(ls.subrange(0, 4) =~= properties);
        assert(ls[2] == properties[2]);
        assert(lines =~= Seq::<Seq<char>>::empty());
    } else {
        let all = properties + lines;
        crate::text::lemma_join_concat(properties, lines, '\n');
        assert forall|i: int| 0 <= i < all.len() implies !(#[trigger] all[i]).contains('\n') by {
            if i >= 4 {
                assert(all[i] == lines[i - 4]);
            }
        }
        lemma_split_join(all, '\n');
        assert(all.subrange(4, all.len() as int) =~= lines);
        assert(all.subrange(0, 4) =~= properties);
        assert(all[2] == properties[2]);
        if lines == seq![Seq::<char>::empty()] {
            assert(lines[0].len() == 0);
        }
    }
}

/// The file name that the archive of the stored object with this kind and
/// digest carries in its header.
pub open spec fn stored_name(
    m: Map<(ObjectKind, Seq<char>), Seq<u8>>,
    kind: ObjectKind,
    digest: Seq<char>,
) -> Result<Seq<char>, Error> {
    if !m.contains_key((kind, digest)) {
        Err(missing(kind))
    } else {
        match gz_header_of(m[(kind, digest)]) {
            None => Err(Error::Unexpected),
            Some(h) => match h.0 {
                None => Err(Error::Unexpected),
                Some(bytes) => if valid_utf8(bytes) {
                    Ok(decode_utf8(bytes))
                } else {
                    Err(Error::UnsupportedEncoding)
                },
            },
        }
    }
}

/// Reads the file name from the header of the stored object with this kind
/// and digest.
pub fn read_name(store: &ObjectStore, kind: ObjectKind, digest: &String) -> (r: Result<String, Error>)
    requires
        store.wf(),
    ensures
        match stored_name(store.view(), kind, digest@) {
            Ok(t) => r matches Ok(s) && s@ == t,
            Err(e) => r == Err::<String, Error>(e),
        },
{
    let archive = match store.read(kind, digest) {
        Some(a) => a,
        None => {
            return Err(
                if kind == ObjectKind::Commit {
                    Error::CommitNotFound
                } else {
                    Error::ObjectNotFound
                },
            );
        },
    };
    let name = match gz_header(archive.as_slice()) {
        Some((Some(n), _, _)) => n,
        _ => {
            return Err(Error::Unexpected);
        },
    };
    match text_from_utf8(name.as_slice()) {
        Some(t) => Ok(t),
        None => Err(Error::UnsupportedEncoding),
    }
}

/// Reads back the blob stored under `digest`, as a file below `parent`: its
/// path is `parent` followed by the file name in the archive header, its
/// content the archive's text.
pub fn read_blob(store: &ObjectStore, parent: &Vec<String>, digest: String) -> (r: Result<Object, Error>)
    requires
        store.wf(),
    ensures
        match stored_text(store.view(), ObjectKind::Blob, digest@) {
            Err(e) => r == Err::<Object, Error>(e),
            Ok(t) => match stored_name(store.view(), ObjectKind::Blob, digest@) {
                Err(e) => r == Err::<Object, Error>(e),
                Ok(n) => r matches Ok(o) && o matches Object::Blob { path: pa, content: c, digest: d }
                    && views(pa@) == views(parent@).push(n) && c@ == t && d == digest,
            },
        },
{
    let content = read_text(store, ObjectKind::Blob, &digest)?;
    let name = read_name(store, ObjectKind::Blob, &digest)?;
    let path = child_path(parent, &name);
    Ok(Object::new_blob(path, content, digest))
}

/// Reads back the tree stored under `digest`, as a directory below `parent`:
/// its path is `parent` followed by the file name in the archive header, its
/// content the lines of the archive's text.
pub fn read_tree(store: &ObjectStore, parent: &Vec<String>, digest: String) -> (r: Result<Object, Error>)
    requires
        store.wf(),
    ensures
        match stored_text(store.view(), ObjectKind::Tree, digest@) {
            Err(e) => r == Err::<Object, Error>(e),
            Ok(t) => match stored_name(store.view(), ObjectKind::Tree, digest@) {
                Err(e) => r == Err::<Object, Error>(e),
                Ok(n) => r matches Ok(o) && o matches Object::Tree { path: pa, content: c, digest: d }
                    && views(pa@) == views(parent@).push(n) && views(c@) == body_lines(t) && d == digest,
            },
        },
{
    let text = read_text(store, ObjectKind::Tree, &digest)?;
    let name = read_name(store, ObjectKind::Tree, &digest)?;
    let path = child_path(parent, &name);
    let lines = lines_of(&text);
    let content = strings_of(&lines);
    Ok(Object::new_tree(path, content, digest))
}

/// An archive written by `save_object` is read back with the object's name
/// and text.
pub proof fn lemma_archive_read_back(
    m: Map<(ObjectKind, Seq<char>), Seq<u8>>,
    kind: ObjectKind,
    digest: Seq<char>,
    name: Seq<char>,
    comment: Seq<char>,
    extra: Seq<char>,
    text: Seq<char>,
)
    requires
        m.contains_key((kind, digest)),
        gunzip_of(m[(kind, digest)]) == Some(encode_utf8(text)),
        gz_header_of(m[(kind, digest)]) == Some(
            (Some(encode_utf8(name)), Some(encode_utf8(comment)), Some(encode_utf8(extra))),
        ),
    ensures
        stored_text(m, kind, digest) == Ok::<Seq<char>, Error>(text),
        stored_name(m, kind, digest) == Ok::<Seq<char>, Error>(name),
{
    lemma_text_read_back(m, kind, digest, text);
    vstd::utf8::encode_utf8_valid_utf8(name);
    vstd::utf8::encode_utf8_decode_utf8(name);
}

} // verus!
