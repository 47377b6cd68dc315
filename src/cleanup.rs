//! What the cleanup before a restore does, said directly: every file that is
//! not ignored is removed, every directory is removed unless something
//! ignored lies below it, nothing else is touched, and a directory goes only
//! after everything below it.
use vstd::prelude::*;
use crate::restore::{cleaned, cleaned_entry, FsStep};
use crate::snapshot::{entry_kinds, listing_kinds, Entry};

verus! {

/// The path that a filesystem step acts on.
pub open spec fn step_path(x: FsStep) -> Seq<Seq<char>> {
    match x {
        FsStep::RemoveFile(p) => p,
        FsStep::RemoveDir(p) => p,
        FsStep::CreateDir(p) => p,
        FsStep::WriteFile(p, _) => p,
    }
}

/// Whether `q` lies strictly below `p`.
pub open spec fn below(q: Seq<Seq<char>>, p: Seq<Seq<char>>) -> bool {
    q.len() > p.len() && q.subrange(0, p.len() as int) == p
}

/// Whether `q` is `p` or lies below it.
pub open spec fn at_or_below(q: Seq<Seq<char>>, p: Seq<Seq<char>>) -> bool {
    q == p || below(q, p)
}

/// The paths, below `prefix`, of the ignored entries of a listing, found in
/// directories that are not ignored, at every depth.
pub open spec fn ignored_paths(es: Seq<Entry>, prefix: Seq<Seq<char>>, ign: Seq<Seq<char>>) -> Set<
    Seq<Seq<char>>,
>
    decreases es,
{
    if es.len() == 0 {
        Set::empty()
    } else {
        let init = ignored_paths(es.subrange(0, es.len() - 1), prefix, ign);
        let e = es[es.len() - 1];
        if ign.contains(e.spec_name()) {
            init.insert(prefix.push(e.spec_name()))
        } else {
            init.union(entry_ignored_paths(e, prefix, ign))
        }
    }
}

/// The paths of the ignored entries below a non-ignored entry.
pub open spec fn entry_ignored_paths(e: Entry, prefix: Seq<Seq<char>>, ign: Seq<Seq<char>>) -> Set<
    Seq<Seq<char>>,
>
    decreases e,
{
    match e {
        Entry::Dir { entries, .. } => ignored_paths(entries@, prefix.push(e.spec_name()), ign),
        _ => Set::empty(),
    }
}

/// Whether the names in every directory of a listing are distinct, as they
/// are in a filesystem.
pub open spec fn distinct_names(es: Seq<Entry>) -> bool
    decreases es,
{
    if es.len() == 0 {
        true
    } else {
        let n = es.len() - 1;
        &&& distinct_names(es.subrange(0, n))
        &&& entry_distinct(es[n])
        &&& forall|i: int| 0 <= i < n ==> (#[trigger] es[i]).spec_name() != es[n].spec_name()
    }
}

pub open spec fn entry_distinct(e: Entry) -> bool
    decreases e,
{
    match e {
        Entry::Dir { entries, .. } => distinct_names(entries@),
        _ => true,
    }
}

/// Whether `x` lies at or below the path of one of the entries of `es`.
pub open spec fn under_entry(x: Seq<Seq<char>>, es: Seq<Entry>, prefix: Seq<Seq<char>>) -> bool {
    exists|k: int| 0 <= k < es.len() && at_or_below(x, prefix.push((#[trigger] es[k]).spec_name()))
}

proof fn lemma_below_child(x: Seq<Seq<char>>, p: Seq<Seq<char>>, n: Seq<char>)
    requires
        at_or_below(x, p.push(n)),
    ensures
        below(x, p),
        x[p.len() as int] == n,
{
    let c = p.push(n);
    assert(c.subrange(0, p.len() as int) =~= p);
    if x != c {
        assert(x.subrange(0, p.len() as int) =~= x.subrange(0, c.len() as int).subrange(0, p.len() as int));
        assert(x[p.len() as int] == x.subrange(0, c.len() as int)[p.len() as int]);
    } else {
        assert(x.subrange(0, p.len() as int) =~= p);
    }
}

/// Paths at or below two differently named entries of one directory never
/// meet.
proof fn lemma_apart(prefix: Seq<Seq<char>>, n1: Seq<char>, n2: Seq<char>, x: Seq<Seq<char>>, y: Seq<Seq<char>>)
    requires
        n1 != n2,
        at_or_below(x, prefix.push(n1)),
        at_or_below(y, prefix.push(n2)),
    ensures
        x != y,
        !below(x, y),
        !below(y, x),
{
    lemma_below_child(x, prefix, n1);
    lemma_below_child(y, prefix, n2);
    if below(x, y) {
        assert(x[prefix.len() as int] == x.subrange(0, y.len() as int)[prefix.len() as int]);
    }
    if below(y, x) {
        assert(y[prefix.len() as int] == y.subrange(0, x.len() as int)[prefix.len() as int]);
    }
}

proof fn lemma_kinds_shape(es: Seq<Entry>, prefix: Seq<Seq<char>>, ign: Seq<Seq<char>>, q: (Seq<Seq<char>>, bool))
    requires
        listing_kinds(es, prefix, ign).contains(q),
    ensures
        under_entry(q.0, es, prefix),
    decreases es,
{
    let n = es.len() - 1;
    let init = es.subrange(0, n);
    if listing_kinds(init, prefix, ign).contains(q) {
        lemma_kinds_shape(init, prefix, ign, q);
        let k = choose|k: int| 0 <= k < init.len() && at_or_below(q.0, prefix.push((#[trigger] init[k]).spec_name()));
        assert(init[k] == es[k]);
    } else {
        lemma_entry_kinds_shape(es[n], prefix, ign, q);
    }
}

proof fn lemma_entry_kinds_shape(e: Entry, prefix: Seq<Seq<char>>, ign: Seq<Seq<char>>, q: (Seq<Seq<char>>, bool))
    requires
        entry_kinds(e, prefix, ign).contains(q),
    ensures
        at_or_below(q.0, prefix.push(e.spec_name())),
    decreases e,
{
    let p = prefix.push(e.spec_name());
    if q.0 != p {
        match e {
            Entry::Dir { entries, .. } => {
                lemma_kinds_shape(entries@, p, ign, q);
                let k = choose|k: int| 0 <= k < entries@.len() && at_or_below(q.0, p.push((#[trigger] entries@[k]).spec_name()));
                lemma_below_child(q.0, p, entries@[k].spec_name());
            },
            _ => {},
        }
    }
}

proof fn lemma_ignored_shape(es: Seq<Entry>, prefix: Seq<Seq<char>>, ign: Seq<Seq<char>>, q: Seq<Seq<char>>)
    requires
        ignored_paths(es, prefix, ign).contains(q),
    ensures
        under_entry(q, es, prefix),
    decreases es,
{
    let n = es.len() - 1;
    let init = es.subrange(0, n);
    if ignored_paths(init, prefix, ign).contains(q) {
        lemma_ignored_shape(init, prefix, ign, q);
        let k = choose|k: int| 0 <= k < init.len() && at_or_below(q, prefix.push((#[trigger] init[k]).spec_name()));
        assert(init[k] == es[k]);
    } else if ign.contains(es[n].spec_name()) {
        assert(at_or_below(q, prefix.push(es[n].spec_name())));
    } else {
        lemma_entry_ignored_shape(es[n], prefix, ign, q);
    }
}

proof fn lemma_entry_ignored_shape(e: Entry, prefix: Seq<Seq<char>>, ign: Seq<Seq<char>>, q: Seq<Seq<char>>)
    requires
        entry_ignored_paths(e, prefix, ign).contains(q),
    ensures
        below(q, prefix.push(e.spec_name())),
    decreases e,
{
    let p = prefix.push(e.spec_name());
    match e {
        Entry::Dir { entries, .. } => {
            lemma_ignored_shape(entries@, p, ign, q);
            let k = choose|k: int| 0 <= k < entries@.len() && at_or_below(q, p.push((#[trigger] entries@[k]).spec_name()));
            lemma_below_child(q, p, entries@[k].spec_name());
        },
        _ => {},
    }
}

/// What the cleanup of a listing below `prefix` does, said directly.
pub open spec fn cleanup_as_stated(
    es: Seq<Entry>,
    prefix: Seq<Seq<char>>,
    ign: Seq<Seq<char>>,
    s: Seq<FsStep>,
    kept: bool,
) -> bool {
    &&& kept <==> exists|q| #[trigger] ignored_paths(es, prefix, ign).contains(q)
    &&& forall|i: int| 0 <= i < s.len() ==> (#[trigger] s[i] is RemoveFile || s[i] is RemoveDir)
        && under_entry(step_path(s[i]), es, prefix)
    &&& forall|p: Seq<Seq<char>>| #[trigger] s.contains(FsStep::RemoveFile(p))
        <==> listing_kinds(es, prefix, ign).contains((p, false))
    &&& forall|p: Seq<Seq<char>>| #[trigger] s.contains(FsStep::RemoveDir(p))
        <==> listing_kinds(es, prefix, ign).contains((p, true)) && !exists|q| #[trigger] ignored_paths(
            es,
            prefix,
            ign,
        ).contains(q) && below(q, p)
    &&& forall|i: int, j: int|
        0 <= i < s.len() && 0 <= j < s.len() && s[j] is RemoveDir && below(
            step_path(#[trigger] s[i]),
            step_path(#[trigger] s[j]),
        ) ==> i < j
}

/// What the cleanup of one non-ignored entry below `prefix` does.
pub open spec fn entry_cleanup_as_stated(
    e: Entry,
    prefix: Seq<Seq<char>>,
    ign: Seq<Seq<char>>,
    s: Seq<FsStep>,
    kept: bool,
) -> bool {
    let p = prefix.push(e.spec_name());
    &&& kept <==> exists|q| #[trigger] entry_ignored_paths(e, prefix, ign).contains(q)
    &&& forall|i: int| 0 <= i < s.len() ==> (#[trigger] s[i] is RemoveFile || s[i] is RemoveDir)
        && at_or_below(step_path(s[i]), p)
    &&& forall|q: Seq<Seq<char>>| #[trigger] s.contains(FsStep::RemoveFile(q))
        <==> entry_kinds(e, prefix, ign).contains((q, false))
    &&& forall|q: Seq<Seq<char>>| #[trigger] s.contains(FsStep::RemoveDir(q))
        <==> entry_kinds(e, prefix, ign).contains((q, true)) && !exists|x| #[trigger] entry_ignored_paths(
            e,
            prefix,
            ign,
        ).contains(x) && below(x, q)
    &&& forall|i: int, j: int|
        0 <= i < s.len() && 0 <= j < s.len() && s[j] is RemoveDir && below(
            step_path(#[trigger] s[i]),
            step_path(#[trigger] s[j]),
        ) ==> i < j
}

/// The cleanup before a restore, when it succeeds, removes every file that is
/// not ignored; removes every directory that is not ignored unless something
/// ignored lies below it; does nothing else; and removes a directory only
/// after everything below it. It reports whether something stays, which is
/// exactly when something below is ignored. This holds of a listing whose
/// directories each hold distinct names, as a filesystem's do.
pub proof fn lemma_cleanup(es: Seq<Entry>, prefix: Seq<Seq<char>>, ign: Seq<Seq<char>>)
    requires
        distinct_names(es),
        cleaned(es, prefix, ign) is Ok,
    ensures
        cleanup_as_stated(es, prefix, ign, cleaned(es, prefix, ign)->Ok_0.0, cleaned(es, prefix, ign)->Ok_0.1),
    decreases es,
{
    if es.len() == 0 {
        assert(cleaned(es, prefix, ign) == Ok::<(Seq<FsStep>, bool), crate::error::Error>((Seq::empty(), false)));
        assert forall|p: Seq<Seq<char>>| !Seq::<FsStep>::empty().contains(FsStep::RemoveFile(p)) && !Seq::<FsStep>::empty().contains(FsStep::RemoveDir(p)) by {}
        return;
    }
    let n = es.len() - 1;
    let init = es.subrange(0, n);
    let e = es[n];
    let name = e.spec_name();
    let pe = prefix.push(name);
    lemma_cleanup(init, prefix, ign);
    let (s1, k1) = cleaned(init, prefix, ign)->Ok_0;
    let (s, kept) = cleaned(es, prefix, ign)->Ok_0;
    // names of earlier entries differ from `e`'s
    assert forall|x: Seq<Seq<char>>, y: Seq<Seq<char>>| under_entry(x, init, prefix) && at_or_below(y, pe)
        implies x != y && !below(x, y) && !below(y, x) by {
        let k = choose|k: int| 0 <= k < init.len() && at_or_below(x, prefix.push((#[trigger] init[k]).spec_name()));
        assert(init[k] == es[k]);
        assert(es[k].spec_name() != name);
        lemma_apart(prefix, init[k].spec_name(), name, x, y);
    }
    assert forall|x: Seq<Seq<char>>| under_entry(x, init, prefix) implies under_entry(x, es, prefix) by {
        let k = choose|k: int| 0 <= k < init.len() && at_or_below(x, prefix.push((#[trigger] init[k]).spec_name()));
        assert(init[k] == es[k]);
    }
    assert forall|x: Seq<Seq<char>>| at_or_below(x, pe) implies under_entry(x, es, prefix) by {
        assert(es[n].spec_name() == name);
    }
    assert forall|q: (Seq<Seq<char>>, bool)| listing_kinds(init, prefix, ign).contains(q) implies under_entry(q.0, init, prefix) by {
        lemma_kinds_shape(init, prefix, ign, q);
    }
    assert forall|q: Seq<Seq<char>>| ignored_paths(init, prefix, ign).contains(q) implies under_entry(q, init, prefix) by {
        lemma_ignored_shape(init, prefix, ign, q);
    }
    if ign.contains(name) {
        assert(s == s1 && kept);
        assert(ignored_paths(es, prefix, ign) == ignored_paths(init, prefix, ign).insert(pe));
        assert(listing_kinds(es, prefix, ign) == listing_kinds(init, prefix, ign));
        assert(ignored_paths(es, prefix, ign).contains(pe));
        assert(at_or_below(pe, pe));
        assert forall|p: Seq<Seq<char>>| #[trigger] s.contains(FsStep::RemoveDir(p))
            <==> listing_kinds(es, prefix, ign).contains((p, true)) && !exists|q| #[trigger] ignored_paths(es, prefix, ign).contains(q) && below(q, p) by {
            let ex_es = exists|q| #[trigger] ignored_paths(es, prefix, ign).contains(q) && below(q, p);
            let ex_init = exists|q| #[trigger] ignored_paths(init, prefix, ign).contains(q) && below(q, p);
            assert(s1.contains(FsStep::RemoveDir(p)) == (listing_kinds(init, prefix, ign).contains((p, true)) && !ex_init));
            if listing_kinds(init, prefix, ign).contains((p, true)) {
                assert(under_entry(p, init, prefix));
                assert(!below(pe, p));
                if ex_es {
                    let q = choose|q| #[trigger] ignored_paths(es, prefix, ign).contains(q) && below(q, p);
                    if q != pe {
                        assert(ignored_paths(init, prefix, ign).contains(q));
                    }
                    assert(ex_init);
                }
                if ex_init {
                    let q = choose|q| #[trigger] ignored_paths(init, prefix, ign).contains(q) && below(q, p);
                    assert(ignored_paths(es, prefix, ign).contains(q));
                }
            }
        }
    } else {
        lemma_entry_cleanup(e, prefix, ign);
        let (s2, k2) = cleaned_entry(e, prefix, ign)->Ok_0;
        assert(s == s1 + s2 && kept == (k1 || k2));
        assert(ignored_paths(es, prefix, ign) == ignored_paths(init, prefix, ign).union(entry_ignored_paths(e, prefix, ign)));
        assert(listing_kinds(es, prefix, ign) == listing_kinds(init, prefix, ign).union(entry_kinds(e, prefix, ign)));
        assert forall|q: Seq<Seq<char>>| entry_ignored_paths(e, prefix, ign).contains(q) implies below(q, pe) by {
            lemma_entry_ignored_shape(e, prefix, ign, q);
        }
        assert forall|q: (Seq<Seq<char>>, bool)| entry_kinds(e, prefix, ign).contains(q) implies at_or_below(q.0, pe) by {
            lemma_entry_kinds_shape(e, prefix, ign, q);
        }
        if kept {
            if k1 {
                let q = choose|q| #[trigger] ignored_paths(init, prefix, ign).contains(q);
                assert(ignored_paths(es, prefix, ign).contains(q));
            } else {
                let q = choose|q| #[trigger] entry_ignored_paths(e, prefix, ign).contains(q);
                assert(ignored_paths(es, prefix, ign).contains(q));
            }
        }
        assert forall|i: int| 0 <= i < s.len() implies (#[trigger] s[i] is RemoveFile || s[i] is RemoveDir)
            && under_entry(step_path(s[i]), es, prefix) by {
            if i < s1.len() {
                assert(s[i] == s1[i]);
            } else {
                assert(s[i] == s2[i - s1.len()]);
            }
        }
        assert forall|p: Seq<Seq<char>>| #[trigger] s.contains(FsStep::RemoveFile(p))
            <==> listing_kinds(es, prefix, ign).contains((p, false)) by {
            let x = FsStep::RemoveFile(p);
            if s.contains(x) {
                let i = choose|i: int| 0 <= i < s.len() && s[i] == x;
                if i < s1.len() {
                    assert(s1[i] == x);
                    assert(s1.contains(x));
                } else {
                    assert(s2[i - s1.len()] == x);
                    assert(s2.contains(x));
                }
            }
            if s1.contains(x) {
                let i = choose|i: int| 0 <= i < s1.len() && s1[i] == x;
                assert(s[i] == x);
            }
            if s2.contains(x) {
                let i = choose|i: int| 0 <= i < s2.len() && s2[i] == x;
                assert(s[s1.len() + i] == x);
            }
        }
        assert forall|p: Seq<Seq<char>>| #[trigger] s.contains(FsStep::RemoveDir(p))
            <==> listing_kinds(es, prefix, ign).contains((p, true)) && !exists|q| #[trigger] ignored_paths(es, prefix, ign).contains(q) && below(q, p) by {
            let x = FsStep::RemoveDir(p);
            if s1.contains(x) {
                let i = choose|i: int| 0 <= i < s1.len() && s1[i] == x;
                assert(s[i] == x);
            }
            if s2.contains(x) {
                let i = choose|i: int| 0 <= i < s2.len() && s2[i] == x;
                assert(s[s1.len() + i] == x);
            }
            if s.contains(x) {
                let i = choose|i: int| 0 <= i < s.len() && s[i] == x;
                if i < s1.len() {
                    assert(s1[i] == x);
                    assert(s1.contains(x));
                } else {
                    assert(s2[i - s1.len()] == x);
                    assert(s2.contains(x));
                }
            }
            let ex_es = exists|q| #[trigger] ignored_paths(es, prefix, ign).contains(q) && below(q, p);
            let ex_init = exists|q| #[trigger] ignored_paths(init, prefix, ign).contains(q) && below(q, p);
            let ex_e = exists|q| #[trigger] entry_ignored_paths(e, prefix, ign).contains(q) && below(q, p);
            assert(s1.contains(x) == (listing_kinds(init, prefix, ign).contains((p, true)) && !ex_init));
            assert(s2.contains(x) == (entry_kinds(e, prefix, ign).contains((p, true)) && !ex_e));
            assert(s.contains(x) == (s1.contains(x) || s2.contains(x)));
            if ex_es {
                let q = choose|q| #[trigger] ignored_paths(es, prefix, ign).contains(q) && below(q, p);
                if ignored_paths(init, prefix, ign).contains(q) {
                    assert(ex_init);
                } else {
                    assert(entry_ignored_paths(e, prefix, ign).contains(q));
                    assert(ex_e);
                }
            }
            if ex_init {
                let q = choose|q| #[trigger] ignored_paths(init, prefix, ign).contains(q) && below(q, p);
                assert(ignored_paths(es, prefix, ign).contains(q));
            }
            if ex_e {
                let q = choose|q| #[trigger] entry_ignored_paths(e, prefix, ign).contains(q) && below(q, p);
                assert(ignored_paths(es, prefix, ign).contains(q));
            }
            if listing_kinds(init, prefix, ign).contains((p, true)) {
                assert(under_entry(p, init, prefix));
                if ex_e {
                    let q = choose|q| #[trigger] entry_ignored_paths(e, prefix, ign).contains(q) && below(q, p);
                    assert(below(q, pe));
                    assert(at_or_below(q, pe));
                }
                if entry_kinds(e, prefix, ign).contains((p, true)) {
                    assert(at_or_below(p, pe));
                }
            }
            if entry_kinds(e, prefix, ign).contains((p, true)) {
                assert(at_or_below(p, pe));
                if ex_init {
                    let q = choose|q| #[trigger] ignored_paths(init, prefix, ign).contains(q) && below(q, p);
                    assert(under_entry(q, init, prefix));
                }
            }
        }
        assert forall|i: int, j: int|
            0 <= i < s.len() && 0 <= j < s.len() && s[j] is RemoveDir && below(
                step_path(#[trigger] s[i]),
                step_path(#[trigger] s[j]),
            ) implies i < j by {
            if i < s1.len() && j < s1.len() {
                assert(s[i] == s1[i] && s[j] == s1[j]);
            } else if i >= s1.len() && j >= s1.len() {
                assert(s[i] == s2[i - s1.len()] && s[j] == s2[j - s1.len()]);
            } else if i >= s1.len() && j < s1.len() {
                assert(s[i] == s2[i - s1.len()] && s[j] == s1[j]);
                assert(under_entry(step_path(s1[j]), init, prefix));
                assert(at_or_below(step_path(s2[i - s1.len()]), pe));
            }
        }
    }
}

proof fn lemma_entry_cleanup(e: Entry, prefix: Seq<Seq<char>>, ign: Seq<Seq<char>>)
    requires
        entry_distinct(e),
        cleaned_entry(e, prefix, ign) is Ok,
    ensures
        entry_cleanup_as_stated(e, prefix, ign, cleaned_entry(e, prefix, ign)->Ok_0.0, cleaned_entry(e, prefix, ign)->Ok_0.1),
    decreases e,
{
    let p = prefix.push(e.spec_name());
    let (s, kept) = cleaned_entry(e, prefix, ign)->Ok_0;
    assert(at_or_below(p, p));
    match e {
        Entry::File { .. } => {
            assert(s == seq![FsStep::RemoveFile(p)]);
            assert(s[0] == FsStep::RemoveFile(p));
            assert(entry_ignored_paths(e, prefix, ign) == Set::<Seq<Seq<char>>>::empty());
            assert forall|q: Seq<Seq<char>>| #[trigger] s.contains(FsStep::RemoveFile(q))
                <==> entry_kinds(e, prefix, ign).contains((q, false)) by {
                if s.contains(FsStep::RemoveFile(q)) {
                    let i = choose|i: int| 0 <= i < s.len() && s[i] == FsStep::RemoveFile(q);
                }
            }
            assert forall|q: Seq<Seq<char>>| #[trigger] s.contains(FsStep::RemoveDir(q))
                <==> entry_kinds(e, prefix, ign).contains((q, true)) && !exists|x| #[trigger] entry_ignored_paths(e, prefix, ign).contains(x) && below(x, q) by {
                if s.contains(FsStep::RemoveDir(q)) {
                    let i = choose|i: int| 0 <= i < s.len() && s[i] == FsStep::RemoveDir(q);
                }
            }
        },
        Entry::Dir { entries: sub, .. } => {
            lemma_cleanup(sub@, p, ign);
            let (s1, k1) = cleaned(sub@, p, ign)->Ok_0;
            assert(entry_ignored_paths(e, prefix, ign) == ignored_paths(sub@, p, ign));
            assert(entry_kinds(e, prefix, ign) == set![(p, true)].union(listing_kinds(sub@, p, ign)));
            assert forall|x: Seq<Seq<char>>| under_entry(x, sub@, p) implies below(x, p) by {
                let k = choose|k: int| 0 <= k < sub@.len() && at_or_below(x, p.push((#[trigger] sub@[k]).spec_name()));
                lemma_below_child(x, p, sub@[k].spec_name());
            }
            assert forall|q: Seq<Seq<char>>| ignored_paths(sub@, p, ign).contains(q) implies below(q, p) by {
                lemma_ignored_shape(sub@, p, ign, q);
            }
            assert forall|q: (Seq<Seq<char>>, bool)| listing_kinds(sub@, p, ign).contains(q) implies below(q.0, p) by {
                lemma_kinds_shape(sub@, p, ign, q);
            }
            if k1 {
                assert(s == s1 && kept);
                let w = choose|q| #[trigger] ignored_paths(sub@, p, ign).contains(q);
                assert forall|q: Seq<Seq<char>>| #[trigger] s.contains(FsStep::RemoveDir(q))
                    <==> entry_kinds(e, prefix, ign).contains((q, true)) && !exists|x| #[trigger] entry_ignored_paths(e, prefix, ign).contains(x) && below(x, q) by {
                    if q == p {
                        if s.contains(FsStep::RemoveDir(q)) {
                            let i = choose|i: int| 0 <= i < s.len() && s[i] == FsStep::RemoveDir(q);
                            assert(under_entry(step_path(s1[i]), sub@, p));
                        }
                        assert(entry_ignored_paths(e, prefix, ign).contains(w) && below(w, q));
                    }
                }
                assert forall|q: Seq<Seq<char>>| #[trigger] s.contains(FsStep::RemoveFile(q))
                    <==> entry_kinds(e, prefix, ign).contains((q, false)) by {}
                assert forall|i: int| 0 <= i < s.len() implies (#[trigger] s[i] is RemoveFile || s[i] is RemoveDir)
                    && at_or_below(step_path(s[i]), p) by {
                    assert(under_entry(step_path(s1[i]), sub@, p));
                }
            } else {
                let d = FsStep::RemoveDir(p);
                assert(s == s1.push(d) && !kept);
                assert forall|i: int| 0 <= i < s.len() implies (#[trigger] s[i] is RemoveFile || s[i] is RemoveDir)
                    && at_or_below(step_path(s[i]), p) by {
                    if i < s1.len() {
                        assert(s[i] == s1[i]);
                        assert(under_entry(step_path(s1[i]), sub@, p));
                    }
                }
                assert forall|q: Seq<Seq<char>>| #[trigger] s.contains(FsStep::RemoveFile(q))
                    <==> entry_kinds(e, prefix, ign).contains((q, false)) by {
                    let x = FsStep::RemoveFile(q);
                    if s.contains(x) {
                        let i = choose|i: int| 0 <= i < s.len() && s[i] == x;
                        assert(i < s1.len());
                        assert(s1[i] == x);
                    }
                    if s1.contains(x) {
                        let i = choose|i: int| 0 <= i < s1.len() && s1[i] == x;
                        assert(s[i] == x);
                    }
                }
                assert forall|q: Seq<Seq<char>>| #[trigger] s.contains(FsStep::RemoveDir(q))
                    <==> entry_kinds(e, prefix, ign).contains((q, true)) && !exists|x| #[trigger] entry_ignored_paths(e, prefix, ign).contains(x) && below(x, q) by {
                    let x = FsStep::RemoveDir(q);
                    if q == p {
                        assert(s[s1.len() as int] == d);
                    } else {
                        if s.contains(x) {
                            let i = choose|i: int| 0 <= i < s.len() && s[i] == x;
                            assert(i < s1.len());
                            assert(s1[i] == x);
                        }
                        if s1.contains(x) {
                            let i = choose|i: int| 0 <= i < s1.len() && s1[i] == x;
                            assert(s[i] == x);
                        }
                    }
                }
                assert forall|i: int, j: int|
                    0 <= i < s.len() && 0 <= j < s.len() && s[j] is RemoveDir && below(
                        step_path(#[trigger] s[i]),
                        step_path(#[trigger] s[j]),
                    ) implies i < j by {
                    if i < s1.len() && j < s1.len() {
                        assert(s[i] == s1[i] && s[j] == s1[j]);
                    } else if i == s1.len() && j < s1.len() {
                        assert(s[j] == s1[j]);
                        assert(under_entry(step_path(s1[j]), sub@, p));
                        assert(below(step_path(s1[j]), p));
                    } else if i == s1.len() && j == s1.len() {
                    }
                }
            }
        },
        Entry::Symlink { .. } => {},
    }
}

} // verus!
