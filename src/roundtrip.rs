//! Restoring what was built: a store that holds the objects of a working
//! directory gives back, on restore, exactly the steps that recreate it.
use vstd::prelude::*;
use vstd::utf8::encode_utf8;
use crate::archive::gunzip_of;
use crate::encoding::is_decimal;
use crate::error::Error;
use crate::object::{line_of, sorted_lines};
use crate::paths::{BLOB_DIR, TREE_DIR};
use crate::restore::{
    cleaned, lemma_commit_text_read_back, lemma_line_read_back, lemma_text_read_back,
    lemma_tree_text_read_back, restored, restored_entry, valid_name, FsStep,
};
use crate::restore_plan;
use crate::text::join;
use crate::snapshot::{
    entry_digest, entry_kind, entry_objects, entry_store_kind, entry_text, listing, listing_objects,
    Entry,
};
use crate::store::ObjectKind;
use crate::text::{lemma_text_order_total, text_order};

verus! {

/// The steps that create every entry of a listing below `prefix`, at every
/// depth: a directory for a directory, a file with its text for a file.
pub open spec fn tree_steps(es: Seq<Entry>, prefix: Seq<Seq<char>>) -> Set<FsStep>
    decreases es,
{
    if es.len() == 0 {
        Set::empty()
    } else {
        tree_steps(es.subrange(0, es.len() - 1), prefix).union(
            entry_steps(es[es.len() - 1], prefix),
        )
    }
}

/// The steps that create one entry below `prefix`, and what is inside it.
pub open spec fn entry_steps(e: Entry, prefix: Seq<Seq<char>>) -> Set<FsStep>
    decreases e,
{
    let p = prefix.push(e.spec_name());
    match e {
        Entry::Dir { entries, .. } => set![FsStep::CreateDir(p)].union(tree_steps(entries@, p)),
        Entry::File { content, .. } => set![FsStep::WriteFile(p, vstd::utf8::decode_utf8(content@))],
        Entry::Symlink { .. } => Set::empty(),
    }
}

/// How deeply directories nest in a listing.
pub open spec fn depth(es: Seq<Entry>) -> nat
    decreases es,
{
    if es.len() == 0 {
        0
    } else {
        let d0 = depth(es.subrange(0, es.len() - 1));
        let d1 = entry_depth(es[es.len() - 1]);
        if d0 >= d1 {
            d0
        } else {
            d1
        }
    }
}

pub open spec fn entry_depth(e: Entry) -> nat
    decreases e,
{
    match e {
        Entry::Dir { entries, .. } => 1 + depth(entries@),
        _ => 0,
    }
}

/// Whether a name can be written in a listing line and read back: a plain
/// file name with no tab and no line break.
pub open spec fn plain_name(n: Seq<char>) -> bool {
    valid_name(n) && !n.contains('\t') && !n.contains('\n')
}

/// Whether every entry of a listing, at every depth, is a directory or a
/// file that is not ignored and has a plain name.
pub open spec fn restorable(es: Seq<Entry>, ign: Seq<Seq<char>>) -> bool
    decreases es,
{
    if es.len() == 0 {
        true
    } else {
        restorable(es.subrange(0, es.len() - 1), ign) && restorable_entry(es[es.len() - 1], ign)
    }
}

pub open spec fn restorable_entry(e: Entry, ign: Seq<Seq<char>>) -> bool
    decreases e,
{
    &&& !ign.contains(e.spec_name())
    &&& plain_name(e.spec_name())
    &&& match e {
        Entry::Dir { entries, .. } => restorable(entries@, ign),
        Entry::File { .. } => true,
        Entry::Symlink { .. } => false,
    }
}

/// Whether the store holds every object of `objects` under its kind and
/// digest, as an archive of its text, and no digest among them holds a tab or
/// a line break.
pub open spec fn holds_all(
    m: Map<(ObjectKind, Seq<char>), Seq<u8>>,
    objects: Set<(ObjectKind, Seq<char>, Seq<char>)>,
) -> bool {
    forall|x: (ObjectKind, Seq<char>, Seq<char>)| #[trigger] objects.contains(x) ==> {
        &&& m.contains_key((x.0, x.1))
        &&& gunzip_of(m[(x.0, x.1)]) == Some(encode_utf8(x.2))
        &&& !x.1.contains('\t')
        &&& !x.1.contains('\n')
    }
}

/// The listing line of a non-ignored entry.
pub open spec fn line_for(e: Entry, ign: Seq<Seq<char>>) -> Seq<char> {
    line_of(entry_kind(e), entry_digest(e, ign), e.spec_name())
}

/// A line is in a listing exactly when it is the line of one of its
/// non-ignored entries.
proof fn lemma_listing_lines(es: Seq<Entry>, ign: Seq<Seq<char>>, l: Seq<char>)
    ensures
        listing(es, ign).contains(l) <==> exists|i: int|
            0 <= i < es.len() && !ign.contains(es[i].spec_name()) && l == line_for(
                #[trigger] es[i],
                ign,
            ),
    decreases es.len(),
{
    if es.len() > 0 {
        let n = es.len() - 1;
        let init = es.subrange(0, n);
        let e = es[n];
        lemma_listing_lines(init, ign, l);
        let li = listing(init, ign);
        if ign.contains(e.spec_name()) {
            assert(listing(es, ign) == li);
        } else {
            let y = line_for(e, ign);
            assert(listing(es, ign) == li.push(y));
            if li.push(y).contains(l) {
                let j = choose|j: int| 0 <= j < li.push(y).len() && li.push(y)[j] == l;
                if j < li.len() {
                    assert(li[j] == l);
                    assert(li.contains(l));
                } else {
                    assert(l == line_for(es[n], ign));
                }
            }
            if li.contains(l) {
                let j = choose|j: int| 0 <= j < li.len() && li[j] == l;
                assert(li.push(y)[j] == l);
            }
            assert(li.push(y)[li.len() as int] == y);
        }
        if exists|i: int| 0 <= i < init.len() && !ign.contains(init[i].spec_name()) && l == line_for(#[trigger] init[i], ign) {
            let i = choose|i: int| 0 <= i < init.len() && !ign.contains(init[i].spec_name()) && l == line_for(#[trigger] init[i], ign);
            assert(es[i] == init[i]);
        }
        if exists|i: int| 0 <= i < es.len() && !ign.contains(es[i].spec_name()) && l == line_for(#[trigger] es[i], ign) {
            let i = choose|i: int| 0 <= i < es.len() && !ign.contains(es[i].spec_name()) && l == line_for(#[trigger] es[i], ign);
            if i < n {
                assert(init[i] == es[i]);
            }
        }
    }
}

/// The objects of a non-ignored entry are among those of its listing.
proof fn lemma_entry_objects_in_listing(es: Seq<Entry>, ign: Seq<Seq<char>>, i: int)
    requires
        0 <= i < es.len(),
        !ign.contains(es[i].spec_name()),
    ensures
        entry_objects(es[i], ign).subset_of(listing_objects(es, ign)),
    decreases es.len(),
{
    let n = es.len() - 1;
    if i < n {
        let init = es.subrange(0, n);
        assert(init[i] == es[i]);
        lemma_entry_objects_in_listing(init, ign, i);
    }
}

/// Every entry of a restorable listing is restorable, and no deeper than the
/// listing.
proof fn lemma_restorable_entry(es: Seq<Entry>, ign: Seq<Seq<char>>, i: int)
    requires
        0 <= i < es.len(),
    ensures
        restorable(es, ign) ==> restorable_entry(es[i], ign),
        entry_depth(es[i]) <= depth(es),
    decreases es.len(),
{
    let n = es.len() - 1;
    if i < n {
        let init = es.subrange(0, n);
        assert(init[i] == es[i]);
        lemma_restorable_entry(init, ign, i);
    }
}

/// A step is in `tree_steps` exactly when it is in the steps of one entry.
proof fn lemma_tree_steps(es: Seq<Entry>, prefix: Seq<Seq<char>>, x: FsStep)
    ensures
        tree_steps(es, prefix).contains(x) <==> exists|i: int|
            0 <= i < es.len() && #[trigger] entry_steps(es[i], prefix).contains(x),
    decreases es.len(),
{
    if es.len() > 0 {
        let n = es.len() - 1;
        let init = es.subrange(0, n);
        lemma_tree_steps(init, prefix, x);
        assert(tree_steps(es, prefix) == tree_steps(init, prefix).union(entry_steps(es[n], prefix)));
        if exists|i: int| 0 <= i < init.len() && #[trigger] entry_steps(init[i], prefix).contains(x) {
            let i = choose|i: int| 0 <= i < init.len() && #[trigger] entry_steps(init[i], prefix).contains(x);
            assert(es[i] == init[i]);
        }
        if exists|i: int| 0 <= i < es.len() && #[trigger] entry_steps(es[i], prefix).contains(x) {
            let i = choose|i: int| 0 <= i < es.len() && #[trigger] entry_steps(es[i], prefix).contains(x);
            if i < n {
                assert(init[i] == es[i]);
            }
        }
    }
}

/// When every line of `lines` restores, all of them do, and the steps are
/// those of the lines together.
proof fn lemma_lines_restored(
    m: Map<(ObjectKind, Seq<char>), Seq<u8>>,
    lines: Seq<Seq<char>>,
    prefix: Seq<Seq<char>>,
    fuel: nat,
)
    requires
        forall|k: int| 0 <= k < lines.len() ==> #[trigger] restored_entry(m, lines[k], prefix, fuel) is Ok,
    ensures
        restored(m, lines, prefix, fuel) is Ok,
        forall|x: FsStep| #[trigger] restored(m, lines, prefix, fuel)->Ok_0.contains(x) <==> exists|k: int|
            0 <= k < lines.len() && restored_entry(m, lines[k], prefix, fuel)->Ok_0.contains(x),
    decreases lines.len(),
{
    if lines.len() > 0 {
        let n = lines.len() - 1;
        let init = lines.drop_last();
        assert forall|k: int| 0 <= k < init.len() implies #[trigger] restored_entry(m, init[k], prefix, fuel) is Ok by {
            assert(init[k] == lines[k]);
            assert(restored_entry(m, lines[k], prefix, fuel) is Ok);
        }
        lemma_lines_restored(m, init, prefix, fuel);
        assert(restored_entry(m, lines[n], prefix, fuel) is Ok);
        assert(lines.last() == lines[n]);
        let s1 = restored(m, init, prefix, fuel)->Ok_0;
        let s2 = restored_entry(m, lines[n], prefix, fuel)->Ok_0;
        assert(restored(m, lines, prefix, fuel) == Ok::<Seq<FsStep>, Error>(s1 + s2));
        assert forall|x: FsStep| #[trigger] (s1 + s2).contains(x) <==> exists|k: int|
            0 <= k < lines.len() && restored_entry(m, lines[k], prefix, fuel)->Ok_0.contains(x) by {
            if (s1 + s2).contains(x) {
                let j = choose|j: int| 0 <= j < (s1 + s2).len() && (s1 + s2)[j] == x;
                if j < s1.len() {
                    assert(s1[j] == x);
                    assert(s1.contains(x));
                    let k = choose|k: int| 0 <= k < init.len() && restored_entry(m, init[k], prefix, fuel)->Ok_0.contains(x);
                    assert(init[k] == lines[k]);
                } else {
                    assert(s2[j - s1.len()] == x);
                    assert(s2.contains(x));
                }
            }
            if exists|k: int| 0 <= k < lines.len() && restored_entry(m, lines[k], prefix, fuel)->Ok_0.contains(x) {
                let k = choose|k: int| 0 <= k < lines.len() && restored_entry(m, lines[k], prefix, fuel)->Ok_0.contains(x);
                if k < n {
                    assert(init[k] == lines[k]);
                    assert(s1.contains(x));
                    let j = choose|j: int| 0 <= j < s1.len() && s1[j] == x;
                    assert((s1 + s2)[j] == x);
                } else {
                    assert(s2.contains(x));
                    let j = choose|j: int| 0 <= j < s2.len() && s2[j] == x;
                    assert((s1 + s2)[s1.len() + j] == x);
                }
            }
        }
    }
}

/// A listing line is never empty, and holds a character other than a tab
/// only where its kind, digest or name does.
proof fn lemma_line_chars(kind: Seq<char>, digest: Seq<char>, name: Seq<char>, c: char)
    requires
        c != '\t',
        !kind.contains(c),
        !digest.contains(c),
        !name.contains(c),
    ensures
        !line_of(kind, digest, name).contains(c),
        line_of(kind, digest, name).len() > 0,
{
    let l = line_of(kind, digest, name);
    if l.contains(c) {
        let j = choose|j: int| 0 <= j < l.len() && l[j] == c;
        let a = kind.len() as int;
        let b = a + 1 + digest.len();
        if j < a {
            assert(kind[j] == c);
        } else if j == a {
        } else if j < b {
            assert(digest[j - a - 1] == c);
        } else if j == b {
        } else {
            assert(name[j - b - 1] == c);
        }
    }
}

proof fn lemma_entry_restored(
    m: Map<(ObjectKind, Seq<char>), Seq<u8>>,
    e: Entry,
    prefix: Seq<Seq<char>>,
    ign: Seq<Seq<char>>,
    fuel: nat,
    g: Set<(ObjectKind, Seq<char>, Seq<char>)>,
)
    requires
        restorable_entry(e, ign),
        holds_all(m, g),
        entry_objects(e, ign).subset_of(g),
        fuel >= entry_depth(e),
    ensures
        restored_entry(m, line_for(e, ign), prefix, fuel) matches Ok(s) && s.to_set()
            == entry_steps(e, prefix),
    decreases e,
{
    let kind = entry_store_kind(e);
    let d = entry_digest(e, ign);
    let t = entry_text(e, ign);
    let name = e.spec_name();
    let own = (kind, d, t);
    assert(entry_objects(e, ign).contains(own));
    assert(g.contains(own));
    lemma_line_read_back(d, name);
    lemma_text_read_back(m, kind, d, t);
    let p = prefix.push(name);
    match e {
        Entry::File { .. } => {
            let w = FsStep::WriteFile(p, t);
            assert forall|y: FsStep| seq![w].to_set().contains(y) <==> #[trigger] entry_steps(e, prefix).contains(y) by {
                assert(seq![w][0] == w);
                if seq![w].contains(y) {
                    let j = choose|j: int| 0 <= j < 1 && seq![w][j] == y;
                }
            }
            assert(seq![w].to_set() =~= entry_steps(e, prefix));
        },
        Entry::Dir { entries: sub, .. } => {
            let lines = listing(sub@, ign);
            let sl = sorted_lines(lines);
            lemma_text_order_total();
            lines.lemma_sort_by_ensures(text_order());
            assert(listing_objects(sub@, ign).subset_of(g));
            assert forall|k: int| 0 <= k < sl.len() implies listing(sub@, ign).contains(#[trigger] sl[k]) by {
                vstd::seq_lib::to_multiset_contains(sl, sl[k]);
                vstd::seq_lib::to_multiset_contains(lines, sl[k]);
            }
            assert forall|l: Seq<char>| listing(sub@, ign).contains(l) implies #[trigger] sl.contains(l) by {
                vstd::seq_lib::to_multiset_contains(sl, l);
                vstd::seq_lib::to_multiset_contains(lines, l);
            }
            assert forall|k: int| 0 <= k < sl.len() implies (#[trigger] sl[k]).len() > 0 && !sl[k].contains('\n') by {
                lemma_listing_lines(sub@, ign, sl[k]);
                let i = choose|i: int|
                    0 <= i < sub@.len() && !ign.contains(sub@[i].spec_name()) && sl[k] == line_for(
                        #[trigger] sub@[i],
                        ign,
                    );
                lemma_restorable_entry(sub@, ign, i);
                lemma_entry_objects_in_listing(sub@, ign, i);
                let x = sub@[i];
                let own_x = (entry_store_kind(x), entry_digest(x, ign), entry_text(x, ign));
                assert(entry_objects(x, ign).contains(own_x));
                assert(g.contains(own_x));
                reveal_strlit("tree");
                reveal_strlit("blob");
                assert(TREE_DIR@ =~= seq!['t', 'r', 'e', 'e']);
                assert(BLOB_DIR@ =~= seq!['b', 'l', 'o', 'b']);
                lemma_line_chars(entry_kind(x), entry_digest(x, ign), x.spec_name(), '\n');
            }
            lemma_tree_text_read_back(sl);
            lemma_listing_restored(m, sub@, p, ign, (fuel - 1) as nat, g, sl);
            let s2 = restored(m, sl, p, (fuel - 1) as nat)->Ok_0;
            assert((seq![FsStep::CreateDir(p)] + s2).to_set() =~= entry_steps(e, prefix)) by {
                assert forall|x: FsStep| #[trigger] (seq![FsStep::CreateDir(p)] + s2).contains(x) <==> entry_steps(e, prefix).contains(x) by {
                    let a = seq![FsStep::CreateDir(p)] + s2;
                    if a.contains(x) {
                        let j = choose|j: int| 0 <= j < a.len() && a[j] == x;
                        if j > 0 {
                            assert(s2[j - 1] == x);
                            assert(s2.to_set().contains(x));
                        }
                    }
                    if entry_steps(e, prefix).contains(x) {
                        if x != FsStep::CreateDir(p) {
                            assert(s2.to_set().contains(x));
                            let j = choose|j: int| 0 <= j < s2.len() && s2[j] == x;
                            assert(a[j + 1] == x);
                        } else {
                            assert(a[0] == x);
                        }
                    }
                }
            }
        },
        Entry::Symlink { .. } => {},
    }
}

/// Restoring lines that are, as a set, the listing of a restorable directory
/// gives the steps that create its entries.
proof fn lemma_listing_restored(
    m: Map<(ObjectKind, Seq<char>), Seq<u8>>,
    es: Seq<Entry>,
    prefix: Seq<Seq<char>>,
    ign: Seq<Seq<char>>,
    fuel: nat,
    g: Set<(ObjectKind, Seq<char>, Seq<char>)>,
    lines: Seq<Seq<char>>,
)
    requires
        restorable(es, ign),
        holds_all(m, g),
        listing_objects(es, ign).subset_of(g),
        fuel >= depth(es),
        forall|k: int| 0 <= k < lines.len() ==> listing(es, ign).contains(#[trigger] lines[k]),
        forall|l: Seq<char>| listing(es, ign).contains(l) ==> #[trigger] lines.contains(l),
    ensures
        restored(m, lines, prefix, fuel) matches Ok(s) && s.to_set() == tree_steps(es, prefix),
    decreases es,
{
    assert forall|i: int| 0 <= i < es.len() implies (#[trigger] restored_entry(
        m,
        line_for(es[i], ign),
        prefix,
        fuel,
    ) matches Ok(s) && s.to_set() == entry_steps(es[i], prefix)) by {
        lemma_restorable_entry(es, ign, i);
        lemma_entry_objects_in_listing(es, ign, i);
        lemma_entry_restored(m, es[i], prefix, ign, fuel, g);
    }
    assert forall|k: int| 0 <= k < lines.len() implies #[trigger] restored_entry(m, lines[k], prefix, fuel) is Ok by {
        lemma_listing_lines(es, ign, lines[k]);
        let i = choose|i: int|
            0 <= i < es.len() && !ign.contains(es[i].spec_name()) && lines[k] == line_for(#[trigger] es[i], ign);
        assert(restored_entry(m, line_for(es[i], ign), prefix, fuel) is Ok);
    }
    lemma_lines_restored(m, lines, prefix, fuel);
    let s = restored(m, lines, prefix, fuel)->Ok_0;
    assert forall|x: FsStep| s.to_set().contains(x) <==> #[trigger] tree_steps(es, prefix).contains(x) by {
        lemma_tree_steps(es, prefix, x);
        assert(s.to_set().contains(x) == s.contains(x));
        if s.contains(x) {
            let k = choose|k: int| 0 <= k < lines.len() && restored_entry(m, lines[k], prefix, fuel)->Ok_0.contains(x);
            lemma_listing_lines(es, ign, lines[k]);
            let i = choose|i: int|
                0 <= i < es.len() && !ign.contains(es[i].spec_name()) && lines[k] == line_for(#[trigger] es[i], ign);
            assert(restored_entry(m, line_for(es[i], ign), prefix, fuel)->Ok_0.to_set().contains(x));
            assert(entry_steps(es[i], prefix).contains(x));
        }
        if tree_steps(es, prefix).contains(x) {
            let i = choose|i: int| 0 <= i < es.len() && #[trigger] entry_steps(es[i], prefix).contains(x);
            lemma_restorable_entry(es, ign, i);
            lemma_listing_lines(es, ign, line_for(es[i], ign));
            assert(listing(es, ign).contains(line_for(es[i], ign)));
            assert(lines.contains(line_for(es[i], ign)));
            let k = choose|k: int| 0 <= k < lines.len() && lines[k] == line_for(es[i], ign);
            assert(restored_entry(m, lines[k], prefix, fuel)->Ok_0.to_set().contains(x));
            assert(restored_entry(m, lines[k], prefix, fuel)->Ok_0.contains(x));
        }
    }
    assert(s.to_set() =~= tree_steps(es, prefix));
}

/// Whether no two of the objects share a kind and digest but differ in text.
pub open spec fn no_collision(objects: Set<(ObjectKind, Seq<char>, Seq<char>)>) -> bool {
    forall|x: (ObjectKind, Seq<char>, Seq<char>), y: (ObjectKind, Seq<char>, Seq<char>)|
        #[trigger] objects.contains(x) && #[trigger] objects.contains(y) && x.0 == y.0 && x.1 == y.1
            ==> x.2 == y.2
}

/// The text of the commit of a working directory with the given listing and
/// properties, as its archive holds it.
pub open spec fn commit_text(
    es: Seq<Entry>,
    ign: Seq<Seq<char>>,
    properties: Seq<Seq<char>>,
) -> Seq<char> {
    join(properties, '\n') + seq!['\n'] + join(sorted_lines(listing(es, ign)), '\n')
}

/// Restoring what a commit stored gives its working directory back. When the
/// store holds the commit's archive and every object of the working directory
/// as an archive of its text (as `Repo::commit` leaves a store whose earlier
/// archives agree with the new objects, when no two of those objects share a
/// kind and digest), restoring the commit
/// over `current` removes what `current` holds and then creates exactly the
/// directories and files of the working directory, each file with its text.
/// This holds when every entry is a directory or file with a plain name and
/// none is ignored, when no property holds a line break and the timestamp is
/// a decimal number (`lemma_decimal_is_decimal`), and when directories
/// nest no deeper than the store has archives, which bounds the walk.
pub proof fn lemma_restore_creates_tree(
    m: Map<(ObjectKind, Seq<char>), Seq<u8>>,
    digest: Seq<char>,
    es: Seq<Entry>,
    ign: Seq<Seq<char>>,
    properties: Seq<Seq<char>>,
    current: Seq<Entry>,
)
    requires
        restorable(es, ign),
        holds_all(m, listing_objects(es, ign)),
        m.contains_key((ObjectKind::Commit, digest)),
        gunzip_of(m[(ObjectKind::Commit, digest)]) == Some(encode_utf8(commit_text(es, ign, properties))),
        properties.len() == 4,
        forall|i: int| 0 <= i < properties.len() ==> !(#[trigger] properties[i]).contains('\n'),
        is_decimal(properties[2]),
        m.dom().len() >= depth(es),
        cleaned(current, Seq::empty(), ign) is Ok,
    ensures
        restore_plan(m, digest, current, ign) matches Ok(plan) && plan == cleaned(current, Seq::empty(), ign)->Ok_0.0
            + restored(m, sorted_lines(listing(es, ign)), Seq::empty(), m.dom().len())->Ok_0,
        restored(m, sorted_lines(listing(es, ign)), Seq::empty(), m.dom().len()) matches Ok(s)
            && s.to_set() == tree_steps(es, Seq::empty()),
{
    let g = listing_objects(es, ign);
    let lines = listing(es, ign);
    let sl = sorted_lines(lines);
    lemma_text_read_back(m, ObjectKind::Commit, digest, commit_text(es, ign, properties));
    lemma_text_order_total();
    lines.lemma_sort_by_ensures(text_order());
    assert forall|k: int| 0 <= k < sl.len() implies lines.contains(#[trigger] sl[k]) by {
        vstd::seq_lib::to_multiset_contains(sl, sl[k]);
        vstd::seq_lib::to_multiset_contains(lines, sl[k]);
    }
    assert forall|l: Seq<char>| lines.contains(l) implies #[trigger] sl.contains(l) by {
        vstd::seq_lib::to_multiset_contains(sl, l);
        vstd::seq_lib::to_multiset_contains(lines, l);
    }
    assert forall|k: int| 0 <= k < sl.len() implies (#[trigger] sl[k]).len() > 0 && !sl[k].contains('\n') by {
        lemma_listing_lines(es, ign, sl[k]);
        let i = choose|i: int|
            0 <= i < es.len() && !ign.contains(es[i].spec_name()) && sl[k] == line_for(#[trigger] es[i], ign);
        lemma_restorable_entry(es, ign, i);
        lemma_entry_objects_in_listing(es, ign, i);
        let x = es[i];
        let own_x = (entry_store_kind(x), entry_digest(x, ign), entry_text(x, ign));
        assert(entry_objects(x, ign).contains(own_x));
        assert(g.contains(own_x));
        reveal_strlit("tree");
        reveal_strlit("blob");
        assert(TREE_DIR@ =~= seq!['t', 'r', 'e', 'e']);
        assert(BLOB_DIR@ =~= seq!['b', 'l', 'o', 'b']);
        lemma_line_chars(entry_kind(x), entry_digest(x, ign), x.spec_name(), '\n');
    }
    lemma_commit_text_read_back(properties, sl);
    lemma_listing_restored(m, es, Seq::empty(), ign, m.dom().len(), g, sl);
}

} // verus!
