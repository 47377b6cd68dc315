//! A snapshot of a working directory as the builder reads it: names, kinds
//! and file bytes, nested as on disk, in directory-listing order.
use vstd::prelude::*;
use vstd::utf8::{decode_utf8, valid_utf8};
use crate::archive::header_field;
use crate::error::Error;
use crate::paths::is_normal_component;
use crate::object::{blob_digest, line_of, sorted_lines, tree_digest};
use crate::store::ObjectKind;
use crate::text::join;
use crate::paths::{BLOB_DIR, TREE_DIR};

verus! {

/// One entry of a directory listing.
pub enum Entry {
    /// A directory and its own listing.
    Dir { name: String, entries: Vec<Entry> },
    /// A regular file and its bytes.
    File { name: String, content: Vec<u8> },
    /// A symbolic link, which cannot be versioned.
    Symlink { name: String },
}

impl Entry {
    pub open spec fn spec_name(&self) -> Seq<char> {
        match self {
            Entry::Dir { name, .. } => name@,
            Entry::File { name, .. } => name@,
            Entry::Symlink { name } => name@,
        }
    }

    /// The entry's name.
    pub fn name(&self) -> (r: &String)
        ensures
            r@ == self.spec_name(),
    {
        match self {
            Entry::Dir { name, .. } => name,
            Entry::File { name, .. } => name,
            Entry::Symlink { name } => name,
        }
    }

    /// A directory with the given listing.
    pub fn dir(name: String, entries: Vec<Entry>) -> (r: Entry)
        ensures
            r == (Entry::Dir { name, entries }),
    {
        Entry::Dir { name, entries }
    }

    /// A regular file with the given bytes.
    pub fn file(name: String, content: Vec<u8>) -> (r: Entry)
        ensures
            r == (Entry::File { name, content }),
    {
        Entry::File { name, content }
    }

    /// A symbolic link.
    pub fn symlink(name: String) -> (r: Entry)
        ensures
            r == (Entry::Symlink { name }),
    {
        Entry::Symlink { name }
    }
}

/// The digest of a non-ignored entry: a directory's is that of the tree of its
/// listing, a file's that of the blob of its text.
pub open spec fn entry_digest(e: Entry, ign: Seq<Seq<char>>) -> Seq<char>
    decreases e,
{
    match e {
        Entry::Dir { entries, .. } => tree_digest(listing(entries@, ign)),
        Entry::File { content, .. } => blob_digest(decode_utf8(content@)),
        Entry::Symlink { .. } => Seq::empty(),
    }
}

/// The kind word that lists an entry: `tree` for a directory, `blob` for a file.
pub open spec fn entry_kind(e: Entry) -> Seq<char> {
    if e is Dir {
        TREE_DIR@
    } else {
        BLOB_DIR@
    }
}

/// The listing line of a non-ignored entry.
pub open spec fn entry_line(e: Entry, ign: Seq<Seq<char>>) -> Seq<char> {
    line_of(entry_kind(e), entry_digest(e, ign), e.spec_name())
}

/// The listing lines of the entries whose names are not ignored, in order.
pub open spec fn listing(es: Seq<Entry>, ign: Seq<Seq<char>>) -> Seq<Seq<char>>
    decreases es,
{
    if es.len() == 0 {
        Seq::empty()
    } else {
        let init = listing(es.subrange(0, es.len() - 1), ign);
        let e = es[es.len() - 1];
        if ign.contains(e.spec_name()) {
            init
        } else {
            init.push(line_of(entry_kind(e), entry_digest(e, ign), e.spec_name()))
        }
    }
}

/// The store kind of the object of a non-ignored entry.
pub open spec fn entry_store_kind(e: Entry) -> ObjectKind {
    if e is Dir {
        ObjectKind::Tree
    } else {
        ObjectKind::Blob
    }
}

/// The text stored for a non-ignored entry: the sorted listing lines of a
/// directory, one per line; the text of a file.
pub open spec fn entry_text(e: Entry, ign: Seq<Seq<char>>) -> Seq<char> {
    match e {
        Entry::Dir { entries, .. } => join(sorted_lines(listing(entries@, ign)), '\n'),
        Entry::File { content, .. } => decode_utf8(content@),
        Entry::Symlink { .. } => Seq::empty(),
    }
}

/// The objects (kind, digest, text) of the entries of a listing that are not
/// ignored, at every depth.
pub open spec fn listing_objects(es: Seq<Entry>, ign: Seq<Seq<char>>) -> Set<
    (ObjectKind, Seq<char>, Seq<char>),
>
    decreases es,
{
    if es.len() == 0 {
        Set::empty()
    } else {
        let init = listing_objects(es.subrange(0, es.len() - 1), ign);
        let e = es[es.len() - 1];
        if ign.contains(e.spec_name()) {
            init
        } else {
            init.union(entry_objects(e, ign))
        }
    }
}

/// The object of a non-ignored entry, and those below it.
pub open spec fn entry_objects(e: Entry, ign: Seq<Seq<char>>) -> Set<
    (ObjectKind, Seq<char>, Seq<char>),
>
    decreases e,
{
    let own = set![(entry_store_kind(e), entry_digest(e, ign), entry_text(e, ign))];
    match e {
        Entry::Dir { entries, .. } => own.union(listing_objects(entries@, ign)),
        _ => own,
    }
}

/// The paths, below `prefix`, of the entries of a listing that are not
/// ignored, at every depth.
pub open spec fn listing_paths(es: Seq<Entry>, prefix: Seq<Seq<char>>, ign: Seq<Seq<char>>) -> Set<
    Seq<Seq<char>>,
>
    decreases es,
{
    if es.len() == 0 {
        Set::empty()
    } else {
        let init = listing_paths(es.subrange(0, es.len() - 1), prefix, ign);
        let e = es[es.len() - 1];
        if ign.contains(e.spec_name()) {
            init
        } else {
            init.union(entry_paths(e, prefix, ign))
        }
    }
}

/// The path of a non-ignored entry below `prefix`, and those below it.
pub open spec fn entry_paths(e: Entry, prefix: Seq<Seq<char>>, ign: Seq<Seq<char>>) -> Set<
    Seq<Seq<char>>,
>
    decreases e,
{
    let p = prefix.push(e.spec_name());
    match e {
        Entry::Dir { entries, .. } => set![p].union(listing_paths(entries@, p, ign)),
        _ => set![p],
    }
}

/// The paths, below `prefix`, of the entries of a listing that are not
/// ignored, at every depth, each with whether it is a directory.
pub open spec fn listing_kinds(es: Seq<Entry>, prefix: Seq<Seq<char>>, ign: Seq<Seq<char>>) -> Set<
    (Seq<Seq<char>>, bool),
>
    decreases es,
{
    if es.len() == 0 {
        Set::empty()
    } else {
        let init = listing_kinds(es.subrange(0, es.len() - 1), prefix, ign);
        let e = es[es.len() - 1];
        if ign.contains(e.spec_name()) {
            init
        } else {
            init.union(entry_kinds(e, prefix, ign))
        }
    }
}

/// The path of a non-ignored entry below `prefix` with whether it is a
/// directory, and those below it.
pub open spec fn entry_kinds(e: Entry, prefix: Seq<Seq<char>>, ign: Seq<Seq<char>>) -> Set<
    (Seq<Seq<char>>, bool),
>
    decreases e,
{
    let p = prefix.push(e.spec_name());
    match e {
        Entry::Dir { entries, .. } => set![(p, true)].union(listing_kinds(entries@, p, ign)),
        _ => set![(p, false)],
    }
}

/// How many entries of a listing are not ignored, at every depth.
pub open spec fn listing_count(es: Seq<Entry>, ign: Seq<Seq<char>>) -> nat
    decreases es,
{
    if es.len() == 0 {
        0
    } else {
        let init = listing_count(es.subrange(0, es.len() - 1), ign);
        let e = es[es.len() - 1];
        if ign.contains(e.spec_name()) {
            init
        } else {
            init + entry_count(e, ign)
        }
    }
}

/// How many entries a non-ignored entry stands for: itself and those below.
pub open spec fn entry_count(e: Entry, ign: Seq<Seq<char>>) -> nat
    decreases e,
{
    match e {
        Entry::Dir { entries, .. } => 1 + listing_count(entries@, ign),
        _ => 1,
    }
}

/// The first problem met in a walk of the listing, if any: a symbolic link,
/// or a file whose bytes are not UTF-8. Ignored entries are not visited.
pub open spec fn listing_error(es: Seq<Entry>, ign: Seq<Seq<char>>) -> Option<Error>
    decreases es,
{
    if es.len() == 0 {
        None
    } else {
        let init = listing_error(es.subrange(0, es.len() - 1), ign);
        let e = es[es.len() - 1];
        if init is Some {
            init
        } else if ign.contains(e.spec_name()) {
            None
        } else {
            entry_error(e, ign)
        }
    }
}

/// The first problem met in a walk of a single non-ignored entry, if any.
pub open spec fn entry_error(e: Entry, ign: Seq<Seq<char>>) -> Option<Error>
    decreases e,
{
    if !listable_name(e.spec_name()) {
        Some(Error::Unexpected)
    } else {
        match e {
        Entry::Dir { entries, .. } => listing_error(entries@, ign),
        Entry::File { content, .. } => if valid_utf8(content@) {
            None
        } else {
            Some(Error::UnsupportedEncoding)
        },
        Entry::Symlink { .. } => Some(Error::Unsupported),
    }
    }
}

/// Whether a name can be written in a listing line, read back from it and
/// carried in an archive header: a plain file name (not empty, `.` or `..`,
/// no slash), with no tab, line break or zero character, of at most
/// `u16::MAX` bytes.
pub open spec fn listable_name(n: Seq<char>) -> bool {
    &&& is_normal_component(n)
    &&& !n.contains('/')
    &&& !n.contains('\t')
    &&& !n.contains('\n')
    &&& header_field(n)
}

/// Whether `name` can be listed, as `listable_name` says.
pub fn check_listable_name(name: &String) -> (r: bool)
    ensures
        r == listable_name(name@),
{
    let chars = crate::text::chars_of(name.as_str());
    if chars.len() == 0 || (chars.len() == 1 && chars[0] == '.') || (chars.len() == 2 && chars[0]
        == '.' && chars[1] == '.') {
        proof {
            if chars.len() == 1 {
                assert(chars@ =~= seq!['.']);
            }
            if chars.len() == 2 {
                assert(chars@ =~= seq!['.', '.']);
            }
        }
        return false;
    }
    let mut i: usize = 0;
    while i < chars.len()
        invariant
            i <= chars.len(),
            chars@ == name@,
            forall|k: int|
                0 <= k < i ==> chars@[k] != '/' && chars@[k] != '\t' && chars@[k] != '\n'
                    && chars@[k] != '\0',
        decreases chars.len() - i,
    {
        let c = chars[i];
        if c == '/' || c == '\t' || c == '\n' || c == '\0' {
            return false;
        }
        i = i + 1;
    }
    proof {
        assert(chars@ != seq!['.']);
        assert(chars@ != seq!['.', '.']);
    }
    name.as_str().as_bytes().len() <= 65535
}

/// Once a walk has met a problem, the rest of the listing does not change it.
pub proof fn lemma_listing_error_prefix(es: Seq<Entry>, k: int, ign: Seq<Seq<char>>)
    requires
        0 <= k <= es.len(),
        listing_error(es.subrange(0, k), ign) is Some,
    ensures
        listing_error(es, ign) == listing_error(es.subrange(0, k), ign),
    decreases es.len() - k,
{
    if k < es.len() {
        let s1 = es.subrange(0, k + 1);
        assert(s1.subrange(0, k) =~= es.subrange(0, k));
        assert(listing_error(s1, ign) == listing_error(es.subrange(0, k), ign));
        lemma_listing_error_prefix(es, k + 1, ign);
    } else {
        assert(es.subrange(0, k) =~= es);
    }
}

/// The listing of two runs of entries is the listing of the first followed by
/// that of the second.
pub proof fn lemma_listing_concat(s1: Seq<Entry>, s2: Seq<Entry>, ign: Seq<Seq<char>>)
    ensures
        listing(s1 + s2, ign) == listing(s1, ign) + listing(s2, ign),
    decreases s2.len(),
{
    if s2.len() == 0 {
        assert(s1 + s2 =~= s1);
        assert(listing(s1, ign) + listing(s2, ign) =~= listing(s1, ign));
    } else {
        let s = s1 + s2;
        let init2 = s2.subrange(0, s2.len() - 1);
        assert(s.subrange(0, s.len() - 1) =~= s1 + init2);
        assert(s[s.len() - 1] == s2[s2.len() - 1]);
        lemma_listing_concat(s1, init2, ign);
        let l2 = listing(s2, ign);
        assert(listing(s, ign) =~= listing(s1, ign) + l2);
    }
}

/// A listing holds the same lines, counted with multiplicity, whatever order
/// its entries come in.
pub proof fn lemma_listing_reordered(a: Seq<Entry>, b: Seq<Entry>, ign: Seq<Seq<char>>)
    requires
        a.to_multiset() == b.to_multiset(),
    ensures
        listing(a, ign).to_multiset() == listing(b, ign).to_multiset(),
    decreases a.len(),
{
    broadcast use vstd::seq_lib::group_to_multiset_ensures;

    vstd::seq_lib::to_multiset_len(a);
    vstd::seq_lib::to_multiset_len(b);
    if a.len() == 0 {
        assert(b =~= a);
    } else {
        let n = a.len() - 1;
        let x = a[n];
        let a1 = a.subrange(0, n);
        assert(a.to_multiset().count(x) > 0);
        assert(b.contains(x));
        let k = choose|k: int| 0 <= k < b.len() && b[k] == x;
        let b1 = b.remove(k);
        vstd::seq_lib::to_multiset_remove(b, k);
        vstd::seq_lib::to_multiset_remove(a, n);
        assert(a.remove(n) =~= a1);
        assert(a1.to_multiset() =~= b1.to_multiset());
        lemma_listing_reordered(a1, b1, ign);
        let one = seq![x];
        assert(a =~= a1 + one);
        lemma_listing_concat(a1, one, ign);
        let pre = b.subrange(0, k);
        let post = b.subrange(k + 1, b.len() as int);
        assert(b =~= pre + (one + post));
        assert(b1 =~= pre + post);
        lemma_listing_concat(pre, one + post, ign);
        lemma_listing_concat(one, post, ign);
        lemma_listing_concat(pre, post, ign);
        let lp = listing(pre, ign);
        let lo = listing(one, ign);
        let lq = listing(post, ign);
        vstd::seq_lib::lemma_multiset_commutative(lp, lo + lq);
        vstd::seq_lib::lemma_multiset_commutative(lo, lq);
        vstd::seq_lib::lemma_multiset_commutative(lp, lq);
        vstd::seq_lib::lemma_multiset_commutative(listing(a1, ign), lo);
        assert(listing(a, ign).to_multiset() =~= listing(b, ign).to_multiset());
    }
}

/// Putting in place of an entry another with the same name, kind and digest
/// leaves the listing as it was.
pub proof fn lemma_listing_entry_replaced(es: Seq<Entry>, i: int, e: Entry, ign: Seq<Seq<char>>)
    requires
        0 <= i < es.len(),
        e.spec_name() == es[i].spec_name(),
        (e is Dir) == (es[i] is Dir),
        entry_digest(e, ign) == entry_digest(es[i], ign),
    ensures
        listing(es.update(i, e), ign) == listing(es, ign),
{
    let pre = es.subrange(0, i);
    let post = es.subrange(i + 1, es.len() as int);
    assert(es =~= pre + (seq![es[i]] + post));
    assert(es.update(i, e) =~= pre + (seq![e] + post));
    lemma_listing_concat(pre, seq![es[i]] + post, ign);
    lemma_listing_concat(seq![es[i]], post, ign);
    lemma_listing_concat(pre, seq![e] + post, ign);
    lemma_listing_concat(seq![e], post, ign);
    let a1 = seq![es[i]];
    let e1 = seq![e];
    assert(a1.subrange(0, 0) =~= Seq::<Entry>::empty());
    assert(e1.subrange(0, 0) =~= Seq::<Entry>::empty());
    assert(listing(a1, ign) == listing(e1, ign));
}

/// Whether two listings hold the same names, kinds and bytes, entry by entry
/// and at every depth.
pub open spec fn same_listing(a: Seq<Entry>, b: Seq<Entry>) -> bool
    decreases a,
{
    &&& a.len() == b.len()
    &&& forall|i: int| 0 <= i < a.len() ==> same_entry(#[trigger] a[i], b[i])
}

/// Whether two entries have the same name and kind, and the same bytes or
/// the same listing.
pub open spec fn same_entry(a: Entry, b: Entry) -> bool
    decreases a,
{
    match (a, b) {
        (Entry::Dir { name: n1, entries: e1 }, Entry::Dir { name: n2, entries: e2 }) => n1@ == n2@
            && same_listing(e1@, e2@),
        (Entry::File { name: n1, content: c1 }, Entry::File { name: n2, content: c2 }) => n1@
            == n2@ && c1@ == c2@,
        (Entry::Symlink { name: n1 }, Entry::Symlink { name: n2 }) => n1@ == n2@,
        _ => false,
    }
}

/// Listings with the same names and bytes have the same lines, and so give
/// the same digests, wherever and whenever they are read.
pub proof fn lemma_same_listing_same_lines(a: Seq<Entry>, b: Seq<Entry>, ign: Seq<Seq<char>>)
    requires
        same_listing(a, b),
    ensures
        listing(a, ign) == listing(b, ign),
        listing_error(a, ign) == listing_error(b, ign),
    decreases a,
{
    if a.len() > 0 {
        let n = a.len() - 1;
        let a1 = a.subrange(0, n);
        let b1 = b.subrange(0, n);
        assert(same_listing(a1, b1)) by {
            assert forall|i: int| 0 <= i < a1.len() implies same_entry(#[trigger] a1[i], b1[i]) by {
                assert(same_entry(a[i], b[i]));
            }
        }
        lemma_same_listing_same_lines(a1, b1, ign);
        assert(same_entry(a[n], b[n]));
        lemma_same_entry_same_digest(a[n], b[n], ign);
    }
}

proof fn lemma_same_entry_same_digest(a: Entry, b: Entry, ign: Seq<Seq<char>>)
    requires
        same_entry(a, b),
    ensures
        entry_digest(a, ign) == entry_digest(b, ign),
        entry_error(a, ign) == entry_error(b, ign),
        a.spec_name() == b.spec_name(),
        (a is Dir) == (b is Dir),
    decreases a,
{
    match (a, b) {
        (Entry::Dir { entries: e1, .. }, Entry::Dir { entries: e2, .. }) => {
            lemma_same_listing_same_lines(e1@, e2@, ign);
        },
        _ => {},
    }
}

/// Every path of a listing below `prefix` extends `prefix` by at least one
/// name, and none of the names it adds is an ignore pattern: ignoring works
/// on whole components, at every depth.
pub proof fn lemma_listing_paths_shape(
    es: Seq<Entry>,
    prefix: Seq<Seq<char>>,
    ign: Seq<Seq<char>>,
    p: Seq<Seq<char>>,
)
    requires
        listing_paths(es, prefix, ign).contains(p),
    ensures
        p.len() > prefix.len(),
        p.subrange(0, prefix.len() as int) == prefix,
        forall|i: int| prefix.len() <= i < p.len() ==> !ign.contains(#[trigger] p[i]),
    decreases es,
{
    let n = es.len() - 1;
    let init = es.subrange(0, n);
    if listing_paths(init, prefix, ign).contains(p) {
        lemma_listing_paths_shape(init, prefix, ign, p);
    } else {
        lemma_entry_paths_shape(es[n], prefix, ign, p);
    }
}

proof fn lemma_entry_paths_shape(e: Entry, prefix: Seq<Seq<char>>, ign: Seq<Seq<char>>, p: Seq<Seq<char>>)
    requires
        !ign.contains(e.spec_name()),
        entry_paths(e, prefix, ign).contains(p),
    ensures
        p.len() > prefix.len(),
        p.subrange(0, prefix.len() as int) == prefix,
        forall|i: int| prefix.len() <= i < p.len() ==> !ign.contains(#[trigger] p[i]),
    decreases e,
{
    let q = prefix.push(e.spec_name());
    assert(q.subrange(0, prefix.len() as int) =~= prefix);
    if p != q {
        match e {
            Entry::Dir { entries, .. } => {
                lemma_listing_paths_shape(entries@, q, ign, p);
                assert(p.subrange(0, prefix.len() as int) =~= p.subrange(0, q.len() as int).subrange(0, prefix.len() as int));
                assert forall|i: int| prefix.len() <= i < p.len() implies !ign.contains(#[trigger] p[i]) by {
                    if i < q.len() {
                        assert(p[i] == p.subrange(0, q.len() as int)[i]);
                    }
                }
            },
            _ => {},
        }
    }
}

/// When a walk meets no problem, every path it lists ends in a listable name.
pub proof fn lemma_listing_paths_listable(
    es: Seq<Entry>,
    prefix: Seq<Seq<char>>,
    ign: Seq<Seq<char>>,
    p: Seq<Seq<char>>,
)
    requires
        listing_error(es, ign) is None,
        listing_paths(es, prefix, ign).contains(p),
    ensures
        listable_name(p.last()),
    decreases es,
{
    let n = es.len() - 1;
    let init = es.subrange(0, n);
    if listing_paths(init, prefix, ign).contains(p) {
        lemma_listing_paths_listable(init, prefix, ign, p);
    } else {
        lemma_entry_paths_listable(es[n], prefix, ign, p);
    }
}

proof fn lemma_entry_paths_listable(e: Entry, prefix: Seq<Seq<char>>, ign: Seq<Seq<char>>, p: Seq<Seq<char>>)
    requires
        entry_error(e, ign) is None,
        entry_paths(e, prefix, ign).contains(p),
    ensures
        listable_name(p.last()),
    decreases e,
{
    let q = prefix.push(e.spec_name());
    if p != q {
        match e {
            Entry::Dir { entries, .. } => {
                lemma_listing_paths_listable(entries@, q, ign, p);
            },
            _ => {},
        }
    }
}

/// Whether `p` maps the positions below `n` to distinct positions below `n`.
pub open spec fn is_permutation(p: Seq<int>, n: nat) -> bool {
    &&& p.len() == n
    &&& forall|i: int| 0 <= i < n ==> 0 <= #[trigger] p[i] < n
    &&& forall|i: int, j: int| 0 <= i < n && 0 <= j < n && i != j ==> #[trigger] p[i] != #[trigger] p[j]
}

/// Whether `b` holds the entries of `a`, at every depth, each directory's
/// listing possibly in another order.
pub open spec fn shuffled(a: Seq<Entry>, b: Seq<Entry>) -> bool
    decreases a,
{
    &&& a.len() == b.len()
    &&& exists|p: Seq<int>|
        is_permutation(p, a.len()) && forall|i: int| 0 <= i < a.len() ==> shuffled_entry(#[trigger] a[i], b[p[i]])
}

/// Whether `y` is `x`, its listings at every depth possibly in another order.
pub open spec fn shuffled_entry(x: Entry, y: Entry) -> bool
    decreases x,
{
    match (x, y) {
        (Entry::Dir { name: n1, entries: e1 }, Entry::Dir { name: n2, entries: e2 }) => n1@ == n2@
            && shuffled(e1@, e2@),
        (Entry::File { name: n1, content: c1 }, Entry::File { name: n2, content: c2 }) => n1@
            == n2@ && c1@ == c2@,
        (Entry::Symlink { name: n1 }, Entry::Symlink { name: n2 }) => n1@ == n2@,
        _ => false,
    }
}

proof fn lemma_listing_one(x: Entry, ign: Seq<Seq<char>>)
    ensures
        listing(seq![x], ign) == if ign.contains(x.spec_name()) {
            Seq::<Seq<char>>::empty()
        } else {
            seq![line_of(entry_kind(x), entry_digest(x, ign), x.spec_name())]
        },
{
    let one = seq![x];
    assert(one.subrange(0, 0) =~= Seq::<Entry>::empty());
    assert(one[0] == x);
    assert(listing(one.subrange(0, 0), ign) == Seq::<Seq<char>>::empty());
    let l = line_of(entry_kind(x), entry_digest(x, ign), x.spec_name());
    assert(Seq::<Seq<char>>::empty().push(l) =~= seq![l]);
}

/// Whether a walk meets no problem at an entry (an ignored entry is not
/// visited).
pub open spec fn entry_fine(e: Entry, ign: Seq<Seq<char>>) -> bool {
    ign.contains(e.spec_name()) || entry_error(e, ign) is None
}

/// A walk of two runs of entries meets no problem exactly when the walk of
/// each meets none.
pub proof fn lemma_listing_error_concat(s1: Seq<Entry>, s2: Seq<Entry>, ign: Seq<Seq<char>>)
    ensures
        (listing_error(s1 + s2, ign) is None) == (listing_error(s1, ign) is None && listing_error(s2, ign) is None),
    decreases s2.len(),
{
    if s2.len() == 0 {
        assert(s1 + s2 =~= s1);
    } else {
        let s = s1 + s2;
        let init2 = s2.subrange(0, s2.len() - 1);
        assert(s.subrange(0, s.len() - 1) =~= s1 + init2);
        assert(s[s.len() - 1] == s2[s2.len() - 1]);
        lemma_listing_error_concat(s1, init2, ign);
    }
}

proof fn lemma_listing_error_one(x: Entry, ign: Seq<Seq<char>>)
    ensures
        (listing_error(seq![x], ign) is None) == entry_fine(x, ign),
{
    let one = seq![x];
    assert(one.subrange(0, 0) =~= Seq::<Entry>::empty());
    assert(one[0] == x);
    assert(listing_error(one.subrange(0, 0), ign) is None);
}

/// Shuffling every listing of a working directory, at every depth, changes
/// neither the lines of its listing, counted with multiplicity, nor the
/// digest of any directory, nor whether its walk meets a problem.
pub proof fn lemma_shuffled_lines(a: Seq<Entry>, b: Seq<Entry>, ign: Seq<Seq<char>>)
    requires
        shuffled(a, b),
    ensures
        listing(a, ign).to_multiset() == listing(b, ign).to_multiset(),
        (listing_error(a, ign) is None) == (listing_error(b, ign) is None),
    decreases a,
{
    broadcast use vstd::seq_lib::group_to_multiset_ensures;

    if a.len() == 0 {
        assert(b =~= a);
    } else {
        let n = a.len() - 1;
        let pm = choose|p: Seq<int>|
            is_permutation(p, a.len()) && forall|i: int| 0 <= i < a.len() ==> shuffled_entry(#[trigger] a[i], b[p[i]]);
        let x = a[n];
        let k = pm[n];
        let y = b[k];
        assert(shuffled_entry(x, y));
        lemma_shuffled_entry(x, y, ign);
        let a1 = a.subrange(0, n);
        let b1 = b.remove(k);
        let p1 = Seq::new(n as nat, |i: int| if pm[i] < k { pm[i] } else { pm[i] - 1 });
        assert forall|i: int| 0 <= i < n implies pm[i] != k by {
            assert(pm[i] != pm[n]);
        }
        assert(is_permutation(p1, a1.len())) by {
            assert forall|i: int, j: int| 0 <= i < n && 0 <= j < n && i != j implies #[trigger] p1[i] != #[trigger] p1[j] by {
                assert(pm[i] != pm[j]);
                assert(pm[i] != k && pm[j] != k);
            }
        }
        assert forall|i: int| 0 <= i < a1.len() implies shuffled_entry(#[trigger] a1[i], b1[p1[i]]) by {
            assert(a1[i] == a[i]);
            assert(shuffled_entry(a[i], b[pm[i]]));
            assert(pm[i] != k);
            assert(b1[p1[i]] == b[pm[i]]);
        }
        assert(shuffled(a1, b1));
        lemma_shuffled_lines(a1, b1, ign);
        let one_x = seq![x];
        let one_y = seq![y];
        assert(a =~= a1 + one_x);
        lemma_listing_concat(a1, one_x, ign);
        let pre = b.subrange(0, k);
        let post = b.subrange(k + 1, b.len() as int);
        assert(b =~= pre + (one_y + post));
        assert(b1 =~= pre + post);
        lemma_listing_concat(pre, one_y + post, ign);
        lemma_listing_concat(one_y, post, ign);
        lemma_listing_concat(pre, post, ign);
        lemma_listing_one(x, ign);
        lemma_listing_one(y, ign);
        let lp = listing(pre, ign);
        let lo = listing(one_y, ign);
        let lq = listing(post, ign);
        assert(listing(one_x, ign) == lo);
        vstd::seq_lib::lemma_multiset_commutative(lp, lo + lq);
        vstd::seq_lib::lemma_multiset_commutative(lo, lq);
        vstd::seq_lib::lemma_multiset_commutative(lp, lq);
        vstd::seq_lib::lemma_multiset_commutative(listing(a1, ign), lo);
        assert(listing(a, ign).to_multiset() =~= listing(b, ign).to_multiset());
        lemma_listing_error_concat(a1, one_x, ign);
        lemma_listing_error_concat(pre, one_y + post, ign);
        lemma_listing_error_concat(one_y, post, ign);
        lemma_listing_error_concat(pre, post, ign);
        lemma_listing_error_one(x, ign);
        lemma_listing_error_one(y, ign);
    }
}

/// A shuffled entry has the same name, kind and digest.
pub proof fn lemma_shuffled_entry(x: Entry, y: Entry, ign: Seq<Seq<char>>)
    requires
        shuffled_entry(x, y),
    ensures
        x.spec_name() == y.spec_name(),
        entry_kind(x) == entry_kind(y),
        entry_digest(x, ign) == entry_digest(y, ign),
        entry_fine(x, ign) == entry_fine(y, ign),
    decreases x,
{
    match (x, y) {
        (Entry::Dir { entries: e1, .. }, Entry::Dir { entries: e2, .. }) => {
            lemma_shuffled_lines(e1@, e2@, ign);
            let l1 = listing(e1@, ign);
            let l2 = listing(e2@, ign);
            crate::text::lemma_text_order_total();
            l1.lemma_sort_by_ensures(crate::text::text_order());
            l2.lemma_sort_by_ensures(crate::text::text_order());
            crate::text::lemma_sorted_unique(
                sorted_lines(l1),
                sorted_lines(l2),
                crate::text::text_order(),
            );
        },
        _ => {},
    }
}

} // verus!
