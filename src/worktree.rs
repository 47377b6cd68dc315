//! The arena of objects that a commit is built in: nodes
//! held in a vector and linked by index, the commit at index 0.
use vstd::prelude::*;
use crate::encoding::text_from_utf8;
use crate::error::Error;
use crate::object::{line_of, sorted_lines, Object};
use crate::snapshot::{
    check_listable_name, entry_kinds, listing_kinds,
    entry_count, entry_digest, entry_error, entry_kind, entry_objects, entry_paths,
    entry_store_kind, entry_text, lemma_listing_error_prefix, listing, listing_count,
    listing_error, listing_objects, listing_paths, Entry,
};
use crate::archive::gunzip_of;
use crate::encoding::decimal_string;
use crate::object::commit_digest;
use crate::paths::{default_ignore, is_ignored, matches_any};
use crate::digest::is_digest;
use crate::store::{ObjectKind, ObjectStore};
use crate::text::views;
use crate::roundtrip::commit_text;
use crate::{commit_properties, Repo};
use vstd::utf8::encode_utf8;

verus! {

broadcast use vstd::string::group_string_axioms;

/// Index of a node in its arena.
pub type NodeId = usize;

/// An arena entry: an object and the indices of its children.
pub struct Node {
    pub children: Vec<NodeId>,
    pub obj: Object,
}

/// The objects of one commit: a vector used as an arena, nodes linked by
/// index, the commit at index 0.
pub struct Worktree {
    pub nodes: Vec<Node>,
}

impl Worktree {
    /// The commit is at index 0 and nowhere else, every child index points
    /// past its parent and into the arena, and every other node is listed as
    /// a child exactly once: it has one parent.
    pub open spec fn wf(&self) -> bool {
        &&& self.nodes.len() >= 1
        &&& self.nodes@[0].obj is Commit
        &&& forall|i: int| 1 <= i < self.nodes.len() ==> !(#[trigger] self.nodes@[i].obj is Commit)
        &&& forall|i: int, k: int|
            0 <= i < self.nodes.len() && 0 <= k < self.nodes@[i].children.len() ==> i
                < #[trigger] self.nodes@[i].children@[k] < self.nodes.len()
        &&& forall|i1: int, k1: int, i2: int, k2: int|
            0 <= i1 < self.nodes.len() && 0 <= k1 < self.nodes@[i1].children.len() && 0 <= i2
                < self.nodes.len() && 0 <= k2 < self.nodes@[i2].children.len()
                && #[trigger] self.nodes@[i1].children@[k1] == #[trigger] self.nodes@[i2].children@[k2]
                ==> i1 == i2 && k1 == k2
        &&& forall|j: int| 1 <= j < self.nodes.len() ==> #[trigger] self.has_parent(j)
    }

    /// Whether the node at `j` is listed as a child of some node.
    pub open spec fn has_parent(&self, j: int) -> bool {
        exists|i: int, k: int|
            0 <= i < self.nodes.len() && 0 <= k < self.nodes@[i].children.len()
                && self.nodes@[i].children@[k] == j
    }

    /// An arena that holds only the given commit.
    pub fn with_root(commit: Object) -> (r: Worktree)
        requires
            commit is Commit,
        ensures
            r.wf(),
            r.nodes.len() == 1,
            r.nodes@[0].obj == commit,
            r.nodes@[0].children@.len() == 0,
    {
        let node = Node { children: Vec::new(), obj: commit };
        Worktree { nodes: vec![node] }
    }

    /// Adds `obj` as a new last node, listed as a child of `parent`.
    fn push_child(&mut self, parent: NodeId, obj: Object) -> (id: NodeId)
        requires
            old(self).wf(),
            parent < old(self).nodes.len(),
            !(obj is Commit),
        ensures
            final(self).wf(),
            id == old(self).nodes.len(),
            final(self).nodes.len() == old(self).nodes.len() + 1,
            final(self).nodes@[id as int].obj == obj,
            final(self).nodes@[id as int].children@.len() == 0,
            final(self).nodes@[parent as int].obj == old(self).nodes@[parent as int].obj,
            final(self).nodes@[parent as int].children@ == old(self).nodes@[parent as int].children@.push(id),
            forall|j: int|
                0 <= j < old(self).nodes.len() && j != parent ==> final(self).nodes@[j] == old(
                    self,
                ).nodes@[j],
    {
        let id = self.nodes.len();
        let ghost before = self.nodes@;
        self.nodes.push(Node { children: Vec::new(), obj });
        self.nodes[parent].children.push(id);
        proof {
            let n = before.len() as int;
            assert forall|j: int| 0 <= j < n && j != parent implies self.nodes@[j] == before[j] by {}
            assert forall|i1: int, k1: int, i2: int, k2: int|
                0 <= i1 < self.nodes.len() && 0 <= k1 < self.nodes@[i1].children.len() && 0 <= i2
                    < self.nodes.len() && 0 <= k2 < self.nodes@[i2].children.len()
                    && #[trigger] self.nodes@[i1].children@[k1] == #[trigger] self.nodes@[i2].children@[k2]
                implies i1 == i2 && k1 == k2 by {
                let pk = before[parent as int].children.len() as int;
                if i1 == parent && k1 == pk {
                    if !(i2 == parent && k2 == pk) {
                        assert(self.nodes@[i2].children@[k2] == before[i2].children@[k2]);
                    }
                } else if i2 == parent && k2 == pk {
                    assert(self.nodes@[i1].children@[k1] == before[i1].children@[k1]);
                } else {
                    assert(i1 < n && i2 < n);
                    assert(self.nodes@[i1].children@[k1] == before[i1].children@[k1]);
                    assert(self.nodes@[i2].children@[k2] == before[i2].children@[k2]);
                }
            }
            assert forall|j: int| 1 <= j < self.nodes.len() implies #[trigger] self.has_parent(j) by {
                if j < n {
                    assert(old(self).has_parent(j));
                    let (i, k) = choose|i: int, k: int|
                        0 <= i < n && 0 <= k < before[i].children.len() && before[i].children@[k] == j;
                    assert(self.nodes@[i].children@[k] == j);
                } else {
                    let pk = before[parent as int].children.len() as int;
                    assert(self.nodes@[parent as int].children@[pk] == j);
                }
            }
        }
        id
    }

    /// An arena whose nodes keep their children and kinds stays well formed.
    proof fn lemma_same_shape(a: Worktree, b: Worktree)
        requires
            a.wf(),
            b.nodes.len() == a.nodes.len(),
            forall|j: int| 0 <= j < a.nodes.len() ==> #[trigger] b.nodes@[j].children == a.nodes@[j].children
                && (b.nodes@[j].obj is Commit) == (a.nodes@[j].obj is Commit),
        ensures
            b.wf(),
    {
        assert(b.nodes@[0].children == a.nodes@[0].children);
        assert forall|i: int| 1 <= i < b.nodes.len() implies !(#[trigger] b.nodes@[i].obj is Commit) by {
            assert(b.nodes@[i].children == a.nodes@[i].children);
        }
        assert forall|i: int, k: int|
            0 <= i < b.nodes.len() && 0 <= k < b.nodes@[i].children.len() implies i
                < #[trigger] b.nodes@[i].children@[k] < b.nodes.len() by {
            assert(b.nodes@[i].children == a.nodes@[i].children);
        }
        assert forall|i1: int, k1: int, i2: int, k2: int|
            0 <= i1 < b.nodes.len() && 0 <= k1 < b.nodes@[i1].children.len() && 0 <= i2
                < b.nodes.len() && 0 <= k2 < b.nodes@[i2].children.len()
                && #[trigger] b.nodes@[i1].children@[k1] == #[trigger] b.nodes@[i2].children@[k2]
            implies i1 == i2 && k1 == k2 by {
            assert(b.nodes@[i1].children == a.nodes@[i1].children);
            assert(b.nodes@[i2].children == a.nodes@[i2].children);
        }
        assert forall|j: int| 1 <= j < b.nodes.len() implies #[trigger] b.has_parent(j) by {
            assert(a.has_parent(j));
            let (i, k) = choose|i: int, k: int|
                0 <= i < a.nodes.len() && 0 <= k < a.nodes@[i].children.len() && a.nodes@[i].children@[k] == j;
            assert(b.nodes@[i].children == a.nodes@[i].children);
        }
    }

    /// Adds a listing line to the object at `at`.
    fn append_line(&mut self, at: NodeId, line: String)
        requires
            old(self).wf(),
            at < old(self).nodes.len(),
        ensures
            final(self).wf(),
            final(self).nodes.len() == old(self).nodes.len(),
            Object::lines_added(
                old(self).nodes@[at as int].obj,
                final(self).nodes@[at as int].obj,
                seq![line@],
            ),
            final(self).nodes@[at as int].children == old(self).nodes@[at as int].children,
            forall|j: int|
                0 <= j < old(self).nodes.len() && j != at ==> final(self).nodes@[j] == old(
                    self,
                ).nodes@[j],
    {
        let ghost before = *self;
        self.nodes[at].obj.append_content(line);
        proof {
            assert forall|j: int| 0 <= j < before.nodes.len() implies #[trigger] self.nodes@[j].children
                == before.nodes@[j].children && (self.nodes@[j].obj is Commit) == (before.nodes@[j].obj
                is Commit) by {}
            Worktree::lemma_same_shape(before, *self);
        }
    }

    /// Computes the digest of the object at `at`.
    fn finalize(&mut self, at: NodeId)
        requires
            old(self).wf(),
            at < old(self).nodes.len(),
        ensures
            final(self).wf(),
            final(self).nodes.len() == old(self).nodes.len(),
            Object::digest_updated(old(self).nodes@[at as int].obj, final(self).nodes@[at as int].obj),
            crate::digest::is_digest(final(self).nodes@[at as int].obj.spec_digest()),
            final(self).nodes@[at as int].children == old(self).nodes@[at as int].children,
            forall|j: int|
                0 <= j < old(self).nodes.len() && j != at ==> final(self).nodes@[j] == old(
                    self,
                ).nodes@[j],
    {
        let ghost before = *self;
        let _ = self.nodes[at].obj.update_digest();
        proof {
            assert forall|j: int| 0 <= j < before.nodes.len() implies #[trigger] self.nodes@[j].children
                == before.nodes@[j].children && (self.nodes@[j].obj is Commit) == (before.nodes@[j].obj
                is Commit) by {}
            Worktree::lemma_same_shape(before, *self);
        }
    }
}

/// The listing line of the tree or blob at `j`.
pub open spec fn node_line(wt: Worktree, j: int) -> Seq<char> {
    line_of(wt.nodes@[j].obj.kind_word(), wt.nodes@[j].obj.spec_digest(), wt.nodes@[j].obj.name())
}

/// The listing lines of the children of the node at `i`, in order.
pub open spec fn child_lines(wt: Worktree, i: int) -> Seq<Seq<char>> {
    Seq::new(wt.nodes@[i].children.len() as nat, |k: int| node_line(wt, wt.nodes@[i].children@[k] as int))
}

/// Every child of the node at `i` from index `from` on has the path of the
/// node at `i` followed by one name.
pub open spec fn child_paths_extend(wt: Worktree, i: int, from: int) -> bool {
    forall|k: int|
        0 <= k < wt.nodes@[i].children.len() && #[trigger] wt.nodes@[i].children@[k] >= from ==> {
            let c = wt.nodes@[i].children@[k] as int;
            &&& wt.nodes@[c].obj.spec_path().len() > 0
            &&& wt.nodes@[c].obj.spec_path().drop_last() == wt.nodes@[i].obj.spec_path()
        }
}

/// A tree at `i` lists exactly the lines of its children, sorted.
pub open spec fn tree_lists_children(wt: Worktree, i: int) -> bool {
    wt.nodes@[i].obj is Tree ==> wt.nodes@[i].obj.lines() == sorted_lines(child_lines(wt, i))
}

/// What a node says of itself and of its children stays true while neither
/// it nor any node after it changes.
proof fn lemma_node_frame(a: Worktree, b: Worktree, lo: int, i: int, from: int)
    requires
        a.wf(),
        0 <= lo <= i < a.nodes.len(),
        b.nodes.len() >= a.nodes.len(),
        forall|j: int| lo <= j < a.nodes.len() ==> #[trigger] b.nodes@[j] == a.nodes@[j],
    ensures
        child_paths_extend(a, i, from) ==> child_paths_extend(b, i, from),
        tree_lists_children(a, i) ==> tree_lists_children(b, i),
{
    assert(b.nodes@[i] == a.nodes@[i]);
    assert forall|k: int| 0 <= k < a.nodes@[i].children.len() implies b.nodes@[a.nodes@[i].children@[k] as int]
        == a.nodes@[a.nodes@[i].children@[k] as int] by {
        let c = a.nodes@[i].children@[k] as int;
        assert(lo <= c < a.nodes.len());
    }
    assert(child_lines(b, i) =~= child_lines(a, i));
    if child_paths_extend(a, i, from) {
        assert forall|k: int|
            0 <= k < b.nodes@[i].children.len() && #[trigger] b.nodes@[i].children@[k] >= from implies {
                let c = b.nodes@[i].children@[k] as int;
                &&& b.nodes@[c].obj.spec_path().len() > 0
                &&& b.nodes@[c].obj.spec_path().drop_last() == b.nodes@[i].obj.spec_path()
            } by {
            assert(a.nodes@[i].children@[k] >= from);
        }
    }
}

/// The kind, digest and stored text of the object at `j`.
pub open spec fn node_record(wt: Worktree, j: int) -> (ObjectKind, Seq<char>, Seq<char>) {
    (kind_of(wt.nodes@[j].obj), wt.nodes@[j].obj.spec_digest(), wt.nodes@[j].obj.archive_text())
}

/// The path `prefix` followed by `name`.
pub(crate) fn child_path(prefix: &Vec<String>, name: &String) -> (r: Vec<String>)
    ensures
        views(r@) == views(prefix@).push(name@),
{
    let mut r: Vec<String> = Vec::new();
    let mut i: usize = 0;
    while i < prefix.len()
        invariant
            i <= prefix.len(),
            views(r@) == views(prefix@).subrange(0, i as int),
        decreases prefix.len() - i,
    {
        let c = prefix[i].clone();
        let ghost before = r@;
        assert(c@ == prefix@[i as int]@);
        r.push(c);
        assert(views(r@) =~= views(before).push(c@));
        assert(views(prefix@).subrange(0, i + 1) =~= views(prefix@).subrange(0, i as int).push(
            prefix@[i as int]@,
        ));
        i = i + 1;
    }
    let c = name.clone();
    let ghost before = r@;
    assert(c@ == name@);
    r.push(c);
    assert(views(r@) =~= views(before).push(c@));
    assert(views(prefix@).subrange(0, prefix.len() as int) =~= views(prefix@));
    r
}

/// Walks the listing `entries` of the directory at `prefix`, adding a node for
/// every entry that is not ignored below the node `current`, and its listing
/// line to `current`. Directories are walked as they are met; files have their
/// digest computed at once, trees once their own walk is done.
pub fn build_tree_from_files(
    wt: &mut Worktree,
    current: NodeId,
    prefix: &Vec<String>,
    entries: &Vec<Entry>,
    ignore: &Vec<String>,
    default_ignore: &Vec<String>,
) -> (r: Result<(), Error>)
    requires
        old(wt).wf(),
        current < old(wt).nodes.len(),
        !(old(wt).nodes@[current as int].obj is Blob),
        old(wt).nodes@[current as int].obj.spec_path() == views(prefix@),
        !matches_any(views(prefix@), views(ignore@)),
        !matches_any(views(prefix@), views(default_ignore@)),
    ensures
        r is Ok <==> listing_error(entries@, views(ignore@) + views(default_ignore@)) is None,
        r matches Err(e) ==> listing_error(entries@, views(ignore@) + views(default_ignore@))
            == Some(e),
        r is Ok ==> {
            &&& final(wt).wf()
            &&& final(wt).nodes.len() >= old(wt).nodes.len()
            &&& Object::lines_added(
                old(wt).nodes@[current as int].obj,
                final(wt).nodes@[current as int].obj,
                listing(entries@, views(ignore@) + views(default_ignore@)),
            )
            &&& forall|j: int|
                0 <= j < old(wt).nodes.len() && j != current ==> #[trigger] final(wt).nodes@[j]
                    == old(wt).nodes@[j]
            &&& final(wt).nodes.len() - old(wt).nodes.len() == listing_count(
                entries@,
                views(ignore@) + views(default_ignore@),
            )
            &&& forall|j: int| old(wt).nodes.len() <= j < final(wt).nodes.len() ==> listing_paths(
                entries@,
                views(prefix@),
                views(ignore@) + views(default_ignore@),
            ).contains(#[trigger] final(wt).nodes@[j].obj.spec_path())
            &&& forall|p| #[trigger] listing_paths(
                entries@,
                views(prefix@),
                views(ignore@) + views(default_ignore@),
            ).contains(p) ==> exists|j: int|
                old(wt).nodes.len() <= j < final(wt).nodes.len() && final(wt).nodes@[j].obj.spec_path() == p
            &&& forall|j: int| old(wt).nodes.len() <= j < final(wt).nodes.len() && final(wt).nodes@[j].obj is Blob
                ==> (#[trigger] final(wt).nodes@[j]).children@.len() == 0
            &&& child_paths_extend(*final(wt), current as int, old(wt).nodes.len() as int)
            &&& forall|i: int| old(wt).nodes.len() <= i < final(wt).nodes.len() ==> #[trigger] child_paths_extend(
                *final(wt),
                i,
                0,
            )
            &&& forall|i: int| old(wt).nodes.len() <= i < final(wt).nodes.len() ==> #[trigger] tree_lists_children(
                *final(wt),
                i,
            )
            &&& forall|j: int| old(wt).nodes.len() <= j < final(wt).nodes.len() ==> listing_kinds(
                entries@,
                views(prefix@),
                views(ignore@) + views(default_ignore@),
            ).contains((#[trigger] final(wt).nodes@[j].obj.spec_path(), final(wt).nodes@[j].obj is Tree))
            &&& forall|q: (Seq<Seq<char>>, bool)| #[trigger] listing_kinds(
                entries@,
                views(prefix@),
                views(ignore@) + views(default_ignore@),
            ).contains(q) ==> exists|j: int|
                old(wt).nodes.len() <= j < final(wt).nodes.len() && final(wt).nodes@[j].obj.spec_path() == q.0
                    && (final(wt).nodes@[j].obj is Tree) == q.1
            &&& exists|kids: Seq<NodeId>| {
                &&& final(wt).nodes@[current as int].children@ == old(wt).nodes@[current as int].children@ + kids
                &&& kids.len() == listing(entries@, views(ignore@) + views(default_ignore@)).len()
                &&& forall|k: int| 0 <= k < kids.len() ==> old(wt).nodes.len() <= #[trigger] kids[k] < final(wt).nodes.len()
                    && node_line(*final(wt), kids[k] as int) == listing(entries@, views(ignore@) + views(default_ignore@))[k]
            }
            &&& forall|x| #[trigger]
                listing_objects(entries@, views(ignore@) + views(default_ignore@)).contains(x)
                    ==> exists|j: int|
                    old(wt).nodes.len() <= j < final(wt).nodes.len() && node_record(*final(wt), j)
                        == x
            &&& forall|j: int| old(wt).nodes.len() <= j < final(wt).nodes.len() ==> listing_objects(
                entries@,
                views(ignore@) + views(default_ignore@),
            ).contains(#[trigger] node_record(*final(wt), j))
            &&& forall|j: int| old(wt).nodes.len() <= j < final(wt).nodes.len() ==> is_digest(
                #[trigger] final(wt).nodes@[j].obj.spec_digest(),
            )
        },
    decreases entries@,
{
    let ghost ign = views(ignore@) + views(default_ignore@);
    let ghost start = *wt;
    let ghost mut kids: Seq<NodeId> = Seq::empty();
    let mut i: usize = 0;
    assert(wt.nodes@[current as int].children@ =~= start.nodes@[current as int].children@ + kids);
    while i < entries.len()
        invariant
            i <= entries.len(),
            wt.wf(),
            current < wt.nodes.len(),
            wt.nodes.len() >= start.nodes.len(),
            start.nodes.len() == old(wt).nodes.len(),
            start == *old(wt),
            current < start.nodes.len(),
            ign == views(ignore@) + views(default_ignore@),
            !matches_any(views(prefix@), views(ignore@)),
            !matches_any(views(prefix@), views(default_ignore@)),
            listing_error(entries@.subrange(0, i as int), ign) is None,
            Object::lines_added(
                start.nodes@[current as int].obj,
                wt.nodes@[current as int].obj,
                listing(entries@.subrange(0, i as int), ign),
            ),
            !(wt.nodes@[current as int].obj is Blob),
            forall|j: int|
                0 <= j < start.nodes.len() && j != current ==> #[trigger] wt.nodes@[j]
                    == start.nodes@[j],
            wt.nodes.len() - start.nodes.len() == listing_count(entries@.subrange(0, i as int), ign),
            forall|j: int| start.nodes.len() <= j < wt.nodes.len() ==> listing_paths(
                entries@.subrange(0, i as int),
                views(prefix@),
                ign,
            ).contains(#[trigger] wt.nodes@[j].obj.spec_path()),
            forall|p| #[trigger] listing_paths(entries@.subrange(0, i as int), views(prefix@), ign).contains(p)
                ==> exists|j: int| start.nodes.len() <= j < wt.nodes.len() && wt.nodes@[j].obj.spec_path() == p,
            forall|j: int| start.nodes.len() <= j < wt.nodes.len() && wt.nodes@[j].obj is Blob
                ==> (#[trigger] wt.nodes@[j]).children@.len() == 0,
            wt.nodes@[current as int].children@ == start.nodes@[current as int].children@ + kids,
            kids.len() == listing(entries@.subrange(0, i as int), ign).len(),
            forall|k: int| 0 <= k < kids.len() ==> start.nodes.len() <= #[trigger] kids[k] < wt.nodes.len()
                && node_line(*wt, kids[k] as int) == listing(entries@.subrange(0, i as int), ign)[k]
                && wt.nodes@[kids[k] as int].obj.spec_path().len() > 0
                && wt.nodes@[kids[k] as int].obj.spec_path().drop_last() == views(prefix@),
            wt.nodes@[current as int].obj.spec_path() == views(prefix@),
            forall|i2: int| start.nodes.len() <= i2 < wt.nodes.len() ==> #[trigger] child_paths_extend(*wt, i2, 0),
            forall|i2: int| start.nodes.len() <= i2 < wt.nodes.len() ==> #[trigger] tree_lists_children(*wt, i2),
            forall|j: int| start.nodes.len() <= j < wt.nodes.len() ==> listing_kinds(
                entries@.subrange(0, i as int),
                views(prefix@),
                ign,
            ).contains((#[trigger] wt.nodes@[j].obj.spec_path(), wt.nodes@[j].obj is Tree)),
            forall|q: (Seq<Seq<char>>, bool)| #[trigger] listing_kinds(entries@.subrange(0, i as int), views(prefix@), ign).contains(q)
                ==> exists|j: int| start.nodes.len() <= j < wt.nodes.len() && wt.nodes@[j].obj.spec_path() == q.0
                    && (wt.nodes@[j].obj is Tree) == q.1,
            forall|x| #[trigger]
                listing_objects(entries@.subrange(0, i as int), ign).contains(x) ==> exists|j: int|
                    start.nodes.len() <= j < wt.nodes.len() && node_record(*wt, j) == x,
            forall|j: int| start.nodes.len() <= j < wt.nodes.len() ==> listing_objects(
                entries@.subrange(0, i as int),
                ign,
            ).contains(#[trigger] node_record(*wt, j)),
            forall|j: int| start.nodes.len() <= j < wt.nodes.len() ==> is_digest(
                #[trigger] wt.nodes@[j].obj.spec_digest(),
            ),
        decreases entries.len() - i,
    {
        let e = &entries[i];
        let ghost done = entries@.subrange(0, i as int);
        let ghost next = entries@.subrange(0, i + 1);
        assert(next.subrange(0, i as int) =~= done);
        assert(next[i as int] == *e);
        let path = child_path(prefix, e.name());
        proof {
            crate::paths::lemma_ignored_component(views(prefix@), e.spec_name(), views(ignore@), views(default_ignore@));
        }
        let ghost w0 = *wt;
        if is_ignored(&path, ignore, default_ignore) {
            assert(listing(next, ign) == listing(done, ign));
            assert(listing_objects(next, ign) == listing_objects(done, ign));
            assert(listing_count(next, ign) == listing_count(done, ign));
            assert(listing_paths(next, views(prefix@), ign) == listing_paths(done, views(prefix@), ign));
            assert(listing_kinds(next, views(prefix@), ign) == listing_kinds(done, views(prefix@), ign));
            assert forall|j: int| start.nodes.len() <= j < wt.nodes.len() implies listing_objects(
                next,
                ign,
            ).contains(#[trigger] node_record(*wt, j)) by {
                assert(listing_objects(done, ign).contains(node_record(*wt, j)));
            }
        } else {
            if !check_listable_name(e.name()) {
                proof {
                    assert(!ign.contains(e.spec_name()));
                    assert(listing_error(next, ign) == entry_error(*e, ign));
                    lemma_listing_error_prefix(entries@, i + 1, ign);
                }
                return Err(Error::Unexpected);
            }
            proof {
                assert(!ign.contains(e.spec_name()));
                assert(listing_error(next, ign) == entry_error(*e, ign));
                assert(listing_objects(next, ign) == listing_objects(done, ign).union(
                    entry_objects(*e, ign),
                ));
                assert(listing_count(next, ign) == listing_count(done, ign) + entry_count(*e, ign));
                assert(listing_paths(next, views(prefix@), ign) == listing_paths(done, views(prefix@), ign).union(
                    entry_paths(*e, views(prefix@), ign),
                ));
                assert(listing_kinds(next, views(prefix@), ign) == listing_kinds(done, views(prefix@), ign).union(
                    entry_kinds(*e, views(prefix@), ign),
                ));
            }
            let ghost mut after_sub = *wt;
            let ghost mut pushed = *wt;
            let id: NodeId;
            match e {
                Entry::Dir { entries: sub, .. } => {
                    let sub_prefix = child_path(prefix, e.name());
                    let tree = Object::new_tree(path, Vec::new(), String::new());
                    id = wt.push_child(current, tree);
                    proof {
                        pushed = *wt;
                    }
                    proof {
                        assert(views(wt.nodes@[id as int].obj->Tree_content@) =~= Seq::<
                            Seq<char>,
                        >::empty());
                    }
                    let ghost mid = *wt;
                    assert(decreases_to!(entries@ => sub@)) by {
                        assert(decreases_to!(entries@ => entries@[i as int]));
                    }
                    match build_tree_from_files(wt, id, &sub_prefix, sub, ignore, default_ignore) {
                        Err(err) => {
                            proof {
                                lemma_listing_error_prefix(entries@, i + 1, ign);
                            }
                            return Err(err);
                        },
                        Ok(()) => {},
                    }
                    proof {
                        assert(wt.nodes@[current as int].obj == mid.nodes@[current as int].obj);
                        assert(views(wt.nodes@[id as int].obj->Tree_content@) =~= listing(sub@, ign));
                        after_sub = *wt;
                    }
                    wt.finalize(id);
                },
                Entry::File { content, .. } => {
                    match text_from_utf8(content.as_slice()) {
                        None => {
                            proof {
                                lemma_listing_error_prefix(entries@, i + 1, ign);
                            }
                            return Err(Error::UnsupportedEncoding);
                        },
                        Some(text) => {
                            let blob = Object::new_blob(path, text, String::new());
                            id = wt.push_child(current, blob);
                            proof {
                                pushed = *wt;
                                after_sub = *wt;
                            }
                            wt.finalize(id);
                        },
                    }
                },
                Entry::Symlink { .. } => {
                    proof {
                        lemma_listing_error_prefix(entries@, i + 1, ign);
                    }
                    return Err(Error::Unsupported);
                },
            }
            let ghost tail = *wt;
            assert(wt.nodes@[id as int].obj.spec_digest().len() == 40);
            assert(wt.nodes@[id as int].obj.spec_path().len() > 0);
            match wt.nodes[id].obj.obj_content_line() {
                Ok(line) => {
                    proof {
                        assert(line@ == line_of(entry_kind(*e), entry_digest(*e, ign), e.spec_name()));
                        assert(listing(next, ign) == listing(done, ign).push(line@));
                    }
                    wt.append_line(current, line);
                    proof {
                        Object::lemma_lines_added_trans(
                            start.nodes@[current as int].obj,
                            tail.nodes@[current as int].obj,
                            wt.nodes@[current as int].obj,
                            listing(done, ign),
                            seq![line@],
                        );
                        assert(listing(done, ign) + seq![line@] =~= listing(next, ign));
                        let own = (entry_store_kind(*e), entry_digest(*e, ign), entry_text(*e, ign));
                        assert(node_record(*wt, id as int) == own) by {
                            assert(wt.nodes@[id as int].obj == tail.nodes@[id as int].obj);
                        }
                        assert forall|x| #[trigger] listing_objects(next, ign).contains(x) implies exists|j: int|
                            start.nodes.len() <= j < wt.nodes.len() && node_record(*wt, j) == x by {
                            if listing_objects(done, ign).contains(x) {
                                let j = choose|j: int|
                                    start.nodes.len() <= j < w0.nodes.len() && node_record(w0, j) == x;
                                assert(wt.nodes@[j].obj == tail.nodes@[j].obj);
                                assert(tail.nodes@[j].obj == w0.nodes@[j].obj);
                                assert(node_record(*wt, j) == x);
                            } else if x == own {
                                assert(node_record(*wt, id as int) == x);
                            } else {
                                let sub = e->Dir_entries;
                                assert(listing_objects(sub@, ign).contains(x));
                                let j = choose|j: int|
                                    id + 1 <= j < after_sub.nodes.len() && node_record(after_sub, j) == x;
                                assert(wt.nodes@[j].obj == tail.nodes@[j].obj);
                                assert(tail.nodes@[j].obj == after_sub.nodes@[j].obj);
                                assert(node_record(*wt, j) == x);
                            }
                        }
                        assert forall|j: int| start.nodes.len() <= j < wt.nodes.len() implies listing_objects(
                            next,
                            ign,
                        ).contains(#[trigger] node_record(*wt, j)) by {
                            if j < w0.nodes.len() {
                                assert(wt.nodes@[j].obj == tail.nodes@[j].obj);
                                assert(tail.nodes@[j].obj == w0.nodes@[j].obj);
                                assert(node_record(*wt, j) == node_record(w0, j));
                            } else if j == id {
                                assert(entry_objects(*e, ign).contains(own));
                                assert(wt.nodes@[j].obj == tail.nodes@[j].obj);
                            } else {
                                let sub = e->Dir_entries;
                                assert(wt.nodes@[j].obj == tail.nodes@[j].obj);
                                assert(tail.nodes@[j].obj == after_sub.nodes@[j].obj);
                                assert(node_record(*wt, j) == node_record(after_sub, j));
                                assert(listing_objects(sub@, ign).contains(node_record(after_sub, j)));
                                assert(entry_objects(*e, ign).contains(node_record(after_sub, j)));
                            }
                        }
                        let ep = views(prefix@).push(e.spec_name());
                        assert(wt.nodes@[id as int].obj == tail.nodes@[id as int].obj);
                        assert(wt.nodes@[id as int].obj.spec_path() == ep);
                        assert(entry_paths(*e, views(prefix@), ign).contains(ep));
                        assert forall|j: int| start.nodes.len() <= j < wt.nodes.len() implies listing_paths(
                            next,
                            views(prefix@),
                            ign,
                        ).contains(#[trigger] wt.nodes@[j].obj.spec_path()) by {
                            if j < w0.nodes.len() {
                                assert(wt.nodes@[j].obj == tail.nodes@[j].obj);
                                assert(tail.nodes@[j].obj == w0.nodes@[j].obj);
                                assert(listing_paths(done, views(prefix@), ign).contains(w0.nodes@[j].obj.spec_path()));
                            } else if j == id {
                            } else {
                                let sub = e->Dir_entries;
                                assert(wt.nodes@[j].obj == tail.nodes@[j].obj);
                                assert(tail.nodes@[j].obj == after_sub.nodes@[j].obj);
                                assert(listing_paths(sub@, ep, ign).contains(after_sub.nodes@[j].obj.spec_path()));
                                assert(entry_paths(*e, views(prefix@), ign).contains(after_sub.nodes@[j].obj.spec_path()));
                            }
                        }
                        assert forall|q| #[trigger] listing_paths(next, views(prefix@), ign).contains(q)
                            implies exists|j: int| start.nodes.len() <= j < wt.nodes.len() && wt.nodes@[j].obj.spec_path() == q by {
                            if listing_paths(done, views(prefix@), ign).contains(q) {
                                let j = choose|j: int| start.nodes.len() <= j < w0.nodes.len() && w0.nodes@[j].obj.spec_path() == q;
                                assert(wt.nodes@[j].obj == tail.nodes@[j].obj);
                                assert(tail.nodes@[j].obj == w0.nodes@[j].obj);
                            } else if q == ep {
                            } else {
                                let sub = e->Dir_entries;
                                assert(listing_paths(sub@, ep, ign).contains(q));
                                let j = choose|j: int| id + 1 <= j < after_sub.nodes.len() && after_sub.nodes@[j].obj.spec_path() == q;
                                assert(wt.nodes@[j].obj == tail.nodes@[j].obj);
                                assert(tail.nodes@[j].obj == after_sub.nodes@[j].obj);
                            }
                        }
                        assert forall|j: int| start.nodes.len() <= j < wt.nodes.len() && wt.nodes@[j].obj is Blob
                            implies (#[trigger] wt.nodes@[j]).children@.len() == 0 by {
                            if j < w0.nodes.len() {
                                assert(wt.nodes@[j] == tail.nodes@[j]);
                                assert(tail.nodes@[j] == w0.nodes@[j]);
                            } else if j == id {
                                assert(wt.nodes@[j] == tail.nodes@[j]);
                            } else {
                                assert(wt.nodes@[j] == tail.nodes@[j]);
                                assert(tail.nodes@[j] == after_sub.nodes@[j]);
                            }
                        }
                        assert(node_line(*wt, id as int) == line@);
                        let ghost old_kids = kids;
                        kids = kids.push(id);
                        assert(wt.nodes@[current as int].children@ =~= start.nodes@[current as int].children@ + kids);
                        assert forall|k: int| 0 <= k < kids.len() implies start.nodes.len() <= #[trigger] kids[k] < wt.nodes.len()
                            && node_line(*wt, kids[k] as int) == listing(next, ign)[k] by {
                            if k < old_kids.len() {
                                let j = kids[k] as int;
                                assert(j == old_kids[k]);
                                assert(wt.nodes@[j].obj == tail.nodes@[j].obj);
                                assert(tail.nodes@[j].obj == w0.nodes@[j].obj);
                                assert(node_line(w0, j) == listing(done, ign)[k]);
                            } else {
                                assert(kids[k] == id);
                            }
                        }
                        {
                            let lo = start.nodes.len() as int;
                            assert forall|j: int| lo <= j < w0.nodes.len() implies #[trigger] wt.nodes@[j] == w0.nodes@[j] by {
                                assert(pushed.nodes@[j] == w0.nodes@[j]);
                                assert(after_sub.nodes@[j] == pushed.nodes@[j]);
                                assert(tail.nodes@[j] == after_sub.nodes@[j]);
                                assert(wt.nodes@[j] == tail.nodes@[j]);
                            }
                            assert forall|j: int| id + 1 <= j < after_sub.nodes.len() implies #[trigger] wt.nodes@[j] == after_sub.nodes@[j] by {
                                assert(tail.nodes@[j] == after_sub.nodes@[j]);
                                assert(wt.nodes@[j] == tail.nodes@[j]);
                            }
                            assert forall|j: int| id <= j < tail.nodes.len() implies #[trigger] wt.nodes@[j] == tail.nodes@[j] by {}
                            // the node made for this entry
                            assert(after_sub.nodes@[id as int].obj.spec_path() == ep);
                            assert(tail.nodes@[id as int].children == after_sub.nodes@[id as int].children);
                            assert forall|k: int| 0 <= k < after_sub.nodes@[id as int].children.len() implies
                                #[trigger] tail.nodes@[after_sub.nodes@[id as int].children@[k] as int]
                                == after_sub.nodes@[after_sub.nodes@[id as int].children@[k] as int] by {
                                assert(after_sub.wf());
                                let c = after_sub.nodes@[id as int].children@[k] as int;
                                assert(id < c);
                            }
                            if e is Dir {
                                let sub = e->Dir_entries;
                                assert(child_paths_extend(after_sub, id as int, id + 1));
                                assert(child_paths_extend(tail, id as int, 0)) by {
                                    assert forall|k: int|
                                        0 <= k < tail.nodes@[id as int].children.len() && #[trigger] tail.nodes@[id as int].children@[k] >= 0 implies {
                                            let c = tail.nodes@[id as int].children@[k] as int;
                                            &&& tail.nodes@[c].obj.spec_path().len() > 0
                                            &&& tail.nodes@[c].obj.spec_path().drop_last() == tail.nodes@[id as int].obj.spec_path()
                                        } by {
                                        assert(after_sub.wf());
                                        assert(after_sub.nodes@[id as int].children@[k] > id);
                                    }
                                }
                                let ks = choose|ks: Seq<NodeId>| {
                                    &&& after_sub.nodes@[id as int].children@ == pushed.nodes@[id as int].children@ + ks
                                    &&& ks.len() == listing(sub@, ign).len()
                                    &&& forall|k: int| 0 <= k < ks.len() ==> pushed.nodes.len() <= #[trigger] ks[k] < after_sub.nodes.len()
                                        && node_line(after_sub, ks[k] as int) == listing(sub@, ign)[k]
                                };
                                assert(after_sub.nodes@[id as int].children@ =~= ks);
                                assert(child_lines(after_sub, id as int) =~= listing(sub@, ign));
                                assert(child_lines(tail, id as int) =~= child_lines(after_sub, id as int));
                                assert(tree_lists_children(tail, id as int));
                            } else {
                                assert(tail.nodes@[id as int].children@.len() == 0);
                                assert(child_paths_extend(tail, id as int, 0));
                                assert(tree_lists_children(tail, id as int));
                            }
                            lemma_node_frame(tail, *wt, id as int, id as int, 0);
                            assert forall|i2: int| start.nodes.len() <= i2 < wt.nodes.len() implies child_paths_extend(*wt, i2, 0)
                                && #[trigger] tree_lists_children(*wt, i2) by {
                                if i2 < w0.nodes.len() {
                                    assert(child_paths_extend(w0, i2, 0) && tree_lists_children(w0, i2));
                                    lemma_node_frame(w0, *wt, lo, i2, 0);
                                } else if i2 == id {
                                } else {
                                    assert(child_paths_extend(after_sub, i2, 0) && tree_lists_children(after_sub, i2));
                                    lemma_node_frame(after_sub, *wt, id + 1, i2, 0);
                                }
                            }
                            assert forall|i2: int| start.nodes.len() <= i2 < wt.nodes.len() implies #[trigger] child_paths_extend(*wt, i2, 0)
                                && tree_lists_children(*wt, i2) by {
                                if i2 < w0.nodes.len() {
                                    assert(child_paths_extend(w0, i2, 0) && tree_lists_children(w0, i2));
                                    lemma_node_frame(w0, *wt, lo, i2, 0);
                                } else if i2 == id {
                                } else {
                                    assert(child_paths_extend(after_sub, i2, 0) && tree_lists_children(after_sub, i2));
                                    lemma_node_frame(after_sub, *wt, id + 1, i2, 0);
                                }
                            }
                            assert forall|j: int| start.nodes.len() <= j < wt.nodes.len() implies listing_kinds(
                                next,
                                views(prefix@),
                                ign,
                            ).contains((#[trigger] wt.nodes@[j].obj.spec_path(), wt.nodes@[j].obj is Tree)) by {
                                if j < w0.nodes.len() {
                                    assert(listing_kinds(done, views(prefix@), ign).contains((w0.nodes@[j].obj.spec_path(), w0.nodes@[j].obj is Tree)));
                                } else if j == id {
                                    assert(entry_kinds(*e, views(prefix@), ign).contains((ep, e is Dir)));
                                } else {
                                    let sub = e->Dir_entries;
                                    assert(listing_kinds(sub@, ep, ign).contains((after_sub.nodes@[j].obj.spec_path(), after_sub.nodes@[j].obj is Tree)));
                                    assert(entry_kinds(*e, views(prefix@), ign).contains((after_sub.nodes@[j].obj.spec_path(), after_sub.nodes@[j].obj is Tree)));
                                }
                            }
                            assert forall|q: (Seq<Seq<char>>, bool)| #[trigger] listing_kinds(next, views(prefix@), ign).contains(q)
                                implies exists|j: int| start.nodes.len() <= j < wt.nodes.len() && wt.nodes@[j].obj.spec_path() == q.0
                                    && (wt.nodes@[j].obj is Tree) == q.1 by {
                                if listing_kinds(done, views(prefix@), ign).contains(q) {
                                    let j = choose|j: int| start.nodes.len() <= j < w0.nodes.len() && w0.nodes@[j].obj.spec_path() == q.0
                                        && (w0.nodes@[j].obj is Tree) == q.1;
                                    assert(wt.nodes@[j] == w0.nodes@[j]);
                                } else if q == (ep, e is Dir) {
                                    assert(wt.nodes@[id as int] == tail.nodes@[id as int]);
                                } else {
                                    let sub = e->Dir_entries;
                                    assert(listing_kinds(sub@, ep, ign).contains(q));
                                    let j = choose|j: int| id + 1 <= j < after_sub.nodes.len() && after_sub.nodes@[j].obj.spec_path() == q.0
                                        && (after_sub.nodes@[j].obj is Tree) == q.1;
                                    assert(wt.nodes@[j] == after_sub.nodes@[j]);
                                }
                            }
                        }
                        assert forall|j: int| start.nodes.len() <= j < wt.nodes.len() implies is_digest(
                            #[trigger] wt.nodes@[j].obj.spec_digest(),
                        ) by {
                            if j < w0.nodes.len() {
                                assert(wt.nodes@[j].obj == tail.nodes@[j].obj);
                                assert(tail.nodes@[j].obj == w0.nodes@[j].obj);
                                assert(is_digest(w0.nodes@[j].obj.spec_digest()));
                            } else if j == id {
                                assert(wt.nodes@[j].obj == tail.nodes@[j].obj);
                            } else {
                                assert(wt.nodes@[j].obj == tail.nodes@[j].obj);
                                assert(tail.nodes@[j].obj == after_sub.nodes@[j].obj);
                                assert(is_digest(after_sub.nodes@[j].obj.spec_digest()));
                            }
                        }
                    }
                },
                Err(err) => {
                    return Err(err);
                },
            }
        }
        i = i + 1;
    }
    assert(entries@.subrange(0, entries.len() as int) =~= entries@);
    Ok(())
}

/// The store kind of an object.
pub open spec fn kind_of(o: Object) -> ObjectKind {
    match o {
        Object::Commit { .. } => ObjectKind::Commit,
        Object::Tree { .. } => ObjectKind::Tree,
        Object::Blob { .. } => ObjectKind::Blob,
    }
}

fn object_kind(o: &Object) -> (r: ObjectKind)
    ensures
        r == kind_of(*o),
{
    match o {
        Object::Commit { .. } => ObjectKind::Commit,
        Object::Tree { .. } => ObjectKind::Tree,
        Object::Blob { .. } => ObjectKind::Blob,
    }
}

/// The store key of the node at `i`.
pub open spec fn node_key(wt: Worktree, i: int) -> (ObjectKind, Seq<char>) {
    (kind_of(wt.nodes@[i].obj), wt.nodes@[i].obj.spec_digest())
}

/// The arena of one commit of a repository, built from its working directory.
pub struct RepoWithState {
    pub wt: Worktree,
}

impl RepoWithState {
    /// Builds the commit of the working directory listed by `entries`: a
    /// commit node whose properties are the current head, the author, the
    /// timestamp and the message, with the walk of the listing below it, and
    /// its digest computed once the walk is done.
    pub fn from_files(repo: &Repo, message: &str, now: u64, entries: &Vec<Entry>) -> (r: Result<
        RepoWithState,
        Error,
    >)
        ensures
            r is Ok <==> listing_error(entries@, repo.ignore_patterns()) is None,
            r matches Err(e) ==> listing_error(entries@, repo.ignore_patterns()) == Some(e),
            r matches Ok(s) ==> {
                &&& s.wt.wf()
                &&& s.wt.nodes@[0].obj.spec_digest() == commit_digest(
                    listing(entries@, repo.ignore_patterns()),
                    commit_properties(repo.head@, repo.config.author@, now as nat, message@),
                )
                &&& forall|x| #[trigger] listing_objects(entries@, repo.ignore_patterns()).contains(x)
                    ==> exists|j: int| 1 <= j < s.wt.nodes.len() && node_record(s.wt, j) == x
                &&& forall|j: int| 1 <= j < s.wt.nodes.len() ==> listing_objects(
                    entries@,
                    repo.ignore_patterns(),
                ).contains(#[trigger] node_record(s.wt, j))
                &&& forall|j: int| 1 <= j < s.wt.nodes.len() ==> is_digest(
                    #[trigger] s.wt.nodes@[j].obj.spec_digest(),
                )
                &&& s.wt.nodes@[0].obj.spec_path().len() == 0
                &&& is_digest(s.wt.nodes@[0].obj.spec_digest())
                &&& s.wt.nodes@[0].obj matches Object::Commit { properties: q, message: m, timestamp: t, .. }
                    && views(q@) == commit_properties(repo.head@, repo.config.author@, now as nat, message@)
                    && m@ == message@ && t == now
                &&& s.wt.nodes.len() == 1 + listing_count(entries@, repo.ignore_patterns())
                &&& forall|j: int| 1 <= j < s.wt.nodes.len() ==> listing_paths(
                    entries@,
                    Seq::empty(),
                    repo.ignore_patterns(),
                ).contains(#[trigger] s.wt.nodes@[j].obj.spec_path())
                &&& forall|p| #[trigger] listing_paths(entries@, Seq::empty(), repo.ignore_patterns()).contains(p)
                    ==> exists|j: int| 1 <= j < s.wt.nodes.len() && s.wt.nodes@[j].obj.spec_path() == p
                &&& s.wt.nodes@[0].obj.archive_text() == commit_text(
                    entries@,
                    repo.ignore_patterns(),
                    commit_properties(repo.head@, repo.config.author@, now as nat, message@),
                )
            },
    {
        let props = vec![
            repo.head.clone(),
            repo.config.author.clone(),
            decimal_string(now),
            message.to_string(),
        ];
        let ghost pv = commit_properties(repo.head@, repo.config.author@, now as nat, message@);
        assert(views(props@) =~= pv);
        let commit = Object::new_commit(Vec::new(), Vec::new(), props, message.to_string(), now);
        let mut wt = Worktree::with_root(commit);
        let defaults = default_ignore();
        assert(views(wt.nodes@[0].obj->Commit_content@) =~= Seq::<Seq<char>>::empty());
        let root_prefix: Vec<String> = Vec::new();
        assert(views(root_prefix@) =~= Seq::<Seq<char>>::empty());
        assert(!matches_any(views(root_prefix@), views(repo.config.ignore@)));
        assert(!matches_any(views(root_prefix@), views(defaults@)));
        let built = build_tree_from_files(&mut wt, 0, &root_prefix, entries, &repo.config.ignore, &defaults);
        assert(views(repo.config.ignore@) + views(defaults@) == repo.ignore_patterns());
        match built {
            Err(e) => {
                return Err(e);
            },
            Ok(()) => {},
        }
        proof {
            assert(views(wt.nodes@[0].obj->Commit_content@) =~= listing(entries@, repo.ignore_patterns()));
        }
        let ghost built_wt = wt;
        wt.finalize(0);
        proof {
            assert forall|x| #[trigger] listing_objects(entries@, repo.ignore_patterns()).contains(x)
                implies exists|j: int| 1 <= j < wt.nodes.len() && node_record(wt, j) == x by {
                assert(listing_objects(entries@, views(repo.config.ignore@) + views(defaults@)).contains(x));
                let j = choose|j: int| 1 <= j < built_wt.nodes.len() && node_record(built_wt, j) == x;
                assert(wt.nodes@[j] == built_wt.nodes@[j]);
                assert(node_record(wt, j) == x);
            }
            assert forall|j: int| 1 <= j < wt.nodes.len() implies listing_objects(
                entries@,
                repo.ignore_patterns(),
            ).contains(#[trigger] node_record(wt, j)) by {
                assert(wt.nodes@[j] == built_wt.nodes@[j]);
                assert(node_record(wt, j) == node_record(built_wt, j));
            }
            assert forall|j: int| 1 <= j < wt.nodes.len() implies is_digest(
                #[trigger] wt.nodes@[j].obj.spec_digest(),
            ) by {
                assert(wt.nodes@[j] == built_wt.nodes@[j]);
            }
            assert(wt.nodes@[0].obj.archive_text() =~= commit_text(entries@, repo.ignore_patterns(), pv));
            assert(listing_paths(entries@, views(root_prefix@), views(repo.config.ignore@) + views(defaults@))
                == listing_paths(entries@, Seq::empty(), repo.ignore_patterns()));
            assert(listing_count(entries@, views(repo.config.ignore@) + views(defaults@))
                == listing_count(entries@, repo.ignore_patterns()));
            assert forall|j: int| 1 <= j < wt.nodes.len() implies listing_paths(
                entries@,
                Seq::empty(),
                repo.ignore_patterns(),
            ).contains(#[trigger] wt.nodes@[j].obj.spec_path()) by {
                assert(wt.nodes@[j] == built_wt.nodes@[j]);
            }
            assert forall|p| #[trigger] listing_paths(entries@, Seq::empty(), repo.ignore_patterns()).contains(p)
                implies exists|j: int| 1 <= j < wt.nodes.len() && wt.nodes@[j].obj.spec_path() == p by {
                let j = choose|j: int| 1 <= j < built_wt.nodes.len() && built_wt.nodes@[j].obj.spec_path() == p;
                assert(wt.nodes@[j] == built_wt.nodes@[j]);
            }
        }
        Ok(RepoWithState { wt })
    }

    /// The archives of all nodes of the arena, in arena order, or the first
    /// error met in making them.
    fn archives(&self) -> (r: Result<Vec<Vec<u8>>, Error>)
        ensures
            r is Err ==> r == Err::<Vec<Vec<u8>>, Error>(Error::Unexpected),
            r is Err <==> (exists|i: int| 0 <= i < self.wt.nodes.len() && !(#[trigger] self.wt.nodes@[i]).obj.archivable()),
            r matches Ok(a) ==> a.len() == self.wt.nodes.len() && forall|i: int|
                0 <= i < a.len() ==> gunzip_of(#[trigger] a@[i]@) == Some(
                    encode_utf8(self.wt.nodes@[i].obj.archive_text()),
                ),
    {
        let mut out: Vec<Vec<u8>> = Vec::new();
        let mut i: usize = 0;
        while i < self.wt.nodes.len()
            invariant
                i <= self.wt.nodes.len(),
                out.len() == i,
                forall|k: int| 0 <= k < i ==> (#[trigger] self.wt.nodes@[k]).obj.archivable(),
                forall|k: int|
                    0 <= k < i ==> gunzip_of(#[trigger] out@[k]@) == Some(
                        encode_utf8(self.wt.nodes@[k].obj.archive_text()),
                    ),
            decreases self.wt.nodes.len() - i,
        {
            match self.wt.nodes[i].obj.save_object() {
                Ok(bytes) => {
                    out.push(bytes);
                },
                Err(e) => {
                    return Err(e);
                },
            }
            i = i + 1;
        }
        Ok(out)
    }

    /// Writes the archive of every node of the arena to the store, after all
    /// of them have been made, and returns the commit's digest. A key that the
    /// store holds keeps its archive. When an archive cannot be made, nothing
    /// is written.
    pub fn save_commit(&self, store: &mut ObjectStore) -> (r: Result<String, Error>)
        requires
            self.wt.wf(),
            old(store).wf(),
        ensures
            final(store).wf(),
            r is Err ==> final(store).view() == old(store).view(),
            r is Err ==> r == Err::<String, Error>(Error::Unexpected),
            r is Err <==> (exists|i: int| 0 <= i < self.wt.nodes.len() && !(#[trigger] self.wt.nodes@[i]).obj.archivable()),
            r matches Ok(d) ==> {
                &&& d@ == self.wt.nodes@[0].obj.spec_digest()
                &&& forall|k| #[trigger] old(store).view().contains_key(k) ==> final(store).view().contains_key(k)
                    && final(store).view()[k] == old(store).view()[k]
                &&& forall|i: int| 0 <= i < self.wt.nodes.len() ==> final(store).view().contains_key(#[trigger] node_key(self.wt, i))
                &&& forall|k| #[trigger] final(store).view().contains_key(k) && !old(store).view().contains_key(k) ==>
                    exists|i: int| 0 <= i < self.wt.nodes.len() && node_key(self.wt, i) == k
                        && gunzip_of(final(store).view()[k]) == Some(encode_utf8(self.wt.nodes@[i].obj.archive_text()))
            },
    {
        let archives = match self.archives() {
            Ok(a) => a,
            Err(e) => {
                return Err(e);
            },
        };
        self.save_all_children(store, &archives);
        Ok(self.wt.nodes[0].obj.digest().to_string())
    }

    /// Writes the archive made for each node under the node's kind and digest.
    fn save_all_children(&self, store: &mut ObjectStore, archives: &Vec<Vec<u8>>)
        requires
            old(store).wf(),
            archives.len() == self.wt.nodes.len(),
        ensures
            final(store).wf(),
            forall|k| #[trigger] old(store).view().contains_key(k) ==> final(store).view().contains_key(k)
                && final(store).view()[k] == old(store).view()[k],
            forall|i: int| 0 <= i < self.wt.nodes.len() ==> final(store).view().contains_key(#[trigger] node_key(self.wt, i)),
            forall|k| #[trigger] final(store).view().contains_key(k) && !old(store).view().contains_key(k) ==>
                exists|i: int| 0 <= i < self.wt.nodes.len() && node_key(self.wt, i) == k
                    && final(store).view()[k] == archives@[i]@,
    {
        let mut i: usize = 0;
        while i < self.wt.nodes.len()
            invariant
                i <= self.wt.nodes.len(),
                archives.len() == self.wt.nodes.len(),
                store.wf(),
                forall|k| #[trigger] old(store).view().contains_key(k) ==> store.view().contains_key(k)
                    && store.view()[k] == old(store).view()[k],
                forall|j: int| 0 <= j < i ==> store.view().contains_key(#[trigger] node_key(self.wt, j)),
                forall|k| #[trigger] store.view().contains_key(k) && !old(store).view().contains_key(k) ==>
                    exists|j: int| 0 <= j < i && node_key(self.wt, j) == k
                        && store.view()[k] == archives@[j]@,
            decreases self.wt.nodes.len() - i,
        {
            let obj = &self.wt.nodes[i].obj;
            let kind = object_kind(obj);
            let digest = obj.digest().to_string();
            let ghost before = store.view();
            store.write(kind, digest, archives[i].clone());
            proof {
                assert(node_key(self.wt, i as int) == (kind, digest@));
                assert forall|k| #[trigger] store.view().contains_key(k) && !old(store).view().contains_key(k) implies
                    exists|j: int| 0 <= j < i + 1 && node_key(self.wt, j) == k
                        && store.view()[k] == archives@[j]@ by {
                    if before.contains_key(k) {
                        let j = choose|j: int| 0 <= j < i && node_key(self.wt, j) == k
                            && before[k] == archives@[j]@;
                        assert(0 <= j < i + 1 && node_key(self.wt, j) == k && store.view()[k] == archives@[j]@);
                    } else {
                        assert(node_key(self.wt, i as int) == k && store.view()[k] == archives@[i as int]@);
                    }
                }
            }
            i = i + 1;
        }
    }
}

} // verus!
