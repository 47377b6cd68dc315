//! A minimal version-control engine: snapshots of a working directory are
//! stored as content-addressed objects, and any snapshot can be restored.
pub mod archive;
pub mod cleanup;
pub mod digest;
pub mod encoding;
pub mod error;
pub mod object;
pub mod paths;
pub mod restore;
pub mod roundtrip;
pub mod snapshot;
pub mod store;
pub mod text;
pub mod worktree;

use vstd::prelude::*;

use crate::digest::{check_digest, is_digest};
use crate::encoding::decimal;
use crate::error::Error;
use crate::object::{commit_digest, sorted_lines, tree_digest};
use crate::paths::{check_no_repo_dir, default_ignore, CONFIG_FILE, REPO_DIR};
use crate::restore::{
    clean_before_restore, cleaned, commit_lines, parse_commit, read_text, restore_tree_from_storage,
    restored, steps, stored_text, FsAction, FsStep,
};
use crate::snapshot::{
    entry_digest, lemma_listing_entry_replaced, lemma_listing_reordered,
    lemma_same_listing_same_lines, listing, listing_error, listing_objects, listing_paths,
    same_listing, Entry,
};
use crate::store::{ObjectKind, ObjectStore};
use crate::text::{contains_char, lemma_sorted_unique, lemma_text_order_total, text_order, views};
use crate::roundtrip::{commit_text, holds_all, no_collision};
use crate::worktree::RepoWithState;
use crate::archive::{gunzip_of, header_field};
use vstd::utf8::encode_utf8;

verus! {

broadcast use vstd::string::group_string_axioms;

/// The head of a repository with no commit yet.
pub const EMPTY_REF: &'static str = "0000000000000000000000000000000000000000";

/// The settings of a repository: extra ignore patterns and the author name.
pub struct Config {
    pub ignore: Vec<String>,
    pub author: String,
}

/// A repository: its working directory, settings and head digest.
pub struct Repo {
    pub work_dir: String,
    pub config: Config,
    pub head: String,
}

/// The properties of a commit, in the order they are hashed and stored:
/// parent digest, author, timestamp in decimal seconds, message.
pub open spec fn commit_properties(
    parent: Seq<char>,
    author: Seq<char>,
    now: nat,
    message: Seq<char>,
) -> Seq<Seq<char>> {
    seq![parent, author, decimal(now), message]
}

/// The settings used when the repository has no configuration file: no extra
/// ignore patterns.
pub fn default_config(author: String) -> (r: Config)
    ensures
        r.ignore@.len() == 0,
        r.author == author,
{
    Config { ignore: Vec::new(), author }
}

/// The message of a commit: the given one, or a default.
pub open spec fn message_of(msg: Option<&str>) -> Seq<char> {
    match msg {
        Some(m) => m@,
        None => DEFAULT_MESSAGE@,
    }
}

/// The steps that restore the commit `digest` from the store over a working
/// directory listed by `current`: the removal of what is not ignored, deepest
/// first, then the directories and files of the commit, parents first. Every
/// object is read, and the working directory checked, before any step.
pub open spec fn restore_plan(
    m: Map<(ObjectKind, Seq<char>), Seq<u8>>,
    digest: Seq<char>,
    current: Seq<Entry>,
    ign: Seq<Seq<char>>,
) -> Result<Seq<FsStep>, Error> {
    match stored_text(m, ObjectKind::Commit, digest) {
        Err(e) => Err(e),
        Ok(text) => match commit_lines(text) {
            None => Err(Error::Unexpected),
            Some(lines) => match cleaned(current, Seq::empty(), ign) {
                Err(e) => Err(e),
                Ok((removals, _)) => match restored(m, lines, Seq::empty(), m.dom().len()) {
                    Err(e) => Err(e),
                    Ok(creations) => Ok(removals + creations),
                },
            },
        },
    }
}

/// Listing lines that are the same up to order give the same tree digest and,
/// with the same properties, the same commit digest.
pub proof fn lemma_digest_order_free(
    a: Seq<Seq<char>>,
    b: Seq<Seq<char>>,
    properties: Seq<Seq<char>>,
)
    requires
        a.to_multiset() == b.to_multiset(),
    ensures
        sorted_lines(a) == sorted_lines(b),
        tree_digest(a) == tree_digest(b),
        commit_digest(a, properties) == commit_digest(b, properties),
{
    lemma_text_order_total();
    a.lemma_sort_by_ensures(text_order());
    b.lemma_sort_by_ensures(text_order());
    lemma_sorted_unique(sorted_lines(a), sorted_lines(b), text_order());
}

/// The commit digest of a working directory does not depend on the order in
/// which its listing comes: the same entries in any order give the same
/// digest.
pub proof fn lemma_commit_digest_order_independent(
    a: Seq<Entry>,
    b: Seq<Entry>,
    ign: Seq<Seq<char>>,
    properties: Seq<Seq<char>>,
)
    requires
        a.to_multiset() == b.to_multiset(),
    ensures
        commit_digest(listing(a, ign), properties) == commit_digest(listing(b, ign), properties),
{
    lemma_listing_reordered(a, b, ign);
    lemma_digest_order_free(listing(a, ign), listing(b, ign), properties);
}

/// A commit's digest does not depend on the order in which any directory of
/// its working directory is listed, at any depth: shuffled listings give the
/// same digest, and their walks meet a problem alike, so that with the same
/// properties a commit of one succeeds exactly when a commit of the other
/// does.
pub proof fn lemma_commit_digest_shuffled(
    a: Seq<Entry>,
    b: Seq<Entry>,
    ign: Seq<Seq<char>>,
    properties: Seq<Seq<char>>,
)
    requires
        crate::snapshot::shuffled(a, b),
    ensures
        commit_digest(listing(a, ign), properties) == commit_digest(listing(b, ign), properties),
        (listing_error(a, ign) is None) == (listing_error(b, ign) is None),
{
    crate::snapshot::lemma_shuffled_lines(a, b, ign);
    lemma_digest_order_free(listing(a, ign), listing(b, ign), properties);
}

/// Reordering the listing of a directory anywhere below the root leaves the
/// listing of its parent, and so every digest above it, as it was. With
/// `lemma_commit_digest_order_independent` this covers a shuffle of every
/// directory at every depth, one directory at a time.
pub proof fn lemma_subdirectory_reordered(es: Seq<Entry>, i: int, e: Entry, ign: Seq<Seq<char>>)
    requires
        0 <= i < es.len(),
        es[i] is Dir,
        e is Dir,
        e.spec_name() == es[i].spec_name(),
        e->Dir_entries@.to_multiset() == es[i]->Dir_entries@.to_multiset(),
    ensures
        listing(es.update(i, e), ign) == listing(es, ign),
{
    lemma_listing_reordered(e->Dir_entries@, es[i]->Dir_entries@, ign);
    lemma_digest_order_free(
        listing(e->Dir_entries@, ign),
        listing(es[i]->Dir_entries@, ign),
        Seq::empty(),
    );
    assert(entry_digest(e, ign) == entry_digest(es[i], ign));
    lemma_listing_entry_replaced(es, i, e, ign);
}

/// Two working directories with the same paths and the same bytes, and
/// commits with the same properties, give the same commit digest, and the
/// walks of both meet the same problem, if any.
pub proof fn lemma_content_addressed(
    a: Seq<Entry>,
    b: Seq<Entry>,
    ign: Seq<Seq<char>>,
    properties: Seq<Seq<char>>,
)
    requires
        same_listing(a, b),
    ensures
        commit_digest(listing(a, ign), properties) == commit_digest(listing(b, ign), properties),
        listing_error(a, ign) == listing_error(b, ign),
{
    lemma_same_listing_same_lines(a, b, ign);
}

/// Whether the properties of a commit can be stored and read back: none
/// holds a line break, and the message, which the archive header also
/// carries, holds no zero character and at most `u16::MAX` bytes.
pub open spec fn properties_storable(head: Seq<char>, author: Seq<char>, message: Seq<char>) -> bool {
    &&& header_field(message)
    &&& !message.contains('\n')
    &&& !author.contains('\n')
    &&& !head.contains('\n')
}

/// Whether every archive that the store already holds under the key of one
/// of the objects is an archive of that object's text, as a content-addressed
/// store holds.
pub open spec fn agrees(
    m: Map<(ObjectKind, Seq<char>), Seq<u8>>,
    objects: Set<(ObjectKind, Seq<char>, Seq<char>)>,
) -> bool {
    forall|x: (ObjectKind, Seq<char>, Seq<char>)| #[trigger] objects.contains(x) && m.contains_key((x.0, x.1))
        ==> gunzip_of(m[(x.0, x.1)]) == Some(encode_utf8(x.2))
}

/// `s` without the line breaks and carriage returns at its end.
pub open spec fn without_line_end(s: Seq<char>) -> Seq<char>
    decreases s.len(),
{
    if s.len() > 0 && (s.last() == '\n' || s.last() == '\r') {
        without_line_end(s.drop_last())
    } else {
        s
    }
}

/// The message of a commit made without one.
pub const DEFAULT_MESSAGE: &'static str = "default commit message";

impl Repo {
    /// A new repository in `work_dir`, unless the directory already holds one
    /// (`has_repo_dir`). Its head is the empty reference.
    pub fn init(work_dir: String, has_repo_dir: bool, config: Config) -> (r: Result<Repo, Error>)
        ensures
            r is Err <==> has_repo_dir,
            r is Err ==> r == Err::<Repo, Error>(Error::RepoAlreadyExist),
            r matches Ok(repo) ==> repo.work_dir == work_dir && repo.config == config
                && repo.head@ == EMPTY_REF@,
    {
        check_no_repo_dir(has_repo_dir)?;
        Ok(Repo { work_dir, config, head: EMPTY_REF.to_string() })
    }

    /// The repository rooted at `work_dir`, with its settings and the head
    /// read from its reference file. The head is a digest (40 lowercase hex
    /// digits, the empty reference among them); line ends after it, as an
    /// editor may leave, are dropped.
    pub fn try_from(work_dir: String, config: Config, head: String) -> (r: Result<Repo, Error>)
        ensures
            r is Err <==> !is_digest(without_line_end(head@)),
            r is Err ==> r == Err::<Repo, Error>(Error::Unexpected),
            r matches Ok(repo) ==> repo.work_dir == work_dir && repo.config == config && repo.head@
                == without_line_end(head@),
    {
        let mut chars = crate::text::chars_of(head.as_str());
        let mut n: usize = chars.len();
        assert(head@.subrange(0, n as int) =~= head@);
        while n > 0 && (chars[n - 1] == '\n' || chars[n - 1] == '\r')
            invariant
                n <= chars.len(),
                chars@ == head@,
                without_line_end(head@) == without_line_end(head@.subrange(0, n as int)),
            decreases n,
        {
            proof {
                let t = head@.subrange(0, n as int);
                assert(t.drop_last() =~= head@.subrange(0, n - 1));
            }
            n = n - 1;
        }
        proof {
            let t = head@.subrange(0, n as int);
            if n > 0 {
                assert(t.last() == chars@[n - 1]);
            }
        }
        chars.truncate(n);
        assert(chars@ =~= without_line_end(head@));
        let trimmed = crate::text::string_of(&chars);
        if !check_digest(trimmed.as_str()) {
            return Err(Error::Unexpected);
        }
        Ok(Repo { work_dir, config, head: trimmed })
    }

    /// Commits the working directory listed by `entries`, with the given
    /// message (or the default one) and timestamp in seconds: its objects go to
    /// the store, and the head becomes the new commit's digest, which is
    /// returned. It fails exactly when the walk meets a symbolic link, a file
    /// that is not UTF-8 or a name that cannot be listed, or when a property
    /// cannot be stored and read back (`properties_storable`). On failure
    /// neither the head nor the store changes.
    pub fn commit(
        &mut self,
        msg: Option<&str>,
        now: u64,
        entries: &Vec<Entry>,
        store: &mut ObjectStore,
    ) -> (r: Result<String, Error>)
        requires
            old(store).wf(),
        ensures
            final(store).wf(),
            r is Err ==> *final(self) == *old(self) && final(store).view() == old(store).view(),
            listing_error(entries@, old(self).ignore_patterns()) matches Some(e) ==> r == Err::<
                String,
                Error,
            >(e),
            r is Err <==> listing_error(entries@, old(self).ignore_patterns()) is Some
                || !properties_storable(old(self).head@, old(self).config.author@, message_of(msg)),
            listing_error(entries@, old(self).ignore_patterns()) is None && r is Err ==> r == Err::<
                String,
                Error,
            >(Error::Unexpected),
            r matches Ok(d) ==> {
                &&& d@ == commit_digest(
                    listing(entries@, old(self).ignore_patterns()),
                    commit_properties(
                        old(self).head@,
                        old(self).config.author@,
                        now as nat,
                        message_of(msg),
                    ),
                )
                &&& final(self).head@ == d@
                &&& final(self).work_dir == old(self).work_dir
                &&& final(self).config == old(self).config
                &&& final(store).view().contains_key((ObjectKind::Commit, d@))
                &&& forall|x| #[trigger] listing_objects(entries@, old(self).ignore_patterns()).contains(x)
                    ==> final(store).view().contains_key((x.0, x.1))
                &&& is_digest(d@)
                &&& agrees(
                    old(store).view(),
                    listing_objects(entries@, old(self).ignore_patterns()).insert(
                        (
                            ObjectKind::Commit,
                            d@,
                            commit_text(
                                entries@,
                                old(self).ignore_patterns(),
                                commit_properties(
                                    old(self).head@,
                                    old(self).config.author@,
                                    now as nat,
                                    message_of(msg),
                                ),
                            ),
                        ),
                    ),
                ) && no_collision(listing_objects(entries@, old(self).ignore_patterns())) ==> {
                    &&& holds_all(final(store).view(), listing_objects(entries@, old(self).ignore_patterns()))
                    &&& gunzip_of(final(store).view()[(ObjectKind::Commit, d@)]) == Some(
                        encode_utf8(
                            commit_text(
                                entries@,
                                old(self).ignore_patterns(),
                                commit_properties(
                                    old(self).head@,
                                    old(self).config.author@,
                                    now as nat,
                                    message_of(msg),
                                ),
                            ),
                        ),
                    )
                }
                &&& forall|k| #[trigger] old(store).view().contains_key(k)
                    ==> final(store).view().contains_key(k)
                    && final(store).view()[k] == old(store).view()[k]
            },
    {
        let message = match msg {
            Some(m) => m,
            None => DEFAULT_MESSAGE,
        };
        let state = match RepoWithState::from_files(self, message, now, entries) {
            Ok(st) => st,
            Err(e) => {
                return Err(e);
            },
        };
        let ghost ign = self.ignore_patterns();
        let ghost g = listing_objects(entries@, ign);
        let ghost paths = listing_paths(entries@, Seq::empty(), ign);
        let ghost props = commit_properties(self.head@, self.config.author@, now as nat, message@);
        if contains_char(message, '\n') || contains_char(self.config.author.as_str(), '\n')
            || contains_char(self.head.as_str(), '\n') {
            return Err(Error::Unexpected);
        }
        proof {
            assert(message@ == message_of(msg));
            crate::digest::lemma_digest_header_field(state.wt.nodes@[0].obj.spec_digest());
            assert forall|i: int| 1 <= i < state.wt.nodes.len() implies (#[trigger] state.wt.nodes@[i]).obj.archivable() by {
                let p = state.wt.nodes@[i].obj.spec_path();
                assert(paths.contains(p));
                crate::snapshot::lemma_listing_paths_shape(entries@, Seq::empty(), ign, p);
                crate::snapshot::lemma_listing_paths_listable(entries@, Seq::empty(), ign, p);
            }
            if !header_field(message_of(msg)) {
                assert(!state.wt.nodes@[0].obj.archivable());
            }
        }
        let digest = match state.save_commit(store) {
            Ok(d) => d,
            Err(e) => {
                return Err(e);
            },
        };
        proof {
            assert(crate::worktree::node_key(state.wt, 0) == (ObjectKind::Commit, digest@));
            assert forall|x| #[trigger] g.contains(x) implies store.view().contains_key((x.0, x.1)) by {
                let j = choose|j: int|
                    1 <= j < state.wt.nodes.len() && crate::worktree::node_record(state.wt, j) == x;
                assert(crate::worktree::node_key(state.wt, j) == (x.0, x.1));
            }
            let ct = (ObjectKind::Commit, digest@, commit_text(entries@, ign, props));
            if agrees(old(store).view(), g.insert(ct)) && no_collision(g) {
                assert forall|x| #[trigger] g.contains(x) implies {
                    &&& store.view().contains_key((x.0, x.1))
                    &&& gunzip_of(store.view()[(x.0, x.1)]) == Some(encode_utf8(x.2))
                    &&& !x.1.contains('\t')
                    &&& !x.1.contains('\n')
                } by {
                    let j = choose|j: int|
                        1 <= j < state.wt.nodes.len() && crate::worktree::node_record(state.wt, j) == x;
                    assert(crate::worktree::node_key(state.wt, j) == (x.0, x.1));
                    assert(crate::digest::is_digest(state.wt.nodes@[j].obj.spec_digest()));
                    crate::digest::lemma_digest_plain(x.1);
                    let k = (x.0, x.1);
                    assert(g.insert(ct).contains(x));
                    if !old(store).view().contains_key(k) {
                        let i = choose|i: int| 0 <= i < state.wt.nodes.len() && crate::worktree::node_key(state.wt, i) == k
                            && gunzip_of(store.view()[k]) == Some(encode_utf8(state.wt.nodes@[i].obj.archive_text()));
                        assert(!(state.wt.nodes@[j].obj is Commit));
                        assert(i != 0);
                        assert(g.contains(crate::worktree::node_record(state.wt, i)));
                        assert(crate::worktree::node_record(state.wt, i).2 == x.2);
                    }
                }
                let ck = (ObjectKind::Commit, digest@);
                assert(g.insert(ct).contains(ct));
                if !old(store).view().contains_key(ck) {
                    let i = choose|i: int| 0 <= i < state.wt.nodes.len() && crate::worktree::node_key(state.wt, i) == ck
                        && gunzip_of(store.view()[ck]) == Some(encode_utf8(state.wt.nodes@[i].obj.archive_text()));
                    assert(i == 0);
                }
            }
        }
        self.head = digest.clone();
        Ok(digest)
    }

    /// Restores the commit `digest` over the working directory listed by
    /// `current`: returns the filesystem steps to take, in order, and makes the
    /// digest the head. The commit and everything it refers to is read, and the
    /// working directory checked, before a step is planned; on failure the head
    /// does not change.
    pub fn restore(&mut self, digest: &str, current: &Vec<Entry>, store: &ObjectStore) -> (r: Result<
        Vec<FsAction>,
        Error,
    >)
        requires
            store.wf(),
        ensures
            match restore_plan(store.view(), digest@, current@, old(self).ignore_patterns()) {
                Ok(s) => r matches Ok(plan) && steps(plan@) == s && final(self).head@ == digest@
                    && final(self).work_dir == old(self).work_dir && final(self).config == old(
                    self,
                ).config,
                Err(e) => r == Err::<Vec<FsAction>, Error>(e) && *final(self) == *old(self),
            },
    {
        let key = digest.to_string();
        let text = read_text(store, ObjectKind::Commit, &key)?;
        let (_, lines, _) = parse_commit(&text)?;
        let defaults = default_ignore();
        let root: Vec<String> = Vec::new();
        let mut plan: Vec<FsAction> = Vec::new();
        proof {
            assert(views(root@) =~= Seq::<Seq<char>>::empty());
            assert(views(self.config.ignore@) + views(defaults@) == self.ignore_patterns());
            assert(steps(plan@) =~= Seq::<FsStep>::empty());
        }
        clean_before_restore(current, &root, &self.config.ignore, &defaults, &mut plan)?;
        let fuel = store.len();
        restore_tree_from_storage(store, &lines, &root, fuel, &mut plan)?;
        self.head = key;
        Ok(plan)
    }

    /// The patterns whose matching components are left out of snapshots: the
    /// configured ones and then the control directory and configuration file.
    pub open spec fn ignore_patterns(&self) -> Seq<Seq<char>> {
        views(self.config.ignore@) + seq![REPO_DIR@, CONFIG_FILE@]
    }
}

} // verus!
