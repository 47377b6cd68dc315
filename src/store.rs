//! The object store: archives keyed by object kind and digest, written once.
use vstd::prelude::*;

verus! {

/// The three kinds of object, each kept in its own part of the store.
#[derive(Debug, Clone, Copy, PartialEq, Eq, Structural)]
pub enum ObjectKind {
    Commit,
    Tree,
    Blob,
}

/// One stored archive.
pub struct StoredObject {
    pub kind: ObjectKind,
    pub digest: String,
    pub archive: Vec<u8>,
}

/// The archives of a repository, at most one for each kind and digest.
pub struct ObjectStore {
    objects: Vec<StoredObject>,
}

/// The store after a write of `archive` under `key`: a key that is present
/// keeps the archive it has.
pub open spec fn written(
    m: Map<(ObjectKind, Seq<char>), Seq<u8>>,
    key: (ObjectKind, Seq<char>),
    archive: Seq<u8>,
) -> Map<(ObjectKind, Seq<char>), Seq<u8>> {
    if m.contains_key(key) {
        m
    } else {
        m.insert(key, archive)
    }
}

/// Writing the same key a second time changes nothing: the store after any
/// number of writes under one key equals the store after the first, and
/// holds the same number of archives.
pub proof fn lemma_write_idempotent(
    m: Map<(ObjectKind, Seq<char>), Seq<u8>>,
    key: (ObjectKind, Seq<char>),
    first: Seq<u8>,
    again: Seq<u8>,
)
    ensures
        written(written(m, key, first), key, again) == written(m, key, first),
        written(written(m, key, first), key, again).dom().len() == written(m, key, first).dom().len(),
        written(m, key, first)[key] == if m.contains_key(key) {
            m[key]
        } else {
            first
        },
{
}

impl ObjectStore {
    pub closed spec fn key_of(o: StoredObject) -> (ObjectKind, Seq<char>) {
        (o.kind, o.digest@)
    }

    /// No two archives share a kind and digest.
    pub closed spec fn wf(&self) -> bool {
        forall|i: int, j: int|
            0 <= i < j < self.objects.len() ==> ObjectStore::key_of(#[trigger] self.objects@[i])
                != ObjectStore::key_of(#[trigger] self.objects@[j])
    }

    /// The archive stored under each kind and digest.
    pub closed spec fn view(&self) -> Map<(ObjectKind, Seq<char>), Seq<u8>> {
        Map::new(
            |k: (ObjectKind, Seq<char>)|
                exists|i: int|
                    0 <= i < self.objects.len() && ObjectStore::key_of(self.objects@[i]) == k,
            |k: (ObjectKind, Seq<char>)|
                {
                    let i = choose|i: int|
                        0 <= i < self.objects.len() && ObjectStore::key_of(self.objects@[i]) == k;
                    self.objects@[i].archive@
                },
        )
    }

    /// An empty store.
    pub fn new() -> (r: ObjectStore)
        ensures
            r.wf(),
            r.view() == Map::<(ObjectKind, Seq<char>), Seq<u8>>::empty(),
    {
        let r = ObjectStore { objects: Vec::new() };
        assert(r.view() =~= Map::<(ObjectKind, Seq<char>), Seq<u8>>::empty());
        r
    }

    /// The number of archives held.
    pub fn len(&self) -> (r: usize)
        requires
            self.wf(),
        ensures
            r == self.view().dom().len(),
    {
        proof {
            self.lemma_dom_len();
        }
        self.objects.len()
    }

    /// The store holds finitely many archives.
    pub proof fn lemma_view_finite(&self)
        requires
            self.wf(),
        ensures
            self.view().dom().finite(),
    {
        self.lemma_dom_len();
    }

    proof fn lemma_dom_len(&self)
        requires
            self.wf(),
        ensures
            self.view().dom().len() == self.objects.len(),
            self.view().dom().finite(),
        decreases self.objects.len(),
    {
        let keys = self.objects@.map_values(|o: StoredObject| ObjectStore::key_of(o));
        assert(keys.no_duplicates()) by {
            assert forall|i: int, j: int| 0 <= i < keys.len() && 0 <= j < keys.len() && i != j
                implies keys[i] != keys[j] by {
                if i < j {
                    assert(ObjectStore::key_of(self.objects@[i]) != ObjectStore::key_of(self.objects@[j]));
                } else {
                    assert(ObjectStore::key_of(self.objects@[j]) != ObjectStore::key_of(self.objects@[i]));
                }
            }
        }
        assert(self.view().dom() =~= keys.to_set()) by {
            assert forall|k| self.view().dom().contains(k) <==> keys.to_set().contains(k) by {
                if keys.to_set().contains(k) {
                    let i = choose|i: int| 0 <= i < keys.len() && keys[i] == k;
                    assert(ObjectStore::key_of(self.objects@[i]) == k);
                }
                if self.view().dom().contains(k) {
                    let i = choose|i: int|
                        0 <= i < self.objects.len() && ObjectStore::key_of(self.objects@[i]) == k;
                    assert(keys[i] == k);
                }
            }
        }
        keys.unique_seq_to_set();
    }

    /// Adds a stored archive, as read back from disk, unless one with the same
    /// kind and digest is already held.
    pub fn insert(&mut self, obj: StoredObject)
        requires
            old(self).wf(),
        ensures
            final(self).wf(),
            final(self).view() == written(old(self).view(), (obj.kind, obj.digest@), obj.archive@),
    {
        let kind = obj.kind;
        let digest = obj.digest.clone();
        let archive = obj.archive;
        self.write(kind, digest, archive);
    }

    /// The position of the archive with this kind and digest, if any.
    fn find(&self, kind: ObjectKind, digest: &String) -> (r: Option<usize>)
        requires
            self.wf(),
        ensures
            r is None <==> !self.view().contains_key((kind, digest@)),
            r matches Some(i) ==> i < self.objects.len() && ObjectStore::key_of(self.objects@[i as int]) == (kind, digest@),
    {
        let mut i: usize = 0;
        while i < self.objects.len()
            invariant
                i <= self.objects.len(),
                forall|j: int| 0 <= j < i ==> ObjectStore::key_of(#[trigger] self.objects@[j]) != (kind, digest@),
            decreases self.objects.len() - i,
        {
            let o = &self.objects[i];
            if o.kind == kind && o.digest == *digest {
                return Some(i);
            }
            i = i + 1;
        }
        None
    }

    /// The archive stored under this kind and digest.
    pub fn read(&self, kind: ObjectKind, digest: &String) -> (r: Option<&Vec<u8>>)
        requires
            self.wf(),
        ensures
            r is None <==> !self.view().contains_key((kind, digest@)),
            r matches Some(a) ==> a@ == self.view()[(kind, digest@)],
    {
        match self.find(kind, digest) {
            None => None,
            Some(i) => {
                proof {
                    let k = (kind, digest@);
                    let j = choose|j: int|
                        0 <= j < self.objects.len() && ObjectStore::key_of(self.objects@[j]) == k;
                    if j != i {
                        if j < i {
                            assert(ObjectStore::key_of(self.objects@[j]) != ObjectStore::key_of(self.objects@[i as int]));
                        } else {
                            assert(ObjectStore::key_of(self.objects@[i as int]) != ObjectStore::key_of(self.objects@[j]));
                        }
                    }
                }
                Some(&self.objects[i].archive)
            },
        }
    }

    /// Whether an archive is stored under this kind and digest.
    pub fn contains(&self, kind: ObjectKind, digest: &String) -> (r: bool)
        requires
            self.wf(),
        ensures
            r == self.view().contains_key((kind, digest@)),
    {
        self.find(kind, digest).is_some()
    }

    /// Stores `archive` under this kind and digest, unless an archive is stored
    /// there already: the digest names the content, so the one held is kept.
    pub fn write(&mut self, kind: ObjectKind, digest: String, archive: Vec<u8>)
        requires
            old(self).wf(),
        ensures
            final(self).wf(),
            final(self).view() == written(old(self).view(), (kind, digest@), archive@),
    {
        if self.find(kind, &digest).is_some() {
            return;
        }
        let ghost before = self.objects@;
        let ghost key = (kind, digest@);
        let ghost a = archive@;
        self.objects.push(StoredObject { kind, digest, archive });
        proof {
            let n = before.len() as int;
            assert(ObjectStore::key_of(self.objects@[n]) == key);
            assert forall|i: int, j: int| 0 <= i < j < self.objects.len() implies ObjectStore::key_of(#[trigger] self.objects@[i])
                != ObjectStore::key_of(#[trigger] self.objects@[j]) by {
                if j < n {
                    assert(self.objects@[i] == before[i] && self.objects@[j] == before[j]);
                } else {
                    assert(self.objects@[i] == before[i]);
                }
            }
            let old_m = Map::new(
                |k: (ObjectKind, Seq<char>)|
                    exists|i: int| 0 <= i < before.len() && ObjectStore::key_of(before[i]) == k,
                |k: (ObjectKind, Seq<char>)|
                    {
                        let i = choose|i: int| 0 <= i < before.len() && ObjectStore::key_of(before[i]) == k;
                        before[i].archive@
                    },
            );
            assert(self.view() =~= old_m.insert(key, a)) by {
                assert forall|k| #[trigger] self.view().contains_key(k) <==> old_m.insert(key, a).contains_key(k) by {
                    if old_m.contains_key(k) {
                        let i = choose|i: int| 0 <= i < before.len() && ObjectStore::key_of(before[i]) == k;
                        assert(self.objects@[i] == before[i]);
                    }
                    if self.view().contains_key(k) && k != key {
                        let i = choose|i: int| 0 <= i < self.objects.len() && ObjectStore::key_of(self.objects@[i]) == k;
                        assert(i < n);
                        assert(self.objects@[i] == before[i]);
                    }
                }
                assert forall|k| #[trigger] self.view().contains_key(k) implies self.view()[k] == old_m.insert(key, a)[k] by {
                    let i = choose|i: int| 0 <= i < self.objects.len() && ObjectStore::key_of(self.objects@[i]) == k;
                    if k == key {
                        assert(i == n) by {
                            if i < n {
                                assert(self.objects@[i] == before[i]);
                            }
                        }
                    } else {
                        assert(i < n);
                        let i2 = choose|i2: int| 0 <= i2 < before.len() && ObjectStore::key_of(before[i2]) == k;
                        assert(self.objects@[i2] == before[i2]);
                        if i != i2 {
                            if i < i2 {
                                assert(ObjectStore::key_of(self.objects@[i]) != ObjectStore::key_of(self.objects@[i2]));
                            } else {
                                assert(ObjectStore::key_of(self.objects@[i2]) != ObjectStore::key_of(self.objects@[i]));
                            }
                        }
                    }
                }
            }
            assert(old(self).view() == old_m);
        }
    }

    /// The stored archives, for writing out: each one once.
    pub fn objects(&self) -> (r: &Vec<StoredObject>)
        requires
            self.wf(),
        ensures
            forall|i: int|
                0 <= i < r.len() ==> #[trigger] self.view().contains_key((r@[i].kind, r@[i].digest@))
                    && self.view()[(r@[i].kind, r@[i].digest@)] == r@[i].archive@,
            forall|k: (ObjectKind, Seq<char>)|
                #[trigger] self.view().contains_key(k) ==> exists|i: int|
                    0 <= i < r.len() && (r@[i].kind, r@[i].digest@) == k,
    {
        proof {
            assert forall|i: int| 0 <= i < self.objects.len() implies #[trigger] self.view().contains_key(
                (self.objects@[i].kind, self.objects@[i].digest@),
            ) && self.view()[(self.objects@[i].kind, self.objects@[i].digest@)]
                == self.objects@[i].archive@ by {
                let k = (self.objects@[i].kind, self.objects@[i].digest@);
                assert(ObjectStore::key_of(self.objects@[i]) == k);
                let j = choose|j: int|
                    0 <= j < self.objects.len() && ObjectStore::key_of(self.objects@[j]) == k;
                if j != i {
                    if j < i {
                        assert(ObjectStore::key_of(self.objects@[j]) != ObjectStore::key_of(self.objects@[i]));
                    } else {
                        assert(ObjectStore::key_of(self.objects@[i]) != ObjectStore::key_of(self.objects@[j]));
                    }
                }
            }
            assert forall|k: (ObjectKind, Seq<char>)| #[trigger] self.view().contains_key(k) implies exists|i: int|
                0 <= i < self.objects.len() && (self.objects@[i].kind, self.objects@[i].digest@) == k by {
                let j = choose|j: int|
                    0 <= j < self.objects.len() && ObjectStore::key_of(self.objects@[j]) == k;
                assert((self.objects@[j].kind, self.objects@[j].digest@) == k);
            }
        }
        &self.objects
    }
}

} // verus!
