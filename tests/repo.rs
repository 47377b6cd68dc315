use std::collections::BTreeMap;

use get::error::Error;
use get::object::Object;
use get::restore::{read_blob, read_commit, read_text, read_tree, FsAction};
use get::snapshot::Entry;
use get::store::{ObjectKind, ObjectStore, StoredObject};
use get::{Config, Repo, EMPTY_REF};

/// SHA-1 of the sorted listing lines of the first project's root followed by
/// its four properties (empty reference, author, 1680961369, message), each
/// listing line `kind\tdigest\tname` with tree and blob digests formed the
/// same way; computed independently of this crate.
const FIRST_COMMIT_DIGEST: &str = "410f802802a2135fb469b540deb03d9b22156cc4";
const SECOND_COMMIT_DIGEST: &str = "f3e2e7175083265ebf0fd760931d31c2c3c1221d";

const T1: &str = "dukkha (literally \"suffering\"; here \"unsatisfactoriness\") is an innate characteristic of existence in the realm of samsara;\n";
const T2: &str = "samudaya (origin, arising, combination; 'cause'): dukkha arises or continues with tanha (\"craving, desire or attachment, lit. \"thirst\"). While tanha is traditionally interpreted in western languages as the 'cause' of dukkha, tanha can also be seen as the factor tying us to dukkha, or as a response to dukkha, trying to escape it;\n";
const T3: &str = "nirodha (cessation, ending, confinement): dukkha can be ended or contained by the renouncement or letting go of this tanha; the confinement of tanha releases the excessive bind of dukkha;\n";
const T4: &str = "marga (path, Noble Eightfold Path) is the path leading to the confinement of tanha and dukkha.";
const CONFIG: &str = "ignore = [\".git\", \".gitignore\", \".idea\"]\n        author = \"Vitalii Shvedchenko\"\n        ";

fn file(name: &str, text: &str) -> Entry {
    Entry::file(name.to_string(), text.as_bytes().to_vec())
}

fn dir(name: &str, entries: Vec<Entry>) -> Entry {
    Entry::dir(name.to_string(), entries)
}

fn config() -> Config {
    Config {
        ignore: vec![".git".to_string(), ".gitignore".to_string(), ".idea".to_string()],
        author: "Vitalii Shvedchenko".to_string(),
    }
}

fn control_dir() -> Entry {
    dir(".get", vec![file("HEAD", EMPTY_REF), file("LOG", "")])
}

fn project_first() -> Vec<Entry> {
    vec![
        file(".get.toml", CONFIG),
        control_dir(),
        dir(
            "testdir",
            vec![
                file(".idea", "this file should be ignored"),
                file("test_file1.txt", T1),
                file("test_file2.txt", T2),
                dir("nested", vec![file("test_file3.txt", T3), file("test_file4.txt", T4)]),
            ],
        ),
        file("test_file.txt", "thats\nall,\nfolks!"),
    ]
}

fn project_second() -> Vec<Entry> {
    vec![
        file(".get.toml", CONFIG),
        control_dir(),
        dir(
            "testdir",
            vec![
                file(".idea", "this file should be ignored"),
                file("new_name.txt", "and now it is modified!"),
                file("test_file2.txt", T2),
                dir("nested", vec![file("test_file3.txt", T3), file("test_file4.txt", T4)]),
            ],
        ),
        file("test_file.txt", "and now it is modified!"),
    ]
}

/// Paths of a listing mapped to file text, or to `None` for a directory.
fn model(entries: &[Entry], prefix: &str, out: &mut BTreeMap<String, Option<String>>) {
    for e in entries {
        match e {
            Entry::Dir { name, entries } => {
                let p = format!("{}{}", prefix, name);
                out.insert(p.clone(), None);
                model(entries, &format!("{}/", p), out);
            }
            Entry::File { name, content } => {
                out.insert(
                    format!("{}{}", prefix, name),
                    Some(String::from_utf8(content.clone()).unwrap()),
                );
            }
            Entry::Symlink { name } => {
                out.insert(format!("{}{}", prefix, name), Some(String::from("->")));
            }
        }
    }
}

fn apply(plan: &[FsAction], m: &mut BTreeMap<String, Option<String>>) {
    for a in plan {
        match a {
            FsAction::RemoveFile(p) => {
                assert!(matches!(m.remove(&p.join("/")), Some(Some(_))));
            }
            FsAction::RemoveDir(p) => {
                let key = p.join("/");
                let inner = format!("{}/", key);
                assert!(!m.keys().any(|k| k.starts_with(&inner)));
                assert_eq!(m.remove(&key), Some(None));
            }
            FsAction::CreateDir(p) => {
                m.insert(p.join("/"), None);
            }
            FsAction::WriteFile(p, t) => {
                m.insert(p.join("/"), Some(t.clone()));
            }
        }
    }
}

fn snapshot(entries: &[Entry]) -> BTreeMap<String, Option<String>> {
    let mut m = BTreeMap::new();
    model(entries, "", &mut m);
    m
}

#[test]
fn commit_and_restore_workflow() {
    let mut store = ObjectStore::new();
    let mut repo = Repo::init("/tmp/get_app_test".to_string(), false, config())
        .expect("repo initialization failed");
    assert_eq!(repo.head, EMPTY_REF);

    let first = project_first();
    let first_commit_digest = repo.commit(Some("descriptive message"), 1680961369, &first, &mut store);
    assert!(first_commit_digest.is_ok());
    assert_eq!(first_commit_digest.unwrap(), FIRST_COMMIT_DIGEST);
    assert_eq!(repo.head, FIRST_COMMIT_DIGEST);

    // Init again and fail since repo is already initialized.
    assert_eq!(
        Repo::init("/tmp/get_app_test".to_string(), true, config()).err(),
        Some(Error::RepoAlreadyExist)
    );

    let second = project_second();
    let second_commit_digest =
        repo.commit(Some("second commit descriptive message"), 1680961869, &second, &mut store);
    assert!(second_commit_digest.is_ok());
    assert_eq!(second_commit_digest.unwrap(), SECOND_COMMIT_DIGEST);
    assert_eq!(repo.head, SECOND_COMMIT_DIGEST);

    // Restore the first commit over the second working directory.
    let plan = repo.restore(FIRST_COMMIT_DIGEST, &second, &store).expect("restore failed");
    assert_eq!(repo.head, FIRST_COMMIT_DIGEST);
    let mut wd = snapshot(&second);
    apply(&plan, &mut wd);
    assert_eq!(wd, snapshot(&first));

    // Restore the second commit over the restored first one.
    let plan = repo.restore(SECOND_COMMIT_DIGEST, &first, &store).expect("restore failed");
    assert_eq!(repo.head, SECOND_COMMIT_DIGEST);
    let mut wd = snapshot(&first);
    apply(&plan, &mut wd);
    assert_eq!(wd, snapshot(&second));
}

#[test]
fn single_file_commit_digest() {
    let mut store = ObjectStore::new();
    let mut repo = Repo::init("/work".to_string(), false, config()).unwrap();
    let tree = vec![file("test_file.txt", "thats\nall,\nfolks!")];
    let d = repo.commit(Some("descriptive message"), 1680961369, &tree, &mut store).unwrap();
    assert_eq!(d, "599ea43cea683c247c8efe2804a3fb0b4ec70bb7");
    assert_eq!(d.len(), 40);
    // One commit and one blob.
    assert_eq!(store.len(), 2);
}

#[test]
fn digest_ignores_listing_order() {
    let mut shuffled = project_first();
    shuffled.reverse();
    if let Entry::Dir { entries, .. } = &mut shuffled[1] {
        entries.reverse();
        if let Some(Entry::Dir { entries: inner, .. }) = entries.first_mut() {
            inner.reverse();
        }
    }
    let mut a = Repo::init("/a".to_string(), false, config()).unwrap();
    let mut b = Repo::init("/b".to_string(), false, config()).unwrap();
    let da = a.commit(Some("descriptive message"), 1680961369, &project_first(), &mut ObjectStore::new());
    let db = b.commit(Some("descriptive message"), 1680961369, &shuffled, &mut ObjectStore::new());
    assert_eq!(da.unwrap(), db.unwrap());
}

#[test]
fn identical_trees_identical_digests() {
    let mut a = Repo::init("/a".to_string(), false, config()).unwrap();
    let mut b = Repo::init("/elsewhere".to_string(), false, config()).unwrap();
    let da = a.commit(None, 7, &project_second(), &mut ObjectStore::new()).unwrap();
    let db = b.commit(None, 7, &project_second(), &mut ObjectStore::new()).unwrap();
    assert_eq!(da, db);
    let dc = a.commit(None, 8, &project_second(), &mut ObjectStore::new()).unwrap();
    assert_ne!(da, dc);
}

#[test]
fn restore_of_a_build_gives_the_tree_back() {
    let mut store = ObjectStore::new();
    let mut repo = Repo::init("/w".to_string(), false, config()).unwrap();
    let tree = vec![
        dir("empty", vec![]),
        dir("docs", vec![file("a.md", "# A\n"), file("b.md", ""), dir("deep", vec![file("z", "zzz")])]),
        file("same1.txt", "twin"),
        file("same2.txt", "twin"),
    ];
    let d = repo.commit(Some("m"), 1, &tree, &mut store).unwrap();
    // Two identical files share one blob.
    let blobs = store.objects().iter().filter(|o| o.kind == ObjectKind::Blob).count();
    assert_eq!(blobs, 4);
    let plan = repo.restore(&d, &Vec::new(), &store).unwrap();
    let mut wd = BTreeMap::new();
    apply(&plan, &mut wd);
    assert_eq!(wd, snapshot(&tree));
}

#[test]
fn writing_twice_keeps_one_archive() {
    let mut store = ObjectStore::new();
    let mut repo = Repo::init("/w".to_string(), false, config()).unwrap();
    let tree = vec![file("x.txt", "x")];
    let d1 = repo.commit(Some("m"), 1, &tree, &mut store).unwrap();
    let n = store.len();
    let before: Vec<Vec<u8>> = store.objects().iter().map(|o| o.archive.clone()).collect();
    repo.head = EMPTY_REF.to_string();
    let d2 = repo.commit(Some("m"), 1, &tree, &mut store).unwrap();
    assert_eq!(d1, d2);
    assert_eq!(store.len(), n);
    let after: Vec<Vec<u8>> = store.objects().iter().map(|o| o.archive.clone()).collect();
    assert_eq!(before, after);

    store.write(ObjectKind::Blob, "feed".to_string(), vec![1, 2, 3]);
    store.write(ObjectKind::Blob, "feed".to_string(), vec![4, 5, 6]);
    assert_eq!(store.len(), n + 1);
    assert_eq!(store.read(ObjectKind::Blob, &"feed".to_string()), Some(&vec![1, 2, 3]));
}

#[test]
fn failed_commit_keeps_head() {
    let mut store = ObjectStore::new();
    let mut repo = Repo::init("/w".to_string(), false, config()).unwrap();
    let d = repo.commit(None, 1, &vec![file("a", "a")], &mut store).unwrap();
    let n = store.len();

    let with_link = vec![file("b", "b"), Entry::symlink("link".to_string())];
    assert_eq!(repo.commit(None, 2, &with_link, &mut store), Err(Error::Unsupported));
    assert_eq!(repo.head, d);
    assert_eq!(store.len(), n);

    let not_utf8 = vec![dir("bin", vec![Entry::file("x.bin".to_string(), vec![0xff, 0xfe, 0x00])])];
    assert_eq!(repo.commit(None, 3, &not_utf8, &mut store), Err(Error::UnsupportedEncoding));
    assert_eq!(repo.head, d);

    // Ignored entries are never looked at.
    let ignored_link = vec![file("a", "a"), dir(".git", vec![Entry::symlink("l".to_string())])];
    assert!(repo.commit(None, 4, &ignored_link, &mut store).is_ok());

    let nul_message = repo.commit(Some("a\0b"), 5, &vec![file("a", "a")], &mut store);
    assert_eq!(nul_message, Err(Error::Unexpected));
}

#[test]
fn failed_restore_keeps_head() {
    let mut store = ObjectStore::new();
    let mut repo = Repo::init("/w".to_string(), false, config()).unwrap();
    let tree = vec![dir("d", vec![file("f", "text")])];
    let d = repo.commit(None, 1, &tree, &mut store).unwrap();

    let missing = "0123456789abcdef0123456789abcdef01234567";
    assert_eq!(repo.restore(missing, &tree, &store).err(), Some(Error::CommitNotFound));
    assert_eq!(repo.head, d);

    // A symbolic link in the working directory stops the restore before any step.
    let with_link = vec![Entry::symlink("l".to_string())];
    assert_eq!(repo.restore(&d, &with_link, &store).err(), Some(Error::Unsupported));
    assert_eq!(repo.head, d);

    // A store that lacks the commit's tree.
    let mut partial = ObjectStore::new();
    for o in store.objects() {
        if o.kind == ObjectKind::Commit {
            partial.insert(StoredObject {
                kind: o.kind,
                digest: o.digest.clone(),
                archive: o.archive.clone(),
            });
        }
    }
    assert_eq!(repo.restore(&d, &Vec::new(), &partial).err(), Some(Error::ObjectNotFound));

    // An archive that is not a gzip stream.
    let mut broken = ObjectStore::new();
    broken.write(ObjectKind::Commit, d.clone(), vec![1, 2, 3]);
    assert_eq!(repo.restore(&d, &Vec::new(), &broken).err(), Some(Error::Unexpected));
    assert_eq!(repo.head, d);
}

#[test]
fn restore_removes_deepest_first_and_keeps_ignored() {
    let mut store = ObjectStore::new();
    let mut repo = Repo::init("/w".to_string(), false, config()).unwrap();
    let d = repo.commit(None, 1, &vec![file("keep.txt", "k")], &mut store).unwrap();
    let current = vec![
        control_dir(),
        dir("a", vec![dir("b", vec![file("c", "c")])]),
        dir("tools", vec![file(".idea", "settings"), file("x", "x")]),
    ];
    let plan = repo.restore(&d, &current, &store).unwrap();
    let s = |v: &[&str]| v.iter().map(|x| x.to_string()).collect::<Vec<String>>();
    let expected = vec![
        FsAction::RemoveFile(s(&["a", "b", "c"])),
        FsAction::RemoveDir(s(&["a", "b"])),
        FsAction::RemoveDir(s(&["a"])),
        FsAction::RemoveFile(s(&["tools", "x"])),
        FsAction::WriteFile(s(&["keep.txt"]), "k".to_string()),
    ];
    assert_eq!(plan.len(), expected.len());
    for (got, want) in plan.iter().zip(expected.iter()) {
        assert!(same_action(got, want));
    }
}

fn same_action(a: &FsAction, b: &FsAction) -> bool {
    match (a, b) {
        (FsAction::RemoveFile(x), FsAction::RemoveFile(y)) => x == y,
        (FsAction::RemoveDir(x), FsAction::RemoveDir(y)) => x == y,
        (FsAction::CreateDir(x), FsAction::CreateDir(y)) => x == y,
        (FsAction::WriteFile(x, t), FsAction::WriteFile(y, u)) => x == y && t == u,
        _ => false,
    }
}

#[test]
fn head_must_be_a_digest() {
    assert_eq!(
        Repo::try_from("/w".to_string(), config(), "not a digest".to_string()).err(),
        Some(Error::Unexpected)
    );
    let repo = Repo::try_from("/w".to_string(), config(), EMPTY_REF.to_string()).unwrap();
    assert_eq!(repo.head, EMPTY_REF);
    assert_eq!(repo.work_dir, "/w");
}

#[test]
fn default_config_has_no_patterns() {
    let c = get::default_config("someone".to_string());
    assert!(c.ignore.is_empty());
    assert_eq!(c.author, "someone");
}

#[test]
fn stored_commit_reads_back_its_properties() {
    let mut store = ObjectStore::new();
    let mut repo = Repo::init("/w".to_string(), false, config()).unwrap();
    let d = repo
        .commit(Some("descriptive message"), 1680961369, &vec![file("test_file.txt", "thats\nall,\nfolks!")], &mut store)
        .unwrap();
    let text = read_text(&store, ObjectKind::Commit, &d).unwrap();
    match read_commit(&text, d.clone()).unwrap() {
        Object::Commit { properties, content, message, timestamp, digest, .. } => {
            assert_eq!(
                properties,
                vec![
                    EMPTY_REF.to_string(),
                    "Vitalii Shvedchenko".to_string(),
                    "1680961369".to_string(),
                    "descriptive message".to_string(),
                ]
            );
            assert_eq!(content, vec!["blob\te1f0dbaf38d36cf46352b65ed6f07c3fe4563f52\ttest_file.txt".to_string()]);
            assert_eq!(message, "descriptive message");
            assert_eq!(timestamp, 1680961369);
            assert_eq!(digest, d);
        }
        _ => panic!("not a commit"),
    }
}

#[test]
fn commit_text_needs_a_decimal_timestamp() {
    let bad = "0000\nauthor\nnot-a-number\nmessage\nblob\tabc\tx".to_string();
    assert_eq!(read_commit(&bad, "d".to_string()).err(), Some(Error::Unexpected));
    let too_big = "0000\nauthor\n18446744073709551616\nmessage\n".to_string();
    assert_eq!(read_commit(&too_big, "d".to_string()).err(), Some(Error::Unexpected));
    let short = "0000\nauthor\n12".to_string();
    assert_eq!(read_commit(&short, "d".to_string()).err(), Some(Error::Unexpected));
    let empty_listing = "0000\nauthor\n18446744073709551615\nmessage\n".to_string();
    assert!(read_commit(&empty_listing, "d".to_string()).is_ok());
}

#[test]
fn restore_after_earlier_commits() {
    let mut store = ObjectStore::new();
    let mut repo = Repo::init("/w".to_string(), false, config()).unwrap();
    let a = vec![file("a.txt", "one"), dir("d", vec![file("b.txt", "two")])];
    let b = vec![file("a.txt", "one"), dir("d", vec![file("b.txt", "three")]), dir("e", vec![])];
    let da = repo.commit(Some("first"), 1, &a, &mut store).unwrap();
    let db = repo.commit(Some("second"), 2, &b, &mut store).unwrap();
    let plan = repo.restore(&da, &b, &store).unwrap();
    let mut wd = snapshot(&b);
    apply(&plan, &mut wd);
    assert_eq!(wd, snapshot(&a));
    let plan = repo.restore(&db, &a, &store).unwrap();
    let mut wd = snapshot(&a);
    apply(&plan, &mut wd);
    assert_eq!(wd, snapshot(&b));
}

#[test]
fn head_may_end_with_a_line_break() {
    let head = format!("{}\n", EMPTY_REF);
    let repo = Repo::try_from("/w".to_string(), config(), head).unwrap();
    assert_eq!(repo.head, EMPTY_REF);
    let bad = format!("{}x\n", EMPTY_REF);
    assert_eq!(Repo::try_from("/w".to_string(), config(), bad).err(), Some(Error::Unexpected));
}

#[test]
fn commit_rejects_what_cannot_be_read_back() {
    let mut store = ObjectStore::new();
    let mut repo = Repo::init("/w".to_string(), false, config()).unwrap();
    let tree = vec![file("a", "a")];
    assert_eq!(repo.commit(Some("two\nlines"), 1, &tree, &mut store), Err(Error::Unexpected));
    let long = "m".repeat(65536);
    assert_eq!(repo.commit(Some(&long), 1, &tree, &mut store), Err(Error::Unexpected));
    let tabbed = vec![file("a\tb", "a")];
    assert_eq!(repo.commit(None, 1, &tabbed, &mut store), Err(Error::Unexpected));
    let dots = vec![dir("..", vec![])];
    assert_eq!(repo.commit(None, 1, &dots, &mut store), Err(Error::Unexpected));
    assert_eq!(repo.head, EMPTY_REF);
    assert_eq!(store.len(), 0);
    let ok = "m".repeat(65535);
    assert!(repo.commit(Some(&ok), 1, &tree, &mut store).is_ok());
}

#[test]
fn stored_trees_and_blobs_read_back_with_their_names() {
    let mut store = ObjectStore::new();
    let mut repo = Repo::init("/w".to_string(), false, config()).unwrap();
    let tree = vec![dir("docs", vec![file("a.md", "# A\n")])];
    repo.commit(None, 1, &tree, &mut store).unwrap();
    let objs: Vec<(ObjectKind, String)> = store.objects().iter().map(|o| (o.kind, o.digest.clone())).collect();
    let parent = vec!["root".to_string()];
    let mut seen = 0;
    for (kind, digest) in objs {
        match kind {
            ObjectKind::Blob => match read_blob(&store, &parent, digest.clone()).unwrap() {
                Object::Blob { path, content, digest: d } => {
                    assert_eq!(path, vec!["root".to_string(), "a.md".to_string()]);
                    assert_eq!(content, "# A\n");
                    assert_eq!(d, digest);
                    seen += 1;
                }
                _ => panic!("not a blob"),
            },
            ObjectKind::Tree => match read_tree(&store, &parent, digest.clone()).unwrap() {
                Object::Tree { path, content, .. } => {
                    assert_eq!(path, vec!["root".to_string(), "docs".to_string()]);
                    assert_eq!(content.len(), 1);
                    assert!(content[0].starts_with("blob\t") && content[0].ends_with("\ta.md"));
                    seen += 1;
                }
                _ => panic!("not a tree"),
            },
            ObjectKind::Commit => {}
        }
    }
    assert_eq!(seen, 2);
    assert_eq!(
        read_blob(&store, &parent, "missing".to_string()).err(),
        Some(Error::ObjectNotFound)
    );
}
