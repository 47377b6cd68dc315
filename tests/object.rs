use get::object::Object;
use get::paths::parse_path;

#[test]
fn update_digest_commit() {
    let message = "descriptive commit message with several lines.";
    let commit_properties = vec![
        String::from("1234567890abcdefghij"), // digest
        String::from("rakhmaninov"),          // author
        String::from("1680961369"),           // timestamp
        String::from(message),
    ];

    let mut commit = Object::new_commit(
        parse_path("/tmp"),
        vec![
            String::from("blob\t32bab984c61ba43ba15e479b23df5e828aa43864\tCargo.lock"),
            String::from("blob\t77c57febfc94ff583a1a15a004d01cf6e16a4442\tCargo.toml"),
            String::from("blob\t9c00c0236a2b133dbfbc7ad799f9ea5ce685c2e4\tTODO.md"),
            String::from("blob\te28de939637c3a53b10c53ebfc3203acbf168717\t.rustfmt.toml"),
            String::from("tree\t17d520fea68d0d107a4e8becad26e47f37e73aab\tsrc"),
            String::from("tree\t9dffa2d73d8b2f67a59768600023cd32b21ba7ac\tdummy_app"),
        ],
        commit_properties.clone(),
        String::from(message),
        1680961369,
    );

    assert!(commit.update_digest().is_ok());
    assert!(commit.digest() == "2753e92b249668d8389db72282cabf048aea34c3");

    let mut commit_with_content_reordered = Object::new_commit(
        parse_path("/tmp"),
        vec![
            String::from("blob\te28de939637c3a53b10c53ebfc3203acbf168717\t.rustfmt.toml"),
            String::from("blob\t9c00c0236a2b133dbfbc7ad799f9ea5ce685c2e4\tTODO.md"),
            String::from("blob\t77c57febfc94ff583a1a15a004d01cf6e16a4442\tCargo.toml"),
            String::from("tree\t17d520fea68d0d107a4e8becad26e47f37e73aab\tsrc"),
            String::from("blob\t32bab984c61ba43ba15e479b23df5e828aa43864\tCargo.lock"),
            String::from("tree\t9dffa2d73d8b2f67a59768600023cd32b21ba7ac\tdummy_app"),
        ],
        commit_properties.clone(),
        String::from(message),
        1680961369,
    );

    assert!(commit_with_content_reordered.update_digest().is_ok());
    assert!(commit.digest() == commit_with_content_reordered.digest());
}

#[test]
fn update_digest_tree() {
    let mut tree = Object::new_tree(
        parse_path("/tmp"),
        vec![
            String::from("blob\t0a883d942f72a18558810edd255d846f408ed35a\tmain.rs"),
            String::from("blob\t44dd4de05dddc1235fdb19bf1ab2dc4c11178da8\tobject.rs"),
            String::from("blob\t5651a0070d5d6031b7b9e53e7d962acfb9fdfba1\tworktree.rs"),
            String::from("blob\td4c47993f35fec5888d41e74aa67cda00242376a\tlib.rs"),
            String::from("blob\tf8cf364dd0b44a6c44c99600ff6d2ca9111c3a23\terror.rs"),
        ],
        String::default(),
    );

    assert!(tree.update_digest().is_ok());
    assert!(tree.digest() == "1bba1312886239216792daa5a21d9ecf65cebd75");

    let mut tree_with_content_reordered = Object::new_tree(
        parse_path("/tmp"),
        vec![
            String::from("blob\td4c47993f35fec5888d41e74aa67cda00242376a\tlib.rs"),
            String::from("blob\t44dd4de05dddc1235fdb19bf1ab2dc4c11178da8\tobject.rs"),
            String::from("blob\t5651a0070d5d6031b7b9e53e7d962acfb9fdfba1\tworktree.rs"),
            String::from("blob\tf8cf364dd0b44a6c44c99600ff6d2ca9111c3a23\terror.rs"),
            String::from("blob\t0a883d942f72a18558810edd255d846f408ed35a\tmain.rs"),
        ],
        String::default(),
    );

    assert!(tree_with_content_reordered.update_digest().is_ok());
    assert!(tree.digest() == tree_with_content_reordered.digest());
}

#[test]
fn tree_obj_content_line() {
    let tree = Object::new_tree(parse_path("/tmp"), Vec::new(), String::from("digest"));

    let content_line = tree.obj_content_line();
    assert!(content_line.is_ok());
    assert!(content_line.unwrap() == String::from("tree\tdigest\ttmp"));
}

#[test]
fn blob_obj_content_line() {
    let blob = Object::new_blob(
        parse_path("/tmp/odyssey.txt"),
        String::default(),
        String::from("digest"),
    );

    let content_line = blob.obj_content_line();
    assert!(content_line.is_ok());
    assert!(content_line.unwrap() == String::from("blob\tdigest\todyssey.txt"));
}

#[test]
fn content_line_needs_a_digest() {
    let blob = Object::new_blob(parse_path("notes.txt"), String::default(), String::new());
    assert!(blob.obj_content_line().is_err());
    let mut commit = Object::new_commit(Vec::new(), Vec::new(), Vec::new(), String::new(), 0);
    assert!(commit.update_digest().is_ok());
    assert!(commit.obj_content_line().is_err());
}

#[test]
fn blob_digest_is_sha1_of_text() {
    let mut blob = Object::new_blob(
        parse_path("test_file.txt"),
        String::from("thats\nall,\nfolks!"),
        String::new(),
    );
    assert!(blob.update_digest().is_ok());
    assert_eq!(blob.digest(), "e1f0dbaf38d36cf46352b65ed6f07c3fe4563f52");
}

#[test]
fn append_content_lists_in_tree_not_in_blob() {
    let mut tree = Object::new_tree(parse_path("src"), Vec::new(), String::new());
    tree.append_content(String::from("blob\tabc\tmain.rs"));
    match &tree {
        Object::Tree { content, .. } => assert_eq!(content, &vec![String::from("blob\tabc\tmain.rs")]),
        _ => panic!("not a tree"),
    }
    let mut blob = Object::new_blob(parse_path("a.txt"), String::from("x"), String::new());
    blob.append_content(String::from("blob\tabc\tmain.rs"));
    match &blob {
        Object::Blob { content, .. } => assert_eq!(content, "x"),
        _ => panic!("not a blob"),
    }
}
