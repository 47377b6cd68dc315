use get::paths::{
    blob_path, check_no_repo_dir, commits_path, create_utility_dirs, default_ignore, head_path,
    is_ignored, log_path, parse_path, repo_dir, tree_path,
};
use get::error::Error;

#[test]
fn test_is_ignored() {
    let ignore: Vec<String> = vec![
        ".git".to_string(),
        ".gitignore".to_string(),
        "target".to_string(),
        ".get".to_string(),
    ];

    const DEFAULT_IGNORE: &[&str] = &[".get", ".get.toml"]; // Default ignore patterns.
    let default_ignored: Vec<String> = DEFAULT_IGNORE.iter().map(|s| s.to_string()).collect();

    let path = parse_path("./hello/iamnot/ignore");
    assert!(!is_ignored(&path, &ignore, &default_ignored));

    let path = parse_path("./edgecase/hello.get");
    assert!(!is_ignored(&path, &ignore, &default_ignored));

    let path = parse_path("./oneanotheredgecase/mytarget/hey.rs");
    assert!(!is_ignored(&path, &ignore, &default_ignored));

    let path = parse_path("./dir/target/hello");
    assert!(is_ignored(&path, &ignore, &default_ignored));

    let path = parse_path("./dir/.git/hello");
    assert!(is_ignored(&path, &ignore, &default_ignored));
}

#[test]
fn substring_of_a_name_is_not_ignored() {
    let ignore = vec!["target".to_string()];
    assert!(!is_ignored(&parse_path("targetfile.txt"), &ignore, &default_ignore()));
    assert!(is_ignored(&parse_path("target"), &ignore, &default_ignore()));
    assert!(is_ignored(&parse_path("src/.get.toml"), &Vec::new(), &default_ignore()));
}

#[test]
fn parse_path_keeps_names_only() {
    assert_eq!(parse_path("/tmp"), vec!["tmp".to_string()]);
    assert_eq!(parse_path("./a//b/./c/"), vec!["a".to_string(), "b".to_string(), "c".to_string()]);
    assert_eq!(parse_path("x/../y"), vec!["x".to_string(), "y".to_string()]);
    assert!(parse_path("").is_empty());
}

#[test]
fn control_paths() {
    let s = |v: &[&str]| v.iter().map(|x| x.to_string()).collect::<Vec<String>>();
    assert_eq!(commits_path(), s(&[".get", "objects", "commit"]));
    assert_eq!(tree_path(), s(&[".get", "objects", "tree"]));
    assert_eq!(blob_path(), s(&[".get", "objects", "blob"]));
    assert_eq!(head_path(), s(&[".get", "HEAD"]));
    assert_eq!(log_path(), s(&[".get", "LOG"]));
    assert_eq!(
        create_utility_dirs(),
        vec![
            s(&[".get"]),
            s(&[".get", "objects"]),
            s(&[".get", "objects", "commit"]),
            s(&[".get", "objects", "tree"]),
            s(&[".get", "objects", "blob"]),
        ]
    );
}

#[test]
fn repo_lookup() {
    assert_eq!(repo_dir(&vec![false, true, true]), Ok(1));
    assert_eq!(repo_dir(&vec![false, false]), Err(Error::NotAGetRepo));
    assert_eq!(repo_dir(&Vec::new()), Err(Error::NotAGetRepo));
    assert_eq!(check_no_repo_dir(true), Err(Error::RepoAlreadyExist));
    assert_eq!(check_no_repo_dir(false), Ok(()));
}
