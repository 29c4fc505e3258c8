use githttp_fs::error::AppError;
use githttp_fs::routes::files::{post_target, PostTarget};
use githttp_fs::validate::{
    check_identifier, collection_id, commit_sha, file_extension, file_or_folder_path, file_path,
    folder_path, node_id, replication_identity, tenant_id, COMMIT_SHA_LENGTH, IDENTITY_LENGTH,
    MAXIMUM_IDENTIFIER_LENGTH,
};

fn message<T>(outcome: Result<T, AppError>) -> String {
    match outcome {
        Ok(_) => panic!("accepted"),
        Err(error) => error.message(),
    }
}

#[test]
fn identifiers_are_checked() {
    assert_eq!(check_identifier("acme-Site_2.draft"), None);
    assert_eq!(check_identifier(""), Some("must not be empty"));
    assert_eq!(check_identifier(".hidden"), Some("must not start with a dot"));
    let longest = "a".repeat(MAXIMUM_IDENTIFIER_LENGTH);
    assert_eq!(check_identifier(&longest), None);
    assert_eq!(check_identifier(&format!("{}a", longest)), Some("is too long"));
    for bad in ["a/b", "a b", "a\\b", "caf\u{e9}", "a\0"] {
        assert_eq!(
            check_identifier(bad),
            Some("must hold letters, digits, dots, dashes and underscores only")
        );
    }
}

#[test]
fn collections_and_tenants_are_refused_with_their_errors() {
    assert!(collection_id("docs").is_ok());
    assert!(tenant_id("acme").is_ok());
    assert_eq!(
        message(collection_id(".staging")),
        "invalid operation: collection id must not start with a dot"
    );
    let refused = tenant_id("../acme");
    assert!(matches!(refused, Err(AppError::InvalidTenant { .. })));
    assert_eq!(message(refused), "invalid tenant id: ../acme");
    assert_eq!(node_id("node-1"), Ok(()));
    assert_eq!(node_id(""), Err("must not be empty".to_string()));
}

#[test]
fn commit_ids_are_hexadecimal() {
    assert!(commit_sha("0a1B2c").is_ok());
    assert!(commit_sha(&"f".repeat(COMMIT_SHA_LENGTH)).is_ok());
    assert_eq!(
        message(commit_sha("HEAD~1")),
        "invalid operation: commit sha must be hexadecimal: HEAD~1"
    );
    assert!(commit_sha("").is_err());
    assert!(commit_sha(&"f".repeat(COMMIT_SHA_LENGTH + 1)).is_err());
}

#[test]
fn identities_have_one_length() {
    assert_eq!(replication_identity(&"0".repeat(IDENTITY_LENGTH)), Ok(()));
    let refused = Err("identity must be 64 hexadecimal digits".to_string());
    assert_eq!(replication_identity(&"0".repeat(IDENTITY_LENGTH - 1)), refused);
    assert_eq!(replication_identity(&"g".repeat(IDENTITY_LENGTH)), refused);
}

#[test]
fn file_paths_lose_the_slash_in_front() {
    for raw in ["a.md", "/a.md", "//a.md"] {
        assert_eq!(file_path(raw).ok(), Some("a.md".to_string()));
    }
    assert_eq!(file_path("a/.b/c.md").ok(), Some("a/.b/c.md".to_string()));
    assert_eq!(file_path("a/..b").ok(), Some("a/..b".to_string()));
    for raw in ["", "/", "a/", "a//b", ".", "a/./b", "../a", "a/../b", ".git/config", "a/.git", "a\0"] {
        assert_eq!(
            message(file_path(raw)),
            format!("invalid path: not a path inside the repository: {}", raw)
        );
    }
}

#[test]
fn an_accepted_path_is_accepted_as_it_is() {
    let once = file_path("/docs/a.md").ok().expect("accepted");
    assert_eq!(file_path(&once).ok(), Some(once));
}

#[test]
fn folder_paths_lose_the_slashes_around() {
    assert_eq!(file_or_folder_path("/docs/").ok(), Some("docs".to_string()));
    assert!(file_or_folder_path("/").is_err());
    assert!(file_or_folder_path("docs/..").is_err());
    assert_eq!(folder_path("/").ok(), Some(String::new()));
    assert_eq!(folder_path("").ok(), Some(String::new()));
    assert_eq!(folder_path("/docs/guides/").ok(), Some("docs/guides".to_string()));
    assert_eq!(
        message(folder_path("docs/../..")),
        "invalid path: not a path inside the repository: docs/../.."
    );
}

#[test]
fn extensions_are_held_to_the_list() {
    let allowed = vec!["md".to_string()];
    assert!(file_extension("docs/a.md", Some(&allowed)).is_ok());
    assert!(file_extension("docs/a.bin", None).is_ok());
    assert_eq!(
        message(file_extension("docs.md/a.bin", Some(&allowed))),
        "invalid path: file extension is not allowed: docs.md/a.bin"
    );
}

#[test]
fn post_targets_are_told_by_the_end_of_the_path() {
    match post_target("docs/a.md/move") {
        Ok(PostTarget::Move { path }) => assert_eq!(path, "docs/a.md"),
        _ => panic!("not a move"),
    }
    match post_target("docs/a.md/reorder") {
        Ok(PostTarget::Reorder { path }) => assert_eq!(path, "docs/a.md"),
        _ => panic!("not a reorder"),
    }
    assert_eq!(
        message(post_target("docs/a.md")),
        "invalid path: POST on a file path must end with /move"
    );
}
