use githttp_fs::error::AppError;
use githttp_fs::git::files::{GitFiles, PathKind};
use githttp_fs::git::index::GitOrder;
use githttp_fs::git::model::{
    blob_content_from_tree, Blob, CommitPlan, CommitRequest, EntryKind, FileChange, TreeEdit,
    TreeEntry,
};
use githttp_fs::order::serialize;
use githttp_fs::routes::files::{delete_file, move_file};
use githttp_fs::seek::SeekFilter;

fn file(path: &str, oid: &str) -> TreeEntry {
    TreeEntry { path: path.to_string(), kind: EntryKind::Blob, oid: oid.to_string() }
}

fn folder(path: &str) -> TreeEntry {
    TreeEntry { path: path.to_string(), kind: EntryKind::Tree, oid: format!("t:{}", path) }
}

fn blob(oid: &str, content: &str) -> Blob {
    Blob { oid: oid.to_string(), content: content.as_bytes().to_vec() }
}

fn strings(list: &[&str]) -> Vec<String> {
    list.iter().map(|text| text.to_string()).collect()
}

fn document(list: &[&str]) -> String {
    serialize(&strings(list))
}

fn request() -> CommitRequest {
    CommitRequest {
        message: None,
        author_name: "Ada".to_string(),
        author_email: "ada@example.com".to_string(),
    }
}

fn edits(plan: &CommitPlan) -> Vec<String> {
    plan.edits
        .iter()
        .map(|edit| match edit {
            TreeEdit::Remove { path } => format!("-{}", path),
            TreeEdit::Link { path, oid } => format!("{}={}", path, oid),
            TreeEdit::Write { path, content } => format!("{}<{}", path, content),
        })
        .collect()
}

fn changes(plan: &CommitPlan) -> Vec<String> {
    plan.changes
        .iter()
        .map(|change| match change {
            FileChange::Created { path, content } => format!("created {}<{}", path, content),
            FileChange::Updated { path, content } => format!("updated {}<{}", path, content),
            FileChange::Deleted { path } => format!("deleted {}", path),
            FileChange::Moved { from_path, to_path, content } => {
                format!("moved {}->{}<{}", from_path, to_path, content)
            }
        })
        .collect()
}

fn planned(result: Result<Option<CommitPlan>, AppError>) -> CommitPlan {
    result.unwrap().unwrap()
}

fn refusal(result: Result<Option<CommitPlan>, AppError>) -> String {
    result.unwrap_err().message()
}

// The id that git gives a blob holding "hello\n".
const HELLO_OID: &str = "ce013625030ba8dba906f756967f9e9ca394464a";

fn sample() -> (Vec<TreeEntry>, Vec<Blob>) {
    (
        vec![
            file(".order.json", "o1"),
            file("a.md", HELLO_OID),
            folder("docs"),
            file("docs/.order.json", "o2"),
            file("docs/b.md", "b"),
            folder("docs/sub"),
            file("docs/sub/c.md", "c"),
            folder("empty"),
        ],
        vec![
            blob("o1", &document(&["docs/", "a.md"])),
            blob("o2", &document(&["b.md", "sub/"])),
            blob(HELLO_OID, "hello\n"),
            blob("b", "bee"),
            blob("c", "sea"),
        ],
    )
}

#[test]
fn path_kinds() {
    let (tree, _) = sample();
    assert_eq!(GitFiles::path_kind(&tree, "a.md"), PathKind::File);
    assert_eq!(GitFiles::path_kind(&tree, "docs"), PathKind::Directory);
    assert_eq!(GitFiles::path_kind(&tree, "nothing"), PathKind::Missing);
    assert_eq!(GitFiles::path_kind(&tree, "docs/.order.json"), PathKind::Missing);
}

#[test]
fn files_are_read() {
    let (tree, blobs) = sample();
    let all = SeekFilter::all();
    assert_eq!(GitFiles::read_file(&tree, &blobs, "docs/b.md", &all).unwrap(), "bee");
    for path in ["nothing", "docs", ".order.json"] {
        let error = GitFiles::read_file(&tree, &blobs, path, &all).unwrap_err();
        assert_eq!(error.message(), format!("file not found: {}", path));
        assert_eq!(error.status(), 404);
    }
}

#[test]
fn batch_slots_are_aligned() {
    let (tree, blobs) = sample();
    let reads = vec![
        ("docs/b.md".to_string(), SeekFilter::all()),
        ("nothing".to_string(), SeekFilter::all()),
        ("docs".to_string(), SeekFilter::all()),
        ("a.md".to_string(), SeekFilter::all()),
    ];
    assert_eq!(
        GitFiles::batch_read_files(&tree, &blobs, &reads).unwrap(),
        vec![Some("bee".to_string()), None, None, Some("hello\n".to_string())]
    );
}

#[test]
fn batch_fails_for_content_that_is_no_text() {
    let tree = vec![file("x", "x"), file("y", "y")];
    let blobs = vec![blob("x", "x"), Blob { oid: "y".to_string(), content: vec![0xff] }];
    let reads =
        vec![("x".to_string(), SeekFilter::all()), ("y".to_string(), SeekFilter::all())];
    let error = GitFiles::batch_read_files(&tree, &blobs, &reads).unwrap_err();
    assert_eq!(error.status(), 422);
    assert_eq!(blob_content_from_tree(&tree, &blobs, "y").unwrap_err().status(), 422);
}

#[test]
fn writes_create_and_update() {
    let (tree, _) = sample();
    let created = planned(GitFiles::write_file(&tree, "new.md", "text", &request()));
    assert_eq!(edits(&created), vec!["new.md<text"]);
    assert_eq!(changes(&created), vec!["created new.md<text"]);
    assert_eq!(created.message, "create: new.md");
    let updated = planned(GitFiles::write_file(&tree, "a.md", "other", &request()));
    assert_eq!(changes(&updated), vec!["updated a.md<other"]);
    assert_eq!(updated.message, "update: a.md");
}

#[test]
fn same_content_needs_no_commit() {
    let (tree, _) = sample();
    assert!(GitFiles::write_file(&tree, "a.md", "hello\n", &request()).unwrap().is_none());
    let known = Ok("b".to_string());
    assert!(GitFiles::write_blob(&tree, "docs/b.md", "x", known, &request()).unwrap().is_none());
}

#[test]
fn refused_writes() {
    let (tree, _) = sample();
    assert_eq!(
        refusal(GitFiles::write_file(&tree, "docs/.order.json", "{}", &request())),
        "invalid operation: path is reserved for the file order index, write it through /order instead: docs/.order.json"
    );
    assert_eq!(
        refusal(GitFiles::write_file(&tree, "docs", "x", &request())),
        "invalid operation: path is a folder: docs"
    );
    let nameless = CommitRequest {
        message: None,
        author_name: "  ".to_string(),
        author_email: "a@b".to_string(),
    };
    assert_eq!(
        refusal(GitFiles::write_file(&tree, "new.md", "x", &nameless)),
        "invalid operation: author.name must not be empty"
    );
    let unknown = Err("broken".to_string());
    assert_eq!(
        refusal(GitFiles::write_blob(&tree, "a.md", "x", unknown, &request())),
        "git error: broken"
    );
}

#[test]
fn own_message_is_kept() {
    let (tree, _) = sample();
    let mut wanted = request();
    wanted.message = Some("fix typo".to_string());
    assert_eq!(planned(GitFiles::write_file(&tree, "n", "x", &wanted)).message, "fix typo");
}

#[test]
fn deleting_a_file_drops_its_place() {
    let (tree, blobs) = sample();
    let plan = planned(GitFiles::delete_file(&tree, &blobs, "docs/b.md", &request()));
    let rest = document(&["sub/"]);
    assert_eq!(edits(&plan), vec!["-docs/b.md".to_string(), format!("docs/.order.json<{}", rest)]);
    assert_eq!(
        changes(&plan),
        vec!["deleted docs/b.md".to_string(), format!("updated docs/.order.json<{}", rest)]
    );
    assert_eq!(plan.message, "delete: docs/b.md");
    for path in ["nothing", "docs", "docs/.order.json"] {
        assert_eq!(
            refusal(GitFiles::delete_file(&tree, &blobs, path, &request())),
            format!("file not found: {}", path)
        );
    }
}

#[test]
fn deleting_a_folder_deletes_all_its_files() {
    let (tree, blobs) = sample();
    let plan = planned(GitFiles::delete_directory(&tree, &blobs, "docs/sub", &request()));
    assert_eq!(plan.message, "delete: docs/sub/");
    assert_eq!(changes(&plan)[0], "deleted docs/sub/c.md");
    assert_eq!(edits(&plan)[0], "-docs/sub");
    assert!(GitFiles::delete_directory(&tree, &blobs, "empty", &request()).unwrap().is_none());
    assert_eq!(
        refusal(GitFiles::delete_directory(&tree, &blobs, "a.md", &request())),
        "file not found: a.md"
    );
}

#[test]
fn moving_a_file_carries_its_content() {
    let (tree, blobs) = sample();
    let plan = planned(GitFiles::move_file(&tree, &blobs, "docs/b.md", "docs/z.md", &request()));
    let renamed = document(&["z.md", "sub/"]);
    assert_eq!(
        edits(&plan),
        vec![
            "-docs/b.md".to_string(),
            "docs/z.md=b".to_string(),
            format!("docs/.order.json<{}", renamed)
        ]
    );
    assert_eq!(changes(&plan)[0], "moved docs/b.md->docs/z.md<bee");
    assert_eq!(plan.message, "move: docs/b.md -> docs/z.md");
}

#[test]
fn moving_between_folders_updates_both_orders() {
    let (tree, blobs) = sample();
    let plan = planned(GitFiles::move_file(&tree, &blobs, "docs/b.md", "b.md", &request()));
    assert_eq!(
        changes(&plan),
        vec![
            "moved docs/b.md->b.md<bee".to_string(),
            format!("updated docs/.order.json<{}", document(&["sub/"])),
            format!("updated .order.json<{}", document(&["docs/", "a.md", "b.md"])),
        ]
    );
}

#[test]
fn refused_moves() {
    let (tree, blobs) = sample();
    let attempt = |from: &str, to: &str| {
        refusal(GitFiles::move_file(&tree, &blobs, from, to, &request()))
    };
    assert_eq!(attempt("nothing", "x"), "file not found: nothing");
    assert_eq!(attempt(".order.json", "x"), "file not found: .order.json");
    assert_eq!(
        attempt("a.md", "a.md"),
        "invalid operation: destination must differ from source path"
    );
    assert_eq!(attempt("a.md", "docs"), "invalid operation: destination already exists: docs");
    assert_eq!(
        attempt("a.md", "x/.order.json"),
        "invalid operation: destination is reserved for the file order index, write it through /order instead: x/.order.json"
    );
    let folders = |from: &str, to: &str| {
        refusal(GitFiles::move_directory(&tree, &blobs, from, to, &request()))
    };
    assert_eq!(
        folders("docs", "docs/inner"),
        "invalid operation: destination must not be inside the source directory: docs/inner"
    );
    assert_eq!(folders("a.md", "x"), "file not found: a.md");
    assert_eq!(folders("docs", "empty"), "invalid operation: destination already exists: empty");
}

#[test]
fn moving_a_folder_moves_every_file() {
    let (tree, blobs) = sample();
    let plan = planned(GitFiles::move_directory(&tree, &blobs, "docs", "guide", &request()));
    assert_eq!(plan.message, "move: docs/ -> guide/");
    assert_eq!(
        edits(&plan)[..4],
        ["-docs", "guide/.order.json=o2", "guide/b.md=b", "guide/sub/c.md=c"]
    );
    assert!(changes(&plan).contains(&"moved docs/b.md->guide/b.md<bee".to_string()));
    assert!(changes(&plan).contains(&"moved docs/sub/c.md->guide/sub/c.md<sea".to_string()));
    assert_eq!(
        edits(&plan)[4],
        format!(".order.json<{}", document(&["guide/", "a.md"]))
    );
    assert!(GitFiles::move_directory(&tree, &blobs, "empty", "void", &request()).unwrap().is_none());
}

#[test]
fn folders_need_consent() {
    let (tree, blobs) = sample();
    for allow in [None, Some(false)] {
        assert_eq!(
            refusal(delete_file(&tree, &blobs, "docs", allow, &request())),
            "file not found: docs"
        );
        assert_eq!(
            refusal(move_file(&tree, &blobs, "docs", "guide", allow, None, &request())),
            "file not found: docs"
        );
    }
    assert_eq!(
        planned(delete_file(&tree, &blobs, "docs", Some(true), &request())).message,
        "delete: docs/"
    );
    assert_eq!(
        planned(delete_file(&tree, &blobs, "a.md", Some(true), &request())).message,
        "delete: a.md"
    );
    let allowed = vec!["md".to_string()];
    assert_eq!(
        planned(move_file(&tree, &blobs, "docs", "guide", Some(true), Some(&allowed), &request()))
            .message,
        "move: docs/ -> guide/"
    );
    assert_eq!(
        refusal(move_file(&tree, &blobs, "a.md", "x", Some(true), Some(&allowed), &request())),
        "invalid path: file extension is not allowed: x"
    );
}

#[test]
fn orders_are_read() {
    let (tree, blobs) = sample();
    assert_eq!(
        GitOrder::read_order(&tree, &blobs, "docs").unwrap(),
        strings(&["b.md", "sub/"])
    );
    let error = GitOrder::read_order(&tree, &blobs, "empty").unwrap_err();
    assert_eq!(error.message(), "order index not found for directory: empty");
    let root = GitOrder::read_order(&[], &[], "").unwrap_err();
    assert_eq!(root.message(), "order index not found for directory: /");
    assert_eq!(root.status(), 404);
}

#[test]
fn orders_are_written_in_their_canonical_spelling() {
    let (tree, _) = sample();
    let plan = planned(GitOrder::write_order(
        &tree,
        "docs",
        &strings(&["sub", "b.md"]),
        &request(),
    ));
    let stored = document(&["sub/", "b.md"]);
    assert_eq!(changes(&plan), vec![format!("updated docs/.order.json<{}", stored)]);
    assert_eq!(plan.message, "order update: docs");
    let fresh = planned(GitOrder::write_order(
        &[file("x", "x")],
        "",
        &strings(&["x"]),
        &request(),
    ));
    assert_eq!(changes(&fresh), vec![format!("created .order.json<{}", document(&["x"]))]);
    assert_eq!(fresh.message, "order update: /");
}

#[test]
fn refused_orders_in_the_repository() {
    let (tree, _) = sample();
    assert_eq!(
        refusal(GitOrder::write_order(&tree, "docs", &strings(&["b.md", "a.md"]), &request())),
        "invalid operation: order entry does not exist in 'docs': a.md"
    );
    assert_eq!(
        refusal(GitOrder::write_order(&tree, "a.md", &strings(&["x"]), &request())),
        "file not found: a.md"
    );
}

#[test]
fn storing_the_stored_order_needs_no_commit() {
    // The id that git gives the document {"order": ["x"]} as it is stored.
    let plan = planned(GitOrder::write_order(&[file("x", "x")], "", &strings(&["x"]), &request()));
    let text = match &plan.changes[0] {
        FileChange::Created { content, .. } => content.clone(),
        _ => panic!("not created"),
    };
    let oid = git2::Oid::hash_object(git2::ObjectType::Blob, text.as_bytes()).unwrap().to_string();
    let tree = vec![file(".order.json", &oid), file("x", "x")];
    assert!(GitOrder::write_order(&tree, "", &strings(&["x"]), &request()).unwrap().is_none());
    let again = GitOrder::store_document(
        &tree,
        "",
        &strings(&["x"]),
        Ok(oid),
        &request(),
        "m".to_string(),
    );
    assert!(again.unwrap().is_none());
}

#[test]
fn reordering_moves_one_entry() {
    let (tree, blobs) = sample();
    let plan = planned(GitOrder::reorder_entry(&tree, &blobs, "docs/sub", 0, true, &request()));
    assert_eq!(
        changes(&plan),
        vec![format!("updated docs/.order.json<{}", document(&["sub/", "b.md"]))]
    );
    assert_eq!(plan.message, "order position: docs/sub -> 0");
    let last = planned(GitOrder::reorder_entry(&tree, &blobs, "docs/b.md", 9, false, &request()));
    assert_eq!(last.message, "order position: docs/b.md -> 1");
    assert_eq!(
        refusal(GitOrder::reorder_entry(&tree, &blobs, "docs/sub", 0, false, &request())),
        "file not found: docs/sub"
    );
}

#[test]
fn deleting_an_order() {
    let (tree, _) = sample();
    let plan = planned(GitOrder::delete_order(&tree, "docs", &request()));
    assert_eq!(edits(&plan), vec!["-docs/.order.json"]);
    assert_eq!(changes(&plan), vec!["deleted docs/.order.json"]);
    assert_eq!(plan.message, "order delete: docs");
    assert_eq!(
        refusal(GitOrder::delete_order(&tree, "empty", &request())),
        "order index not found for directory: empty"
    );
}

#[test]
fn staging_an_order() {
    let (tree, blobs) = sample();
    let (edit, change) = GitOrder::stage_index("docs", &[], true);
    assert!(matches!(edit, TreeEdit::Remove { .. }));
    assert!(matches!(change, FileChange::Deleted { .. }));
    assert!(GitOrder::stage_entry_removed(&tree, &blobs, "docs", "other").is_none());
    assert!(GitOrder::stage_entry_appended(&tree, &blobs, "docs", "b.md").is_none());
    assert!(GitOrder::stage_entry_appended(&tree, &blobs, "empty", "b.md").is_none());
    let (_, renamed) =
        GitOrder::stage_entry_renamed(&tree, &blobs, "docs", "sub", "part/").unwrap();
    assert!(matches!(
        renamed,
        FileChange::Updated { content, .. } if content == document(&["b.md", "part/"])
    ));
}
