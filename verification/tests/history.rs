use githttp_fs::error::AppError;
use githttp_fs::git::dates::{file_date, retain_by_date, DateFilter, DateKind, DatedCommit, Timestamp};
use githttp_fs::git::history::{DeltaRecord, DeltaStatus, GitCommits, GitUtils, TargetCommit};
use githttp_fs::git::log::{
    CommitAuthor, CommitHeader, CommitStatistics, CommitSummary, DiffLine, FileHistory, Sighting,
    TreeSpot,
};
use githttp_fs::git::model::{
    Blob, CommitPlan, CommitRequest, EntryKind, FileChange, TreeEdit, TreeEntry,
};
use githttp_fs::git::upkeep::{GitLocks, GitMaintenance, GitTenant, MaintenanceReport};
use githttp_fs::rfc3339;

fn file(path: &str, oid: &str) -> TreeEntry {
    TreeEntry { path: path.to_string(), kind: EntryKind::Blob, oid: oid.to_string() }
}

fn blobs() -> Vec<Blob> {
    ["1", "2", "3"]
        .iter()
        .map(|oid| Blob { oid: oid.to_string(), content: format!("text {}", oid).into_bytes() })
        .collect()
}

fn delta(status: DeltaStatus, old: Option<(&str, &str)>, new: Option<(&str, &str)>) -> DeltaRecord {
    DeltaRecord {
        status,
        old_path: old.map(|side| side.0.to_string()),
        old_oid: old.map(|side| side.1.to_string()).unwrap_or_default(),
        new_path: new.map(|side| side.0.to_string()),
        new_oid: new.map(|side| side.1.to_string()).unwrap_or_default(),
    }
}

fn line(of: &DeltaRecord, origin: char, content: &[u8]) -> DiffLine {
    DiffLine {
        old_oid: of.old_oid.clone(),
        new_oid: of.new_oid.clone(),
        old_path: of.old_path.clone(),
        new_path: of.new_path.clone(),
        origin,
        content: content.to_vec(),
    }
}

fn target(message: &str) -> TargetCommit {
    TargetCommit { message: Some(message.to_string()), has_parent: true }
}

fn request() -> CommitRequest {
    CommitRequest {
        message: None,
        author_name: "Ada".to_string(),
        author_email: "ada@example.com".to_string(),
    }
}

fn steps(plan: &CommitPlan) -> Vec<String> {
    let mut all: Vec<String> = plan
        .edits
        .iter()
        .map(|edit| match edit {
            TreeEdit::Remove { path } => format!("-{}", path),
            TreeEdit::Link { path, oid } => format!("{}={}", path, oid),
            TreeEdit::Write { path, content } => format!("{}<{}", path, content),
        })
        .collect();
    for change in &plan.changes {
        all.push(match change {
            FileChange::Created { path, content } => format!("created {}<{}", path, content),
            FileChange::Updated { path, content } => format!("updated {}<{}", path, content),
            FileChange::Deleted { path } => format!("deleted {}", path),
            FileChange::Moved { from_path, to_path, content } => {
                format!("moved {}->{}<{}", from_path, to_path, content)
            }
        });
    }
    all
}

fn refusal(result: Result<Option<CommitPlan>, AppError>) -> String {
    result.unwrap_err().message()
}

fn summary(sha: &str) -> CommitSummary {
    CommitSummary {
        sha: sha.to_string(),
        message: String::new(),
        author: CommitAuthor { name: "Ada".to_string(), email: "ada@example.com".to_string() },
        committed_at: 0,
        statistics: None,
    }
}

fn shas(list: &[CommitSummary]) -> Vec<&str> {
    list.iter().map(|commit| commit.sha.as_str()).collect()
}

fn spot(oid: &str) -> Option<TreeSpot> {
    Some(TreeSpot { oid: oid.to_string(), filemode: 0o100644 })
}

#[test]
fn revert_undoes_every_kind_of_change() {
    let parent = vec![file("gone", "1"), file("old", "2"), file("kept", "3")];
    let deltas = vec![
        delta(DeltaStatus::Added, None, Some(("new", "9"))),
        delta(DeltaStatus::Deleted, Some(("gone", "1")), None),
        delta(DeltaStatus::Modified, Some(("kept", "3")), Some(("kept", "8"))),
        delta(DeltaStatus::Renamed, Some(("old", "2")), Some(("fresh", "2"))),
        delta(DeltaStatus::Other, Some(("odd", "7")), Some(("odd", "7"))),
    ];
    let plan = GitCommits::revert_commit(
        "sha",
        Some(&target("change")),
        &parent,
        &blobs(),
        &deltas,
        &request(),
    )
    .unwrap()
    .unwrap();
    assert_eq!(plan.message, "revert: change");
    assert_eq!(
        steps(&plan),
        vec![
            "-new",
            "gone=1",
            "kept=3",
            "-fresh",
            "old=2",
            "deleted new",
            "created gone<text 1",
            "updated kept<text 3",
            "moved fresh->old<text 2",
        ]
    );
}

#[test]
fn refused_reverts() {
    assert_eq!(
        refusal(GitCommits::revert_commit("abc", None, &[], &[], &[], &request())),
        "commit not found: abc"
    );
    let first = TargetCommit { message: None, has_parent: false };
    assert_eq!(
        refusal(GitCommits::revert_commit("abc", Some(&first), &[], &[], &[], &request())),
        "invalid operation: cannot revert the initial commit"
    );
}

#[test]
fn rollback_restores_what_the_commit_had() {
    let head = vec![file("a", "2"), file("b", "1"), file("later", "3")];
    let then = vec![file("a", "1"), file("c", "3")];
    let deltas = vec![
        delta(DeltaStatus::Modified, Some(("a", "0")), Some(("a", "1"))),
        delta(DeltaStatus::Deleted, Some(("b", "1")), None),
        delta(DeltaStatus::Added, None, Some(("c", "3"))),
    ];
    let plan = GitCommits::rollback_commit(
        "sha",
        Some(&target("then")),
        &head,
        &then,
        &blobs(),
        &deltas,
        &request(),
    )
    .unwrap()
    .unwrap();
    assert_eq!(plan.message, "rollback: then");
    assert_eq!(
        steps(&plan),
        vec!["a=1", "-b", "c=3", "updated a<text 1", "deleted b", "created c<text 3"]
    );
}

#[test]
fn rollback_of_a_rename() {
    let then = vec![file("new", "1")];
    let deltas = vec![delta(DeltaStatus::Renamed, Some(("old", "1")), Some(("new", "1")))];
    let attempt = |head: Vec<TreeEntry>| {
        GitCommits::rollback_commit(
            "sha",
            Some(&target("then")),
            &head,
            &then,
            &blobs(),
            &deltas,
            &request(),
        )
        .unwrap()
    };
    assert_eq!(
        steps(&attempt(vec![file("old", "2")]).unwrap()),
        vec!["-old", "new=1", "moved old->new<text 1"]
    );
    assert_eq!(
        steps(&attempt(vec![file("old", "2"), file("new", "3")]).unwrap()),
        vec!["new=1", "-old", "updated new<text 1", "deleted old"]
    );
    assert!(attempt(vec![file("new", "1")]).is_none());
}

#[test]
fn rollback_to_the_present_needs_no_commit() {
    let tree = vec![file("a", "1")];
    let deltas = vec![delta(DeltaStatus::Added, None, Some(("a", "1")))];
    let first = TargetCommit { message: None, has_parent: false };
    let plan =
        GitCommits::rollback_commit("sha", Some(&first), &tree, &tree, &blobs(), &deltas, &request());
    assert!(plan.unwrap().is_none());
    assert_eq!(
        refusal(GitCommits::rollback_commit("abc", None, &[], &[], &[], &[], &request())),
        "commit not found: abc"
    );
}

#[test]
fn commit_detail_shows_its_files() {
    let header = CommitHeader {
        sha: "abc".to_string(),
        message: "change".to_string(),
        author: CommitAuthor { name: "Ada".to_string(), email: "ada@example.com".to_string() },
        committed_at: 7,
        statistics: CommitStatistics { insertions: 1, deletions: 2, files_changed: 2 },
    };
    let tree = vec![file("new", "2")];
    let deltas = vec![
        delta(DeltaStatus::Renamed, Some(("old", "1")), Some(("new", "2"))),
        delta(DeltaStatus::Deleted, Some(("gone", "3")), None),
    ];
    let lines = vec![
        line(&deltas[0], 'F', b"header\n"),
        line(&deltas[0], '-', b"a\n"),
        line(&deltas[0], '+', b"b\n"),
        line(&deltas[1], '-', b"c\n"),
        line(&deltas[0], '+', &[0xff]),
    ];
    let detail = GitCommits::get_commit("abc", Some(header), &tree, &blobs(), &deltas, &lines).unwrap();
    assert_eq!(detail.sha, "abc");
    assert_eq!(detail.files.len(), 2);
    assert_eq!(detail.files[0].path, "new");
    assert_eq!(detail.files[0].change, "moved");
    assert_eq!(detail.files[0].from_path, Some("old".to_string()));
    assert_eq!(detail.files[0].content, "text 2");
    assert_eq!(detail.files[0].diff, "header\n-a\n+b\n+");
    assert_eq!(detail.files[1].path, "gone");
    assert_eq!(detail.files[1].change, "deleted");
    assert_eq!(detail.files[1].content, "");
    assert_eq!(detail.files[1].diff, "-c\n");
    assert_eq!(
        GitCommits::get_commit("xyz", None, &[], &[], &[], &[]).unwrap_err().message(),
        "commit not found: xyz"
    );
}

#[test]
fn equal_files_keep_their_own_lines() {
    let header = CommitHeader {
        sha: "abc".to_string(),
        message: "two alike".to_string(),
        author: CommitAuthor { name: "Ada".to_string(), email: "ada@example.com".to_string() },
        committed_at: 7,
        statistics: CommitStatistics { insertions: 2, deletions: 0, files_changed: 2 },
    };
    let tree = vec![file("a", "1"), file("b", "1")];
    let deltas = vec![
        delta(DeltaStatus::Added, None, Some(("a", "1"))),
        delta(DeltaStatus::Added, None, Some(("b", "1"))),
    ];
    let lines = vec![
        line(&deltas[0], 'F', b"diff a\n"),
        line(&deltas[0], '+', b"text 1\n"),
        line(&deltas[1], 'F', b"diff b\n"),
        line(&deltas[1], '+', b"text 1\n"),
    ];
    let detail = GitCommits::get_commit("abc", Some(header), &tree, &blobs(), &deltas, &lines).unwrap();
    assert_eq!(detail.files[0].path, "a");
    assert_eq!(detail.files[0].diff, "diff a\n+text 1\n");
    assert_eq!(detail.files[1].path, "b");
    assert_eq!(detail.files[1].diff, "diff b\n+text 1\n");
}

#[test]
fn a_file_that_became_a_folder() {
    let deltas = vec![
        delta(DeltaStatus::Deleted, Some(("a", "1")), None),
        delta(DeltaStatus::Added, None, Some(("a/b", "2"))),
    ];
    let then = vec![file("a/b", "2")];
    let before = vec![file("a", "1")];
    let back = GitCommits::rollback_commit(
        "sha",
        Some(&target("then")),
        &before,
        &then,
        &blobs(),
        &deltas,
        &request(),
    );
    assert_eq!(
        steps(&back.unwrap().unwrap()),
        vec!["-a", "a/b=2", "deleted a", "created a/b<text 2"]
    );
    let settled = GitCommits::rollback_commit(
        "sha",
        Some(&target("then")),
        &then,
        &then,
        &blobs(),
        &deltas,
        &request(),
    );
    assert!(settled.unwrap().is_none());
    let undone = GitCommits::revert_commit(
        "sha",
        Some(&target("then")),
        &before,
        &blobs(),
        &deltas,
        &request(),
    );
    assert_eq!(
        steps(&undone.unwrap().unwrap()),
        vec!["a=1", "-a/b", "created a<text 1", "deleted a/b"]
    );
}

#[test]
fn missing_paths_are_empty() {
    assert_eq!(GitUtils::path_string(Some("a")), "a");
    assert_eq!(GitUtils::path_string(None), "");
}

#[test]
fn commits_come_in_pages() {
    let history = || vec![summary("a"), summary("b"), summary("c")];
    let (first, more) = GitCommits::list_commits(history(), 1, 2);
    assert_eq!((shas(&first), more), (vec!["a", "b"], true));
    let (second, more) = GitCommits::list_commits(history(), 2, 2);
    assert_eq!((shas(&second), more), (vec!["c"], false));
    let (beyond, more) = GitCommits::list_commits(history(), 9, 2);
    assert_eq!((shas(&beyond), more), (vec![], false));
    let (zero, _) = GitCommits::list_commits(history(), 0, 1);
    assert_eq!(shas(&zero), vec!["a"]);
}

#[test]
fn a_renamed_file_is_followed() {
    let deltas = vec![
        delta(DeltaStatus::Modified, Some(("x", "1")), Some(("x", "2"))),
        delta(DeltaStatus::Renamed, Some(("old", "1")), Some(("new", "1"))),
    ];
    assert_eq!(GitCommits::rename_source(&deltas, "new"), Some("old".to_string()));
    assert_eq!(GitCommits::rename_source(&deltas, "x"), None);
    let mut history = FileHistory::new("new", 1, 1);
    assert_eq!(history.current_path(), "new");
    history.observe(
        summary("3"),
        Sighting::Child { in_commit: spot("b"), in_parent: spot("a"), renamed_from: None },
    );
    assert!(!history.is_complete());
    history.observe(
        summary("2"),
        Sighting::Child {
            in_commit: spot("a"),
            in_parent: None,
            renamed_from: Some("old".to_string()),
        },
    );
    assert_eq!(history.current_path(), "old");
    assert!(history.is_complete());
    history.observe(
        summary("untouched"),
        Sighting::Child { in_commit: spot("a"), in_parent: spot("a"), renamed_from: None },
    );
    history.observe(summary("1"), Sighting::Root { exists: true });
    history.observe(summary("none"), Sighting::Root { exists: false });
    let (page, more) = history.into_page();
    assert_eq!((shas(&page), more), (vec!["3"], true));
}

#[test]
fn dates_of_files() {
    let commit = |committed_at: i64, deltas: Vec<DeltaRecord>| DatedCommit { committed_at, deltas };
    let history = vec![
        commit(30, vec![delta(DeltaStatus::Modified, Some(("a", "1")), Some(("a", "2")))]),
        commit(20, vec![delta(DeltaStatus::Added, None, Some(("a", "1")))]),
        commit(15, vec![delta(DeltaStatus::Deleted, Some(("a", "0")), None)]),
        commit(10, vec![delta(DeltaStatus::Added, None, Some(("a", "0")))]),
    ];
    assert_eq!(file_date(&history, "a", DateKind::Updated), Some(30));
    assert_eq!(file_date(&history, "a", DateKind::Created), Some(10));
    assert_eq!(file_date(&history, "b", DateKind::Updated), None);
    let moved = vec![
        commit(
            40,
            vec![
                delta(DeltaStatus::Deleted, Some(("a", "2")), None),
                delta(DeltaStatus::Added, None, Some(("b", "2"))),
            ],
        ),
        commit(30, vec![delta(DeltaStatus::Added, None, Some(("a", "2")))]),
    ];
    assert_eq!(file_date(&moved, "b", DateKind::Created), Some(40));
    let at = |seconds: i64| Some(Timestamp { seconds, nanos: 0 });
    let kept = |from: Option<Timestamp>, to: Option<Timestamp>, kind: DateKind| {
        retain_by_date(
            &history,
            "",
            vec!["a".to_string(), "b".to_string()],
            DateFilter { from, to, kind },
        )
    };
    assert_eq!(kept(at(30), None, DateKind::Updated), vec!["a"]);
    assert!(kept(None, at(30), DateKind::Updated).is_empty());
    assert_eq!(kept(at(10), at(11), DateKind::Created), vec!["a"]);
}

#[test]
fn instants_compare_by_their_parts() {
    let early = Timestamp { seconds: 1, nanos: 5 };
    let late = Timestamp { seconds: 1, nanos: 6 };
    assert!(early.is_before(&late));
    assert!(!late.is_before(&early));
    assert!(!early.is_before(&early));
    let range = DateFilter { from: Some(early), to: Some(late), kind: DateKind::Updated };
    assert!(range.matches(early));
    assert!(!range.matches(late));
}

#[test]
fn times_are_spelled_and_read() {
    assert_eq!(rfc3339::format(0), "1970-01-01T00:00:00Z");
    assert_eq!(rfc3339::format(1_781_604_000), "2026-06-16T10:00:00Z");
    assert_eq!(rfc3339::parse("2026-06-16T12:00:00+02:00"), Some(1_781_604_000));
    assert_eq!(rfc3339::parse("2026-06-16"), None);
    for seconds in [-62_167_219_200, -1, 0, 253_402_300_799] {
        assert_eq!(rfc3339::parse(&rfc3339::format(seconds)), Some(seconds));
    }
    assert_eq!(rfc3339::format(i64::MAX), "");
    assert_eq!(rfc3339::timestamp_from_git_time(12), 12);
    assert_eq!(rfc3339::timestamp_from_git_time(i64::MAX), 0);
}

#[test]
fn upkeep_decisions() {
    assert!(!GitLocks::is_stale(30));
    assert!(GitLocks::is_stale(31));
    assert!(!GitMaintenance::needs_repack(0, 1));
    assert!(GitMaintenance::needs_repack(1, 0));
    assert!(GitMaintenance::needs_repack(0, 2));
    assert!(GitMaintenance::is_fanout_directory("0a"));
    assert!(GitMaintenance::is_fanout_directory("FF"));
    assert!(!GitMaintenance::is_fanout_directory("pack"));
    assert!(!GitMaintenance::is_fanout_directory("g0"));
}

#[test]
fn packs_outlive_a_consolidation_that_brought_none() {
    let before = vec!["a".to_string(), "b".to_string()];
    let mut after = before.clone();
    assert!(GitMaintenance::packs_to_remove(&before, &after).is_empty());
    after.push("c".to_string());
    assert_eq!(GitMaintenance::packs_to_remove(&before, &after), before);
    let report = GitMaintenance::report(5, 3, &before);
    assert_eq!(report.packed_objects, 5);
    assert_eq!(report.loose_objects_removed, 3);
    assert_eq!(report.old_packs_removed, 2);
    assert_eq!(MaintenanceReport::default().packed_objects, 0);
}

#[test]
fn only_an_existing_tenant_is_removed() {
    assert!(GitTenant::delete_repo(true, "t").is_ok());
    let error = GitTenant::delete_repo(false, "t").unwrap_err();
    assert_eq!((error.message(), error.status()), ("tenant not found: t".to_string(), 404));
}
