use githttp_fs::config::{
    Config, HookEvent, HooksConfig, LimitsConfig, MaintenanceConfig, ReplicationConfig,
    ReplicationRole, ServerConfig,
};
use githttp_fs::error::AppError;
use githttp_fs::git::dates::{DateKind, Timestamp};
use githttp_fs::git::files::PathKind;
use githttp_fs::hooks::{HookSource, ReplayKind};
use githttp_fs::replication::identity::ReplicationIdentity;
use githttp_fs::replication::issues::{Issue, Issues};
use githttp_fs::replication::registry::ReplicaRegistry;
use githttp_fs::replication::status::ReplicaStatus;
use githttp_fs::replication::wire::{ReplicationEvent, RepositoryHead, RepositoryScan};
use githttp_fs::routes::commits::ListCommitsQuery;
use githttp_fs::routes::files::{
    file_exists, judge_extensions, judge_prefixes, judge_range, move_source, parse_date_filter,
    parse_file_name_prefixes, parse_restrict_file_extensions, parse_rfc3339, recurses,
    target_path, write_target,
    BatchReadFileRequest, BatchReadFilesRequest, CountFilesQuery, ListFilesQuery, MoveFileRequest,
};
use githttp_fs::routes::health::health_status;
use githttp_fs::routes::{page_window, AuthorRequest};
use githttp_fs::routes::replay::{
    replay_job, replay_paths, require_hook_receiver, sanitize_files, validate_delay,
    ReplayDirection, ReplayHookRequest,
};
use githttp_fs::routes::replication::{
    hello, note_peer, pack_head, peer_identity, replication_events, replication_state,
    PeerClaims, PeerHeaders,
};
use githttp_fs::routes::root::ping;
use githttp_fs::seek::{SeekBody, SeekFilter};

fn strings(list: &[&str]) -> Vec<String> {
    list.iter().map(|text| text.to_string()).collect()
}

fn config(role: Option<ReplicationRole>) -> Config {
    Config {
        server: ServerConfig {
            host: "127.0.0.1".to_string(),
            port: 5355,
            api_key: "key".to_string(),
            repos_path: "/var/repos".to_string(),
            log_level: None,
            checkout_files: true,
            checkout_files_autoheal: false,
        },
        limits: LimitsConfig::default(),
        hooks: None,
        maintenance: MaintenanceConfig::default(),
        replication: role.map(|role| ReplicationConfig {
            role,
            secret: "shared".to_string(),
            node_id: "node-a".to_string(),
            master_url: None,
            host: None,
            port: 5356,
            poll_interval_secs: 60,
            parallelism: 4,
            reconnect_backoff_ms: 1000,
            deletion_guard: true,
        }),
    }
}

fn everything() -> ListFilesQuery {
    ListFilesQuery {
        prefix_path: None,
        maximum_depth: None,
        include_hidden_files: None,
        file_name_starts_with: None,
        include_date_from: None,
        include_date_to: None,
        include_date_type: None,
        page: None,
        per_page: None,
    }
}

fn peer(node_id: Option<&str>, instance: Option<&str>) -> PeerHeaders {
    PeerHeaders {
        node_id: node_id.map(str::to_string),
        instance: instance.map(str::to_string),
        repositories: Some(4),
        pending: None,
        sync: None,
        poll_interval_secs: Some(30),
    }
}

fn identity(stored: Option<&str>) -> ReplicationIdentity {
    ReplicationIdentity::load("/i", Some(true), Ok(stored.map(str::to_string))).unwrap().0
}

fn window(maximum: usize) -> SeekBody {
    SeekBody {
        from_line_starts_with: None,
        to_line_starts_with: None,
        lines_maximum: Some(maximum),
    }
}

#[test]
fn pages_have_limits() {
    assert_eq!(page_window(None, None), (1, 100));
    assert_eq!(page_window(Some(0), Some(0)), (1, 1));
    assert_eq!(page_window(Some(7), Some(501)), (7, 500));
    let query = ListCommitsQuery {
        page: Some(2),
        per_page: None,
        file_path: Some("/a".to_string()),
        include_statistics: Some(true),
    };
    let listing = query.listing().unwrap();
    assert_eq!((listing.page, listing.per_page, listing.include_statistics), (2, 100, true));
    assert_eq!(listing.file_path, Some("a".to_string()));
    let wrong = ListCommitsQuery { file_path: Some("../a".to_string()), ..query };
    assert_eq!(
        wrong.listing().unwrap_err().message(),
        "invalid path: not a path inside the repository: ../a"
    );
}

#[test]
fn name_prefixes_are_read() {
    assert_eq!(parse_file_name_prefixes("intro").unwrap(), vec!["intro"]);
    assert_eq!(parse_file_name_prefixes(" [\"a\", \"b\"]").unwrap(), vec!["a", "b"]);
    let refusal = |raw: &str| parse_file_name_prefixes(raw).unwrap_err().message();
    assert_eq!(
        refusal("[1]"),
        "invalid operation: file_name_starts_with must be a string or a JSON array of strings, e.g. [\"intro\", \"readme\"]"
    );
    assert_eq!(
        refusal("[]"),
        "invalid operation: file_name_starts_with must contain at least one prefix"
    );
    assert_eq!(refusal(""), "invalid operation: file_name_starts_with must not be empty");
    assert_eq!(judge_prefixes(strings(&["a"])).unwrap(), vec!["a"]);
    assert!(judge_prefixes(strings(&["a", ""])).is_err());
}

#[test]
fn extensions_are_read() {
    assert_eq!(parse_restrict_file_extensions("[\".md\", \"..x\"]").unwrap(), vec!["md", "x"]);
    let refusal = |raw: &str| parse_restrict_file_extensions(raw).unwrap_err().message();
    assert_eq!(
        refusal("md"),
        "invalid operation: restrict_file_extensions must be a JSON array of strings, e.g. [\"md\", \"mdx\"]"
    );
    assert_eq!(
        refusal("[]"),
        "invalid operation: restrict_file_extensions must contain at least one extension"
    );
    assert_eq!(
        refusal("[\".\"]"),
        "invalid operation: restrict_file_extensions extensions must not be empty"
    );
    assert_eq!(judge_extensions(&strings(&[".a"])).unwrap(), vec!["a"]);
}

#[test]
fn date_filters_are_read() {
    let from = "2026-06-16T10:00:00Z";
    let to = "2026-06-16T12:00:00+00:00";
    assert!(parse_date_filter(None, None, Some("created")).unwrap().is_none());
    let filter = parse_date_filter(Some(from), Some(to), None).unwrap().unwrap();
    assert_eq!(filter.kind, DateKind::Updated);
    assert_eq!(filter.from, Some(Timestamp { seconds: 1_781_604_000, nanos: 0 }));
    assert_eq!(filter.to, Some(Timestamp { seconds: 1_781_611_200, nanos: 0 }));
    let created = parse_date_filter(None, Some(to), Some("created")).unwrap().unwrap();
    assert_eq!(created.kind, DateKind::Created);
    let refusal = |from: Option<&str>, to: Option<&str>, kind: Option<&str>| {
        parse_date_filter(from, to, kind).unwrap_err().message()
    };
    assert_eq!(
        refusal(None, None, Some("born")),
        "invalid operation: include_date_type must be 'updated' or 'created': born"
    );
    assert_eq!(
        refusal(Some("today"), None, None),
        "invalid operation: include_date_from must be an RFC 3339 date-time, e.g. 2026-06-16T10:00:00Z"
    );
    assert_eq!(
        refusal(None, Some("today"), None),
        "invalid operation: include_date_to must be an RFC 3339 date-time, e.g. 2026-06-16T10:00:00Z"
    );
    assert_eq!(
        refusal(Some(from), Some(from), None),
        "invalid operation: include_date_from must be strictly before include_date_to"
    );
    let at = |seconds: i64| Some(Timestamp { seconds, nanos: 0 });
    assert!(judge_range(at(2), at(1), DateKind::Updated).is_err());
    assert!(judge_range(at(1), at(2), DateKind::Updated).unwrap().is_some());
    assert_eq!(parse_rfc3339(from, "p").unwrap(), Timestamp { seconds: 1_781_604_000, nanos: 0 });
}

#[test]
fn listings_are_asked_for() {
    let mut query = everything();
    query.maximum_depth = Some(2);
    query.include_hidden_files = Some(true);
    query.file_name_starts_with = Some("x".to_string());
    query.page = Some(3);
    query.prefix_path = Some("/docs/".to_string());
    let request = query.request().unwrap();
    assert_eq!(request.path_prefix, Some("docs".to_string()));
    assert_eq!(request.maximum_depth, Some(2));
    assert!(request.include_hidden_files);
    assert_eq!(request.file_name_starts_with, Some(strings(&["x"])));
    assert!(request.date_filter.is_none() && request.order_options.is_none());
    assert_eq!((request.page, request.per_page), (3, 100));
    let root = ListFilesQuery { prefix_path: Some("/".to_string()), ..everything() };
    assert_eq!(root.request().unwrap().path_prefix, None);
    query.maximum_depth = Some(0);
    assert_eq!(
        query.request().unwrap_err().message(),
        "invalid operation: maximum_depth must be at least 1"
    );
    query.prefix_path = Some("docs/..".to_string());
    assert_eq!(
        query.request().unwrap_err().message(),
        "invalid path: not a path inside the repository: docs/.."
    );
}

#[test]
fn counts_are_asked_for() {
    let query = CountFilesQuery {
        prefix_path: None,
        maximum_depth: None,
        include_hidden_files: None,
        restrict_file_extensions: Some("[\".md\"]".to_string()),
    };
    let request = query.request().unwrap();
    assert_eq!(request.restrict_file_extensions, Some(strings(&["md"])));
    assert!(!request.include_hidden_files);
    let empty = CountFilesQuery { maximum_depth: Some(0), ..query };
    assert_eq!(
        empty.request().unwrap_err().message(),
        "invalid operation: maximum_depth must be at least 1"
    );
}

#[test]
fn batches_are_aligned() {
    let body = BatchReadFilesRequest {
        files: vec![
            BatchReadFileRequest::Path("a".to_string()),
            BatchReadFileRequest::Options { path: "/b".to_string(), seek: Some(window(2)) },
            BatchReadFileRequest::Options { path: "c".to_string(), seek: None },
        ],
        seek: Some(window(9)),
    };
    assert_eq!(body.files[1].parts().0, "/b");
    assert!(body.files[1].parts().1.is_some());
    let reads = body.reads(3).unwrap();
    let limits: Vec<(&str, Option<usize>)> =
        reads.iter().map(|(path, seek)| (path.as_str(), seek.lines_maximum)).collect();
    assert_eq!(limits, vec![("a", Some(9)), ("b", Some(2)), ("c", Some(9))]);
}

#[test]
fn refused_batches() {
    let entry = |path: &str, seek: Option<SeekBody>| BatchReadFileRequest::Options {
        path: path.to_string(),
        seek,
    };
    let refusal = |files: Vec<BatchReadFileRequest>, seek: Option<SeekBody>| {
        BatchReadFilesRequest { files, seek }.reads(2).unwrap_err().message()
    };
    assert_eq!(refusal(vec![], None), "invalid operation: files must contain at least one path");
    assert_eq!(
        refusal(vec![entry("a", None), entry("b", None), entry("c", None)], None),
        "invalid operation: files must not contain more than 2 paths (3 requested)"
    );
    assert_eq!(
        refusal(vec![entry("a", None), entry("/a", None)], None),
        "invalid operation: files must be unique: 'a' is requested twice"
    );
    assert_eq!(
        refusal(vec![entry("a", None), entry("b/..", None)], None),
        "invalid path: not a path inside the repository: b/.."
    );
    assert_eq!(
        refusal(vec![entry("a", None), entry("b", None)], Some(window(0))),
        "invalid operation: seek.lines_maximum must be at least 1"
    );
    assert_eq!(
        refusal(vec![entry("a", None), entry("b", Some(window(0)))], None),
        "invalid operation: files[1]: seek.lines_maximum must be at least 1"
    );
}

#[test]
fn folders_are_targets_where_allowed() {
    assert_eq!(target_path("/docs/", Some(true)).unwrap(), "docs");
    for folders in [None, Some(false)] {
        assert_eq!(target_path("/docs", folders).unwrap(), "docs");
        assert!(target_path("/docs/", folders).is_err());
    }
}

#[test]
fn existence_of_files_and_folders() {
    assert!(file_exists(PathKind::File, None, "a").is_ok());
    assert!(file_exists(PathKind::Directory, Some(true), "a").is_ok());
    for (kind, folders) in [
        (PathKind::Directory, None),
        (PathKind::Directory, Some(false)),
        (PathKind::Missing, Some(true)),
    ] {
        assert_eq!(file_exists(kind, folders, "a").unwrap_err().message(), "file not found: a");
    }
    assert!(recurses(Some(true), PathKind::Directory));
    assert!(!recurses(None, PathKind::Directory));
    assert!(!recurses(Some(true), PathKind::File));
}

#[test]
fn moves_are_posted_to_their_source() {
    assert_eq!(move_source("docs/a.md/move").unwrap(), "docs/a.md");
    assert_eq!(move_source("/move").unwrap(), "");
    assert_eq!(
        move_source("docs/a.md").unwrap_err().message(),
        "invalid path: POST on a file path must end with /move"
    );
}

#[test]
fn replay_directions() {
    assert!(ReplayDirection::Create.keeps_present());
    assert!(!ReplayDirection::Delete.keeps_present());
    assert!(ReplayDirection::Create.replay_kind() == ReplayKind::Created);
    assert!(ReplayDirection::Delete.replay_kind() == ReplayKind::Deleted);
    let present = strings(&["a", "b"]);
    let given = strings(&["c", "a"]);
    let paths = |direction: ReplayDirection, files: Option<&[String]>| {
        replay_paths(direction, files, &present)
    };
    assert_eq!(paths(ReplayDirection::Create, Some(&given)), vec!["a"]);
    assert_eq!(paths(ReplayDirection::Delete, Some(&given)), vec!["c"]);
    assert_eq!(paths(ReplayDirection::Create, None), present);
    assert!(paths(ReplayDirection::Delete, None).is_empty());
}

#[test]
fn replays_are_judged() {
    assert_eq!(validate_delay(Some(60_000)).unwrap(), Some(60_000));
    assert_eq!(validate_delay(None).unwrap(), None);
    assert_eq!(
        validate_delay(Some(60_001)).unwrap_err().message(),
        "invalid operation: delay_ms must not exceed 60000 milliseconds, got 60001"
    );
    let mut settings = config(None);
    assert_eq!(
        require_hook_receiver(&settings).unwrap_err().message(),
        "invalid operation: no webhook receiver is configured; a replay would deliver nothing"
    );
    settings.hooks = Some(HooksConfig {
        url: "http://r".to_string(),
        events: vec![HookEvent::FileCreated],
        retry_attempts: 1,
        retry_backoff_ms: 1,
        auth: None,
    });
    assert!(require_hook_receiver(&settings).is_ok());
    let mut request = ReplayHookRequest {
        direction: ReplayDirection::Create,
        files: None,
        prefix_path: None,
        include_hidden_files: false,
        delay_ms: None,
    };
    assert!(!request.includes_hidden());
    request.files = Some(vec![]);
    assert!(request.includes_hidden());
}

#[test]
fn callers_paths_are_sanitized() {
    let check = |raw: &[&str], prefix: Option<&str>| {
        sanitize_files(&strings(raw), prefix).map_err(|error| error.message())
    };
    assert_eq!(check(&["/a", "docs/b"], None), Ok(strings(&["a", "docs/b"])));
    assert_eq!(check(&["docs/b"], Some("docs")), Ok(strings(&["docs/b"])));
    assert_eq!(check(&["a"], Some("")), Ok(strings(&["a"])));
    assert_eq!(
        check(&[], None),
        Err("invalid operation: files must contain at least one path; omit it entirely to default to every file".to_string())
    );
    assert_eq!(check(&["a", ".."], None), Err("invalid path: not a path inside the repository: ..".to_string()));
    assert_eq!(
        check(&["docs/.order.json"], None),
        Err("invalid operation: files must not reference an order index: docs/.order.json; file order is a separate resource under /order".to_string())
    );
    assert_eq!(
        check(&["docsx/b"], Some("docs")),
        Err("invalid operation: files entry 'docsx/b' must sit under prefix_path 'docs'".to_string())
    );
    assert!(check(&["docs"], Some("docs")).is_err());
    assert_eq!(
        check(&["a", "/a"], None),
        Err("invalid operation: files must be unique: 'a' is listed twice".to_string())
    );
}

#[test]
fn replay_jobs() {
    let make = |paths: Vec<String>| {
        replay_job(
            "c".to_string(),
            "t".to_string(),
            "abc".to_string(),
            Timestamp { seconds: 1, nanos: 2 },
            "/r".to_string(),
            ReplayDirection::Delete,
            paths,
            Some(5),
        )
    };
    assert!(make(vec![]).is_none());
    let job = make(strings(&["a"])).unwrap();
    assert_eq!(job.commit_sha, "abc");
    assert!(matches!(
        job.source,
        HookSource::Replay(replay)
            if replay.kind == ReplayKind::Deleted && replay.delay_ms == Some(5)
    ));
}

#[test]
fn public_status() {
    let report = |role: Option<ReplicationRole>, bootstrapped: bool| {
        let settings = config(role);
        let mut status = ReplicaStatus::new(&settings);
        if bootstrapped {
            status.mark_bootstrapped();
        }
        health_status(&settings, &status, 100, 160)
    };
    let alone = report(None, false);
    assert_eq!((alone.status, alone.role, alone.writable), ("healthy", "standalone", true));
    assert_eq!((alone.started_at.as_str(), alone.uptime_secs), ("1970-01-01T00:01:40Z", 60));
    let cold = report(Some(ReplicationRole::Replica), false);
    assert_eq!((cold.status, cold.role, cold.writable), ("bootstrapping", "replica", false));
    assert_eq!(report(Some(ReplicationRole::Replica), true).status, "healthy");
    assert_eq!(report(Some(ReplicationRole::Master), false).role, "master");
    let settings = config(None);
    assert_eq!(health_status(&settings, &ReplicaStatus::new(&settings), 9, 3).uptime_secs, 0);
}

#[test]
fn a_replica_explains_itself() {
    assert!(ping(&ReplicaStatus::new(&config(None)), &Issues::new()).is_none());
    let mut status = ReplicaStatus::new(&config(Some(ReplicationRole::Replica)));
    let cold = ping(&status, &Issues::new()).unwrap();
    assert_eq!((cold.state, cold.sync, cold.last_reconcile_at), ("bootstrapping", "lagging", None));
    status.mark_bootstrapped();
    status.set_last_reconcile(60);
    status.set_stream_connected(true);
    let warm = ping(&status, &Issues::new()).unwrap();
    assert_eq!((warm.state, warm.stream_connected), ("ready", true));
    assert_eq!(warm.last_reconcile_at, Some("1970-01-01T00:01:00Z".to_string()));
}

#[test]
fn peers_describe_themselves() {
    let claims = || PeerClaims {
        node_id: Some("n".to_string()),
        instance: Some("i".to_string()),
        repositories: Some("12".to_string()),
        pending: Some("-1".to_string()),
        sync: Some("synced".to_string()),
        poll_interval: Some("+30".to_string()),
    };
    let good = peer_identity(claims());
    assert_eq!(good.node_id, Some("n".to_string()));
    assert_eq!((good.repositories, good.pending), (Some(12), None));
    assert_eq!(good.poll_interval_secs, Some(30));
    let unfit = || Some("a b".to_string());
    let bad = peer_identity(PeerClaims {
        node_id: unfit(),
        instance: unfit(),
        sync: unfit(),
        ..claims()
    });
    assert_eq!((bad.node_id, bad.instance, bad.sync), (None, None, None));
    assert_eq!(bad.repositories, Some(12));
}

#[test]
fn peers_are_noted() {
    let mut registry = ReplicaRegistry::new();
    note_peer(&mut registry, &peer(None, None), 5);
    assert!(registry.roster().is_empty());
    note_peer(&mut registry, &peer(Some("n"), None), 5);
    assert_eq!(registry.roster()[0].repositories, Some(4));
    assert_eq!(registry.roster()[0].last_contact_at, Some(5));
}

#[test]
fn streams_are_opened_or_refused() {
    let mut registry = ReplicaRegistry::new();
    let mut issues = Issues::new();
    assert!(replication_events(&mut registry, &mut issues, &peer(None, None), 0).is_ok());
    assert!(registry.roster().is_empty());
    let one = peer(Some("n"), Some("one"));
    let two = peer(Some("n"), Some("two"));
    assert!(replication_events(&mut registry, &mut issues, &one, 0).is_ok());
    assert_eq!(
        replication_events(&mut registry, &mut issues, &two, 10),
        Err("node id 'n' is already connected from another process".to_string())
    );
    assert!(issues.is_empty());
    assert!(replication_events(&mut registry, &mut issues, &two, 50).is_err());
    assert!(matches!(&issues.all()[0], Issue::NodeIdCollision { since: 10, .. }));
    assert!(replication_events(&mut registry, &mut issues, &one, 51).is_ok());
    assert!(issues.is_empty());
}

#[test]
fn older_peers_are_let_in() {
    let mut registry = ReplicaRegistry::new();
    let mut issues = Issues::new();
    let older = peer(Some("n"), None);
    assert!(replication_events(&mut registry, &mut issues, &peer(Some("n"), Some("one")), 0).is_ok());
    issues.raise(
        &Issues::collision_key("n"),
        Issue::NodeIdCollision { node_id: "n".to_string(), since: 1 },
    );
    assert!(replication_events(&mut registry, &mut issues, &older, 2).is_ok());
    assert!(issues.is_empty());
    assert!(replication_events(&mut registry, &mut issues, &older, 3).is_ok());
    assert_eq!(registry.roster().len(), 1);
}

#[test]
fn state_is_listed_once_it_is_known() {
    let scan = RepositoryScan {
        repositories: vec![RepositoryHead {
            collection_id: "c".to_string(),
            tenant_id: "t".to_string(),
            head_sha: "1".to_string(),
        }],
        complete: true,
    };
    let mut replica = ReplicaStatus::new(&config(Some(ReplicationRole::Replica)));
    assert!(replication_state(&replica, &identity(Some("x")), &scan).is_none());
    replica.mark_bootstrapped();
    assert!(replication_state(&replica, &identity(None), &scan).is_none());
    let listing = replication_state(&replica, &identity(Some("x")), &scan).unwrap();
    assert_eq!(listing.identity, Some("x".to_string()));
    assert_eq!(listing.repositories[0].head_sha, "1");
    assert!(listing.complete && listing.protocol == 1);
    let alone = ReplicaStatus::new(&config(None));
    assert!(replication_state(&alone, &identity(None), &scan).is_some());
}

#[test]
fn packs_and_greetings() {
    assert_eq!(pack_head(true, Some("h".to_string()), "t").unwrap(), "h");
    for (exists, head) in [(false, Some("h".to_string())), (true, None)] {
        assert_eq!(pack_head(exists, head, "t").unwrap_err().message(), "tenant not found: t");
    }
    assert!(matches!(
        hello(&config(Some(ReplicationRole::Master)), &identity(Some("x"))),
        ReplicationEvent::Hello { protocol: 1, node_id, identity: Some(stated) }
            if node_id == "node-a" && stated == "x"
    ));
}

#[test]
fn errors_have_messages_and_statuses() {
    let all = vec![
        (AppError::FileNotFound { path: "p".to_string() }, "file not found: p", 404),
        (AppError::CommitNotFound { sha: "s".to_string() }, "commit not found: s", 404),
        (
            AppError::OrderNotFound { directory: "/".to_string() },
            "order index not found for directory: /",
            404,
        ),
        (AppError::TenantNotFound { tenant_id: "t".to_string() }, "tenant not found: t", 404),
        (AppError::InvalidTenant { tenant_id: "t".to_string() }, "invalid tenant id: t", 400),
        (AppError::InvalidPath { reason: "r".to_string() }, "invalid path: r", 400),
        (AppError::InvalidOperation { reason: "r".to_string() }, "invalid operation: r", 400),
        (
            AppError::InvalidUtf8 { path: "p".to_string() },
            "file content is not valid UTF-8 at path: p",
            422,
        ),
        (AppError::Git("g".to_string()), "git error: g", 500),
        (AppError::Io("i".to_string()), "io error: i", 500),
        (AppError::TaskFailed("f".to_string()), "background task failed: f", 500),
    ];
    for (error, message, status) in all {
        assert_eq!(error.message(), message);
        assert_eq!(error.status(), status);
    }
    assert!(SeekFilter::all().is_noop());
}

#[test]
fn requests_are_signed() {
    let author = AuthorRequest { name: "Ann".to_string(), email: "a@b".to_string() };
    let signed = author.signs(&Some("why".to_string()));
    assert_eq!(signed.author_name, "Ann");
    assert_eq!(signed.author_email, "a@b");
    assert_eq!(signed.message, Some("why".to_string()));
    assert_eq!(author.signs(&None).message, None);
}

#[test]
fn writes_and_moves_have_targets() {
    let allowed = strings(&["md"]);
    assert_eq!(write_target("/a.md", Some(&allowed)).unwrap(), "a.md");
    assert_eq!(write_target("a.bin", None).unwrap(), "a.bin");
    assert_eq!(
        write_target("a.bin", Some(&allowed)).unwrap_err().message(),
        "invalid path: file extension is not allowed: a.bin"
    );
    assert!(write_target("a/..", None).is_err());
    let body = |destination: &str, allow: Option<bool>| MoveFileRequest {
        author: AuthorRequest { name: "Ann".to_string(), email: "a@b".to_string() },
        destination: destination.to_string(),
        message: None,
        allow_prefix_path_recurse: allow,
    };
    let paths = |raw: &str, destination: &str, allow: Option<bool>| {
        body(destination, allow).paths(raw, Some(&allowed)).map_err(|error| error.message())
    };
    assert_eq!(paths("/a.md", "b.md", None), Ok(("a.md".to_string(), "b.md".to_string())));
    assert_eq!(paths("/a/", "b/", Some(true)), Ok(("a".to_string(), "b".to_string())));
    assert_eq!(
        paths("a.md", "b", None),
        Err("invalid path: file extension is not allowed: b".to_string())
    );
    assert!(paths("a/", "b.md", None).is_err());
    assert!(paths("a.md", "../b.md", Some(true)).is_err());
}
