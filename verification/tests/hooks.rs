use githttp_fs::config::{HookEvent, HooksConfig};
use githttp_fs::git::dates::Timestamp;
use githttp_fs::git::model::FileChange;
use githttp_fs::hooks::{
    HookDelivery, HookJob, HookSource, OrderChange, Payload, PayloadValue, ReplayJob, ReplayKind,
    ReplayRun, RetryStep,
};
use githttp_fs::order::serialize;
use githttp_fs::routes::committed_job;

const AT: Timestamp = Timestamp { seconds: 1_781_604_000, nanos: 0 };

fn hooks(events: &[HookEvent]) -> HooksConfig {
    HooksConfig {
        url: "https://receiver.example".to_string(),
        events: events.to_vec(),
        retry_attempts: 3,
        retry_backoff_ms: 500,
        auth: None,
    }
}

fn created(path: &str, content: &str) -> FileChange {
    FileChange::Created { path: path.to_string(), content: content.to_string() }
}

fn job(changes: Vec<FileChange>) -> HookJob {
    HookJob::new("c".to_string(), "t".to_string(), "abc".to_string(), AT, changes)
}

fn shown(payload: &Payload) -> Vec<String> {
    payload
        .fields
        .iter()
        .map(|(name, value)| match value {
            PayloadValue::Text(text) => format!("{}={}", name, text),
            PayloadValue::Flag(flag) => format!("{}={}", name, flag),
            PayloadValue::List(list) => format!("{}=[{}]", name, list.join(",")),
            PayloadValue::Object(members) => {
                let parts: Vec<String> =
                    members.iter().map(|(key, text)| format!("{}:{}", key, text)).collect();
                format!("{}={{{}}}", name, parts.join(","))
            }
        })
        .collect()
}

#[test]
fn index_changes_become_order_events() {
    let order = vec!["b".to_string(), "a".to_string()];
    let document = serialize(&order);
    let made = job(vec![
        created("docs/.order.json", &document),
        created("a.md", "x"),
        FileChange::Deleted { path: ".order.json".to_string() },
        created("broken/.order.json", "not an order"),
    ]);
    match made.source {
        HookSource::Commit { file_changes, order_changes } => {
            assert_eq!(file_changes.len(), 1);
            assert_eq!(order_changes.len(), 2);
            assert!(matches!(
                &order_changes[0],
                OrderChange::Updated { directory, order: listed }
                    if directory == "docs" && *listed == order
            ));
            assert!(matches!(
                &order_changes[1],
                OrderChange::Deleted { directory } if directory.is_empty()
            ));
        }
        HookSource::Replay(_) => panic!("a commit is no replay"),
    }
}

#[test]
fn payload_of_a_creation() {
    let payload =
        HookDelivery::build_payload("c", "t", "abc", "now", &created("a.md", "text"), false);
    assert_eq!(
        shown(&payload),
        vec![
            "collection_id=c",
            "tenant_id=t",
            "commit_sha=abc",
            "committed_at=now",
            "event=file.created",
            "file={path:a.md,content:text}",
        ]
    );
}

#[test]
fn payloads_of_other_changes() {
    let tail = |change: &FileChange, replay: bool| {
        shown(&HookDelivery::build_payload("c", "t", "abc", "now", change, replay))[4..].to_vec()
    };
    let moved = FileChange::Moved {
        from_path: "a".to_string(),
        to_path: "b".to_string(),
        content: "x".to_string(),
    };
    assert_eq!(
        tail(&moved, false),
        vec!["event=file.moved", "from={path:a}", "to={path:b,content:x}"]
    );
    let deleted = FileChange::Deleted { path: "a".to_string() };
    assert_eq!(
        tail(&deleted, true),
        vec!["replayed=true", "event=file.deleted", "file={path:a}"]
    );
    let updated = FileChange::Updated { path: "a".to_string(), content: "y".to_string() };
    assert_eq!(tail(&updated, false), vec!["event=file.updated", "file={path:a,content:y}"]);
}

#[test]
fn order_payloads() {
    let updated = OrderChange::Updated {
        directory: "docs".to_string(),
        order: vec!["b".to_string(), "a/".to_string()],
    };
    let payload = HookDelivery::build_order_payload("c", "t", "abc", "now", &updated);
    assert_eq!(
        shown(&payload)[4..],
        ["event=order.updated", "directory=docs", "order=[b,a/]"]
    );
    let deleted = OrderChange::Deleted { directory: String::new() };
    let payload = HookDelivery::build_order_payload("c", "t", "abc", "now", &deleted);
    assert_eq!(shown(&payload)[4..], ["event=order.deleted", "directory="]);
}

#[test]
fn only_subscribed_events_are_delivered() {
    let made = job(vec![
        created("a.md", "x"),
        FileChange::Deleted { path: "b.md".to_string() },
        created(".order.json", &serialize(&["a.md".to_string()])),
    ]);
    let all = hooks(&[HookEvent::FileCreated, HookEvent::FileDeleted, HookEvent::OrderUpdated]);
    let deliveries = HookDelivery::deliver_all(&all, &made);
    assert_eq!(deliveries.len(), 3);
    assert_eq!(shown(&deliveries[0].payload)[3], "committed_at=2026-06-16T10:00:00+00:00");
    assert_eq!(deliveries[0].description, "created:a.md");
    assert_eq!(deliveries[1].description, "deleted:b.md");
    assert_eq!(deliveries[2].description, "order updated:/ (1 entries)");
    let some = HookDelivery::deliver_all_at(&hooks(&[HookEvent::FileDeleted]), &made, "then");
    assert_eq!(some.len(), 1);
    assert_eq!(shown(&some[0].payload)[3], "committed_at=then");
}

#[test]
fn descriptions_and_events() {
    let moved = FileChange::Moved {
        from_path: "a".to_string(),
        to_path: "b".to_string(),
        content: String::new(),
    };
    assert_eq!(HookDelivery::change_description(&moved), "moved:a→b");
    assert!(HookDelivery::event_for_change(&moved) == HookEvent::FileMoved);
    let deleted = OrderChange::Deleted { directory: "d".to_string() };
    assert!(HookDelivery::event_for_order_change(&deleted) == HookEvent::OrderDeleted);
    assert_eq!(HookDelivery::order_change_description(&deleted), "order deleted:d");
}

#[test]
fn backoff_doubles_up_to_a_limit() {
    assert_eq!(HookDelivery::backoff_ms(500, 1), 500);
    assert_eq!(HookDelivery::backoff_ms(500, 2), 1000);
    assert_eq!(HookDelivery::backoff_ms(500, 4), 4000);
    assert_eq!(HookDelivery::backoff_ms(1, 21), 1 << 20);
    assert_eq!(HookDelivery::backoff_ms(1, 500), 1 << 20);
    assert_eq!(HookDelivery::backoff_ms(u64::MAX, 2), u64::MAX);
}

#[test]
fn delivery_is_retried_and_given_up() {
    let config = hooks(&[HookEvent::FileCreated]);
    assert_eq!(HookDelivery::attempts(&config), 3);
    assert!(matches!(HookDelivery::after_attempt(&config, 1, true), RetryStep::Delivered));
    assert!(matches!(HookDelivery::after_attempt(&config, 1, false), RetryStep::RetryAfter(500)));
    assert!(matches!(HookDelivery::after_attempt(&config, 2, false), RetryStep::RetryAfter(1000)));
    assert!(matches!(HookDelivery::after_attempt(&config, 3, false), RetryStep::GiveUp));
    let mut once = config;
    once.retry_attempts = 0;
    assert_eq!(HookDelivery::attempts(&once), 1);
    assert!(matches!(HookDelivery::after_attempt(&once, 1, false), RetryStep::GiveUp));
}

#[test]
fn replay_goes_in_chunks_with_pauses() {
    let mut run = ReplayRun::new(66, Some(20));
    assert_eq!(run.remaining(), 66);
    assert_eq!(run.next_chunk(), Some((0, 64)));
    let chunk: Vec<String> = (0..64).map(|i| format!("f{}", i)).collect();
    let contents: Vec<Option<String>> =
        (0..64).map(|i| if i == 1 { None } else { Some("x".to_string()) }).collect();
    let changes =
        HookDelivery::replay_chunk_changes(ReplayKind::Created, &chunk, Some(&contents)).unwrap();
    assert!(changes[1].is_none());
    let deliveries = HookDelivery::deliver_replay("c", "t", "abc", "now", &mut run, &changes);
    assert_eq!(deliveries.len(), 63);
    assert_eq!(deliveries[0].pause_ms, None);
    assert_eq!(deliveries[1].pause_ms, Some(20));
    assert_eq!(shown(&deliveries[0].delivery.payload)[4], "replayed=true");
    assert_eq!(run.remaining(), 2);
    assert_eq!(run.next_chunk(), Some((64, 66)));
    let rest: Vec<String> = vec!["y".to_string(), "z".to_string()];
    let gone = HookDelivery::replay_chunk_changes(ReplayKind::Deleted, &rest, None).unwrap();
    let last = HookDelivery::deliver_replay("c", "t", "abc", "now", &mut run, &gone);
    assert_eq!(last[0].pause_ms, Some(20));
    assert_eq!(run.next_chunk(), None);
    assert!(HookDelivery::replay_chunk_changes(ReplayKind::Created, &rest, None).is_none());
}

#[test]
fn replay_needs_a_subscription() {
    let config = hooks(&[HookEvent::FileCreated]);
    assert!(HookDelivery::delivers_replay(&config, ReplayKind::Created));
    assert!(!HookDelivery::delivers_replay(&config, ReplayKind::Deleted));
    assert!(HookDelivery::replay_event(ReplayKind::Deleted) == HookEvent::FileDeleted);
    let replay = HookJob::replay(
        "c".to_string(),
        "t".to_string(),
        "abc".to_string(),
        AT,
        ReplayJob {
            repo_path: "/r".to_string(),
            kind: ReplayKind::Created,
            paths: vec!["a".to_string()],
            delay_ms: None,
        },
    );
    assert!(HookDelivery::deliver_all(&config, &replay).is_empty());
    assert!(matches!(replay.source, HookSource::Replay(job) if job.paths.len() == 1));
}

#[test]
fn no_change_no_job() {
    let make = |changes: Vec<FileChange>| {
        committed_job("c".to_string(), "t".to_string(), "abc".to_string(), AT, changes)
    };
    assert!(make(vec![]).is_none());
    let made = make(vec![created("a", "x")]).unwrap();
    assert_eq!(made.commit_sha, "abc");
    assert!(matches!(
        made.source,
        HookSource::Commit { file_changes, order_changes }
            if file_changes.len() == 1 && order_changes.is_empty()
    ));
}

#[test]
fn the_time_of_a_job_is_spelled() {
    let mut made = job(vec![]);
    assert_eq!(made.spelled_time(), "2026-06-16T10:00:00+00:00");
    made.committed_at = Timestamp { seconds: 0, nanos: 5_000_000 };
    assert_eq!(made.spelled_time(), "1970-01-01T00:00:00.005+00:00");
    made.committed_at = Timestamp { seconds: i64::MAX, nanos: 0 };
    assert_eq!(made.spelled_time(), "");
}
