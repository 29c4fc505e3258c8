use githttp_fs::checkout::{heals_on_start, HealReport};
use githttp_fs::config::{
    Config, LimitsConfig, MaintenanceConfig, ReplicationConfig, ReplicationRole, ServerConfig,
};
use githttp_fs::maintenance::MaintenanceScheduler;
use githttp_fs::middleware::{
    constant_time_eq, enforce_replica_read_only, require_api_key, require_replication_key, Guard,
};
use githttp_fs::replication::status::ReplicaStatus;

fn replication(role: ReplicationRole) -> ReplicationConfig {
    ReplicationConfig {
        role,
        secret: "shared".to_string(),
        node_id: "node".to_string(),
        master_url: None,
        host: None,
        port: 5356,
        poll_interval_secs: 60,
        parallelism: 4,
        reconnect_backoff_ms: 1000,
        deletion_guard: true,
    }
}

fn server() -> ServerConfig {
    ServerConfig {
        host: "127.0.0.1".to_string(),
        port: 5355,
        api_key: "key".to_string(),
        repos_path: "/var/repos".to_string(),
        log_level: None,
        checkout_files: true,
        checkout_files_autoheal: false,
    }
}

fn status(role: Option<ReplicationRole>) -> ReplicaStatus {
    ReplicaStatus::new(&Config {
        server: server(),
        limits: LimitsConfig::default(),
        hooks: None,
        maintenance: MaintenanceConfig::default(),
        replication: role.map(replication),
    })
}

fn upkeep(enabled: bool, maximum_packs: Option<usize>) -> MaintenanceScheduler {
    MaintenanceScheduler::new(&MaintenanceConfig {
        enabled,
        delay_secs: 90,
        destructive_prune: false,
        maximum_packs,
    })
}

#[test]
fn bytes_compare() {
    assert!(constant_time_eq(b"", b""));
    assert!(constant_time_eq(b"abc", b"abc"));
    assert!(!constant_time_eq(b"abc", b"abd"));
    assert!(!constant_time_eq(b"abc", b"ab"));
    assert!(!constant_time_eq(&[0x80, 0x01], &[0x01, 0x80]));
}

#[test]
fn api_key_is_required() {
    assert!(require_api_key(Some("Bearer key"), "key"));
    assert!(!require_api_key(Some("Bearer other"), "key"));
    assert!(!require_api_key(Some("bearer key"), "key"));
    assert!(!require_api_key(Some("key"), "key"));
    assert!(!require_api_key(Some("Bearer "), "key"));
    assert!(!require_api_key(None, "key"));
    assert!(require_api_key(Some("Bearer clé"), "clé"));
}

#[test]
fn replication_key_is_required() {
    let node = replication(ReplicationRole::Master);
    assert!(require_replication_key(Some("Bearer shared"), Some(&node)));
    assert!(!require_replication_key(Some("Bearer key"), Some(&node)));
    assert!(!require_replication_key(None, Some(&node)));
    assert!(!require_replication_key(Some("Bearer shared"), None));
}

#[test]
fn only_a_replica_is_guarded() {
    for role in [None, Some(ReplicationRole::Master)] {
        let node = status(role);
        assert_eq!(enforce_replica_read_only(&node, "PUT", "/c/t/files/a"), Guard::Pass);
        assert_eq!(enforce_replica_read_only(&node, "GET", "/c/t/files"), Guard::Pass);
    }
}

#[test]
fn a_replica_refuses_writes_always() {
    let mut node = status(Some(ReplicationRole::Replica));
    for caught_up in [false, true] {
        if caught_up {
            node.mark_bootstrapped();
        }
        assert_eq!(enforce_replica_read_only(&node, "PUT", "/c/t/files/a"), Guard::ReadOnly);
        assert_eq!(enforce_replica_read_only(&node, "DELETE", "/c/t"), Guard::ReadOnly);
        assert_eq!(
            enforce_replica_read_only(&node, "POST", "/c/t/files/a/move"),
            Guard::ReadOnly
        );
    }
}

#[test]
fn a_cold_replica_refuses_reads() {
    let mut node = status(Some(ReplicationRole::Replica));
    assert_eq!(enforce_replica_read_only(&node, "GET", "/c/t/files"), Guard::Bootstrapping);
    assert_eq!(enforce_replica_read_only(&node, "HEAD", "/"), Guard::Bootstrapping);
    assert_eq!(
        enforce_replica_read_only(&node, "POST", "/c/t/batch/files/read"),
        Guard::Bootstrapping
    );
    assert_eq!(enforce_replica_read_only(&node, "GET", "/"), Guard::Pass);
    assert_eq!(enforce_replica_read_only(&node, "GET", "/v1"), Guard::Pass);
    node.mark_bootstrapped();
    assert_eq!(enforce_replica_read_only(&node, "GET", "/c/t/files"), Guard::Pass);
    assert_eq!(
        enforce_replica_read_only(&node, "POST", "/c/t/batch/files/read"),
        Guard::Pass
    );
}

#[test]
fn refusals_have_their_answers() {
    assert_eq!(Guard::Pass.status(), None);
    assert_eq!(Guard::ReadOnly.status(), Some(423));
    assert_eq!(Guard::Bootstrapping.status(), Some(503));
    assert_eq!(
        Guard::ReadOnly.message(),
        "this node is a read-only replica; writes must go to the master"
    );
    assert_eq!(
        Guard::Bootstrapping.message(),
        "replica is bootstrapping and holds no content yet"
    );
    assert_eq!(Guard::ReadOnly.retry_after_secs(), None);
    assert_eq!(Guard::Bootstrapping.retry_after_secs(), Some(5));
}

#[test]
fn maintenance_is_armed_once() {
    let mut scheduler = upkeep(true, None);
    assert!(scheduler.schedule("c/t"));
    assert!(!scheduler.schedule("c/t"));
    assert!(scheduler.schedule("c/other"));
    scheduler.finish("c/t");
    assert!(scheduler.schedule("c/t"));
    assert!(scheduler.cancel("c/t"));
    assert!(!scheduler.cancel("c/t"));
    assert!(scheduler.schedule("c/t"));
}

#[test]
fn maintenance_may_be_off() {
    let mut scheduler = upkeep(false, None);
    assert!(!scheduler.schedule("c/t"));
    assert!(!scheduler.cancel("c/t"));
}

#[test]
fn too_many_packs_are_not_waited_for() {
    let scheduler = upkeep(true, Some(8));
    assert!(scheduler.counts_packs());
    assert_eq!(scheduler.delay_secs(7), 90);
    assert_eq!(scheduler.delay_secs(8), 0);
    let unlimited = upkeep(true, None);
    assert!(!unlimited.counts_packs());
    assert_eq!(unlimited.delay_secs(1000), 90);
}

#[test]
fn working_trees_are_healed_if_asked_for() {
    let mut settings = server();
    assert!(!heals_on_start(&settings));
    settings.checkout_files_autoheal = true;
    assert!(heals_on_start(&settings));
    settings.checkout_files = false;
    assert!(!heals_on_start(&settings));
    let mut report = HealReport::new();
    report.note(0);
    report.note(3);
    report.note(2);
    assert_eq!((report.healed_repositories, report.healed_files), (2, 5));
}
