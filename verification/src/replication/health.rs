//! The replication picture as one node sees it.
use vstd::prelude::*;
use crate::config::{Config, ReplicationConfig, ReplicationRole};
use crate::replication::identity::ReplicationIdentity;
use crate::replication::issues::{
    issues_in, prefixed_count, since_of, Issue, Issues,
};
use crate::replication::registry::{
    expires, is_roster, Presence, ReplicaPresence, ReplicaRegistry,
};
use crate::replication::status::{
    sync_of, time_if_any, Following, ReplicaStatus,
};
use crate::replication::wire::{
    node_word, sync_status_of, sync_word, worse, NodeStatus, SyncStatus, PROTOCOL_VERSION,
};
use crate::sorting::{stable_sorted, views};
use crate::text::{decimal, joined, optional_text, spell};
use crate::url::{redact_url, redacted};

verus! {

/// Polls of its own that a replica may miss before its silence counts.
pub const REPLICA_SILENT_INTERVALS: i64 = 2;

/// The least silence, in seconds, that counts.
pub const REPLICA_SILENT_MINIMUM_SECS: i64 = 120;

/// The silence, in seconds, that always counts.
pub const REPLICA_SILENT_MAXIMUM_SECS: i64 = 900;

/// The replication picture of a node.
#[derive(Debug)]
pub struct ReplicationHealth {
    pub protocol: u32,
    pub status: String,
    pub issues: Vec<Issue>,
    pub node: NodeHealth,
    pub master: MasterHealth,
    pub replicas: Vec<ReplicaPresence>,
    pub replica: Option<FollowerHealth>,
    pub observed_at: i64,
    pub replicas_observed_at: Option<i64>,
}

/// The node that answers.
#[derive(Debug)]
pub struct NodeHealth {
    pub node_id: String,
    pub role: String,
    pub identity: Option<String>,
    pub repositories: usize,
}

/// The write node of the set.
#[derive(Debug)]
pub struct MasterHealth {
    pub node_id: Option<String>,
    pub url: Option<String>,
    pub reachable: bool,
    pub last_contact_at: Option<i64>,
    pub last_error: Option<String>,
}

/// A replica's own view of how it follows.
#[derive(Debug)]
pub struct FollowerHealth {
    pub state: String,
    pub sync: String,
    pub stream_connected: bool,
    pub last_reconcile_at: Option<i64>,
    pub last_success_at: Option<i64>,
    pub pending_repositories: usize,
    pub locked_repositories: usize,
    pub consecutive_failures: u32,
}

/// The silence, in seconds, after which a replica counts as silent: two of
/// its own polls, within bounds.
pub open spec fn silence_threshold(poll_interval_secs: Option<u64>) -> int {
    match poll_interval_secs {
        None => 120,
        Some(seconds) => if 2 * seconds < 120 {
            120
        } else if 2 * seconds > 900 {
            900
        } else {
            2 * seconds
        },
    }
}

/// The silence after which a replica counts as silent.
pub fn silent_after_secs(poll_interval_secs: Option<u64>) -> (result: i64)
    ensures
        result == silence_threshold(poll_interval_secs),
{
    match poll_interval_secs {
        None => REPLICA_SILENT_MINIMUM_SECS,
        Some(seconds) => if seconds > 450 {
            REPLICA_SILENT_MAXIMUM_SECS
        } else {
            let threshold: i64 = (seconds as i64) * REPLICA_SILENT_INTERVALS;
            if threshold < REPLICA_SILENT_MINIMUM_SECS {
                REPLICA_SILENT_MINIMUM_SECS
            } else {
                threshold
            }
        },
    }
}

/// Whether nothing was heard of a replica for too long.
pub open spec fn is_silent(row: Presence, now: i64) -> bool {
    match row.last_contact_at {
        Some(at) => now - at > silence_threshold(row.poll_interval_secs),
        None => true,
    }
}

/// The status that a replica reported, if it did.
pub open spec fn reported_sync(row: Presence) -> Option<SyncStatus> {
    match row.sync {
        Some(word) => sync_status_of(word),
        None => None,
    }
}

/// What one replica means for its master.
pub open spec fn row_verdict(row: Presence, now: i64) -> NodeStatus {
    if reported_sync(row) == Some(SyncStatus::Halted) {
        NodeStatus::Halted
    } else if reported_sync(row) == Some(SyncStatus::Stalled) {
        NodeStatus::Degraded
    } else if !row.stream_connected && is_silent(row, now) {
        NodeStatus::Degraded
    } else {
        NodeStatus::Healthy
    }
}

/// The worst of what the replicas mean.
pub open spec fn worst_verdict(rows: Seq<Presence>, now: i64) -> NodeStatus
    decreases rows.len(),
{
    if rows.len() == 0 {
        NodeStatus::Healthy
    } else {
        worse(worst_verdict(rows.drop_last(), now), row_verdict(rows.last(), now))
    }
}

/// A master's status: halted by its own issues, else the worst of what its
/// replicas mean.
pub open spec fn master_verdict(rows: Seq<Presence>, no_issues: bool, now: i64) -> NodeStatus {
    if !no_issues {
        NodeStatus::Halted
    } else {
        worst_verdict(rows, now)
    }
}

/// What one replica means for its master.
fn judge_row(replica: &ReplicaPresence, now: i64) -> (result: NodeStatus)
    ensures
        result == row_verdict(replica@, now),
{
    let reported: Option<SyncStatus> = match &replica.sync {
        Some(word) => SyncStatus::parse(word.as_str()),
        None => None,
    };
    match reported {
        Some(SyncStatus::Halted) => NodeStatus::Halted,
        Some(SyncStatus::Stalled) => NodeStatus::Degraded,
        _ => {
            let threshold: i64 = silent_after_secs(replica.poll_interval_secs);
            let silent: bool = match replica.last_contact_at {
                Some(at) => (now as i128) - (at as i128) > threshold as i128,
                None => true,
            };
            if !replica.stream_connected && silent {
                NodeStatus::Degraded
            } else {
                NodeStatus::Healthy
            }
        },
    }
}

/// A master's status, by its own issues and its replicas.
pub fn master_status(replicas: &[ReplicaPresence], no_issues: bool, now: i64) -> (result:
    NodeStatus)
    ensures
        result == master_verdict(views(replicas@), no_issues, now),
{
    if !no_issues {
        return NodeStatus::Halted;
    }
    let ghost rows = views(replicas@);
    let mut status: NodeStatus = NodeStatus::Healthy;
    let mut i: usize = 0;
    assert(rows.take(0) =~= Seq::empty());
    while i < replicas.len()
        invariant
            i <= replicas.len(),
            rows == views(replicas@),
            status == worst_verdict(rows.take(i as int), now),
        decreases replicas.len() - i,
    {
        assert(rows.take(i + 1).drop_last() =~= rows.take(i as int));
        assert(rows.take(i + 1).last() == replicas@[i as int]@);
        status = status.worst(judge_row(&replicas[i], now));
        i = i + 1;
    }
    assert(rows.take(i as int) =~= rows);
    status
}

/// A replica's own status.
pub open spec fn replica_verdict(sync: SyncStatus, bootstrapped: bool) -> NodeStatus {
    match sync {
        SyncStatus::Halted => NodeStatus::Halted,
        SyncStatus::Stalled => NodeStatus::Degraded,
        SyncStatus::Synced | SyncStatus::Lagging => if bootstrapped {
            NodeStatus::Healthy
        } else {
            NodeStatus::Degraded
        },
    }
}

/// A replica's own status.
pub fn replica_status(sync: SyncStatus, bootstrapped: bool) -> (result: NodeStatus)
    ensures
        result == replica_verdict(sync, bootstrapped),
{
    match sync {
        SyncStatus::Halted => NodeStatus::Halted,
        SyncStatus::Stalled => NodeStatus::Degraded,
        SyncStatus::Synced | SyncStatus::Lagging => if bootstrapped {
            NodeStatus::Healthy
        } else {
            NodeStatus::Degraded
        },
    }
}

/// The word for whether a replica holds content worth serving.
pub open spec fn state_word(bootstrapped: bool) -> Seq<char> {
    if bootstrapped {
        "ready"@
    } else {
        "bootstrapping"@
    }
}

/// The issues of a node, oldest first.
pub open spec fn issues_shown(issues: Issues) -> Seq<Issue> {
    stable_sorted(
        issues_in(issues.entries()),
        |left: Issue, right: Issue| since_of(left) < since_of(right),
    )
}

/// Whether a report is that of a node without replication.
pub open spec fn is_standalone_health(
    health: ReplicationHealth,
    config: Config,
    issues: Issues,
    repositories: usize,
    now: i64,
) -> bool {
    let node_id = config.server.host@ + ":"@ + decimal(config.server.port as nat);
    &&& health.protocol == PROTOCOL_VERSION
    &&& health.status@ == "healthy"@
    &&& health.issues@ == issues_shown(issues)
    &&& health.node.node_id@ == node_id
    &&& health.node.role@ == "standalone"@
    &&& health.node.identity is None
    &&& health.node.repositories == repositories
    &&& optional_text(health.master.node_id) == Some(node_id)
    &&& health.master.url is None
    &&& health.master.reachable
    &&& health.master.last_contact_at == Some(now)
    &&& health.master.last_error is None
    &&& health.replicas@.len() == 0
    &&& health.replica is None
    &&& health.observed_at == now
    &&& health.replicas_observed_at == Some(now)
}

/// Whether a report is that of a master.
pub open spec fn is_master_health(
    health: ReplicationHealth,
    replication: ReplicationConfig,
    issues: Issues,
    rows: Map<Seq<char>, Presence>,
    identity: Option<Seq<char>>,
    repositories: usize,
    now: i64,
) -> bool {
    &&& health.protocol == PROTOCOL_VERSION
    &&& health.status@ == node_word(
        master_verdict(views(health.replicas@), issues.entries().len() == 0, now),
    )
    &&& health.issues@ == issues_shown(issues)
    &&& health.node.node_id@ == replication.node_id@
    &&& health.node.role@ == "master"@
    &&& optional_text(health.node.identity) == identity
    &&& health.node.repositories == repositories
    &&& optional_text(health.master.node_id) == Some(replication.node_id@)
    &&& health.master.url is None
    &&& health.master.reachable
    &&& health.master.last_contact_at == Some(now)
    &&& health.master.last_error is None
    &&& is_roster(views(health.replicas@), rows)
    &&& health.replica is None
    &&& health.observed_at == now
    &&& health.replicas_observed_at == Some(now)
}

/// Whether a report is that of a replica.
pub open spec fn is_replica_health(
    health: ReplicationHealth,
    replication: ReplicationConfig,
    issues: Issues,
    following: Following,
    identity: Option<Seq<char>>,
    repositories: usize,
    now: i64,
) -> bool {
    let sync = sync_of(following, issues.entries().len() > 0);
    &&& health.protocol == PROTOCOL_VERSION
    &&& health.status@ == node_word(replica_verdict(sync, following.bootstrapped))
    &&& health.issues@ == issues_shown(issues)
    &&& health.node.node_id@ == replication.node_id@
    &&& health.node.role@ == "replica"@
    &&& optional_text(health.node.identity) == identity
    &&& health.node.repositories == repositories
    &&& optional_text(health.master.node_id) == following.master_node_id
    &&& optional_text(health.master.url) == match replication.master_url {
        Some(url) => Some(redacted(url@)),
        None => None,
    }
    &&& health.master.reachable == (following.master_error is None && following.master_contact_at
        is Some)
    &&& health.master.last_contact_at == following.master_contact_at
    &&& optional_text(health.master.last_error) == following.master_error
    &&& views(health.replicas@) == following.master_replicas
    &&& health.replica matches Some(replica) && {
        &&& replica.state@ == state_word(following.bootstrapped)
        &&& replica.sync@ == sync_word(sync)
        &&& replica.stream_connected == following.stream_connected
        &&& replica.last_reconcile_at == time_if_any(following.last_reconcile_unix)
        &&& replica.last_success_at == time_if_any(following.last_success_unix)
        &&& replica.pending_repositories == following.pending
        &&& replica.locked_repositories == prefixed_count(issues.entries(), "repository:"@)
        &&& replica.consecutive_failures == following.consecutive_failures
    }
    &&& health.observed_at == now
    &&& health.replicas_observed_at == following.master_observed_at
}

/// The report of a node without replication: the write node of a set of one.
fn standalone_health(config: &Config, issues: &Issues, repositories: usize, now: i64) -> (result:
    ReplicationHealth)
    ensures
        is_standalone_health(result, *config, *issues, repositories, now),
{
    let mut node_id: String = joined(config.server.host.as_str(), ":");
    node_id.append(spell(config.server.port as u64).as_str());
    ReplicationHealth {
        protocol: PROTOCOL_VERSION,
        status: NodeStatus::Healthy.as_str().to_owned(),
        issues: issues.all(),
        node: NodeHealth {
            node_id: node_id.clone(),
            role: "standalone".to_owned(),
            identity: None,
            repositories,
        },
        master: MasterHealth {
            node_id: Some(node_id),
            url: None,
            reachable: true,
            last_contact_at: Some(now),
            last_error: None,
        },
        replicas: Vec::new(),
        replica: None,
        observed_at: now,
        replicas_observed_at: Some(now),
    }
}

/// The report of a master, whose roster is live.
fn master_health(
    replication: &ReplicationConfig,
    issues: &Issues,
    registry: &ReplicaRegistry,
    identity: &ReplicationIdentity,
    repositories: usize,
    now: i64,
) -> (result: ReplicationHealth)
    requires
        issues.is_valid(),
        registry.is_valid(),
    ensures
        is_master_health(
            result,
            *replication,
            *issues,
            registry.rows(),
            identity.held(),
            repositories,
            now,
        ),
{
    let node_id: String = replication.node_id().to_owned();
    let replicas: Vec<ReplicaPresence> = registry.roster();
    let status: NodeStatus = master_status(replicas.as_slice(), issues.is_empty(), now);
    ReplicationHealth {
        protocol: PROTOCOL_VERSION,
        status: status.as_str().to_owned(),
        issues: issues.all(),
        node: NodeHealth {
            node_id: node_id.clone(),
            role: "master".to_owned(),
            identity: identity.current(),
            repositories,
        },
        master: MasterHealth {
            node_id: Some(node_id),
            url: None,
            reachable: true,
            last_contact_at: Some(now),
            last_error: None,
        },
        replicas,
        replica: None,
        observed_at: now,
        replicas_observed_at: Some(now),
    }
}

/// The report of a replica, with the roster that it last received.
fn replica_health(
    replication: &ReplicationConfig,
    issues: &Issues,
    status: &ReplicaStatus,
    identity: &ReplicationIdentity,
    repositories: usize,
    now: i64,
) -> (result: ReplicationHealth)
    requires
        issues.is_valid(),
    ensures
        is_replica_health(
            result,
            *replication,
            *issues,
            status@,
            identity.held(),
            repositories,
            now,
        ),
{
    let (master_node_id, replicas, replicas_observed_at, last_contact_at, last_error): (
        Option<String>,
        Vec<ReplicaPresence>,
        Option<i64>,
        Option<i64>,
        Option<String>,
    ) = status.master_snapshot();
    let sync: SyncStatus = status.sync_status(issues);
    let node_status: NodeStatus = replica_status(sync, status.is_bootstrapped());
    let url: Option<String> = match &replication.master_url {
        Some(url) => Some(redact_url(url.as_str())),
        None => None,
    };
    let reachable: bool = last_error.is_none() && last_contact_at.is_some();
    let state: String = if status.is_bootstrapped() {
        "ready".to_owned()
    } else {
        "bootstrapping".to_owned()
    };
    ReplicationHealth {
        protocol: PROTOCOL_VERSION,
        status: node_status.as_str().to_owned(),
        issues: issues.all(),
        node: NodeHealth {
            node_id: replication.node_id().to_owned(),
            role: "replica".to_owned(),
            identity: identity.current(),
            repositories,
        },
        master: MasterHealth {
            node_id: master_node_id,
            url,
            reachable,
            last_contact_at,
            last_error,
        },
        replicas,
        replica: Some(
            FollowerHealth {
                state,
                sync: sync.as_str().to_owned(),
                stream_connected: status.stream_connected(),
                last_reconcile_at: status.last_reconcile(),
                last_success_at: status.last_success(),
                pending_repositories: status.pending(),
                locked_repositories: status.locked_repositories(issues),
                consecutive_failures: status.consecutive_failures(),
            },
        ),
        observed_at: now,
        replicas_observed_at,
    }
}

/// The replication picture of a node. A master first closes the collision
/// issues that are over; nothing else changes.
pub fn build_health(
    config: &Config,
    issues: &mut Issues,
    registry: &ReplicaRegistry,
    identity: &ReplicationIdentity,
    status: &ReplicaStatus,
    repositories: usize,
    now: i64,
) -> (result: ReplicationHealth)
    requires
        old(issues).is_valid(),
        registry.is_valid(),
    ensures
        final(issues).is_valid(),
        match config.replication {
            None => *final(issues) == *old(issues) && is_standalone_health(
                result,
                *config,
                *final(issues),
                repositories,
                now,
            ),
            Some(replication) => if replication.role == ReplicationRole::Replica {
                *final(issues) == *old(issues) && is_replica_health(
                    result,
                    replication,
                    *final(issues),
                    status@,
                    identity.held(),
                    repositories,
                    now,
                )
            } else {
                &&& forall|key: Seq<char>| #[trigger]
                    final(issues)@.contains_key(key) <==> old(issues)@.contains_key(key)
                        && !expires(registry.rows(), now, key)
                &&& forall|key: Seq<char>|
                    final(issues)@.contains_key(key) ==> #[trigger] final(issues)@[key] == old(
                        issues,
                    )@[key]
                &&& is_master_health(
                    result,
                    replication,
                    *final(issues),
                    registry.rows(),
                    identity.held(),
                    repositories,
                    now,
                )
            },
        },
{
    match &config.replication {
        None => standalone_health(config, issues, repositories, now),
        Some(replication) => {
            if replication.is_replica() {
                replica_health(replication, issues, status, identity, repositories, now)
            } else {
                registry.expire_collisions(issues, now);
                master_health(replication, issues, registry, identity, repositories, now)
            }
        },
    }
}

/// The silence threshold stays within its bounds and follows the cadence.
pub proof fn law_silence_threshold(slower: u64, faster: u64)
    requires
        faster <= slower,
    ensures
        120 <= silence_threshold(Some(faster)) <= silence_threshold(Some(slower)) <= 900,
        silence_threshold(None) == 120,
{
}

/// A master is halted if one of its replicas is, or if it has issues of its
/// own, and only then.
pub proof fn law_master_halted(rows: Seq<Presence>, no_issues: bool, now: i64)
    ensures
        master_verdict(rows, no_issues, now) == NodeStatus::Halted <==> !no_issues || exists|i: int|
            0 <= i < rows.len() && reported_sync(#[trigger] rows[i]) == Some(SyncStatus::Halted),
    decreases rows.len(),
{
    if rows.len() > 0 {
        let init = rows.drop_last();
        law_master_halted(init, no_issues, now);
        assert(rows[rows.len() - 1] == rows.last());
        if exists|i: int|
            0 <= i < init.len() && reported_sync(#[trigger] init[i]) == Some(SyncStatus::Halted) {
            let i = choose|i: int|
                0 <= i < init.len() && reported_sync(#[trigger] init[i]) == Some(
                    SyncStatus::Halted,
                );
            assert(rows[i] == init[i]);
        }
        if no_issues && exists|i: int|
            0 <= i < rows.len() && reported_sync(#[trigger] rows[i]) == Some(SyncStatus::Halted) {
            let i = choose|i: int|
                0 <= i < rows.len() && reported_sync(#[trigger] rows[i]) == Some(
                    SyncStatus::Halted,
                );
            if i < init.len() {
                assert(init[i] == rows[i]);
            }
        }
    }
}

/// A replica that lags, or that polls as it said with its stream down, does
/// not degrade its master.
pub proof fn law_lagging_is_normal(row: Presence, now: i64)
    requires
        reported_sync(row) != Some(SyncStatus::Halted),
        reported_sync(row) != Some(SyncStatus::Stalled),
        row.stream_connected || !is_silent(row, now),
    ensures
        row_verdict(row, now) == NodeStatus::Healthy,
{
}

} // verus!
