//! What a replica knows of how well it follows.
use vstd::prelude::*;
use crate::config::{Config, ReplicationRole};
use crate::replication::issues::{prefixed_count, Issues};
use crate::replication::registry::{copy_presence, Presence, ReplicaPresence};
use crate::replication::wire::SyncStatus;
use crate::sorting::views;
use crate::text::{copy_optional_text, optional_text};

verus! {

/// Failed passes in a row after which a replica is stalled.
pub const STALLED_AFTER_FAILURES: u32 = 3;

/// The master's picture, as this replica last received it.
#[derive(Debug)]
struct MasterView {
    node_id: Option<String>,
    replicas: Vec<ReplicaPresence>,
    observed_at: Option<i64>,
    last_contact_at: Option<i64>,
    last_error: Option<String>,
}

/// The live status of a replica.
#[derive(Debug)]
pub struct ReplicaStatus {
    is_replica: bool,
    bootstrapped: bool,
    stream_connected: bool,
    last_reconcile_unix: i64,
    pending_repositories: usize,
    repositories: usize,
    identity_verified: bool,
    consecutive_failures: u32,
    last_success_unix: i64,
    master_view: MasterView,
}

/// The status of a replica over characters. A time of 0 is none.
pub struct Following {
    pub is_replica: bool,
    pub bootstrapped: bool,
    pub stream_connected: bool,
    pub last_reconcile_unix: i64,
    pub pending: usize,
    pub repositories: usize,
    pub identity_verified: bool,
    pub consecutive_failures: u32,
    pub last_success_unix: i64,
    pub master_node_id: Option<Seq<char>>,
    pub master_replicas: Seq<Presence>,
    pub master_observed_at: Option<i64>,
    pub master_contact_at: Option<i64>,
    pub master_error: Option<Seq<char>>,
}

impl View for ReplicaStatus {
    type V = Following;

    closed spec fn view(&self) -> Following {
        Following {
            is_replica: self.is_replica,
            bootstrapped: self.bootstrapped,
            stream_connected: self.stream_connected,
            last_reconcile_unix: self.last_reconcile_unix,
            pending: self.pending_repositories,
            repositories: self.repositories,
            identity_verified: self.identity_verified,
            consecutive_failures: self.consecutive_failures,
            last_success_unix: self.last_success_unix,
            master_node_id: optional_text(self.master_view.node_id),
            master_replicas: views(self.master_view.replicas@),
            master_observed_at: self.master_view.observed_at,
            master_contact_at: self.master_view.last_contact_at,
            master_error: optional_text(self.master_view.last_error),
        }
    }
}

/// A time, if it is one.
pub open spec fn time_if_any(unix: i64) -> Option<i64> {
    if unix == 0 {
        None
    } else {
        Some(unix)
    }
}

/// How well a replica follows: halted while it waits for an operator, stalled
/// after enough failures in a row, lagging after fewer of them, while work is
/// left or while nothing has succeeded yet.
pub open spec fn sync_of(following: Following, issues_open: bool) -> SyncStatus {
    if issues_open {
        SyncStatus::Halted
    } else if following.consecutive_failures >= STALLED_AFTER_FAILURES {
        SyncStatus::Stalled
    } else if following.consecutive_failures > 0 || following.pending > 0
        || following.last_success_unix == 0 {
        SyncStatus::Lagging
    } else {
        SyncStatus::Synced
    }
}

/// Whether a configuration is that of a replica.
pub open spec fn configures_replica(config: Config) -> bool {
    config.replication matches Some(replication) && replication.role == ReplicationRole::Replica
}

/// The status of a node that has just started.
pub open spec fn just_started(is_replica: bool) -> Following {
    Following {
        is_replica,
        bootstrapped: !is_replica,
        stream_connected: false,
        last_reconcile_unix: 0,
        pending: 0,
        repositories: 0,
        identity_verified: false,
        consecutive_failures: 0,
        last_success_unix: 0,
        master_node_id: None,
        master_replicas: Seq::empty(),
        master_observed_at: None,
        master_contact_at: None,
        master_error: None,
    }
}

/// The status after a pass. The count of failures wraps.
pub open spec fn passed(following: Following, failed: bool, now: i64) -> Following {
    if failed {
        Following {
            consecutive_failures: if following.consecutive_failures == u32::MAX {
                0
            } else {
                (following.consecutive_failures + 1) as u32
            },
            ..following
        }
    } else {
        Following { consecutive_failures: 0, last_success_unix: now, ..following }
    }
}

/// Copies rows.
fn copy_rows(rows: &[ReplicaPresence]) -> (result: Vec<ReplicaPresence>)
    ensures
        views(result@) == views(rows@),
{
    let mut result: Vec<ReplicaPresence> = Vec::new();
    let mut i: usize = 0;
    while i < rows.len()
        invariant
            i <= rows.len(),
            result.len() == i,
            forall|j: int| 0 <= j < i ==> (#[trigger] result@[j])@ == rows@[j]@,
        decreases rows.len() - i,
    {
        result.push(copy_presence(&rows[i]));
        i = i + 1;
    }
    assert(views(result@) =~= views(rows@));
    result
}

impl ReplicaStatus {
    /// The status of a node that starts. Only a replica has to catch up
    /// before it serves.
    pub fn new(config: &Config) -> (result: Self)
        ensures
            result@ == just_started(configures_replica(*config)),
    {
        let is_replica: bool = match &config.replication {
            Some(replication) => replication.is_replica(),
            None => false,
        };
        let result: ReplicaStatus = ReplicaStatus {
            is_replica,
            bootstrapped: !is_replica,
            stream_connected: false,
            last_reconcile_unix: 0,
            pending_repositories: 0,
            repositories: 0,
            identity_verified: false,
            consecutive_failures: 0,
            last_success_unix: 0,
            master_view: MasterView {
                node_id: None,
                replicas: Vec::new(),
                observed_at: None,
                last_contact_at: None,
                last_error: None,
            },
        };
        assert(views(result.master_view.replicas@) =~= Seq::empty());
        result
    }

    /// Records how a pass ended.
    pub fn note_pass(&mut self, failed: bool, now: i64)
        ensures
            final(self)@ == passed(old(self)@, failed, now),
    {
        if failed {
            self.consecutive_failures = if self.consecutive_failures == u32::MAX {
                0
            } else {
                self.consecutive_failures + 1
            };
        } else {
            self.consecutive_failures = 0;
            self.last_success_unix = now;
        }
    }

    /// Failed passes in a row.
    pub fn consecutive_failures(&self) -> (result: u32)
        ensures
            result == self@.consecutive_failures,
    {
        self.consecutive_failures
    }

    /// When a pass last succeeded.
    pub fn last_success(&self) -> (result: Option<i64>)
        ensures
            result == time_if_any(self@.last_success_unix),
    {
        if self.last_success_unix == 0 {
            None
        } else {
            Some(self.last_success_unix)
        }
    }

    /// Repositories that wait for an operator.
    pub fn locked_repositories(&self, issues: &Issues) -> (result: usize)
        ensures
            result == prefixed_count(issues.entries(), "repository:"@),
    {
        issues.count_with_prefix("repository:")
    }

    /// How well this replica follows.
    pub fn sync_status(&self, issues: &Issues) -> (result: SyncStatus)
        requires
            issues.is_valid(),
        ensures
            result == sync_of(self@, issues.entries().len() > 0),
    {
        if !issues.is_empty() {
            return SyncStatus::Halted;
        }
        if self.consecutive_failures >= STALLED_AFTER_FAILURES {
            return SyncStatus::Stalled;
        }
        if self.consecutive_failures > 0 || self.pending_repositories > 0 || self.last_success_unix
            == 0 {
            return SyncStatus::Lagging;
        }
        SyncStatus::Synced
    }

    pub fn set_identity_verified(&mut self, verified: bool)
        ensures
            final(self)@ == (Following { identity_verified: verified, ..old(self)@ }),
    {
        self.identity_verified = verified;
    }

    /// Whether the master last stated the pinned identity.
    pub fn identity_verified(&self) -> (result: bool)
        ensures
            result == self@.identity_verified,
    {
        self.identity_verified
    }

    pub fn is_replica(&self) -> (result: bool)
        ensures
            result == self@.is_replica,
    {
        self.is_replica
    }

    /// Whether this node holds content worth serving.
    pub fn is_bootstrapped(&self) -> (result: bool)
        ensures
            result == self@.bootstrapped,
    {
        self.bootstrapped
    }

    pub fn mark_bootstrapped(&mut self)
        ensures
            final(self)@ == (Following { bootstrapped: true, ..old(self)@ }),
    {
        self.bootstrapped = true;
    }

    pub fn set_stream_connected(&mut self, connected: bool)
        ensures
            final(self)@ == (Following { stream_connected: connected, ..old(self)@ }),
    {
        self.stream_connected = connected;
    }

    pub fn stream_connected(&self) -> (result: bool)
        ensures
            result == self@.stream_connected,
    {
        self.stream_connected
    }

    pub fn set_last_reconcile(&mut self, unix_seconds: i64)
        ensures
            final(self)@ == (Following { last_reconcile_unix: unix_seconds, ..old(self)@ }),
    {
        self.last_reconcile_unix = unix_seconds;
    }

    /// When this replica last compared itself with its master.
    pub fn last_reconcile(&self) -> (result: Option<i64>)
        ensures
            result == time_if_any(self@.last_reconcile_unix),
    {
        if self.last_reconcile_unix == 0 {
            None
        } else {
            Some(self.last_reconcile_unix)
        }
    }

    pub fn set_pending(&mut self, pending: usize)
        ensures
            final(self)@ == (Following { pending, ..old(self)@ }),
    {
        self.pending_repositories = pending;
    }

    /// Repositories known to be behind.
    pub fn pending(&self) -> (result: usize)
        ensures
            result == self@.pending,
    {
        self.pending_repositories
    }

    pub fn set_repositories(&mut self, repositories: usize)
        ensures
            final(self)@ == (Following { repositories, ..old(self)@ }),
    {
        self.repositories = repositories;
    }

    /// Repositories that this node holds.
    pub fn repositories(&self) -> (result: usize)
        ensures
            result == self@.repositories,
    {
        self.repositories
    }

    /// Records the master's own picture.
    pub fn record_master_health(
        &mut self,
        node_id: Option<String>,
        replicas: Vec<ReplicaPresence>,
        now: i64,
    )
        ensures
            final(self)@ == (Following {
                master_node_id: optional_text(node_id),
                master_replicas: views(replicas@),
                master_observed_at: Some(now),
                master_contact_at: Some(now),
                master_error: None,
                ..old(self)@
            }),
    {
        self.master_view = MasterView {
            node_id,
            replicas,
            observed_at: Some(now),
            last_contact_at: Some(now),
            last_error: None,
        };
    }

    /// Records who the master is. What it sees stays as it was.
    pub fn record_master_identity(&mut self, node_id: String, now: i64)
        ensures
            final(self)@ == (Following {
                master_node_id: Some(node_id@),
                master_contact_at: Some(now),
                master_error: None,
                ..old(self)@
            }),
    {
        self.master_view.node_id = Some(node_id);
        self.master_view.last_contact_at = Some(now);
        self.master_view.last_error = None;
    }

    /// Records that the master was reached.
    pub fn record_master_contact(&mut self, now: i64)
        ensures
            final(self)@ == (Following {
                master_contact_at: Some(now),
                master_error: None,
                ..old(self)@
            }),
    {
        self.master_view.last_contact_at = Some(now);
        self.master_view.last_error = None;
    }

    /// Records why the master could not be followed.
    pub fn record_master_error(&mut self, error: String)
        ensures
            final(self)@ == (Following { master_error: Some(error@), ..old(self)@ }),
    {
        self.master_view.last_error = Some(error);
    }

    /// The master's id, its roster, when that was learned, the last contact
    /// and the last error.
    pub fn master_snapshot(&self) -> (result: (
        Option<String>,
        Vec<ReplicaPresence>,
        Option<i64>,
        Option<i64>,
        Option<String>,
    ))
        ensures
            optional_text(result.0) == self@.master_node_id,
            views(result.1@) == self@.master_replicas,
            result.2 == self@.master_observed_at,
            result.3 == self@.master_contact_at,
            optional_text(result.4) == self@.master_error,
    {
        (
            copy_optional_text(&self.master_view.node_id),
            copy_rows(self.master_view.replicas.as_slice()),
            self.master_view.observed_at,
            self.master_view.last_contact_at,
            copy_optional_text(&self.master_view.last_error),
        )
    }
}

/// An open issue halts a replica, whatever else is true of it.
pub proof fn law_issue_halts(following: Following)
    ensures
        sync_of(following, true) == SyncStatus::Halted,
{
}

/// A replica is synced only if its last pass succeeded, nothing is pending
/// and no issue is open.
pub proof fn law_synced_means_caught_up(following: Following, issues_open: bool)
    requires
        sync_of(following, issues_open) == SyncStatus::Synced,
    ensures
        !issues_open,
        following.pending == 0,
        following.last_success_unix != 0,
        following.consecutive_failures == 0,
{
}

/// A replica whose last pass failed is not synced: it lags until enough of them
/// have failed in a row, and is stalled from there on, for as long as they can
/// be counted.
pub proof fn law_failed_pass_is_not_synced(following: Following, now: i64)
    requires
        following.consecutive_failures < u32::MAX,
    ensures
        ({
            let after = passed(following, true, now);
            sync_of(after, false) == if after.consecutive_failures < STALLED_AFTER_FAILURES {
                SyncStatus::Lagging
            } else {
                SyncStatus::Stalled
            }
        }),
{
}

} // verus!
