//! The public status of a node.
use vstd::prelude::*;
use crate::config::{Config, ReplicationRole};
use crate::replication::status::{Following, ReplicaStatus};
use crate::rfc3339;

verus! {

/// What a node is, and whether it takes writes.
#[derive(Debug)]
pub struct StatusReport {
    pub status: &'static str,
    pub role: &'static str,
    pub writable: bool,
    pub started_at: String,
    pub uptime_secs: u64,
}

/// The word for a node's role.
pub open spec fn role_word(role: Option<ReplicationRole>) -> Seq<char> {
    match role {
        None => "standalone"@,
        Some(ReplicationRole::Replica) => "replica"@,
        Some(ReplicationRole::Master) => "master"@,
    }
}

/// The role that a configuration gives.
pub open spec fn configured_role(config: Config) -> Option<ReplicationRole> {
    match config.replication {
        Some(replication) => Some(replication.role),
        None => None,
    }
}

/// The word for whether a node serves content.
pub open spec fn status_word(following: Following) -> Seq<char> {
    if following.is_replica && !following.bootstrapped {
        "bootstrapping"@
    } else {
        "healthy"@
    }
}

/// Reports what a node is, from memory alone.
pub fn health_status(config: &Config, status: &ReplicaStatus, started_at: i64, now: i64) -> (result:
    StatusReport)
    ensures
        result.status@ == status_word(status@),
        result.role@ == role_word(configured_role(*config)),
        result.writable == !status@.is_replica,
        result.started_at@ == rfc3339::formatted(started_at),
        result.uptime_secs == if now > started_at {
            now - started_at
        } else {
            0
        },
{
    let role: &'static str = match &config.replication {
        None => "standalone",
        Some(replication) => if replication.is_replica() {
            "replica"
        } else {
            "master"
        },
    };
    let word: &'static str = if status.is_replica() && !status.is_bootstrapped() {
        "bootstrapping"
    } else {
        "healthy"
    };
    let uptime_secs: u64 = if now > started_at {
        ((now as i128) - (started_at as i128)) as u64
    } else {
        0
    };
    StatusReport {
        status: word,
        role,
        writable: !status.is_replica(),
        started_at: rfc3339::format(started_at),
        uptime_secs,
    }
}

} // verus!
