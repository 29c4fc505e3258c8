//! The answer of the API root.
use vstd::prelude::*;
use crate::replication::issues::Issues;
use crate::replication::status::{sync_of, time_if_any, ReplicaStatus};
use crate::replication::wire::sync_word;
use crate::rfc3339;

verus! {

/// What a replica says of itself.
#[derive(Debug)]
pub struct ReplicaPing {
    pub state: &'static str,
    pub stream_connected: bool,
    pub last_reconcile_at: Option<String>,
    pub pending_repositories: usize,
    pub sync: &'static str,
}

/// The word for whether a replica holds content worth serving.
pub open spec fn readiness(bootstrapped: bool) -> Seq<char> {
    if bootstrapped {
        "ready"@
    } else {
        "bootstrapping"@
    }
}

/// Answers a caller that checks its key. Only a replica has more to say.
pub fn ping(status: &ReplicaStatus, issues: &Issues) -> (result: Option<ReplicaPing>)
    requires
        issues.is_valid(),
    ensures
        match result {
            None => !status@.is_replica,
            Some(replica) => {
                &&& status@.is_replica
                &&& replica.state@ == readiness(status@.bootstrapped)
                &&& replica.stream_connected == status@.stream_connected
                &&& replica.pending_repositories == status@.pending
                &&& replica.sync@ == sync_word(sync_of(status@, issues.entries().len() > 0))
                &&& match (time_if_any(status@.last_reconcile_unix), replica.last_reconcile_at) {
                    (Some(at), Some(text)) => text@ == rfc3339::formatted(at),
                    (None, None) => true,
                    _ => false,
                }
            },
        },
{
    if !status.is_replica() {
        return None;
    }
    let last_reconcile_at: Option<String> = match status.last_reconcile() {
        Some(at) => Some(rfc3339::format(at)),
        None => None,
    };
    Some(
        ReplicaPing {
            state: if status.is_bootstrapped() {
                "ready"
            } else {
                "bootstrapping"
            },
            stream_connected: status.stream_connected(),
            last_reconcile_at,
            pending_repositories: status.pending(),
            sync: status.sync_status(issues).as_str(),
        },
    )
}

} // verus!
