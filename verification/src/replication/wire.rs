//! What nodes say to one another.
use vstd::prelude::*;
use crate::text::same;

verus! {

/// Seconds between two keep-alive frames of a notification stream.
pub const EVENT_HEARTBEAT_SECS: u64 = 20;

/// Where the replication surface is mounted.
pub const URL_PREFIX: &'static str = "/_replication";

/// The protocol that this node speaks.
pub const PROTOCOL_VERSION: u32 = 1;

/// Header with the protocol.
pub const PROTOCOL_HEADER: &'static str = "x-replication-protocol";

/// Header with the commit that a pack leads to.
pub const HEAD_SHA_HEADER: &'static str = "x-replication-head-sha";

/// Header with a replica's node id.
pub const NODE_ID_HEADER: &'static str = "x-replication-node-id";

/// Header with the number of repositories that a replica holds.
pub const REPOSITORIES_HEADER: &'static str = "x-replication-repositories";

/// Header with the number of repositories that a replica is behind on.
pub const PENDING_HEADER: &'static str = "x-replication-pending";

/// Header with a replica's sync status.
pub const SYNC_HEADER: &'static str = "x-replication-sync";

/// Header with the token of a replica's process.
pub const INSTANCE_HEADER: &'static str = "x-replication-instance";

/// Header with the seconds between a replica's polls.
pub const POLL_INTERVAL_HEADER: &'static str = "x-replication-poll-interval";

/// One frame of a notification stream.
#[derive(Debug)]
pub enum ReplicationEvent {
    Hello { protocol: u32, node_id: String, identity: Option<String> },
    Heartbeat,
    RepositoryUpdated { collection_id: String, tenant_id: String, head_sha: String },
    RepositoryDeleted { collection_id: String, tenant_id: String },
}

/// A repository and where its history ends.
#[derive(Debug)]
pub struct RepositoryHead {
    pub collection_id: String,
    pub tenant_id: String,
    pub head_sha: String,
}

/// A repository's head over characters.
pub struct Head {
    pub collection_id: Seq<char>,
    pub tenant_id: Seq<char>,
    pub head_sha: Seq<char>,
}

impl View for RepositoryHead {
    type V = Head;

    open spec fn view(&self) -> Head {
        Head {
            collection_id: self.collection_id@,
            tenant_id: self.tenant_id@,
            head_sha: self.head_sha@,
        }
    }
}

/// The repositories that a node holds, and whether these are all.
#[derive(Debug)]
pub struct RepositoryScan {
    pub repositories: Vec<RepositoryHead>,
    pub complete: bool,
}

/// One repository of a listing.
#[derive(Debug)]
pub struct RepositoryEntry {
    pub collection_id: String,
    pub tenant_id: String,
    pub head_sha: String,
}

impl View for RepositoryEntry {
    type V = Head;

    open spec fn view(&self) -> Head {
        Head {
            collection_id: self.collection_id@,
            tenant_id: self.tenant_id@,
            head_sha: self.head_sha@,
        }
    }
}

/// The repositories that a node lists to its followers.
#[derive(Debug)]
pub struct RepositoryListing {
    pub protocol: u32,
    /// The data set that the node serves.
    pub identity: Option<String>,
    pub repositories: Vec<RepositoryEntry>,
    /// Whether the listing names every repository of the node.
    pub complete: bool,
}

/// How well a replica follows.
#[derive(Debug, Clone, Copy, PartialEq, Eq, Structural)]
pub enum SyncStatus {
    Synced,
    Lagging,
    Stalled,
    Halted,
}

/// The word for a sync status.
pub open spec fn sync_word(status: SyncStatus) -> Seq<char> {
    match status {
        SyncStatus::Synced => "synced"@,
        SyncStatus::Lagging => "lagging"@,
        SyncStatus::Stalled => "stalled"@,
        SyncStatus::Halted => "halted"@,
    }
}

/// The sync status that a word stands for, if it does.
pub open spec fn sync_status_of(word: Seq<char>) -> Option<SyncStatus> {
    if word == "synced"@ {
        Some(SyncStatus::Synced)
    } else if word == "lagging"@ {
        Some(SyncStatus::Lagging)
    } else if word == "stalled"@ {
        Some(SyncStatus::Stalled)
    } else if word == "halted"@ {
        Some(SyncStatus::Halted)
    } else {
        None
    }
}

impl SyncStatus {
    /// The word for this status.
    pub fn as_str(self) -> (result: &'static str)
        ensures
            result@ == sync_word(self),
    {
        match self {
            SyncStatus::Synced => "synced",
            SyncStatus::Lagging => "lagging",
            SyncStatus::Stalled => "stalled",
            SyncStatus::Halted => "halted",
        }
    }

    /// The status that a word stands for.
    pub fn parse(raw: &str) -> (result: Option<Self>)
        ensures
            result == sync_status_of(raw@),
    {
        if same(raw, "synced") {
            Some(SyncStatus::Synced)
        } else if same(raw, "lagging") {
            Some(SyncStatus::Lagging)
        } else if same(raw, "stalled") {
            Some(SyncStatus::Stalled)
        } else if same(raw, "halted") {
            Some(SyncStatus::Halted)
        } else {
            None
        }
    }
}

/// The status of a whole node, from best to worst.
#[derive(Debug, Clone, Copy, PartialEq, Eq, Structural)]
pub enum NodeStatus {
    Healthy,
    Degraded,
    Halted,
}

/// The word for a node status.
pub open spec fn node_word(status: NodeStatus) -> Seq<char> {
    match status {
        NodeStatus::Healthy => "healthy"@,
        NodeStatus::Degraded => "degraded"@,
        NodeStatus::Halted => "halted"@,
    }
}

/// How bad a node status is.
pub open spec fn severity(status: NodeStatus) -> int {
    match status {
        NodeStatus::Healthy => 0,
        NodeStatus::Degraded => 1,
        NodeStatus::Halted => 2,
    }
}

/// The worse of two node statuses.
pub open spec fn worse(left: NodeStatus, right: NodeStatus) -> NodeStatus {
    if severity(left) < severity(right) {
        right
    } else {
        left
    }
}

impl NodeStatus {
    /// The word for this status.
    pub fn as_str(self) -> (result: &'static str)
        ensures
            result@ == node_word(self),
    {
        match self {
            NodeStatus::Healthy => "healthy",
            NodeStatus::Degraded => "degraded",
            NodeStatus::Halted => "halted",
        }
    }

    /// The worse of two statuses.
    pub fn worst(self, other: Self) -> (result: Self)
        ensures
            result == worse(self, other),
    {
        match (self, other) {
            (NodeStatus::Halted, _) => NodeStatus::Halted,
            (_, NodeStatus::Halted) => NodeStatus::Halted,
            (NodeStatus::Degraded, _) => NodeStatus::Degraded,
            (_, NodeStatus::Degraded) => NodeStatus::Degraded,
            _ => NodeStatus::Healthy,
        }
    }
}

/// The word for a sync status stands for it.
pub proof fn law_sync_word_round_trip(status: SyncStatus)
    ensures
        sync_status_of(sync_word(status)) == Some(status),
{
    reveal_strlit("synced");
    reveal_strlit("lagging");
    reveal_strlit("stalled");
    reveal_strlit("halted");
    assert("synced"@[0] == 's');
    assert("lagging"@[0] == 'l');
    assert("stalled"@[1] == 't');
    assert("synced"@[1] == 'y');
    assert("halted"@[0] == 'h');
    assert("stalled"@[0] == 's');
}

} // verus!
