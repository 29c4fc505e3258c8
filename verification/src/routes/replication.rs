//! What a node serves to the replicas that follow it.
use vstd::prelude::*;
use crate::config::Config;
use crate::error::{AppError, Fault};
use crate::replication::identity::ReplicationIdentity;
use crate::replication::issues::{collision_issue_key, Issue, Issues};
use crate::replication::registry::{
    collides, noted, opened, refusals_since, refused, row_of, Presence, ReplicaRegistry,
    COLLISION_REPORT_AFTER_SECS,
};
use crate::replication::status::{Following, ReplicaStatus};
use crate::replication::wire::{
    ReplicationEvent, RepositoryEntry, RepositoryHead, RepositoryListing, RepositoryScan,
    PROTOCOL_VERSION,
};
use crate::sorting::views;
use crate::text::{joined, optional_text, parse_number, parsed_number};
use crate::validate::{identifier_fault, node_id};

verus! {

/// The parameters of a pack.
#[derive(Debug, Clone)]
pub struct PackQuery {
    /// The commit that the caller holds; it holds nothing if omitted.
    pub have: Option<String>,
}

/// The headers by which a peer describes itself, as they arrived.
#[derive(Debug)]
pub struct PeerClaims {
    pub node_id: Option<String>,
    pub instance: Option<String>,
    pub repositories: Option<String>,
    pub pending: Option<String>,
    pub sync: Option<String>,
    pub poll_interval: Option<String>,
}

/// What a peer is taken to have said of itself.
#[derive(Debug)]
pub struct PeerHeaders {
    pub node_id: Option<String>,
    pub instance: Option<String>,
    pub repositories: Option<usize>,
    pub pending: Option<usize>,
    pub sync: Option<String>,
    pub poll_interval_secs: Option<u64>,
}

/// A header that is kept as it is, if it has the form of an identifier.
pub open spec fn kept_claim(claim: Option<String>) -> Option<Seq<char>> {
    match claim {
        Some(text) => if identifier_fault(text@) is None {
            Some(text@)
        } else {
            None
        },
        None => None,
    }
}

/// The number that a header spells, if it does.
pub open spec fn numeric_claim(claim: Option<String>, limit: nat) -> Option<nat> {
    match claim {
        Some(text) => parsed_number(text@, limit),
        None => None,
    }
}

/// A count as a number.
pub open spec fn count_of(count: Option<usize>) -> Option<nat> {
    match count {
        Some(value) => Some(value as nat),
        None => None,
    }
}

/// A number of seconds as a number.
pub open spec fn seconds_of(seconds: Option<u64>) -> Option<nat> {
    match seconds {
        Some(value) => Some(value as nat),
        None => None,
    }
}

/// Keeps a header that has the form of an identifier.
fn keep_claim(claim: Option<String>) -> (result: Option<String>)
    ensures
        optional_text(result) == kept_claim(claim),
{
    match claim {
        Some(text) => match node_id(text.as_str()) {
            Ok(()) => Some(text),
            Err(_) => None,
        },
        None => None,
    }
}

/// Reads a number of seconds.
fn read_seconds(claim: &Option<String>) -> (result: Option<u64>)
    ensures
        seconds_of(result) == numeric_claim(*claim, u64::MAX as nat),
{
    match claim {
        Some(text) => parse_number(text.as_str()),
        None => None,
    }
}

/// Reads a count.
fn read_count(claim: &Option<String>) -> (result: Option<usize>)
    ensures
        count_of(result) == numeric_claim(*claim, usize::MAX as nat),
{
    match claim {
        Some(text) => match parse_number(text.as_str()) {
            Some(value) => if value <= usize::MAX as u64 {
                Some(value as usize)
            } else {
                None
            },
            None => None,
        },
        None => None,
    }
}

/// Reads what a peer said of itself. Nothing that it says, or leaves out, is a
/// reason to refuse its request; what has no acceptable form is left out.
pub fn peer_identity(claims: PeerClaims) -> (result: PeerHeaders)
    ensures
        optional_text(result.node_id) == kept_claim(claims.node_id),
        optional_text(result.instance) == kept_claim(claims.instance),
        optional_text(result.sync) == kept_claim(claims.sync),
        count_of(result.repositories) == numeric_claim(claims.repositories, usize::MAX as nat),
        count_of(result.pending) == numeric_claim(claims.pending, usize::MAX as nat),
        seconds_of(result.poll_interval_secs) == numeric_claim(
            claims.poll_interval,
            u64::MAX as nat,
        ),
{
    PeerHeaders {
        repositories: read_count(&claims.repositories),
        pending: read_count(&claims.pending),
        poll_interval_secs: read_seconds(&claims.poll_interval),
        node_id: keep_claim(claims.node_id),
        instance: keep_claim(claims.instance),
        sync: keep_claim(claims.sync),
    }
}

/// A roster once a peer has made a request.
pub open spec fn rows_noted(rows: Map<Seq<char>, Presence>, peer: PeerHeaders, now: i64) -> Map<
    Seq<char>,
    Presence,
> {
    match peer.node_id {
        Some(node_id) => rows.insert(
            node_id@,
            noted(
                row_of(rows, node_id@),
                peer.repositories,
                peer.pending,
                optional_text(peer.sync),
                peer.poll_interval_secs,
                now,
            ),
        ),
        None => rows,
    }
}

/// Takes up that a peer made a request. One without a name stays unknown.
pub fn note_peer(registry: &mut ReplicaRegistry, peer: &PeerHeaders, now: i64)
    requires
        old(registry).is_valid(),
    ensures
        final(registry).is_valid(),
        final(registry).rows() == rows_noted(old(registry).rows(), *peer, now),
{
    if let Some(node_id) = &peer.node_id {
        registry.note_request(
            node_id.as_str(),
            peer.repositories,
            peer.pending,
            crate::text::copy_optional_text(&peer.sync),
            peer.poll_interval_secs,
            now,
        );
    }
}

/// Whether a node can describe what it holds. A replica that has not caught up
/// yet, or follows no data set yet, would describe an empty one.
pub open spec fn can_describe(following: Following, identity: Option<Seq<char>>) -> bool {
    !following.is_replica || (following.bootstrapped && identity is Some)
}

/// A head of the index as an entry of a listing.
fn entry_for(head: &RepositoryHead) -> (result: RepositoryEntry)
    ensures
        result@ == head@,
{
    RepositoryEntry {
        collection_id: head.collection_id.clone(),
        tenant_id: head.tenant_id.clone(),
        head_sha: head.head_sha.clone(),
    }
}

/// Lists what a node holds, or refuses to where it cannot tell yet.
pub fn replication_state(
    status: &ReplicaStatus,
    identity: &ReplicationIdentity,
    scan: &RepositoryScan,
) -> (result: Option<RepositoryListing>)
    ensures
        match result {
            None => !can_describe(status@, identity.held()),
            Some(listing) => {
                &&& can_describe(status@, identity.held())
                &&& listing.protocol == PROTOCOL_VERSION
                &&& optional_text(listing.identity) == identity.held()
                &&& views(listing.repositories@) == views(scan.repositories@)
                &&& listing.complete == scan.complete
            },
        },
{
    let current: Option<String> = identity.current();
    if status.is_replica() && (!status.is_bootstrapped() || current.is_none()) {
        return None;
    }
    let mut repositories: Vec<RepositoryEntry> = Vec::new();
    let mut i: usize = 0;
    while i < scan.repositories.len()
        invariant
            i <= scan.repositories.len(),
            repositories.len() == i,
            forall|j: int| 0 <= j < i ==> (#[trigger] repositories@[j])@ == scan.repositories@[j]@,
        decreases scan.repositories.len() - i,
    {
        repositories.push(entry_for(&scan.repositories[i]));
        i = i + 1;
    }
    assert(views(repositories@) =~= views(scan.repositories@));
    Some(
        RepositoryListing {
            protocol: PROTOCOL_VERSION,
            identity: current,
            repositories,
            complete: scan.complete,
        },
    )
}

/// The commit that a pack is built up to: where the repository's history ends,
/// if there is one.
pub fn pack_head(exists: bool, head_sha: Option<String>, tenant_id: &str) -> (result: Result<
    String,
    AppError,
>)
    ensures
        match result {
            Ok(head) => exists && head_sha == Some(head),
            Err(error) => !(exists && head_sha is Some) && error@ == Fault::TenantNotFound(
                tenant_id@,
            ),
        },
{
    if !exists {
        return Err(AppError::TenantNotFound { tenant_id: tenant_id.to_owned() });
    }
    match head_sha {
        Some(head) => Ok(head),
        None => Err(AppError::TenantNotFound { tenant_id: tenant_id.to_owned() }),
    }
}

/// The token that a peer holds its stream by: an empty one if it sent none.
pub open spec fn instance_of(peer: PeerHeaders) -> Seq<char> {
    match peer.instance {
        Some(token) => token@,
        None => Seq::empty(),
    }
}

/// Why a stream is refused.
pub open spec fn conflict_message(node_id: Seq<char>) -> Seq<char> {
    "node id '"@ + node_id + "' is already connected from another process"@
}

/// The issues after a stream was refused: only a refusal that persists is one.
pub open spec fn conflict_issues(
    before: Map<Seq<char>, Issue>,
    after: Map<Seq<char>, Issue>,
    node_id: Seq<char>,
    since: i64,
    now: i64,
) -> bool {
    let key = collision_issue_key(node_id);
    if now - since >= COLLISION_REPORT_AFTER_SECS {
        &&& after == before.insert(key, after[key])
        &&& match after[key] {
            Issue::NodeIdCollision { node_id: name, since: start } => name@ == node_id && start
                == if before.contains_key(key) {
                crate::replication::issues::since_of(before[key])
            } else {
                since
            },
            _ => false,
        }
    } else {
        after == before
    }
}

/// Whether a peer's stream is refused, by the row of its name. A peer that
/// sends no token is older than the check, and is let in without it.
pub open spec fn is_refused(row: Presence, peer: PeerHeaders) -> bool {
    peer.instance is Some && collides(row, instance_of(peer))
}

/// Opens a notification stream for a peer. A name under which another process
/// has a stream is refused, with a message; a peer without a name is let in,
/// and so is one without a token.
pub fn replication_events(
    registry: &mut ReplicaRegistry,
    issues: &mut Issues,
    peer: &PeerHeaders,
    now: i64,
) -> (result: Result<(), String>)
    requires
        old(registry).is_valid(),
        old(issues).is_valid(),
    ensures
        final(registry).is_valid(),
        final(issues).is_valid(),
        match peer.node_id {
            None => {
                &&& result is Ok
                &&& final(registry).rows() == old(registry).rows()
                &&& final(issues)@ == old(issues)@
            },
            Some(node_id) => {
                let rows = rows_noted(old(registry).rows(), *peer, now);
                let row = row_of(rows, node_id@);
                match result {
                    Ok(()) => {
                        &&& !is_refused(row, *peer)
                        &&& final(registry).rows() == rows.insert(
                            node_id@,
                            opened(row, instance_of(*peer), now),
                        )
                        &&& final(issues)@ == old(issues)@.remove(collision_issue_key(node_id@))
                    },
                    Err(message) => {
                        &&& is_refused(row, *peer)
                        &&& message@ == conflict_message(node_id@)
                        &&& final(registry).rows() == rows.insert(node_id@, refused(row, now))
                        &&& conflict_issues(
                            old(issues)@,
                            final(issues)@,
                            node_id@,
                            refusals_since(row, now),
                            now,
                        )
                    },
                }
            },
        },
{
    let node_id: &String = match &peer.node_id {
        Some(node_id) => node_id,
        None => {
            return Ok(());
        },
    };
    note_peer(registry, peer, now);
    let collision_key: String = Issues::collision_key(node_id.as_str());
    let instance: &str = match &peer.instance {
        Some(token) => token.as_str(),
        None => {
            proof {
                reveal_strlit("");
                assert(""@ =~= instance_of(*peer));
            }
            registry.stream_admitted(node_id.as_str(), "", now);
            issues.clear(collision_key.as_str());
            return Ok(());
        },
    };
    match registry.stream_opened(node_id.as_str(), instance, now) {
        Ok(()) => {
            issues.clear(collision_key.as_str());
            Ok(())
        },
        Err(collision) => {
            if collision.persisting {
                issues.raise(
                    collision_key.as_str(),
                    Issue::NodeIdCollision { node_id: node_id.clone(), since: collision.since },
                );
            }
            let mut message: String = joined("node id '", node_id.as_str());
            message.append("' is already connected from another process");
            Err(message)
        },
    }
}

/// The frame that opens every stream: who this node is and which data set it
/// serves.
pub fn hello(config: &Config, identity: &ReplicationIdentity) -> (result: ReplicationEvent)
    ensures
        match result {
            ReplicationEvent::Hello { protocol, node_id, identity: stated } => {
                &&& protocol == PROTOCOL_VERSION
                &&& node_id@ == match config.replication {
                    Some(replication) => replication.node_id@,
                    None => Seq::<char>::empty(),
                }
                &&& optional_text(stated) == identity.held()
            },
            _ => false,
        },
{
    ReplicationEvent::Hello {
        protocol: PROTOCOL_VERSION,
        node_id: match &config.replication {
            Some(replication) => replication.node_id.clone(),
            None => String::new(),
        },
        identity: identity.current(),
    }
}

/// A peer that sends no token is never refused, whoever holds its name.
pub proof fn law_older_peer_is_let_in(row: Presence, peer: PeerHeaders)
    requires
        peer.instance is None,
    ensures
        !is_refused(row, peer),
{
}

/// A replica that holds nothing yet lists nothing, so that no replica below it
/// takes everything for deleted.
pub proof fn law_bootstrapping_lists_nothing(following: Following, identity: Option<Seq<char>>)
    requires
        following.is_replica,
        !following.bootstrapped,
    ensures
        !can_describe(following, identity),
{
}

} // verus!
