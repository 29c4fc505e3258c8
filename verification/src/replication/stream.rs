//! The notification stream of a replica: which master it may come from, how
//! it is cut into frames, and what each frame asks for.
use vstd::prelude::*;
use crate::replication::follower::{
    entry_fault, ids_fault, validate_entry, validate_identifiers, ReplicaFollower,
};
use crate::replication::identity::ReplicationIdentity;
use crate::replication::index::repository_key;
use crate::replication::issues::{
    Issue, Issues, ISSUE_IDENTITY_MISMATCH, ISSUE_NODE_ID_COLLISION,
};
use crate::replication::pending::{Sync, Target};
use crate::replication::registry::COLLISION_REPORT_AFTER_SECS;
use crate::replication::status::{sync_of, Following, ReplicaStatus};
use crate::replication::sync::since_when;
use crate::replication::wire::{
    sync_word, ReplicationEvent, INSTANCE_HEADER, NODE_ID_HEADER, PENDING_HEADER,
    POLL_INTERVAL_HEADER, PROTOCOL_HEADER, PROTOCOL_VERSION, REPOSITORIES_HEADER, SYNC_HEADER,
    URL_PREFIX,
};
use crate::text::{
    characters, copy_range, decimal, find_first, first_position, from_characters, joined,
    lemma_first_position, optional_str, optional_text, same, spell, trim, trimmed,
};
use crate::validate::{identity_fault, replication_identity};

verus! {

/// The longest pause before a stream is opened again.
pub const MAXIMUM_RECONNECT_BACKOFF_MS: u64 = 60000;

/// What is to be done about the identity that a master states.
#[derive(Debug)]
pub enum IdentityVerdict {
    /// It may be followed.
    Accepted,
    /// It is not followed, for this reason.
    Refused(String),
    /// It is the first one, to be pinned.
    Pin,
}

/// What is to be done about an identity, over characters.
pub enum Verdict {
    Accepted,
    Refused(Seq<char>),
    Pin,
}

impl View for IdentityVerdict {
    type V = Verdict;

    open spec fn view(&self) -> Verdict {
        match *self {
            IdentityVerdict::Accepted => Verdict::Accepted,
            IdentityVerdict::Refused(reason) => Verdict::Refused(reason@),
            IdentityVerdict::Pin => Verdict::Pin,
        }
    }
}

/// Why a master with another identity is not followed.
pub open spec fn mismatch_message(
    node_id: Seq<char>,
    pinned: Seq<char>,
    place: Seq<char>,
    master: Seq<char>,
    url: Seq<char>,
    stated: Seq<char>,
) -> Seq<char> {
    "master identity mismatch: this replica ("@ + node_id + ") is pinned to "@ + pinned + " in "@
        + place + " but the master "@ + master + " at "@ + url + " states "@ + stated
        + "; refusing to sync. If the master was legitimately rebuilt or replaced, stop this replica, delete "@
        + place + " and restart it to pair with the new master"@
}

/// What is to be done about the identity that a master states, if any. A
/// replica is pinned to the first one that a listing states.
pub open spec fn identity_verdict(
    follower: ReplicaFollower,
    stated: Option<Seq<char>>,
    may_pin: bool,
    pinned: Option<Seq<char>>,
    place: Seq<char>,
    master_node_id: Option<Seq<char>>,
) -> Verdict {
    let url = follower.master_url_display@;
    match stated {
        None => Verdict::Refused(
            "master "@ + url
                + " stated no replication identity; a node that cannot say which data set it serves is not followed"@,
        ),
        Some(identity) => match identity_fault(identity) {
            Some(reason) => Verdict::Refused(
                "master "@ + url + " stated an invalid identity: "@ + reason,
            ),
            None => match pinned {
                Some(expected) => if expected == identity {
                    Verdict::Accepted
                } else {
                    Verdict::Refused(
                        mismatch_message(
                            follower.node_id@,
                            expected,
                            place,
                            match master_node_id {
                                Some(name) => name,
                                None => "(unknown)"@,
                            },
                            url,
                            identity,
                        ),
                    )
                },
                None => if may_pin {
                    Verdict::Pin
                } else {
                    Verdict::Accepted
                },
            },
        },
    }
}

/// Spells why a master with another identity is not followed.
fn spell_mismatch(
    node_id: &str,
    pinned: &str,
    place: &str,
    master: &str,
    url: &str,
    stated: &str,
) -> (result: String)
    ensures
        result@ == mismatch_message(node_id@, pinned@, place@, master@, url@, stated@),
{
    let mut message: String = joined("master identity mismatch: this replica (", node_id);
    message.append(") is pinned to ");
    message.append(pinned);
    message.append(" in ");
    message.append(place);
    message.append(" but the master ");
    message.append(master);
    message.append(" at ");
    message.append(url);
    message.append(" states ");
    message.append(stated);
    message.append(
        "; refusing to sync. If the master was legitimately rebuilt or replaced, stop this replica, delete ",
    );
    message.append(place);
    message.append(" and restart it to pair with the new master");
    message
}

/// Whether the issues say that a master stated another identity than the
/// pinned one, and are otherwise as before.
pub open spec fn mismatch_raised(
    before: Map<Seq<char>, Issue>,
    after: Map<Seq<char>, Issue>,
    pinned: Seq<char>,
    stated: Seq<char>,
    now: i64,
) -> bool {
    let key = ISSUE_IDENTITY_MISMATCH@;
    &&& after == before.insert(key, after[key])
    &&& match after[key] {
        Issue::IdentityMismatch { pinned: expected, stated: found, since } => {
            &&& expected@ == pinned
            &&& found@ == stated
            &&& since == since_when(before, key, now)
        },
        _ => false,
    }
}

impl ReplicaFollower {
    /// Compares the identity that the master states with the pinned one.
    pub fn check_master_identity(
        &self,
        stated: Option<&str>,
        may_pin: bool,
        identity: &ReplicationIdentity,
        status: &ReplicaStatus,
    ) -> (result: IdentityVerdict)
        ensures
            result@ == identity_verdict(
                *self,
                optional_str(stated),
                may_pin,
                identity.held(),
                identity.place(),
                status@.master_node_id,
            ),
    {
        let url: &str = self.master_url_display.as_str();
        let name: &str = match stated {
            Some(name) => name,
            None => {
                let mut reason: String = joined("master ", url);
                reason.append(
                    " stated no replication identity; a node that cannot say which data set it serves is not followed",
                );
                return IdentityVerdict::Refused(reason);
            },
        };
        if let Err(wrong) = replication_identity(name) {
            let mut reason: String = joined("master ", url);
            reason.append(" stated an invalid identity: ");
            reason.append(wrong.as_str());
            return IdentityVerdict::Refused(reason);
        }
        match identity.current() {
            Some(pinned) => if same(pinned.as_str(), name) {
                IdentityVerdict::Accepted
            } else {
                let master: Option<String> = status.master_snapshot().0;
                let shown: &str = match &master {
                    Some(node_id) => node_id.as_str(),
                    None => "(unknown)",
                };
                IdentityVerdict::Refused(
                    spell_mismatch(
                        self.node_id.as_str(),
                        pinned.as_str(),
                        identity.path(),
                        shown,
                        url,
                        name,
                    ),
                )
            },
            None => if may_pin {
                IdentityVerdict::Pin
            } else {
                IdentityVerdict::Accepted
            },
        }
    }

    /// Takes up whether the master may be followed. While it may not, nothing
    /// is pulled, the reason is on record, and an identity other than the
    /// pinned one is an issue.
    pub fn verify_master_identity(
        &self,
        outcome: &Result<(), String>,
        stated: Option<&str>,
        identity: &ReplicationIdentity,
        status: &mut ReplicaStatus,
        issues: &mut Issues,
        now: i64,
    )
        requires
            old(issues).is_valid(),
        ensures
            final(issues).is_valid(),
            final(status)@ == match *outcome {
                Ok(()) => Following { identity_verified: true, ..old(status)@ },
                Err(error) => Following {
                    identity_verified: false,
                    master_error: Some(error@),
                    ..old(status)@
                },
            },
            match (*outcome, identity.held(), optional_str(stated)) {
                (Ok(()), _, _) => final(issues)@ == old(issues)@.remove(ISSUE_IDENTITY_MISMATCH@),
                (Err(_), Some(pinned), Some(other)) => if pinned != other {
                    mismatch_raised(old(issues)@, final(issues)@, pinned, other, now)
                } else {
                    final(issues)@ == old(issues)@
                },
                (Err(_), _, _) => final(issues)@ == old(issues)@,
            },
    {
        match outcome {
            Ok(()) => {
                status.set_identity_verified(true);
                issues.clear(ISSUE_IDENTITY_MISMATCH);
            },
            Err(error) => {
                status.set_identity_verified(false);
                status.record_master_error(error.clone());
                if let Some(pinned) = identity.current() {
                    if let Some(other) = stated {
                        if !same(pinned.as_str(), other) {
                            issues.raise(
                                ISSUE_IDENTITY_MISMATCH,
                                Issue::IdentityMismatch {
                                    pinned,
                                    stated: other.to_owned(),
                                    since: now,
                                },
                            );
                        }
                    }
                }
            },
        }
    }
}

/// What a frame asks for.
#[derive(Debug, Clone, Copy, PartialEq, Eq, Structural)]
pub enum StreamStep {
    /// Read on.
    Stay,
    /// Wake the worker, and read on.
    Wake,
    /// Close the stream.
    Drop,
}

impl ReplicaFollower {
    /// Acts on one frame. `accepted` says of a hello whether the identity that
    /// it states was accepted. An update is queued; a deletion only asks for
    /// the listing, which decides. A frame whose ids or whose commit have not
    /// their form is passed over.
    pub fn handle_event(
        &mut self,
        event: ReplicationEvent,
        accepted: bool,
        status: &mut ReplicaStatus,
        now: i64,
    ) -> (result: StreamStep)
        ensures
            final(self).is_same_node(old(self)),
            match event {
                ReplicationEvent::Hello { node_id, identity, .. } => {
                    &&& final(self).pending == old(self).pending
                    &&& final(self).full_reconcile_requested == old(self).full_reconcile_requested
                    &&& if identity is Some && !accepted {
                        result == StreamStep::Drop && final(status)@ == old(status)@
                    } else {
                        &&& result == StreamStep::Stay
                        &&& final(status)@ == (Following {
                            master_node_id: Some(node_id@),
                            master_contact_at: Some(now),
                            master_error: None,
                            ..old(status)@
                        })
                    }
                },
                ReplicationEvent::Heartbeat => {
                    &&& result == StreamStep::Stay
                    &&& *final(self) == *old(self)
                    &&& final(status)@ == old(status)@
                },
                ReplicationEvent::RepositoryUpdated { collection_id, tenant_id, head_sha } => {
                    &&& final(self).full_reconcile_requested == old(self).full_reconcile_requested
                    &&& final(status)@ == old(status)@
                    &&& if entry_fault(collection_id@, tenant_id@, head_sha@) is None {
                        &&& result == StreamStep::Wake
                        &&& final(self).pending@ == old(self).pending@.insert(
                            repository_key(collection_id@, tenant_id@),
                            Sync {
                                collection_id: collection_id@,
                                tenant_id: tenant_id@,
                                target: Target::At(head_sha@),
                            },
                        )
                    } else {
                        result == StreamStep::Stay && final(self).pending == old(self).pending
                    }
                },
                ReplicationEvent::RepositoryDeleted { collection_id, tenant_id } => {
                    &&& final(self).pending == old(self).pending
                    &&& final(status)@ == old(status)@
                    &&& final(self).full_reconcile_requested == (ids_fault(
                        collection_id@,
                        tenant_id@,
                    ) is None || old(self).full_reconcile_requested)
                    &&& result == if ids_fault(collection_id@, tenant_id@) is None {
                        StreamStep::Wake
                    } else {
                        StreamStep::Stay
                    }
                },
            },
    {
        match event {
            ReplicationEvent::Hello { node_id, identity, .. } => {
                if identity.is_some() && !accepted {
                    return StreamStep::Drop;
                }
                status.record_master_identity(node_id, now);
                StreamStep::Stay
            },
            ReplicationEvent::Heartbeat => StreamStep::Stay,
            ReplicationEvent::RepositoryUpdated { collection_id, tenant_id, head_sha } => {
                if validate_entry(
                    collection_id.as_str(),
                    tenant_id.as_str(),
                    head_sha.as_str(),
                ).is_err() {
                    return StreamStep::Stay;
                }
                self.pending.queue(collection_id.as_str(), tenant_id.as_str(), head_sha.as_str());
                StreamStep::Wake
            },
            ReplicationEvent::RepositoryDeleted { collection_id, tenant_id } => {
                if validate_identifiers(collection_id.as_str(), tenant_id.as_str()).is_err() {
                    return StreamStep::Stay;
                }
                self.request_full_reconcile();
                StreamStep::Wake
            },
        }
    }

    /// Takes up that a stream is open. Whatever happened before went
    /// unannounced, so the listing is to be compared.
    pub fn stream_opened(&mut self, status: &mut ReplicaStatus, issues: &mut Issues)
        requires
            old(issues).is_valid(),
        ensures
            final(issues).is_valid(),
            final(issues)@ == old(issues)@.remove(ISSUE_NODE_ID_COLLISION@),
            final(status)@ == (Following { stream_connected: true, ..old(status)@ }),
            final(self).is_same_node(old(self)),
            final(self).pending == old(self).pending,
            final(self).full_reconcile_requested,
    {
        issues.clear(ISSUE_NODE_ID_COLLISION);
        status.set_stream_connected(true);
        self.request_full_reconcile();
    }

    /// Takes up that the master has had a stream under this node id for
    /// `elapsed_secs` since it first said so. Only one that persists is
    /// another node with the same id. Tells whether it is.
    pub fn stream_conflict(&self, elapsed_secs: u64, issues: &mut Issues, now: i64) -> (result: bool)
        requires
            old(issues).is_valid(),
        ensures
            final(issues).is_valid(),
            result == (elapsed_secs >= COLLISION_REPORT_AFTER_SECS),
            if result {
                let key = ISSUE_NODE_ID_COLLISION@;
                &&& final(issues)@ == old(issues)@.insert(key, final(issues)@[key])
                &&& match final(issues)@[key] {
                    Issue::NodeIdCollision { node_id, since } => node_id@ == self.node_id@ && since
                        == since_when(old(issues)@, key, now),
                    _ => false,
                }
            } else {
                final(issues)@ == old(issues)@
            },
    {
        if elapsed_secs < COLLISION_REPORT_AFTER_SECS {
            return false;
        }
        issues.raise(
            ISSUE_NODE_ID_COLLISION,
            Issue::NodeIdCollision { node_id: self.node_id.clone(), since: now },
        );
        true
    }
}

/// The pauses before a stream is opened again: each twice as long as the one
/// before, up to a limit.
#[derive(Debug)]
pub struct ReconnectBackoff {
    pub first_ms: u64,
    pub next_ms: u64,
}

/// The pause after a pause.
pub open spec fn longer_pause(pause_ms: u64) -> u64 {
    if 2 * pause_ms < MAXIMUM_RECONNECT_BACKOFF_MS {
        (2 * pause_ms) as u64
    } else {
        MAXIMUM_RECONNECT_BACKOFF_MS
    }
}

impl ReconnectBackoff {
    /// Pauses that begin at the given length.
    pub fn new(first_ms: u64) -> (result: Self)
        ensures
            result == (ReconnectBackoff { first_ms, next_ms: first_ms }),
    {
        ReconnectBackoff { first_ms, next_ms: first_ms }
    }

    /// Begins anew, once a stream was open.
    pub fn reset(&mut self)
        ensures
            *final(self) == (ReconnectBackoff {
                first_ms: old(self).first_ms,
                next_ms: old(self).first_ms,
            }),
    {
        self.next_ms = self.first_ms;
    }

    /// The length of the next pause.
    pub fn pause(&mut self) -> (result: u64)
        ensures
            result == old(self).next_ms,
            *final(self) == (ReconnectBackoff {
                first_ms: old(self).first_ms,
                next_ms: longer_pause(old(self).next_ms),
            }),
    {
        let pause_ms: u64 = self.next_ms;
        self.next_ms = if pause_ms < MAXIMUM_RECONNECT_BACKOFF_MS / 2 {
            pause_ms * 2
        } else {
            MAXIMUM_RECONNECT_BACKOFF_MS
        };
        pause_ms
    }
}

/// The first frame of a text and what is left after it: the first line that is
/// not blank, trimmed. A line ends with a line feed.
pub open spec fn first_frame(text: Seq<char>) -> (Option<Seq<char>>, Seq<char>)
    decreases text.len(),
{
    let end = first_position(text, '\n');
    if !text.contains('\n') {
        (None, text)
    } else if !(0 <= end < text.len()) {
        (None, text)
    } else {
        let line = trimmed(text.take(end));
        if line.len() > 0 {
            (Some(line), text.skip(end + 1))
        } else {
            first_frame(text.skip(end + 1))
        }
    }
}

/// What was received of a stream and is not yet cut into frames.
#[derive(Debug)]
pub struct FrameBuffer {
    text: String,
}

impl View for FrameBuffer {
    type V = Seq<char>;

    closed spec fn view(&self) -> Seq<char> {
        self.text@
    }
}

impl FrameBuffer {
    /// An empty buffer.
    pub fn new() -> (result: Self)
        ensures
            result@ == Seq::<char>::empty(),
    {
        FrameBuffer { text: String::new() }
    }

    /// Takes in more of the stream.
    pub fn push(&mut self, chunk: &str)
        ensures
            final(self)@ == old(self)@ + chunk@,
    {
        self.text.append(chunk);
    }

    /// Cuts off the next frame, if the buffer has a whole one.
    pub fn next_frame(&mut self) -> (result: Option<String>)
        ensures
            optional_text(result) == first_frame(old(self)@).0,
            final(self)@ == first_frame(old(self)@).1,
    {
        let mut rest: Vec<char> = characters(self.text.as_str());
        let ghost whole = rest@;
        loop
            invariant
                first_frame(rest@) == first_frame(whole),
                whole == self.text@,
                self.text@ == old(self)@,
            decreases rest@.len(),
        {
            let end: usize = find_first(rest.as_slice(), '\n');
            proof {
                lemma_first_position(rest@, '\n');
            }
            if end == rest.len() {
                assert(!rest@.contains('\n'));
                self.text = from_characters(rest.as_slice());
                return None;
            }
            assert(rest@[end as int] == '\n');
            let head: Vec<char> = copy_range(rest.as_slice(), 0, end);
            let tail: Vec<char> = copy_range(rest.as_slice(), end + 1, rest.len());
            assert(head@ =~= rest@.take(end as int));
            assert(tail@ =~= rest@.skip(end + 1));
            let line: Vec<char> = trim(head.as_slice());
            if line.len() > 0 {
                self.text = from_characters(tail.as_slice());
                return Some(from_characters(line.as_slice()));
            }
            rest = tail;
        }
    }
}

/// All frames of a text and what is left after them.
pub open spec fn frames_in(text: Seq<char>) -> (Seq<Seq<char>>, Seq<char>)
    decreases text.len(),
{
    let end = first_position(text, '\n');
    if !text.contains('\n') || !(0 <= end < text.len()) {
        (Seq::empty(), text)
    } else {
        let line = trimmed(text.take(end));
        let after = frames_in(text.skip(end + 1));
        if line.len() > 0 {
            (seq![line] + after.0, after.1)
        } else {
            after
        }
    }
}

/// The first frame is the first of all frames.
pub proof fn law_first_frame_is_first(text: Seq<char>)
    ensures
        match first_frame(text).0 {
            None => frames_in(text) == (Seq::<Seq<char>>::empty(), first_frame(text).1),
            Some(frame) => frames_in(text) == (
                seq![frame] + frames_in(first_frame(text).1).0,
                frames_in(first_frame(text).1).1,
            ),
        },
    decreases text.len(),
{
    let end = first_position(text, '\n');
    if text.contains('\n') && 0 <= end < text.len() {
        if trimmed(text.take(end)).len() == 0 {
            law_first_frame_is_first(text.skip(end + 1));
        }
    }
}

/// However a stream is cut on its way, the frames are the same: those of its
/// beginning, then those of what was left together with what follows.
pub proof fn law_chunks_do_not_matter(text: Seq<char>, more: Seq<char>)
    ensures
        frames_in(text + more).0 == frames_in(text).0 + frames_in(frames_in(text).1 + more).0,
        frames_in(text + more).1 == frames_in(frames_in(text).1 + more).1,
    decreases text.len(),
{
    let end = first_position(text, '\n');
    let whole = text + more;
    lemma_first_position(text, '\n');
    lemma_first_position(whole, '\n');
    if text.contains('\n') && 0 <= end < text.len() {
        let i = first_position(whole, '\n');
        assert(whole[end] == '\n');
        if i < end {
            assert(text[i] == whole[i]);
        }
        if end < i {
            assert(whole[end] != '\n');
        }
        assert(i == end);
        assert(whole.take(end) =~= text.take(end));
        assert(whole.skip(end + 1) =~= text.skip(end + 1) + more);
        law_chunks_do_not_matter(text.skip(end + 1), more);
        let line = trimmed(text.take(end));
        let after = frames_in(text.skip(end + 1));
        if line.len() > 0 {
            assert(seq![line] + (after.0 + frames_in(after.1 + more).0) =~= (seq![line] + after.0)
                + frames_in(after.1 + more).0);
        }
    } else {
        assert(frames_in(text).1 == text);
        assert(Seq::<Seq<char>>::empty() + frames_in(whole).0 =~= frames_in(whole).0);
    }
}

/// The URL of a part of a master's replication server.
pub open spec fn part_url(master_url: Seq<char>, part: Seq<char>) -> Seq<char> {
    master_url + URL_PREFIX@ + part
}

/// The URL of a repository's pack, without the commits that lead to `have`.
pub open spec fn pack_url_of(
    master_url: Seq<char>,
    collection_id: Seq<char>,
    tenant_id: Seq<char>,
    have: Option<Seq<char>>,
) -> Seq<char> {
    let whole = master_url + URL_PREFIX@ + "/"@ + collection_id + "/"@ + tenant_id + "/pack"@;
    match have {
        Some(sha) => whole + "?have="@ + sha,
        None => whole,
    }
}

/// A header over characters.
pub open spec fn header_view(header: (&'static str, String)) -> (Seq<char>, Seq<char>) {
    (header.0@, header.1@)
}

/// Headers over characters.
pub open spec fn header_views(headers: Seq<(&'static str, String)>) -> Seq<(Seq<char>, Seq<char>)> {
    Seq::new(headers.len(), |i: int| header_view(headers[i]))
}

/// The headers by which a replica names itself on every request.
pub open spec fn naming_headers(follower: ReplicaFollower) -> Seq<(Seq<char>, Seq<char>)> {
    seq![
        (NODE_ID_HEADER@, follower.node_id@),
        (INSTANCE_HEADER@, follower.instance@),
        (PROTOCOL_HEADER@, decimal(PROTOCOL_VERSION as nat)),
        (POLL_INTERVAL_HEADER@, decimal(follower.poll_interval_secs as nat)),
    ]
}

impl ReplicaFollower {
    /// Where the master's listing is.
    pub fn state_url(&self) -> (result: String)
        ensures
            result@ == part_url(self.master_url@, "/state"@),
    {
        joined(joined(self.master_url.as_str(), URL_PREFIX).as_str(), "/state")
    }

    /// Where the master's health is.
    pub fn health_url(&self) -> (result: String)
        ensures
            result@ == part_url(self.master_url@, "/health"@),
    {
        joined(joined(self.master_url.as_str(), URL_PREFIX).as_str(), "/health")
    }

    /// Where the master's notification stream is.
    pub fn events_url(&self) -> (result: String)
        ensures
            result@ == part_url(self.master_url@, "/events"@),
    {
        joined(joined(self.master_url.as_str(), URL_PREFIX).as_str(), "/events")
    }

    /// Where a repository's pack is.
    pub fn pack_url(&self, collection_id: &str, tenant_id: &str, have: Option<&str>) -> (result:
        String)
        ensures
            result@ == pack_url_of(
                self.master_url@,
                collection_id@,
                tenant_id@,
                optional_str(have),
            ),
    {
        let mut url: String = joined(self.master_url.as_str(), URL_PREFIX);
        url.append("/");
        url.append(collection_id);
        url.append("/");
        url.append(tenant_id);
        url.append("/pack");
        if let Some(sha) = have {
            url.append("?have=");
            url.append(sha);
        }
        url
    }

    /// The headers by which this replica names itself on every request.
    pub fn request_headers(&self) -> (result: Vec<(&'static str, String)>)
        ensures
            header_views(result@) == naming_headers(*self),
    {
        let mut headers: Vec<(&'static str, String)> = Vec::new();
        headers.push((NODE_ID_HEADER, self.node_id.clone()));
        headers.push((INSTANCE_HEADER, self.instance.clone()));
        headers.push((PROTOCOL_HEADER, spell(PROTOCOL_VERSION as u64)));
        headers.push((POLL_INTERVAL_HEADER, spell(self.poll_interval_secs)));
        assert(header_views(headers@) =~= naming_headers(*self));
        headers
    }

    /// The same with what only this replica can know: how much it holds, how
    /// far it is behind, and how well it follows.
    pub fn reporting_headers(&self, status: &ReplicaStatus, issues: &Issues) -> (result: Vec<
        (&'static str, String),
    >)
        requires
            issues.is_valid(),
        ensures
            header_views(result@) == naming_headers(*self) + seq![
                (REPOSITORIES_HEADER@, decimal(status@.repositories as nat)),
                (PENDING_HEADER@, decimal(status@.pending as nat)),
                (
                    SYNC_HEADER@,
                    sync_word(sync_of(status@, issues.entries().len() > 0)),
                ),
            ],
    {
        let mut headers: Vec<(&'static str, String)> = self.request_headers();
        let ghost naming = headers@;
        headers.push((REPOSITORIES_HEADER, spell(status.repositories() as u64)));
        headers.push((PENDING_HEADER, spell(status.pending() as u64)));
        headers.push((SYNC_HEADER, status.sync_status(issues).as_str().to_owned()));
        assert(header_views(headers@) =~= header_views(naming) + seq![
            (REPOSITORIES_HEADER@, decimal(status@.repositories as nat)),
            (PENDING_HEADER@, decimal(status@.pending as nat)),
            (
                SYNC_HEADER@,
                sync_word(sync_of(status@, issues.entries().len() > 0)),
            ),
        ]);
        headers
    }
}

/// A replica that is pinned follows no master that states another identity,
/// and never gives up its pin for one.
pub proof fn law_other_identity_is_refused(
    follower: ReplicaFollower,
    stated: Seq<char>,
    may_pin: bool,
    pinned: Seq<char>,
    place: Seq<char>,
    master_node_id: Option<Seq<char>>,
)
    requires
        stated != pinned,
    ensures
        identity_verdict(
            follower,
            Some(stated),
            may_pin,
            Some(pinned),
            place,
            master_node_id,
        ) is Refused,
{
}

} // verus!
