//! The replicas that have introduced themselves to a node.
use vstd::prelude::*;
use crate::replication::issues::{collision_issue_key, Issues};
use crate::sorting::{is_sorted, lemma_sorted_views, stable_sort, stable_sorted, views};
use crate::text::{less, optional_text, same, text_less};

verus! {

/// Seconds after its last refusal for which a collision stays reported.
pub const COLLISION_EXPIRY_SECS: i64 = 150;

/// Seconds that a collision lasts before it is reported: two heartbeats.
pub const COLLISION_REPORT_AFTER_SECS: u64 = 40;

/// A map of an outside kind.
#[verifier::external_type_specification]
#[verifier::external_body]
#[verifier::reject_recursive_types(K)]
#[verifier::reject_recursive_types(V)]
#[verifier::reject_recursive_types(S)]
pub struct ExDashMap<K, V, S>(dashmap::DashMap<K, V, S>);

/// One replica as a node that it follows sees it.
#[derive(Debug)]
pub struct ReplicaPresence {
    pub node_id: String,
    pub stream_connected: bool,
    pub connected_at: Option<i64>,
    pub last_contact_at: Option<i64>,
    pub packs_delivered: u64,
    /// Repositories that the replica says it holds.
    pub repositories: Option<usize>,
    /// Repositories that the replica says it is behind on.
    pub pending_repositories: Option<usize>,
    /// How well the replica says it follows.
    pub sync: Option<String>,
    pub reported_at: Option<i64>,
    pub poll_interval_secs: Option<u64>,
    /// The process that holds the stream.
    pub instance: Option<String>,
    pub last_collision_at: Option<i64>,
    pub collision_since: Option<i64>,
}

/// A replica's row over characters.
pub struct Presence {
    pub node_id: Seq<char>,
    pub stream_connected: bool,
    pub connected_at: Option<i64>,
    pub last_contact_at: Option<i64>,
    pub packs_delivered: u64,
    pub repositories: Option<usize>,
    pub pending_repositories: Option<usize>,
    pub sync: Option<Seq<char>>,
    pub reported_at: Option<i64>,
    pub poll_interval_secs: Option<u64>,
    pub instance: Option<Seq<char>>,
    pub last_collision_at: Option<i64>,
    pub collision_since: Option<i64>,
}

impl View for ReplicaPresence {
    type V = Presence;

    open spec fn view(&self) -> Presence {
        Presence {
            node_id: self.node_id@,
            stream_connected: self.stream_connected,
            connected_at: self.connected_at,
            last_contact_at: self.last_contact_at,
            packs_delivered: self.packs_delivered,
            repositories: self.repositories,
            pending_repositories: self.pending_repositories,
            sync: optional_text(self.sync),
            reported_at: self.reported_at,
            poll_interval_secs: self.poll_interval_secs,
            instance: optional_text(self.instance),
            last_collision_at: self.last_collision_at,
            collision_since: self.collision_since,
        }
    }
}

/// Copies an optional text.
fn copy_text(text: &Option<String>) -> (result: Option<String>)
    ensures
        optional_text(result) == optional_text(*text),
{
    match text {
        Some(string) => Some(string.clone()),
        None => None,
    }
}

/// Copies a replica's row.
pub fn copy_presence(row: &ReplicaPresence) -> (result: ReplicaPresence)
    ensures
        result@ == row@,
{
    ReplicaPresence {
        node_id: row.node_id.clone(),
        stream_connected: row.stream_connected,
        connected_at: row.connected_at,
        last_contact_at: row.last_contact_at,
        packs_delivered: row.packs_delivered,
        repositories: row.repositories,
        pending_repositories: row.pending_repositories,
        sync: copy_text(&row.sync),
        reported_at: row.reported_at,
        poll_interval_secs: row.poll_interval_secs,
        instance: copy_text(&row.instance),
        last_collision_at: row.last_collision_at,
        collision_since: row.collision_since,
    }
}

/// The rows that a map holds, by their keys.
pub uninterp spec fn roster_rows(map: dashmap::DashMap<String, ReplicaPresence>) -> Map<
    Seq<char>,
    Presence,
>;

/// No rows.
pub open spec fn no_rows() -> Map<Seq<char>, Presence> {
    Map::empty()
}

/// `dashmap::DashMap::new`: a map without rows.
#[verifier::external_body]
fn new_rows() -> (result: dashmap::DashMap<String, ReplicaPresence>)
    ensures
        roster_rows(result) == no_rows(),
{
    dashmap::DashMap::new()
}

/// `dashmap::DashMap::remove`: takes the row of a key out, if there is one.
#[verifier::external_body]
fn take_row(map: &mut dashmap::DashMap<String, ReplicaPresence>, key: &str) -> (result: Option<
    ReplicaPresence,
>)
    ensures
        roster_rows(*final(map)) == roster_rows(*old(map)).remove(key@),
        match result {
            Some(row) => roster_rows(*old(map)).contains_key(key@) && roster_rows(*old(map))[key@]
                == row@,
            None => !roster_rows(*old(map)).contains_key(key@),
        },
{
    map.remove(key).map(|entry| entry.1)
}

/// `dashmap::DashMap::insert`: sets the row of a key.
#[verifier::external_body]
fn put_row(map: &mut dashmap::DashMap<String, ReplicaPresence>, key: String, row: ReplicaPresence)
    ensures
        roster_rows(*final(map)) == roster_rows(*old(map)).insert(key@, row@),
{
    map.insert(key, row);
}

/// `dashmap::DashMap::iter`: a copy of every row with its key, each once, in
/// no particular order.
#[verifier::external_body]
fn all_rows(map: &dashmap::DashMap<String, ReplicaPresence>) -> (result: Vec<
    (String, ReplicaPresence),
>)
    ensures
        lists_rows(result@, roster_rows(*map)),
{
    map.iter().map(|entry| (entry.key().clone(), copy_presence(entry.value()))).collect()
}

/// Whether a list holds every row of a map under its key, once.
pub open spec fn lists_rows(
    list: Seq<(String, ReplicaPresence)>,
    rows: Map<Seq<char>, Presence>,
) -> bool {
    &&& forall|i: int|
        0 <= i < list.len() ==> rows.contains_key((#[trigger] list[i]).0@) && rows[list[i].0@]
            == list[i].1@
    &&& forall|i: int, j: int|
        0 <= i < j < list.len() ==> (#[trigger] list[i]).0@ != (#[trigger] list[j]).0@
    &&& forall|key: Seq<char>| #[trigger]
        rows.contains_key(key) ==> exists|i: int|
            0 <= i < list.len() && (#[trigger] list[i]).0@ == key
}

/// The row of a replica that was not heard of before.
pub open spec fn blank(node_id: Seq<char>) -> Presence {
    Presence {
        node_id,
        stream_connected: false,
        connected_at: None,
        last_contact_at: None,
        packs_delivered: 0,
        repositories: None,
        pending_repositories: None,
        sync: None,
        reported_at: None,
        poll_interval_secs: None,
        instance: None,
        last_collision_at: None,
        collision_since: None,
    }
}

/// The row of a replica: its own, or a blank one.
pub open spec fn row_of(rows: Map<Seq<char>, Presence>, node_id: Seq<char>) -> Presence {
    if rows.contains_key(node_id) {
        rows[node_id]
    } else {
        blank(node_id)
    }
}

/// A row after a request, with what the replica volunteered.
pub open spec fn noted(
    row: Presence,
    repositories: Option<usize>,
    pending: Option<usize>,
    sync: Option<Seq<char>>,
    poll_interval_secs: Option<u64>,
    now: i64,
) -> Presence {
    let reported = repositories is Some || pending is Some || sync is Some;
    Presence {
        last_contact_at: Some(now),
        repositories: if reported {
            repositories
        } else {
            row.repositories
        },
        pending_repositories: if reported {
            pending
        } else {
            row.pending_repositories
        },
        sync: if reported {
            sync
        } else {
            row.sync
        },
        reported_at: if reported {
            Some(now)
        } else {
            row.reported_at
        },
        poll_interval_secs: if poll_interval_secs is Some {
            poll_interval_secs
        } else {
            row.poll_interval_secs
        },
        ..row
    }
}

/// Whether another process holds the stream of a row.
pub open spec fn collides(row: Presence, instance: Seq<char>) -> bool {
    row.stream_connected && row.instance is Some && row.instance != Some(instance)
}

/// When the current run of refusals of a row began; a refusal long after the
/// last one begins a new run.
pub open spec fn refusals_since(row: Presence, now: i64) -> i64 {
    let fresh = match row.last_collision_at {
        Some(last) => now - last > COLLISION_EXPIRY_SECS,
        None => true,
    };
    if fresh || row.collision_since is None {
        now
    } else {
        row.collision_since->0
    }
}

/// A row after a refused stream.
pub open spec fn refused(row: Presence, now: i64) -> Presence {
    Presence {
        last_collision_at: Some(now),
        collision_since: Some(refusals_since(row, now)),
        ..row
    }
}

/// A row after its stream opened.
pub open spec fn opened(row: Presence, instance: Seq<char>, now: i64) -> Presence {
    Presence {
        stream_connected: true,
        connected_at: Some(now),
        last_contact_at: Some(now),
        instance: Some(instance),
        collision_since: None,
        ..row
    }
}

/// A row after a stream ended: closed if it was the one that holds the row.
pub open spec fn closed(row: Presence, instance: Seq<char>, now: i64) -> Presence {
    if row.instance == Some(instance) {
        Presence { stream_connected: false, last_contact_at: Some(now), ..row }
    } else {
        row
    }
}

impl ReplicaPresence {
    /// Marks the stream of this row open.
    fn open(&mut self, instance: &str, now: i64)
        ensures
            final(self)@ == opened(old(self)@, instance@, now),
    {
        self.stream_connected = true;
        self.connected_at = Some(now);
        self.last_contact_at = Some(now);
        self.instance = Some(instance.to_owned());
        self.collision_since = None;
    }
}

/// Whether one contact is later than another; any is later than none.
pub open spec fn later(left: Option<i64>, right: Option<i64>) -> bool {
    match (left, right) {
        (Some(a), Some(b)) => a > b,
        (Some(_), None) => true,
        (None, _) => false,
    }
}

/// Whether a row is shown before another: last heard of first, then by name.
pub open spec fn shown_before(left: Presence, right: Presence) -> bool {
    later(left.last_contact_at, right.last_contact_at) || (left.last_contact_at
        == right.last_contact_at && text_less(left.node_id, right.node_id))
}

/// A stream was refused: its node id is connected from another process.
#[derive(Debug)]
pub struct StreamCollision {
    pub node_id: String,
    /// Whether it has lasted long enough to be reported.
    pub persisting: bool,
    /// When this run of refusals began.
    pub since: i64,
}

/// Whether the collision of a row is over.
pub open spec fn is_expired(row: Presence, now: i64) -> bool {
    row.last_collision_at matches Some(last) && now - last > COLLISION_EXPIRY_SECS
}

/// Whether a key is that of a collision which is over.
pub open spec fn expires(rows: Map<Seq<char>, Presence>, now: i64, key: Seq<char>) -> bool {
    exists|node_id: Seq<char>| #[trigger]
        rows.contains_key(node_id) && is_expired(rows[node_id], now) && key == collision_issue_key(
            node_id,
        )
}

/// The replicas that follow this node. A row stays after its replica is gone.
pub struct ReplicaRegistry {
    replicas: dashmap::DashMap<String, ReplicaPresence>,
}

impl ReplicaRegistry {
    /// The rows, by node id.
    pub closed spec fn rows(&self) -> Map<Seq<char>, Presence> {
        roster_rows(self.replicas)
    }

    /// Whether every row is under its own node id.
    pub open spec fn is_valid(&self) -> bool {
        forall|key: Seq<char>| #[trigger]
            self.rows().contains_key(key) ==> self.rows()[key].node_id == key
    }

    /// No replicas.
    pub fn new() -> (result: Self)
        ensures
            result.is_valid(),
            result.rows() == no_rows(),
    {
        ReplicaRegistry { replicas: new_rows() }
    }

    /// Takes the row of a replica out, or makes a blank one.
    fn take(&mut self, node_id: &str) -> (result: ReplicaPresence)
        ensures
            result@ == row_of(old(self).rows(), node_id@),
            final(self).rows() == old(self).rows().remove(node_id@),
    {
        match take_row(&mut self.replicas, node_id) {
            Some(row) => row,
            None => ReplicaPresence {
                node_id: node_id.to_owned(),
                stream_connected: false,
                connected_at: None,
                last_contact_at: None,
                packs_delivered: 0,
                repositories: None,
                pending_repositories: None,
                sync: None,
                reported_at: None,
                poll_interval_secs: None,
                instance: None,
                last_collision_at: None,
                collision_since: None,
            },
        }
    }

    /// Puts the row of a replica back.
    fn put(&mut self, node_id: &str, row: ReplicaPresence)
        ensures
            final(self).rows() == old(self).rows().insert(node_id@, row@),
    {
        put_row(&mut self.replicas, node_id.to_owned(), row);
    }

    /// Records a request of a replica.
    pub fn note_request(
        &mut self,
        node_id: &str,
        repositories: Option<usize>,
        pending: Option<usize>,
        sync: Option<String>,
        poll_interval_secs: Option<u64>,
        now: i64,
    )
        requires
            old(self).is_valid(),
        ensures
            final(self).is_valid(),
            final(self).rows() == old(self).rows().insert(
                node_id@,
                noted(
                    row_of(old(self).rows(), node_id@),
                    repositories,
                    pending,
                    optional_text(sync),
                    poll_interval_secs,
                    now,
                ),
            ),
    {
        let ghost before = self.rows();
        let mut row: ReplicaPresence = self.take(node_id);
        row.last_contact_at = Some(now);
        if repositories.is_some() || pending.is_some() || sync.is_some() {
            row.repositories = repositories;
            row.pending_repositories = pending;
            row.sync = sync;
            row.reported_at = Some(now);
        }
        if poll_interval_secs.is_some() {
            row.poll_interval_secs = poll_interval_secs;
        }
        let ghost stored = row@;
        self.put(node_id, row);
        assert(self.rows() =~= before.insert(node_id@, stored));
    }

    /// Records that a replica was served a pack.
    pub fn note_pack_delivered(&mut self, node_id: &str, now: i64)
        requires
            old(self).is_valid(),
            row_of(old(self).rows(), node_id@).packs_delivered < u64::MAX,
        ensures
            final(self).is_valid(),
            ({
                let row = row_of(old(self).rows(), node_id@);
                final(self).rows() == old(self).rows().insert(
                    node_id@,
                    Presence {
                        packs_delivered: (row.packs_delivered + 1) as u64,
                        last_contact_at: Some(now),
                        ..row
                    },
                )
            }),
    {
        let ghost before = self.rows();
        let mut row: ReplicaPresence = self.take(node_id);
        row.packs_delivered = row.packs_delivered + 1;
        row.last_contact_at = Some(now);
        let ghost stored = row@;
        self.put(node_id, row);
        assert(self.rows() =~= before.insert(node_id@, stored));
    }

    /// Marks the stream of a replica open, unless another process holds one
    /// under the same node id.
    pub fn stream_opened(&mut self, node_id: &str, instance: &str, now: i64) -> (result: Result<
        (),
        StreamCollision,
    >)
        requires
            old(self).is_valid(),
        ensures
            final(self).is_valid(),
            ({
                let row = row_of(old(self).rows(), node_id@);
                match result {
                    Ok(()) => !collides(row, instance@) && final(self).rows()
                        == old(self).rows().insert(node_id@, opened(row, instance@, now)),
                    Err(collision) => {
                        &&& collides(row, instance@)
                        &&& final(self).rows() == old(self).rows().insert(
                            node_id@,
                            refused(row, now),
                        )
                        &&& collision.node_id@ == node_id@
                        &&& collision.since == refusals_since(row, now)
                        &&& collision.persisting == (now - collision.since
                            >= COLLISION_REPORT_AFTER_SECS)
                    },
                }
            }),
    {
        let ghost before = self.rows();
        let mut row: ReplicaPresence = self.take(node_id);
        let ghost found = row@;
        let held_by_other: bool = match &row.instance {
            Some(holder) => row.stream_connected && !same(holder.as_str(), instance),
            None => false,
        };
        if held_by_other {
            let fresh: bool = match row.last_collision_at {
                Some(last) => (now as i128) - (last as i128) > COLLISION_EXPIRY_SECS as i128,
                None => true,
            };
            let since: i64 = match row.collision_since {
                Some(start) => if fresh {
                    now
                } else {
                    start
                },
                None => now,
            };
            row.collision_since = Some(since);
            row.last_collision_at = Some(now);
            let ghost stored = row@;
            self.put(node_id, row);
            assert(self.rows() =~= before.insert(node_id@, stored));
            return Err(
                StreamCollision {
                    node_id: node_id.to_owned(),
                    persisting: (now as i128) - (since as i128)
                        >= COLLISION_REPORT_AFTER_SECS as i128,
                    since,
                },
            );
        }
        row.open(instance, now);
        let ghost stored = row@;
        self.put(node_id, row);
        assert(self.rows() =~= before.insert(node_id@, stored));
        Ok(())
    }

    /// Marks the stream of a replica open, whichever process holds one under
    /// the same node id.
    pub fn stream_admitted(&mut self, node_id: &str, instance: &str, now: i64)
        requires
            old(self).is_valid(),
        ensures
            final(self).is_valid(),
            final(self).rows() == old(self).rows().insert(
                node_id@,
                opened(row_of(old(self).rows(), node_id@), instance@, now),
            ),
    {
        let ghost before = self.rows();
        let mut row: ReplicaPresence = self.take(node_id);
        row.open(instance, now);
        let ghost stored = row@;
        self.put(node_id, row);
        assert(self.rows() =~= before.insert(node_id@, stored));
    }

    /// Marks the stream of a replica closed, if `instance` is the process
    /// that holds it.
    pub fn stream_closed(&mut self, node_id: &str, instance: &str, now: i64)
        requires
            old(self).is_valid(),
        ensures
            final(self).is_valid(),
            final(self).rows() == old(self).rows().insert(
                node_id@,
                closed(row_of(old(self).rows(), node_id@), instance@, now),
            ),
    {
        let ghost before = self.rows();
        let mut row: ReplicaPresence = self.take(node_id);
        let holds: bool = match &row.instance {
            Some(holder) => same(holder.as_str(), instance),
            None => false,
        };
        if holds {
            row.stream_connected = false;
            row.last_contact_at = Some(now);
        }
        let ghost stored = row@;
        self.put(node_id, row);
        assert(self.rows() =~= before.insert(node_id@, stored));
    }

    /// Every row, last heard of first.
    pub fn roster(&self) -> (result: Vec<ReplicaPresence>)
        requires
            self.is_valid(),
        ensures
            is_roster(views(result@), self.rows()),
    {
        let listed: Vec<(String, ReplicaPresence)> = all_rows(&self.replicas);
        let mut rows: Vec<ReplicaPresence> = Vec::new();
        let mut i: usize = 0;
        while i < listed.len()
            invariant
                i <= listed.len(),
                rows.len() == i,
                forall|j: int| 0 <= j < i ==> (#[trigger] rows@[j])@ == listed@[j].1@,
            decreases listed.len() - i,
        {
            rows.push(copy_presence(&listed[i].1));
            i = i + 1;
        }
        let precedes = |left: &ReplicaPresence, right: &ReplicaPresence| -> (r: bool)
            ensures
                r == shown_before(left@, right@),
            {
                Self::is_later(left.last_contact_at, right.last_contact_at) || (
                Self::is_same_contact(left.last_contact_at, right.last_contact_at) && less(
                    left.node_id.as_str(),
                    right.node_id.as_str(),
                ))
            };
        let ghost before = |left: ReplicaPresence, right: ReplicaPresence|
            shown_before(left@, right@);
        let ghost before_view = |left: Presence, right: Presence| shown_before(left, right);
        let ghost unsorted = views(rows@);
        proof {
            lemma_sorted_views(rows@, before, before_view);
        }
        let sorted: Vec<ReplicaPresence> = stable_sort(rows, precedes, Ghost(before));
        proof {
            assert forall|j: int| 0 <= j < unsorted.len() implies self.rows().contains_key(
                (#[trigger] unsorted[j]).node_id,
            ) && self.rows()[unsorted[j].node_id] == unsorted[j] && unsorted[j].node_id
                == listed@[j].0@ by {
                assert(unsorted[j] == listed@[j].1@);
                assert(self.rows().contains_key(listed@[j].0@));
            }
            assert forall|key: Seq<char>| #[trigger] self.rows().contains_key(key) implies exists|
                j: int,
            |
                0 <= j < unsorted.len() && (#[trigger] unsorted[j]).node_id == key by {
                let j = choose|j: int| 0 <= j < listed@.len() && (#[trigger] listed@[j]).0@ == key;
                assert(unsorted[j].node_id == key);
            }
            assert forall|a: int, b: int| 0 <= a < b < unsorted.len() implies (
            #[trigger] unsorted[a]).node_id != (#[trigger] unsorted[b]).node_id by {
                assert(listed@[a].0@ != listed@[b].0@);
            }
            lemma_roster(unsorted, self.rows());
        }
        sorted
    }

    fn is_later(left: Option<i64>, right: Option<i64>) -> (result: bool)
        ensures
            result == later(left, right),
    {
        match (left, right) {
            (Some(a), Some(b)) => a > b,
            (Some(_), None) => true,
            (None, _) => false,
        }
    }

    fn is_same_contact(left: Option<i64>, right: Option<i64>) -> (result: bool)
        ensures
            result == (left == right),
    {
        match (left, right) {
            (Some(a), Some(b)) => a == b,
            (None, None) => true,
            _ => false,
        }
    }

    /// Closes the collision issues of replicas that have not been refused for
    /// a while.
    pub fn expire_collisions(&self, issues: &mut Issues, now: i64)
        requires
            old(issues).is_valid(),
        ensures
            final(issues).is_valid(),
            forall|key: Seq<char>| #[trigger]
                final(issues)@.contains_key(key) <==> old(issues)@.contains_key(key) && !expires(
                    self.rows(),
                    now,
                    key,
                ),
            forall|key: Seq<char>|
                final(issues)@.contains_key(key) ==> #[trigger] final(issues)@[key] == old(
                    issues,
                )@[key],
    {
        let listed: Vec<(String, ReplicaPresence)> = all_rows(&self.replicas);
        let ghost rows = self.rows();
        let ghost before = issues@;
        let mut i: usize = 0;
        while i < listed.len()
            invariant
                i <= listed.len(),
                issues.is_valid(),
                forall|key: Seq<char>| #[trigger]
                    issues@.contains_key(key) <==> before.contains_key(key) && !expired_in(
                        listed@,
                        i as int,
                        now,
                        key,
                    ),
                forall|key: Seq<char>|
                    issues@.contains_key(key) ==> #[trigger] issues@[key] == before[key],
            decreases listed.len() - i,
        {
            let ghost current = issues@;
            let over: bool = match listed[i].1.last_collision_at {
                Some(last) => (now as i128) - (last as i128) > COLLISION_EXPIRY_SECS as i128,
                None => false,
            };
            assert(over == is_expired(listed@[i as int].1@, now));
            let ghost closed_key = collision_issue_key(listed@[i as int].0@);
            if over {
                issues.clear(Issues::collision_key(listed[i].0.as_str()).as_str());
            }
            assert forall|key: Seq<char>| #[trigger] issues@.contains_key(key)
                <==> before.contains_key(key) && !expired_in(listed@, i + 1, now, key) by {
                assert(current.contains_key(key) <==> before.contains_key(key) && !expired_in(
                    listed@,
                    i as int,
                    now,
                    key,
                ));
                assert(expired_in(listed@, i + 1, now, key) <==> expired_in(
                    listed@,
                    i as int,
                    now,
                    key,
                ) || (over && key == closed_key)) by {
                    if expired_in(listed@, i as int, now, key) {
                        let k = choose|k: int|
                            0 <= k < i && is_expired((#[trigger] listed@[k]).1@, now) && key
                                == collision_issue_key(listed@[k].0@);
                        assert(k < i + 1);
                    }
                    if over && key == closed_key {
                        assert(is_expired(listed@[i as int].1@, now));
                    }
                }
            }
            i = i + 1;
        }
        assert forall|key: Seq<char>| expired_in(listed@, listed@.len() as int, now, key) <==> #[trigger] expires(
            rows,
            now,
            key,
        ) by {
            if expires(rows, now, key) {
                let node_id = choose|node_id: Seq<char>| #[trigger]
                    rows.contains_key(node_id) && is_expired(rows[node_id], now) && key
                        == collision_issue_key(node_id);
                let k = choose|k: int| 0 <= k < listed@.len() && (#[trigger] listed@[k]).0@
                    == node_id;
                assert(rows[listed@[k].0@] == listed@[k].1@);
            }
            if expired_in(listed@, listed@.len() as int, now, key) {
                let k = choose|k: int|
                    0 <= k < listed@.len() && is_expired((#[trigger] listed@[k]).1@, now) && key
                        == collision_issue_key(listed@[k].0@);
                assert(rows.contains_key(listed@[k].0@));
            }
        }
    }
}

/// Whether one of the first rows of a list has an expired collision under a
/// key.
spec fn expired_in(
    listed: Seq<(String, ReplicaPresence)>,
    count: int,
    now: i64,
    key: Seq<char>,
) -> bool {
    exists|k: int|
        0 <= k < count && is_expired((#[trigger] listed[k]).1@, now) && key == collision_issue_key(
            listed[k].0@,
        )
}

/// Whether a list is the roster of a map of rows: each row once, last heard
/// of first.
pub open spec fn is_roster(list: Seq<Presence>, rows: Map<Seq<char>, Presence>) -> bool {
    &&& is_sorted(list, |left: Presence, right: Presence| shown_before(left, right))
    &&& forall|i: int|
        0 <= i < list.len() ==> rows.contains_key((#[trigger] list[i]).node_id)
            && rows[list[i].node_id] == list[i]
    &&& forall|i: int, j: int|
        0 <= i < j < list.len() ==> (#[trigger] list[i]).node_id != (#[trigger] list[j]).node_id
    &&& forall|key: Seq<char>| #[trigger]
        rows.contains_key(key) ==> exists|i: int|
            0 <= i < list.len() && (#[trigger] list[i]).node_id == key
}

proof fn lemma_shown_before_ranks()
    ensures
        crate::sorting::is_ranking(|left: Presence, right: Presence| shown_before(left, right)),
{
    let before = |left: Presence, right: Presence| shown_before(left, right);
    assert forall|a: Presence, b: Presence| #[trigger] before(a, b) implies !before(b, a) by {
        if text_less(a.node_id, b.node_id) && text_less(b.node_id, a.node_id) {
            crate::text::lemma_less_transitive(a.node_id, b.node_id, a.node_id);
            crate::text::lemma_less_irreflexive(a.node_id);
        }
    }
    assert forall|a: Presence, b: Presence, c: Presence| !#[trigger] before(a, b)
        && !#[trigger] before(b, c) implies !before(a, c) by {
        if before(a, c) {
            crate::text::lemma_less_total(a.node_id, b.node_id);
            crate::text::lemma_less_total(b.node_id, c.node_id);
            if text_less(b.node_id, a.node_id) && text_less(a.node_id, c.node_id) {
                crate::text::lemma_less_transitive(b.node_id, a.node_id, c.node_id);
            }
            if text_less(a.node_id, c.node_id) && text_less(c.node_id, b.node_id) {
                crate::text::lemma_less_transitive(a.node_id, c.node_id, b.node_id);
            }
        }
    }
}

proof fn lemma_roster(unsorted: Seq<Presence>, rows: Map<Seq<char>, Presence>)
    requires
        forall|i: int|
            0 <= i < unsorted.len() ==> rows.contains_key((#[trigger] unsorted[i]).node_id)
                && rows[unsorted[i].node_id] == unsorted[i],
        forall|i: int, j: int|
            0 <= i < j < unsorted.len() ==> (#[trigger] unsorted[i]).node_id != (
            #[trigger] unsorted[j]).node_id,
        forall|key: Seq<char>| #[trigger]
            rows.contains_key(key) ==> exists|i: int|
                0 <= i < unsorted.len() && (#[trigger] unsorted[i]).node_id == key,
    ensures
        is_roster(
            stable_sorted(
                unsorted,
                |left: Presence, right: Presence| shown_before(left, right),
            ),
            rows,
        ),
{
    let before = |left: Presence, right: Presence| shown_before(left, right);
    let list = stable_sorted(unsorted, before);
    lemma_shown_before_ranks();
    crate::sorting::lemma_sorted_is_sorted(unsorted, before);
    crate::sorting::lemma_sorted_keeps_items(unsorted, before);
    broadcast use vstd::seq_lib::to_multiset_contains;

    assert(unsorted.no_duplicates()) by {
        assert forall|i: int, j: int|
            0 <= i < unsorted.len() && 0 <= j < unsorted.len() && i != j implies unsorted[i]
            != unsorted[j] by {
            if i < j {
                assert(unsorted[i].node_id != unsorted[j].node_id);
            } else {
                assert(unsorted[j].node_id != unsorted[i].node_id);
            }
        }
    }
    unsorted.lemma_multiset_has_no_duplicates();
    list.lemma_multiset_has_no_duplicates_conv();
    assert forall|i: int| 0 <= i < list.len() implies rows.contains_key(
        (#[trigger] list[i]).node_id,
    ) && rows[list[i].node_id] == list[i] by {
        assert(list.contains(list[i]));
        assert(list.to_multiset().count(list[i]) > 0);
        assert(unsorted.contains(list[i]));
        let k = choose|k: int| 0 <= k < unsorted.len() && unsorted[k] == list[i];
        assert(unsorted[k] == list[i]);
    }
    assert forall|i: int, j: int| 0 <= i < j < list.len() implies (#[trigger] list[i]).node_id != (
    #[trigger] list[j]).node_id by {
        assert(list[i] != list[j]);
    }
    assert forall|key: Seq<char>| #[trigger] rows.contains_key(key) implies exists|i: int|
        0 <= i < list.len() && (#[trigger] list[i]).node_id == key by {
        let k = choose|k: int| 0 <= k < unsorted.len() && (#[trigger] unsorted[k]).node_id == key;
        assert(unsorted.contains(unsorted[k]));
        assert(unsorted.to_multiset().count(unsorted[k]) > 0);
        assert(list.contains(unsorted[k]));
        let i = choose|i: int| 0 <= i < list.len() && list[i] == unsorted[k];
        assert(list[i].node_id == key);
    }
}

/// A process that reconnects is let in, whatever was recorded before.
pub proof fn law_reconnect_is_let_in(row: Presence, instance: Seq<char>, now: i64)
    ensures
        !collides(opened(row, instance, now), instance),
{
}

/// A stream that was replaced cannot close the one that replaced it.
pub proof fn law_old_stream_closes_nothing(
    row: Presence,
    old_instance: Seq<char>,
    instance: Seq<char>,
    now: i64,
    later_now: i64,
)
    requires
        old_instance != instance,
    ensures
        closed(opened(row, instance, now), old_instance, later_now) == opened(row, instance, now),
{
}

} // verus!
