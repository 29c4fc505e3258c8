//! The replica side: comparing a master's listing with what is held here,
//! syncing repositories, and deciding when to stop and wait for an operator.
use vstd::prelude::*;
use crate::config::ReplicationConfig;
use crate::error::fault_message;
use crate::keyed::{keys_of, lemma_key_count, TextMap};
use crate::replication::index::{key_of, last_scanned, repository_key};
use crate::replication::issues::{
    dated, repository_issue_key, since_of, Issue, Issues, ISSUE_DELETION_REFUSED,
};
use crate::replication::pending::{no_syncs, PendingSet, PendingSync, Sync, SyncTarget, Target};
use crate::replication::status::{Following, ReplicaStatus};
use crate::replication::wire::{Head, RepositoryEntry, RepositoryHead, RepositoryListing};
use crate::sorting::views;
use crate::text::{
    characters, find_first, first_position, joined, lemma_first_position, same, strip_trailing, texts,
    without_trailing,
};
use crate::url::{redact_url, redacted};
use crate::validate;
use crate::validate::{collection_fault, commit_fault, tenant_fault};

verus! {

/// The least number of repositories that the deletion guard protects.
pub const DELETION_GUARD_MINIMUM_HELD: usize = 2;

/// What is wrong with the ids of a repository that a master names, if
/// anything.
pub open spec fn ids_fault(collection_id: Seq<char>, tenant_id: Seq<char>) -> Option<Seq<char>> {
    match (collection_fault(collection_id), tenant_fault(tenant_id)) {
        (Some(fault), _) => Some("collection id: "@ + fault_message(fault)),
        (None, Some(fault)) => Some("tenant id: "@ + fault_message(fault)),
        (None, None) => None,
    }
}

/// What is wrong with a repository that a master names, if anything.
pub open spec fn entry_fault(
    collection_id: Seq<char>,
    tenant_id: Seq<char>,
    head_sha: Seq<char>,
) -> Option<Seq<char>> {
    match (ids_fault(collection_id, tenant_id), commit_fault(head_sha)) {
        (Some(reason), _) => Some(reason),
        (None, Some(fault)) => Some("head sha: "@ + fault_message(fault)),
        (None, None) => None,
    }
}

/// Checks the ids of a repository that a master names: they end up as a path
/// on this disk.
pub fn validate_identifiers(collection_id: &str, tenant_id: &str) -> (result: Result<(), String>)
    ensures
        match result {
            Ok(()) => ids_fault(collection_id@, tenant_id@) is None,
            Err(reason) => ids_fault(collection_id@, tenant_id@) == Some(reason@),
        },
{
    if let Err(error) = validate::collection_id(collection_id) {
        return Err(joined("collection id: ", error.message().as_str()));
    }
    match validate::tenant_id(tenant_id) {
        Ok(()) => Ok(()),
        Err(error) => Err(joined("tenant id: ", error.message().as_str())),
    }
}

/// Checks a repository that a master names.
pub fn validate_entry(collection_id: &str, tenant_id: &str, head_sha: &str) -> (result: Result<
    (),
    String,
>)
    ensures
        match result {
            Ok(()) => entry_fault(collection_id@, tenant_id@, head_sha@) is None,
            Err(reason) => entry_fault(collection_id@, tenant_id@, head_sha@) == Some(reason@),
        },
{
    if let Err(reason) = validate_identifiers(collection_id, tenant_id) {
        return Err(reason);
    }
    match validate::commit_sha(head_sha) {
        Ok(()) => Ok(()),
        Err(error) => Err(joined("head sha: ", error.message().as_str())),
    }
}

/// What a reconcile leaves to do and to report.
#[derive(Debug)]
pub struct ReconcileReport {
    /// Repositories that an operator removed here, to be dropped from the
    /// index.
    pub forgotten: Vec<(String, String)>,
    /// How many repositories of the listing differ.
    pub stale: usize,
    /// How many repositories this node holds.
    pub held: usize,
}

/// The heads that a node holds, by key.
pub open spec fn local_heads(local: Seq<Head>) -> Map<Seq<char>, Seq<char>> {
    Map::new(
        |key: Seq<char>| last_scanned(local, key) is Some,
        |key: Seq<char>| last_scanned(local, key)->0.head_sha,
    )
}

/// Whether a repository is locked against the commit that the master
/// announces.
pub open spec fn locked_at(
    issues: Map<Seq<char>, Issue>,
    collection_id: Seq<char>,
    tenant_id: Seq<char>,
    announced: Seq<char>,
) -> bool {
    let key = repository_issue_key(collection_id, tenant_id);
    issues.contains_key(key) && match issues[key] {
        Issue::ReplicaAhead { remote, .. } => remote@ == announced,
        Issue::HistoryDiverged { remote, .. } => remote@ == announced,
        _ => false,
    }
}

/// A reconcile under way.
pub struct Reconciling {
    pub pending: Map<Seq<char>, Sync>,
    pub issues: Map<Seq<char>, Issue>,
    /// The keys that the listing has named.
    pub remote: Set<Seq<char>>,
    pub forgotten: Seq<(Seq<char>, Seq<char>)>,
    pub stale: nat,
}

/// What one repository of a listing does to a reconcile. One that is badly
/// formed is passed over; one that is held at that commit is left alone, and
/// so is one that is locked against it, unless it is gone from this disk.
pub open spec fn listing_step(
    state: Reconciling,
    entry: Head,
    on_disk: bool,
    local: Map<Seq<char>, Seq<char>>,
) -> Reconciling {
    let key = repository_key(entry.collection_id, entry.tenant_id);
    let locked = locked_at(state.issues, entry.collection_id, entry.tenant_id, entry.head_sha);
    if entry_fault(entry.collection_id, entry.tenant_id, entry.head_sha) is Some {
        state
    } else if local.contains_key(key) && local[key] == entry.head_sha {
        Reconciling { remote: state.remote.insert(key), ..state }
    } else if locked && on_disk {
        Reconciling { remote: state.remote.insert(key), ..state }
    } else {
        Reconciling {
            pending: state.pending.insert(
                key,
                Sync {
                    collection_id: entry.collection_id,
                    tenant_id: entry.tenant_id,
                    target: Target::At(entry.head_sha),
                },
            ),
            issues: if locked {
                state.issues.remove(repository_issue_key(entry.collection_id, entry.tenant_id))
            } else {
                state.issues
            },
            remote: state.remote.insert(key),
            forgotten: if locked {
                state.forgotten.push((entry.collection_id, entry.tenant_id))
            } else {
                state.forgotten
            },
            stale: state.stale + 1,
        }
    }
}

/// What the first repositories of a listing do to a reconcile.
pub open spec fn listing_steps(
    start: Reconciling,
    entries: Seq<Head>,
    on_disk: Seq<bool>,
    local: Map<Seq<char>, Seq<char>>,
    count: int,
) -> Reconciling
    decreases count,
{
    if count <= 0 {
        start
    } else {
        listing_step(
            listing_steps(start, entries, on_disk, local, count - 1),
            entries[count - 1],
            on_disk[count - 1],
            local,
        )
    }
}

/// The repositories that are held here and that the listing does not name.
pub open spec fn missing_keys(local: Map<Seq<char>, Seq<char>>, remote: Set<Seq<char>>) -> Set<
    Seq<char>,
> {
    local.dom().difference(remote)
}

/// Whether deletions are too many to be believed: more than half of what a
/// guarded replica holds.
pub open spec fn is_mass_deletion(guard: bool, held: nat, gone: nat) -> bool {
    guard && held >= 2 && gone * 2 > held
}

/// The deletion of the repository under a key.
pub open spec fn deletion_of(key: Seq<char>) -> Sync {
    let slash = first_position(key, '/');
    Sync {
        collection_id: key.take(slash),
        tenant_id: key.skip(slash + 1),
        target: Target::Deleted,
    }
}

/// A pending set with the deletions of the given keys.
pub open spec fn with_deletions(pending: Map<Seq<char>, Sync>, gone: Set<Seq<char>>) -> Map<
    Seq<char>,
    Sync,
> {
    Map::new(
        |key: Seq<char>| gone.contains(key) || pending.contains_key(key),
        |key: Seq<char>|
            if gone.contains(key) {
                deletion_of(key)
            } else {
                pending[key]
            },
    )
}

/// The issues once deletions are refused.
pub open spec fn with_refusal(
    issues: Map<Seq<char>, Issue>,
    would_delete: usize,
    held: usize,
    now: i64,
) -> Map<Seq<char>, Issue> {
    let issue = Issue::DeletionRefused { would_delete, held, since: now };
    issues.insert(
        ISSUE_DELETION_REFUSED@,
        if issues.contains_key(ISSUE_DELETION_REFUSED@) {
            dated(issue, since_of(issues[ISSUE_DELETION_REFUSED@]))
        } else {
            issue
        },
    )
}

/// What the end of a listing does to a reconcile: only a complete listing
/// tells of deletions, and too many are refused.
pub open spec fn listing_end(
    state: Reconciling,
    local: Map<Seq<char>, Seq<char>>,
    complete: bool,
    guard: bool,
    now: i64,
) -> Reconciling {
    let gone = missing_keys(local, state.remote);
    if !complete {
        state
    } else if is_mass_deletion(guard, local.dom().len(), gone.len()) {
        Reconciling {
            issues: with_refusal(
                state.issues,
                gone.len() as usize,
                local.dom().len() as usize,
                now,
            ),
            ..state
        }
    } else {
        Reconciling {
            pending: with_deletions(state.pending, gone),
            issues: state.issues.remove(ISSUE_DELETION_REFUSED@),
            ..state
        }
    }
}

/// The start of a reconcile.
pub open spec fn reconcile_start(
    pending: Map<Seq<char>, Sync>,
    issues: Map<Seq<char>, Issue>,
) -> Reconciling {
    Reconciling {
        pending,
        issues,
        remote: Set::empty(),
        forgotten: Seq::empty(),
        stale: 0,
    }
}

/// Pairs of ids over characters.
pub open spec fn id_pairs(pairs: Seq<(String, String)>) -> Seq<(Seq<char>, Seq<char>)> {
    Seq::new(pairs.len(), |i: int| (pairs[i].0@, pairs[i].1@))
}

/// Whether a key has a slash.
pub open spec fn has_slash(key: Seq<char>) -> bool {
    exists|i: int| 0 <= i < key.len() && #[trigger] key[i] == '/'
}

/// The heads that a node holds, by key.
fn index_local(local: &[RepositoryHead]) -> (result: TextMap<String>)
    ensures
        result.is_valid(),
        result@.dom() == local_heads(views(local@)).dom(),
        forall|key: Seq<char>|
            result@.contains_key(key) ==> (#[trigger] result@[key])@ == local_heads(
                views(local@),
            )[key],
        forall|key: Seq<char>| #[trigger] result@.contains_key(key) ==> has_slash(key),
{
    let ghost all = views(local@);
    let mut heads: TextMap<String> = TextMap::new();
    let mut i: usize = 0;
    assert(all.take(0) =~= Seq::empty());
    while i < local.len()
        invariant
            i <= local.len(),
            heads.is_valid(),
            all == views(local@),
            forall|key: Seq<char>| #[trigger]
                heads@.contains_key(key) <==> last_scanned(all.take(i as int), key) is Some,
            forall|key: Seq<char>|
                heads@.contains_key(key) ==> (#[trigger] heads@[key])@ == last_scanned(
                    all.take(i as int),
                    key,
                )->0.head_sha,
            forall|key: Seq<char>| #[trigger] heads@.contains_key(key) ==> has_slash(key),
        decreases local.len() - i,
    {
        let head: &RepositoryHead = &local[i];
        proof {
            assert(all.take(i + 1).drop_last() =~= all.take(i as int));
            assert(all.take(i + 1).last() == head@);
            reveal_strlit("/");
            let name = repository_key(head.collection_id@, head.tenant_id@);
            assert(name[head.collection_id@.len() as int] == '/');
        }
        heads.insert(
            key_of(head.collection_id.as_str(), head.tenant_id.as_str()),
            head.head_sha.clone(),
        );
        i = i + 1;
    }
    assert(all.take(i as int) =~= all);
    assert(heads@.dom() =~= local_heads(all).dom());
    heads
}

/// Whether a repository is locked against the commit that the master
/// announces.
pub fn is_locked_at(issues: &Issues, collection_id: &str, tenant_id: &str, announced: &str) -> (result:
    bool)
    requires
        issues.is_valid(),
    ensures
        result == locked_at(issues@, collection_id@, tenant_id@, announced@),
{
    match issues.get(Issues::repository_key(collection_id, tenant_id).as_str()) {
        Some(Issue::ReplicaAhead { remote, .. }) => same(remote.as_str(), announced),
        Some(Issue::HistoryDiverged { remote, .. }) => same(remote.as_str(), announced),
        _ => false,
    }
}

/// The keys that are held here and that the listing does not name.
fn find_missing(heads: &TextMap<String>, remote: &TextMap<()>) -> (result: Vec<String>)
    requires
        heads.is_valid(),
        remote.is_valid(),
    ensures
        texts(result@).no_duplicates(),
        texts(result@).to_set() == heads@.dom().difference(remote@.dom()),
        result@.len() == heads@.dom().difference(remote@.dom()).len(),
        result@.len() <= heads.pairs().len(),
{
    let ghost pairs = heads.pairs();
    let ghost keys = keys_of(pairs);
    proof {
        lemma_key_count(*heads);
    }
    let mut missing: Vec<String> = Vec::new();
    let mut i: usize = 0;
    assert(texts(missing@) =~= Seq::empty());
    while i < heads.len()
        invariant
            i <= pairs.len(),
            pairs == heads.pairs(),
            keys == keys_of(pairs),
            keys.no_duplicates(),
            remote.is_valid(),
            missing@.len() <= i,
            texts(missing@).no_duplicates(),
            forall|key: Seq<char>| #[trigger]
                texts(missing@).contains(key) <==> keys.take(i as int).contains(key)
                    && !remote@.contains_key(key),
        decreases pairs.len() - i,
    {
        let key: &str = heads.key_at(i);
        let ghost before = missing@;
        assert(keys[i as int] == key@);
        assert(!keys.take(i as int).contains(key@)) by {
            if keys.take(i as int).contains(key@) {
                let k = choose|k: int|
                    0 <= k < keys.take(i as int).len() && keys.take(i as int)[k] == key@;
                assert(keys[k] == keys[i as int]);
            }
        }
        assert(keys.take(i + 1) =~= keys.take(i as int).push(key@));
        if !remote.contains_key(key) {
            missing.push(key.to_owned());
            proof {
                assert(texts(missing@) =~= texts(before).push(key@));
                assert(!texts(before).contains(key@));
            }
        }
        assert forall|other: Seq<char>| #[trigger] texts(missing@).contains(other) <==> keys.take(
            i + 1,
        ).contains(other) && !remote@.contains_key(other) by {
            assert(texts(before).contains(other) <==> keys.take(i as int).contains(other)
                && !remote@.contains_key(other));
            vstd::seq_lib::lemma_seq_contains_after_push(keys.take(i as int), key@, other);
            if !remote@.contains_key(key@) {
                vstd::seq_lib::lemma_seq_contains_after_push(texts(before), key@, other);
            }
        }
        i = i + 1;
    }
    proof {
        assert(keys.take(i as int) =~= keys);
        let gone = heads@.dom().difference(remote@.dom());
        assert(texts(missing@).to_set() =~= gone) by {
            assert forall|key: Seq<char>| texts(missing@).to_set().contains(key) <==> gone.contains(
                key,
            ) by {
                assert(texts(missing@).contains(key) <==> keys.contains(key)
                    && !remote@.contains_key(key));
                assert(keys.to_set().contains(key) <==> keys.contains(key));
            }
        }
        texts(missing@).unique_seq_to_set();
        assert(texts(missing@).len() == missing@.len());
    }
    missing
}

/// Splits a key at its first slash.
fn split_key(key: &str) -> (result: (String, String))
    requires
        has_slash(key@),
    ensures
        result.0@ == deletion_of(key@).collection_id,
        result.1@ == deletion_of(key@).tenant_id,
{
    let a: Vec<char> = characters(key);
    let length: usize = a.len();
    proof {
        lemma_first_position(key@, '/');
    }
    let slash: usize = find_first(a.as_slice(), '/');
    assert(slash < length);
    let head: &str = key.substring_char(0, slash);
    let tail: &str = key.substring_char(slash + 1, length);
    assert(head@ =~= key@.take(slash as int));
    assert(tail@ =~= key@.skip(slash + 1));
    (head.to_owned(), tail.to_owned())
}

/// A replica's side of following.
pub struct ReplicaFollower {
    /// Where the master's replication server is.
    pub master_url: String,
    /// The same without credentials, for messages.
    pub master_url_display: String,
    /// How this node names itself to the master.
    pub node_id: String,
    /// The token of this process.
    pub instance: String,
    pub poll_interval_secs: u64,
    pub deletion_guard: bool,
    /// The repositories to look at.
    pub pending: PendingSet,
    /// Whether the listing has to be compared again before anything else.
    pub full_reconcile_requested: bool,
}

impl ReplicaFollower {
    /// Whether this is the same follower, whatever it has to do.
    pub open spec fn is_same_node(&self, other: &Self) -> bool {
        &&& self.master_url == other.master_url
        &&& self.master_url_display == other.master_url_display
        &&& self.node_id == other.node_id
        &&& self.instance == other.instance
        &&& self.poll_interval_secs == other.poll_interval_secs
        &&& self.deletion_guard == other.deletion_guard
    }

    /// The follower of the master at a URL. It has to compare the whole
    /// listing first.
    pub fn new(replication: &ReplicationConfig, master_url: &str, instance: String) -> (result: Self)
        ensures
            result.master_url@ == without_trailing(master_url@, '/'),
            result.master_url_display@ == redacted(without_trailing(master_url@, '/')),
            result.node_id@ == replication.node_id@,
            result.instance == instance,
            result.poll_interval_secs == replication.poll_interval_secs,
            result.deletion_guard == replication.deletion_guard,
            result.pending@ == no_syncs(),
            result.full_reconcile_requested,
    {
        let url: String = strip_trailing(master_url, '/');
        let shown: String = redact_url(url.as_str());
        ReplicaFollower {
            master_url: url,
            master_url_display: shown,
            node_id: replication.node_id.clone(),
            instance,
            poll_interval_secs: replication.poll_interval_secs,
            deletion_guard: replication.deletion_guard,
            pending: PendingSet::new(),
            full_reconcile_requested: true,
        }
    }

    /// Asks for the whole listing to be compared.
    pub fn request_full_reconcile(&mut self)
        ensures
            final(self).is_same_node(old(self)),
            final(self).pending == old(self).pending,
            final(self).full_reconcile_requested,
    {
        self.full_reconcile_requested = true;
    }

    /// Takes up the request for the whole listing, if there is one.
    pub fn take_reconcile_request(&mut self) -> (result: bool)
        ensures
            final(self).is_same_node(old(self)),
            final(self).pending == old(self).pending,
            !final(self).full_reconcile_requested,
            result == old(self).full_reconcile_requested,
    {
        let requested: bool = self.full_reconcile_requested;
        self.full_reconcile_requested = false;
        requested
    }

    /// Compares a master's listing with what is held here: queues what
    /// differs and what is gone, and refuses to give up most of what is held.
    /// `on_disk` says of each repository of the listing whether
    /// it is on this disk.
    pub fn reconcile(
        &mut self,
        listing: &RepositoryListing,
        on_disk: &[bool],
        local: &[RepositoryHead],
        issues: &mut Issues,
        status: &mut ReplicaStatus,
        now: i64,
    ) -> (result: ReconcileReport)
        requires
            old(issues).is_valid(),
            on_disk@.len() == listing.repositories@.len(),
        ensures
            final(issues).is_valid(),
            final(self).is_same_node(old(self)),
            final(self).full_reconcile_requested == old(self).full_reconcile_requested,
            ({
                let held = local_heads(views(local@));
                let listed = listing_steps(
                    reconcile_start(old(self).pending@, old(issues)@),
                    views(listing.repositories@),
                    on_disk@,
                    held,
                    on_disk@.len() as int,
                );
                let ended = listing_end(
                    listed,
                    held,
                    listing.complete,
                    old(self).deletion_guard,
                    now,
                );
                &&& final(self).pending@ == ended.pending
                &&& final(issues)@ == ended.issues
                &&& id_pairs(result.forgotten@) == ended.forgotten
                &&& result.stale == ended.stale
                &&& result.held == held.dom().len()
                &&& final(status)@ == (Following {
                    repositories: result.held,
                    last_reconcile_unix: now,
                    master_contact_at: Some(now),
                    master_error: None,
                    ..old(status)@
                })
            }),
    {
        let heads: TextMap<String> = index_local(local);
        let ghost held = local_heads(views(local@));
        proof {
            lemma_key_count(heads);
        }
        let mut remote: TextMap<()> = TextMap::new();
        let (forgotten, stale): (Vec<(String, String)>, usize) = self.compare(
            listing,
            on_disk,
            &heads,
            &mut remote,
            issues,
            Ghost(held),
        );
        let ghost listed = listing_steps(
            reconcile_start(old(self).pending@, old(issues)@),
            views(listing.repositories@),
            on_disk@,
            held,
            on_disk@.len() as int,
        );
        assert(remote@.dom() == listed.remote);
        if listing.complete {
            let missing: Vec<String> = find_missing(&heads, &remote);
            let ghost gone = missing_keys(held, listed.remote);
            let mass_deletion: bool = self.deletion_guard && heads.len()
                >= DELETION_GUARD_MINIMUM_HELD && missing.len() > heads.len() / 2;
            assert(mass_deletion == is_mass_deletion(
                self.deletion_guard,
                held.dom().len(),
                gone.len(),
            ));
            if mass_deletion {
                issues.raise(
                    ISSUE_DELETION_REFUSED,
                    Issue::DeletionRefused {
                        would_delete: missing.len(),
                        held: heads.len(),
                        since: now,
                    },
                );
            } else {
                issues.clear(ISSUE_DELETION_REFUSED);
                proof {
                    assert forall|i: int| 0 <= i < missing@.len() implies has_slash(
                        (#[trigger] missing@[i])@,
                    ) by {
                        assert(texts(missing@)[i] == missing@[i]@);
                        assert(texts(missing@).to_set().contains(missing@[i]@));
                        assert(heads@.contains_key(missing@[i]@));
                    }
                }
                self.queue_deletions(&missing);
            }
        }
        status.set_repositories(heads.len());
        status.set_last_reconcile(now);
        status.record_master_contact(now);
        ReconcileReport { forgotten, stale, held: heads.len() }
    }

    /// Goes through the repositories of a listing.
    fn compare(
        &mut self,
        listing: &RepositoryListing,
        on_disk: &[bool],
        heads: &TextMap<String>,
        remote: &mut TextMap<()>,
        issues: &mut Issues,
        held: Ghost<Map<Seq<char>, Seq<char>>>,
    ) -> (result: (Vec<(String, String)>, usize))
        requires
            heads.is_valid(),
            old(remote).is_valid(),
            old(remote)@ == Map::<Seq<char>, ()>::empty(),
            old(issues).is_valid(),
            on_disk@.len() == listing.repositories@.len(),
            heads@.dom() == held@.dom(),
            forall|key: Seq<char>|
                heads@.contains_key(key) ==> (#[trigger] heads@[key])@ == held@[key],
        ensures
            final(remote).is_valid(),
            final(issues).is_valid(),
            final(self).is_same_node(old(self)),
            final(self).full_reconcile_requested == old(self).full_reconcile_requested,
            ({
                let listed = listing_steps(
                    reconcile_start(old(self).pending@, old(issues)@),
                    views(listing.repositories@),
                    on_disk@,
                    held@,
                    on_disk@.len() as int,
                );
                &&& final(self).pending@ == listed.pending
                &&& final(issues)@ == listed.issues
                &&& final(remote)@.dom() == listed.remote
                &&& id_pairs(result.0@) == listed.forgotten
                &&& result.1 == listed.stale
            }),
    {
        let ghost start = reconcile_start(self.pending@, issues@);
        let ghost entries = views(listing.repositories@);
        let mut forgotten: Vec<(String, String)> = Vec::new();
        let mut stale: usize = 0;
        let mut i: usize = 0;
        assert(id_pairs(forgotten@) =~= Seq::empty());
        assert(remote@.dom() =~= Set::empty());
        while i < on_disk.len()
            invariant
                i <= on_disk.len(),
                on_disk@.len() == listing.repositories@.len(),
                heads.is_valid(),
                remote.is_valid(),
                issues.is_valid(),
                heads@.dom() == held@.dom(),
                forall|key: Seq<char>|
                    heads@.contains_key(key) ==> (#[trigger] heads@[key])@ == held@[key],
                entries == views(listing.repositories@),
                self.is_same_node(old(self)),
                self.full_reconcile_requested == old(self).full_reconcile_requested,
                stale <= i,
                ({
                    let state = listing_steps(start, entries, on_disk@, held@, i as int);
                    &&& self.pending@ == state.pending
                    &&& issues@ == state.issues
                    &&& remote@.dom() == state.remote
                    &&& id_pairs(forgotten@) == state.forgotten
                    &&& stale == state.stale
                }),
            decreases on_disk.len() - i,
        {
            let entry: &RepositoryEntry = &listing.repositories[i];
            let ghost state = listing_steps(start, entries, on_disk@, held@, i as int);
            assert(entries[i as int] == entry@);
            let named: Result<(), String> = validate_entry(
                entry.collection_id.as_str(),
                entry.tenant_id.as_str(),
                entry.head_sha.as_str(),
            );
            if named.is_ok() {
                let key: String = key_of(entry.collection_id.as_str(), entry.tenant_id.as_str());
                let ghost remote_before = remote@;
                remote.insert(key.clone(), ());
                assert(remote@.dom() =~= state.remote.insert(key@));
                let at_head: bool = match heads.get(key.as_str()) {
                    Some(sha) => same(sha.as_str(), entry.head_sha.as_str()),
                    None => false,
                };
                assert(at_head == (held@.contains_key(key@) && held@[key@] == entry.head_sha@)) by {
                    if heads@.contains_key(key@) {
                        assert(heads@[key@]@ == held@[key@]);
                    }
                    assert(heads@.dom().contains(key@) == held@.dom().contains(key@));
                }
                if !at_head {
                    let locked: bool = is_locked_at(
                        issues,
                        entry.collection_id.as_str(),
                        entry.tenant_id.as_str(),
                        entry.head_sha.as_str(),
                    );
                    if !(locked && on_disk[i]) {
                        if locked {
                            issues.clear(
                                Issues::repository_key(
                                    entry.collection_id.as_str(),
                                    entry.tenant_id.as_str(),
                                ).as_str(),
                            );
                            let ghost forgotten_before = forgotten@;
                            forgotten.push((entry.collection_id.clone(), entry.tenant_id.clone()));
                            assert(id_pairs(forgotten@) =~= id_pairs(forgotten_before).push(
                                (entry.collection_id@, entry.tenant_id@),
                            ));
                        }
                        stale = stale + 1;
                        self.pending.queue(
                            entry.collection_id.as_str(),
                            entry.tenant_id.as_str(),
                            entry.head_sha.as_str(),
                        );
                    }
                }
            }
            i = i + 1;
        }
        (forgotten, stale)
    }

    /// Queues the deletion of the repositories under the given keys.
    fn queue_deletions(&mut self, missing: &Vec<String>)
        requires
            forall|i: int| 0 <= i < missing@.len() ==> has_slash((#[trigger] missing@[i])@),
        ensures
            final(self).is_same_node(old(self)),
            final(self).full_reconcile_requested == old(self).full_reconcile_requested,
            final(self).pending@ == with_deletions(
                old(self).pending@,
                texts(missing@).to_set(),
            ),
    {
        let ghost before = self.pending@;
        let mut i: usize = 0;
        assert(texts(missing@).take(0).to_set() =~= Set::empty());
        assert(self.pending@ =~= with_deletions(before, texts(missing@).take(0).to_set()));
        while i < missing.len()
            invariant
                i <= missing.len(),
                self.is_same_node(old(self)),
                self.full_reconcile_requested == old(self).full_reconcile_requested,
                forall|j: int| 0 <= j < missing@.len() ==> has_slash((#[trigger] missing@[j])@),
                self.pending@ == with_deletions(before, texts(missing@).take(i as int).to_set()),
            decreases missing.len() - i,
        {
            let key: &String = &missing[i];
            let ghost current = self.pending@;
            let ghost done = texts(missing@).take(i as int).to_set();
            let (collection_id, tenant_id): (String, String) = split_key(key.as_str());
            self.pending.put(
                key.clone(),
                PendingSync { collection_id, tenant_id, target: SyncTarget::Deleted },
            );
            proof {
                assert(texts(missing@).take(i + 1) =~= texts(missing@).take(i as int).push(key@));
                let next = texts(missing@).take(i + 1).to_set();
                assert(next =~= done.insert(key@)) by {
                    assert forall|other: Seq<char>| next.contains(other) <==> done.insert(
                        key@,
                    ).contains(other) by {
                        vstd::seq_lib::lemma_seq_contains_after_push(
                            texts(missing@).take(i as int),
                            key@,
                            other,
                        );
                    }
                }
                assert(self.pending@ =~= with_deletions(before, next));
            }
            i = i + 1;
        }
        assert(texts(missing@).take(i as int) =~= texts(missing@));
    }
}

/// A listing that may not be whole deletes nothing: whatever is queued for
/// deletion after it was so before.
pub proof fn law_incomplete_listing_deletes_nothing(
    state: Reconciling,
    local: Map<Seq<char>, Seq<char>>,
    guard: bool,
    now: i64,
)
    ensures
        listing_end(state, local, false, guard, now) == state,
{
}

/// A guarded replica never gives up more than half of what it holds: the
/// deletions are refused, nothing is queued, and an issue tells of it.
pub proof fn law_mass_deletion_is_refused(
    state: Reconciling,
    local: Map<Seq<char>, Seq<char>>,
    complete: bool,
    now: i64,
)
    requires
        complete,
        local.dom().len() >= 2,
        missing_keys(local, state.remote).len() * 2 > local.dom().len(),
    ensures
        listing_end(state, local, complete, true, now).pending == state.pending,
        listing_end(state, local, complete, true, now).issues.contains_key(
            ISSUE_DELETION_REFUSED@,
        ),
{
}

/// A repository that the listing names is not queued for deletion by it.
pub proof fn law_listed_is_not_deleted(
    state: Reconciling,
    local: Map<Seq<char>, Seq<char>>,
    complete: bool,
    guard: bool,
    now: i64,
    key: Seq<char>,
)
    requires
        state.remote.contains(key),
    ensures
        ({
            let ended = listing_end(state, local, complete, guard, now);
            &&& ended.pending.contains_key(key) == state.pending.contains_key(key)
            &&& ended.pending.contains_key(key) ==> ended.pending[key] == state.pending[key]
        }),
{
}

/// A locked repository that is still on disk is left alone while the master
/// announces the same commit.
pub proof fn law_locked_is_left_alone(
    state: Reconciling,
    entry: Head,
    on_disk: bool,
    local: Map<Seq<char>, Seq<char>>,
)
    requires
        locked_at(state.issues, entry.collection_id, entry.tenant_id, entry.head_sha),
        on_disk,
    ensures
        listing_step(state, entry, on_disk, local).pending == state.pending,
        listing_step(state, entry, on_disk, local).issues == state.issues,
{
}

/// A well-formed repository that is held at another commit, or not at all,
/// and that is not locked, is queued for the commit that the listing names.
pub proof fn law_difference_is_queued(
    state: Reconciling,
    entry: Head,
    on_disk: bool,
    local: Map<Seq<char>, Seq<char>>,
)
    requires
        entry_fault(entry.collection_id, entry.tenant_id, entry.head_sha) is None,
        !locked_at(state.issues, entry.collection_id, entry.tenant_id, entry.head_sha),
        ({
            let key = repository_key(entry.collection_id, entry.tenant_id);
            !local.contains_key(key) || local[key] != entry.head_sha
        }),
    ensures
        ({
            let key = repository_key(entry.collection_id, entry.tenant_id);
            let after = listing_step(state, entry, on_disk, local);
            &&& after.remote.contains(key)
            &&& after.pending.contains_key(key)
            &&& after.pending[key].target == Target::At(entry.head_sha)
        }),
{
}

} // verus!
