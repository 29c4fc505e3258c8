//! How a replica follows its master, and what nodes say of themselves.
use vstd::prelude::*;
use crate::middleware::{bearer_key_of, guard_of, Guard};
use crate::replication::follower::{
    entry_fault, listing_end, listing_step, listing_steps, locked_at, Reconciling,
};
use crate::replication::health::{master_verdict, replica_verdict, row_verdict, worst_verdict};
use crate::replication::issues::Issue;
use crate::replication::pending::{Sync, Target};
use crate::replication::registry::Presence;
use crate::replication::status::{sync_of, Following};
use crate::replication::wire::{node_word, sync_status_of, sync_word, Head, NodeStatus, SyncStatus};
use crate::replication::worker::{may_serve, next_step, NextStep, SyncPass};
use crate::routes::health::status_word;
use crate::routes::root::readiness;

verus! {

/// The key of a repository: its two ids with a slash between them.
pub open spec fn key_of_head(head: Head) -> Seq<char> {
    head.collection_id + seq!['/'] + head.tenant_id
}

/// The key of a repository's issue.
pub open spec fn issue_of_head(head: Head) -> Seq<char> {
    "repository:"@ + key_of_head(head)
}

proof fn lemma_keys(head: Head)
    ensures
        crate::replication::index::repository_key(head.collection_id, head.tenant_id)
            == key_of_head(head),
        crate::replication::issues::repository_issue_key(head.collection_id, head.tenant_id)
            == issue_of_head(head),
{
    reveal_strlit("/");
    assert("/"@ =~= seq!['/']);
    assert(crate::replication::issues::repository_issue_key(head.collection_id, head.tenant_id)
        =~= issue_of_head(head));
}

/// Whether an issue locks a repository against a commit of the master.
pub open spec fn locks(issues: Map<Seq<char>, Issue>, head: Head) -> bool {
    issues.contains_key(issue_of_head(head)) && match issues[issue_of_head(head)] {
        Issue::ReplicaAhead { remote, .. } => remote@ == head.head_sha,
        Issue::HistoryDiverged { remote, .. } => remote@ == head.head_sha,
        _ => false,
    }
}

/// Whether a replica has to fetch a repository that its master lists: it is
/// well formed, not held at that commit, and not locked against it while it is
/// on this disk.
pub open spec fn is_due(
    head: Head,
    on_disk: bool,
    local: Map<Seq<char>, Seq<char>>,
    issues: Map<Seq<char>, Issue>,
) -> bool {
    &&& entry_fault(head.collection_id, head.tenant_id, head.head_sha) is None
    &&& !(local.contains_key(key_of_head(head)) && local[key_of_head(head)] == head.head_sha)
    &&& !(locks(issues, head) && on_disk)
}

/// Whether no two repositories of a listing have one key.
pub open spec fn are_different(entries: Seq<Head>) -> bool {
    forall|i: int, j: int|
        0 <= i < j < entries.len() ==> key_of_head(#[trigger] entries[i]) != key_of_head(
            #[trigger] entries[j],
        )
}

proof fn lemma_issue_keys_differ(left: Head, right: Head)
    requires
        key_of_head(left) != key_of_head(right),
    ensures
        issue_of_head(left) != issue_of_head(right),
{
    if issue_of_head(left) == issue_of_head(right) {
        let n = "repository:"@.len() as int;
        assert(issue_of_head(left).skip(n) =~= key_of_head(left));
        assert(issue_of_head(right).skip(n) =~= key_of_head(right));
    }
}

/// What the first repositories of a listing come to.
proof fn lemma_listing(
    start: Reconciling,
    entries: Seq<Head>,
    on_disk: Seq<bool>,
    local: Map<Seq<char>, Seq<char>>,
    count: int,
)
    requires
        0 <= count <= entries.len(),
        on_disk.len() == entries.len(),
        are_different(entries),
    ensures
        ({
            let end = listing_steps(start, entries, on_disk, local, count);
            &&& forall|i: int| #![trigger entries[i]]
                0 <= i < count ==> {
                    let key = key_of_head(entries[i]);
                    &&& is_due(entries[i], on_disk[i], local, start.issues)
                        ==> end.pending.contains_key(key) && end.pending[key] == (Sync {
                        collection_id: entries[i].collection_id,
                        tenant_id: entries[i].tenant_id,
                        target: Target::At(entries[i].head_sha),
                    })
                    &&& !is_due(entries[i], on_disk[i], local, start.issues) ==> (
                    end.pending.contains_key(key) <==> start.pending.contains_key(key)) && (
                    start.pending.contains_key(key) ==> end.pending[key] == start.pending[key])
                    &&& entry_fault(
                        entries[i].collection_id,
                        entries[i].tenant_id,
                        entries[i].head_sha,
                    ) is None ==> end.remote.contains(key)
                }
            &&& forall|key: Seq<char>| #![trigger end.pending.contains_key(key)]
                (forall|i: int| 0 <= i < count ==> key_of_head(#[trigger] entries[i]) != key) ==> (
                end.pending.contains_key(key) <==> start.pending.contains_key(key)) && (
                start.pending.contains_key(key) ==> end.pending[key] == start.pending[key])
            &&& forall|key: Seq<char>| #[trigger]
                end.remote.contains(key) ==> start.remote.contains(key) || exists|i: int|
                    0 <= i < count && key_of_head(#[trigger] entries[i]) == key && entry_fault(
                        entries[i].collection_id,
                        entries[i].tenant_id,
                        entries[i].head_sha,
                    ) is None
            &&& forall|i: int| #![trigger entries[i]]
                count <= i < entries.len() ==> locks(end.issues, entries[i]) == locks(
                    start.issues,
                    entries[i],
                )
            &&& forall|key: Seq<char>| #[trigger]
                start.remote.contains(key) ==> end.remote.contains(key)
        }),
    decreases count,
{
    if count > 0 {
        lemma_listing(start, entries, on_disk, local, count - 1);
        let before = listing_steps(start, entries, on_disk, local, count - 1);
        let end = listing_steps(start, entries, on_disk, local, count);
        let head = entries[count - 1];
        lemma_keys(head);
        assert(locked_at(before.issues, head.collection_id, head.tenant_id, head.head_sha)
            == locks(start.issues, head));
        assert forall|i: int| #![trigger entries[i]] 0 <= i < count - 1 implies key_of_head(
            entries[i],
        ) != key_of_head(head) by {}
        assert forall|i: int| #![trigger entries[i]] count <= i < entries.len() implies locks(
            end.issues,
            entries[i],
        ) == locks(start.issues, entries[i]) by {
            assert(key_of_head(head) != key_of_head(entries[i]));
            lemma_issue_keys_differ(head, entries[i]);
        }
        assert forall|key: Seq<char>| #[trigger] end.remote.contains(key) implies
            start.remote.contains(key) || exists|i: int|
            0 <= i < count && key_of_head(#[trigger] entries[i]) == key && entry_fault(
                entries[i].collection_id,
                entries[i].tenant_id,
                entries[i].head_sha,
            ) is None by {
            if key != key_of_head(head) {
                assert(before.remote.contains(key));
            }
        }
    }
}

/// A listing queues exactly what differs: each repository that is due is to be
/// fetched at the commit that the master lists, and nothing else that the
/// listing names changes in the queue. Every well formed one counts as named.
pub proof fn law_listing_queues_what_is_due(
    start: Reconciling,
    entries: Seq<Head>,
    on_disk: Seq<bool>,
    local: Map<Seq<char>, Seq<char>>,
    i: int,
)
    requires
        on_disk.len() == entries.len(),
        are_different(entries),
        0 <= i < entries.len(),
    ensures
        ({
            let end = listing_steps(start, entries, on_disk, local, entries.len() as int);
            let key = key_of_head(entries[i]);
            &&& if is_due(entries[i], on_disk[i], local, start.issues) {
                end.pending.contains_key(key) && end.pending[key] == (Sync {
                    collection_id: entries[i].collection_id,
                    tenant_id: entries[i].tenant_id,
                    target: Target::At(entries[i].head_sha),
                })
            } else {
                (end.pending.contains_key(key) <==> start.pending.contains_key(key)) && (
                start.pending.contains_key(key) ==> end.pending[key] == start.pending[key])
            }
            &&& entry_fault(
                entries[i].collection_id,
                entries[i].tenant_id,
                entries[i].head_sha,
            ) is None ==> end.remote.contains(key)
        }),
{
    lemma_listing(start, entries, on_disk, local, entries.len() as int);
}

/// What a listing does not name stays in the queue as it was, and counts as not
/// named.
pub proof fn law_listing_leaves_the_rest(
    start: Reconciling,
    entries: Seq<Head>,
    on_disk: Seq<bool>,
    local: Map<Seq<char>, Seq<char>>,
    key: Seq<char>,
)
    requires
        on_disk.len() == entries.len(),
        are_different(entries),
        forall|i: int| 0 <= i < entries.len() ==> key_of_head(#[trigger] entries[i]) != key,
    ensures
        ({
            let end = listing_steps(start, entries, on_disk, local, entries.len() as int);
            &&& end.pending.contains_key(key) <==> start.pending.contains_key(key)
            &&& start.pending.contains_key(key) ==> end.pending[key] == start.pending[key]
            &&& !start.remote.contains(key) ==> !end.remote.contains(key)
        }),
{
    let count = entries.len() as int;
    lemma_listing(start, entries, on_disk, local, count);
    let end = listing_steps(start, entries, on_disk, local, count);
    assert(end.pending.contains_key(key) <==> start.pending.contains_key(key));
    if end.remote.contains(key) && !start.remote.contains(key) {
        let i = choose|i: int|
            0 <= i < count && key_of_head(#[trigger] entries[i]) == key && entry_fault(
                entries[i].collection_id,
                entries[i].tenant_id,
                entries[i].head_sha,
            ) is None;
        assert(key_of_head(entries[i]) != key);
    }
}

/// A listed repository takes its lock away, and is forgotten, if it is locked
/// but is not on this disk; every other issue stays. It counts as stale if it
/// is due.
pub proof fn law_lock_goes_with_its_repository(
    state: Reconciling,
    head: Head,
    on_disk: bool,
    local: Map<Seq<char>, Seq<char>>,
)
    ensures
        ({
            let after = listing_step(state, head, on_disk, local);
            let due = is_due(head, on_disk, local, state.issues);
            let lost = due && locks(state.issues, head);
            &&& lost ==> !after.issues.contains_key(issue_of_head(head))
            &&& lost ==> after.forgotten == state.forgotten.push(
                (head.collection_id, head.tenant_id),
            )
            &&& !lost ==> after.issues == state.issues && after.forgotten == state.forgotten
            &&& forall|key: Seq<char>|
                key != issue_of_head(head) ==> (#[trigger] after.issues.contains_key(key)
                    <==> state.issues.contains_key(key)) && (state.issues.contains_key(key)
                    ==> after.issues[key] == state.issues[key])
            &&& after.stale == state.stale + if due {
                1int
            } else {
                0int
            }
        }),
{
    lemma_keys(head);
}

/// What is held here and is not named goes, once a listing is complete, unless
/// that is more than half of two or more that a guarded replica holds: then
/// nothing goes, and that is what waits for an operator. An incomplete listing
/// tells nothing.
pub proof fn law_complete_listing_deletes_what_is_gone(
    state: Reconciling,
    local: Map<Seq<char>, Seq<char>>,
    complete: bool,
    guard: bool,
    now: i64,
    collection_id: Seq<char>,
    tenant_id: Seq<char>,
)
    requires
        local.dom().finite(),
        !collection_id.contains('/'),
        local.contains_key(collection_id + seq!['/'] + tenant_id),
        !state.remote.contains(collection_id + seq!['/'] + tenant_id),
    ensures
        ({
            let key = collection_id + seq!['/'] + tenant_id;
            let gone = local.dom().difference(state.remote);
            let held = local.dom();
            let end = listing_end(state, local, complete, guard, now);
            let too_many = guard && held.len() >= 2 && 2 * gone.len() > held.len();
            &&& !complete ==> end == state
            &&& complete && too_many ==> end.pending == state.pending && end.issues.contains_key(
                "deletion_refused"@,
            )
            &&& complete && !too_many ==> end.pending.contains_key(key) && end.pending[key] == (Sync {
                collection_id,
                tenant_id,
                target: Target::Deleted,
            }) && !end.issues.contains_key("deletion_refused"@)
        }),
{
    let key = collection_id + seq!['/'] + tenant_id;
    let slash = crate::text::first_position(key, '/');
    crate::text::lemma_first_position(key, '/');
    assert(key[collection_id.len() as int] == '/');
    if slash < collection_id.len() {
        assert(key[slash] == collection_id[slash]);
    }
    assert(key.take(slash) =~= collection_id);
    assert(key.skip(slash + 1) =~= tenant_id);
    assert(local.dom().difference(state.remote).contains(key));
}

/// What is named, or not held here, is never queued to be deleted by a listing.
pub proof fn law_only_the_unnamed_go(
    state: Reconciling,
    local: Map<Seq<char>, Seq<char>>,
    complete: bool,
    guard: bool,
    now: i64,
    key: Seq<char>,
)
    requires
        state.remote.contains(key) || !local.contains_key(key),
    ensures
        ({
            let end = listing_end(state, local, complete, guard, now);
            &&& end.pending.contains_key(key) <==> state.pending.contains_key(key)
            &&& state.pending.contains_key(key) ==> end.pending[key] == state.pending[key]
        }),
{
}

/// How well a replica follows: an open issue halts it; three failures in a row
/// stall it; less, or work left, or no success yet, and it lags; else it is
/// synced.
pub proof fn law_sync_has_four_states(following: Following, issues_open: bool)
    ensures
        sync_of(following, issues_open) == SyncStatus::Halted <==> issues_open,
        sync_of(following, issues_open) == SyncStatus::Stalled <==> !issues_open
            && following.consecutive_failures >= 3,
        sync_of(following, issues_open) == SyncStatus::Synced <==> !issues_open
            && following.consecutive_failures == 0 && following.pending == 0
            && following.last_success_unix != 0,
{
}

/// A replica counts against its master's health if it reports that it is halted
/// or stalled, or if it has no stream and was silent for more than twice its
/// poll interval, taken as two minutes at least and a quarter of an hour at
/// most.
pub proof fn law_replica_counts_against_master(row: Presence, now: i64)
    ensures
        ({
            let patience = match row.poll_interval_secs {
                Some(seconds) => if 2 * seconds > 900 {
                    900int
                } else if 2 * seconds < 120 {
                    120int
                } else {
                    2 * seconds
                },
                None => 120int,
            };
            let is_quiet = row.last_contact_at matches Some(at) ==> now - at > patience;
            &&& row_verdict(row, now) == NodeStatus::Halted <==> row.sync == Some("halted"@)
            &&& row_verdict(row, now) == NodeStatus::Degraded <==> row.sync != Some("halted"@) && (
            row.sync == Some("stalled"@) || (!row.stream_connected && is_quiet))
        }),
{
    reveal_strlit("halted");
    reveal_strlit("stalled");
    reveal_strlit("synced");
    reveal_strlit("lagging");
    assert("halted"@.len() != "stalled"@.len());
    assert("halted"@[0] != "synced"@[0]);
    assert("halted"@[0] != "lagging"@[0]);
    assert("stalled"@.len() != "synced"@.len());
    assert("stalled"@[0] != "lagging"@[0]);
}

/// A master is halted by an issue of its own or by one halted replica, degraded
/// by one that is degraded, and healthy otherwise.
pub proof fn law_master_is_as_its_worst(rows: Seq<Presence>, no_issues: bool, now: i64)
    ensures
        master_verdict(rows, no_issues, now) == NodeStatus::Halted <==> !no_issues || exists|i: int|
            0 <= i < rows.len() && row_verdict(#[trigger] rows[i], now) == NodeStatus::Halted,
        master_verdict(rows, no_issues, now) == NodeStatus::Healthy <==> no_issues && forall|i: int|
            0 <= i < rows.len() ==> row_verdict(#[trigger] rows[i], now) == NodeStatus::Healthy,
{
    lemma_worst(rows, now);
}

proof fn lemma_worst(rows: Seq<Presence>, now: i64)
    ensures
        worst_verdict(rows, now) == NodeStatus::Halted <==> exists|i: int|
            0 <= i < rows.len() && row_verdict(#[trigger] rows[i], now) == NodeStatus::Halted,
        worst_verdict(rows, now) == NodeStatus::Healthy <==> forall|i: int|
            0 <= i < rows.len() ==> row_verdict(#[trigger] rows[i], now) == NodeStatus::Healthy,
    decreases rows.len(),
{
    if rows.len() > 0 {
        let init = rows.drop_last();
        lemma_worst(init, now);
        assert(rows[rows.len() - 1] == rows.last());
        assert forall|i: int| 0 <= i < init.len() implies #[trigger] rows[i] == init[i] by {}
        if worst_verdict(init, now) == NodeStatus::Halted {
            let i = choose|i: int|
                0 <= i < init.len() && row_verdict(#[trigger] init[i], now) == NodeStatus::Halted;
            assert(row_verdict(rows[i], now) == NodeStatus::Halted);
        }
        if exists|i: int|
            0 <= i < rows.len() && row_verdict(#[trigger] rows[i], now) == NodeStatus::Halted {
            let i = choose|i: int|
                0 <= i < rows.len() && row_verdict(#[trigger] rows[i], now) == NodeStatus::Halted;
            if i < init.len() {
                assert(row_verdict(init[i], now) == NodeStatus::Halted);
            }
        }
        if forall|i: int|
            0 <= i < rows.len() ==> row_verdict(#[trigger] rows[i], now) == NodeStatus::Healthy {
            assert forall|i: int| 0 <= i < init.len() implies row_verdict(#[trigger] init[i], now)
                == NodeStatus::Healthy by {
                assert(row_verdict(rows[i], now) == NodeStatus::Healthy);
            }
        }
        if worst_verdict(rows, now) == NodeStatus::Healthy {
            assert forall|i: int| 0 <= i < rows.len() implies row_verdict(#[trigger] rows[i], now)
                == NodeStatus::Healthy by {
                if i < init.len() {
                    assert(row_verdict(init[i], now) == NodeStatus::Healthy);
                }
            }
        }
    }
}

/// A replica is halted or degraded as it follows, and degraded while it does
/// not serve yet.
pub proof fn law_replica_is_as_it_follows(sync: SyncStatus, serves: bool)
    ensures
        replica_verdict(sync, serves) == NodeStatus::Halted <==> sync == SyncStatus::Halted,
        replica_verdict(sync, serves) == NodeStatus::Healthy <==> serves && (sync
            == SyncStatus::Synced || sync == SyncStatus::Lagging),
{
}

/// A node says in one word what it is and how it is, and no two states share a
/// word; a word for how a replica follows is read back as what it was.
pub proof fn law_words_tell_the_state(
    status: NodeStatus,
    other: NodeStatus,
    sync: SyncStatus,
    following: Following,
)
    ensures
        node_word(status) == node_word(other) ==> status == other,
        node_word(NodeStatus::Healthy) == "healthy"@,
        node_word(NodeStatus::Degraded) == "degraded"@,
        node_word(NodeStatus::Halted) == "halted"@,
        sync_status_of(sync_word(sync)) == Some(sync),
        status_word(following) == "bootstrapping"@ <==> following.is_replica
            && !following.bootstrapped,
        status_word(following) == "healthy"@ <==> !following.is_replica || following.bootstrapped,
        readiness(following.bootstrapped) == "ready"@ <==> following.bootstrapped,
        readiness(following.bootstrapped) == "bootstrapping"@ <==> !following.bootstrapped,
{
    reveal_strlit("healthy");
    reveal_strlit("degraded");
    reveal_strlit("halted");
    reveal_strlit("synced");
    reveal_strlit("lagging");
    reveal_strlit("stalled");
    reveal_strlit("bootstrapping");
    reveal_strlit("ready");
    assert("healthy"@.len() == 7 && "degraded"@.len() == 8 && "halted"@.len() == 6);
    assert("synced"@.len() == 6 && "lagging"@.len() == 7 && "stalled"@.len() == 7);
    assert("bootstrapping"@.len() == 13 && "ready"@.len() == 5);
    assert("synced"@[0] != "halted"@[0]);
    assert("lagging"@[0] != "stalled"@[0]);
}

/// A replica that starts empty serves once it has seen a listing and has all of
/// it, or has some of it and made no progress in two passes in a row.
pub proof fn law_replica_serves_once_caught_up(
    seen: bool,
    nothing_left: bool,
    failed_passes: u32,
    landed: usize,
)
    ensures
        may_serve(seen, nothing_left, failed_passes, landed) <==> seen && (nothing_left || (
        failed_passes >= 2 && landed > 0)),
{
}

/// After a pass the next one starts at once only if something landed and
/// something is left; the worker backs off if something was tried that is not
/// locked and nothing landed; else it waits.
pub proof fn law_next_pass_needs_progress(pass: SyncPass, nothing_left: bool)
    ensures
        next_step(pass, nothing_left) == NextStep::Again <==> pass.succeeded > 0 && !nothing_left,
        next_step(pass, nothing_left) == NextStep::BackOff <==> pass.succeeded == 0
            && pass.attempted > pass.locked,
{
}

/// A replica takes reads only: a request passes if it is a `GET`, `HEAD` or
/// `OPTIONS`, or a `POST` that reads files in a batch, and, until the replica
/// serves, only a `GET` of `/` or `/v1`. Any other node takes everything.
pub proof fn law_replica_takes_reads_only(
    is_replica: bool,
    serves: bool,
    method: Seq<char>,
    path: Seq<char>,
)
    ensures
        ({
            let reads = method == "GET"@ || method == "HEAD"@ || method == "OPTIONS"@ || (method
                == "POST"@ && "/batch/files/read"@.is_suffix_of(path));
            let asks = method == "GET"@ && (path == "/"@ || path == "/v1"@);
            &&& guard_of(is_replica, serves, method, path) == Guard::Pass <==> !is_replica || (reads
                && (serves || asks))
            &&& guard_of(is_replica, serves, method, path) == Guard::ReadOnly <==> is_replica
                && !reads
        }),
{
}

/// The key of a request is what follows `Bearer ` in its header.
pub proof fn law_key_follows_bearer(header: Option<Seq<char>>, key: Seq<char>)
    ensures
        bearer_key_of(header) == Some(key) <==> header == Some("Bearer "@ + key),
{
    if let Some(value) = header {
        let word = "Bearer "@;
        if word.is_prefix_of(value) {
            assert(value =~= word + value.skip(word.len() as int));
        }
        if value == word + key {
            assert(value.subrange(0, word.len() as int) =~= word);
            assert(value.skip(word.len() as int) =~= key);
        }
    }
}

} // verus!
