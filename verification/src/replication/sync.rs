//! Bringing one repository of a replica to where its master has it, without
//! ever giving up history that the master does not know.
use vstd::prelude::*;
use crate::replication::follower::{locked_at, ReplicaFollower};
use crate::replication::index::repository_key;
use crate::replication::issues::{repository_issue_key, since_of, Issue, Issues};
use crate::replication::pending::{Sync, SyncTarget, Target};
use crate::text::{optional_text, same};

verus! {

/// How the commit that the master announces relates to the local history.
#[derive(Debug)]
pub enum HeadRelation {
    /// It is where the local history ends.
    Same,
    /// The local history ends after it.
    Ahead { local: String },
    /// Both histories are known, and neither contains the other.
    Diverged { local: String },
    /// It is not held here.
    Unknown,
}

/// What came of importing a pack.
#[derive(Debug)]
pub enum PackApply {
    /// The branch was moved forward.
    FastForwarded { from: Option<String>, to: String },
    /// There was nothing to move.
    UpToDate,
    /// The pack's commit is behind the local one; nothing was moved.
    Ahead { local: String, remote: String },
    /// The histories parted; nothing was moved.
    Diverged { local: String, remote: String },
}

/// What the commit graph says of two different commits, the local one and
/// the remote one.
#[derive(Debug, Clone, Copy, PartialEq, Eq, Structural)]
pub enum Ancestry {
    /// The remote commit is not held here.
    NotHeld,
    /// The remote history contains the local commit.
    RemoteDescends,
    /// The local history contains the remote commit.
    LocalDescends,
    /// Neither history contains the other commit.
    Apart,
}

/// How an announced commit relates to the local history, by what the commit
/// graph says of the two. One that the local history leads up to is still to
/// be fetched.
pub fn relation_to(local: Option<&str>, announced: &str, ancestry: Ancestry) -> (result:
    HeadRelation)
    ensures
        match (local, result) {
            (None, HeadRelation::Unknown) => true,
            (Some(held), HeadRelation::Same) => held@ == announced@,
            (Some(held), HeadRelation::Ahead { local: named }) => held@ != announced@ && ancestry
                == Ancestry::LocalDescends && named@ == held@,
            (Some(held), HeadRelation::Diverged { local: named }) => held@ != announced@
                && ancestry == Ancestry::Apart && named@ == held@,
            (Some(held), HeadRelation::Unknown) => held@ != announced@ && (ancestry
                == Ancestry::NotHeld || ancestry == Ancestry::RemoteDescends),
            _ => false,
        },
{
    match local {
        None => HeadRelation::Unknown,
        Some(held) => if same(held, announced) {
            HeadRelation::Same
        } else {
            match ancestry {
                Ancestry::LocalDescends => HeadRelation::Ahead { local: held.to_owned() },
                Ancestry::Apart => HeadRelation::Diverged { local: held.to_owned() },
                _ => HeadRelation::Unknown,
            }
        },
    }
}

/// What importing a pack comes to, by what the commit graph says once its
/// objects are here. The branch moves forward or not at all; nothing comes of
/// a pack that lacks the commit it was fetched for.
pub fn apply_pack(local: Option<&str>, remote: &str, ancestry: Ancestry) -> (result: Option<
    PackApply,
>)
    ensures
        match (local, result) {
            (None, Some(PackApply::FastForwarded { from, to })) => ancestry != Ancestry::NotHeld
                && from is None && to@ == remote@,
            (None, None) => ancestry == Ancestry::NotHeld,
            (Some(held), Some(PackApply::UpToDate)) => held@ == remote@,
            (Some(held), Some(PackApply::FastForwarded { from, to })) => {
                &&& held@ != remote@
                &&& ancestry == Ancestry::RemoteDescends
                &&& optional_text(from) == Some(held@)
                &&& to@ == remote@
            },
            (Some(held), Some(PackApply::Ahead { local: named, remote: other })) => {
                &&& held@ != remote@
                &&& ancestry == Ancestry::LocalDescends
                &&& named@ == held@
                &&& other@ == remote@
            },
            (Some(held), Some(PackApply::Diverged { local: named, remote: other })) => {
                &&& held@ != remote@
                &&& ancestry == Ancestry::Apart
                &&& named@ == held@
                &&& other@ == remote@
            },
            (Some(held), None) => held@ != remote@ && ancestry == Ancestry::NotHeld,
            _ => false,
        },
{
    match local {
        None => match ancestry {
            Ancestry::NotHeld => None,
            _ => Some(PackApply::FastForwarded { from: None, to: remote.to_owned() }),
        },
        Some(held) => if same(held, remote) {
            Some(PackApply::UpToDate)
        } else {
            match ancestry {
                Ancestry::NotHeld => None,
                Ancestry::RemoteDescends => Some(
                    PackApply::FastForwarded { from: Some(held.to_owned()), to: remote.to_owned() },
                ),
                Ancestry::LocalDescends => Some(
                    PackApply::Ahead { local: held.to_owned(), remote: remote.to_owned() },
                ),
                Ancestry::Apart => Some(
                    PackApply::Diverged { local: held.to_owned(), remote: remote.to_owned() },
                ),
            }
        },
    }
}

/// How the sync of one repository ended.
#[derive(Debug, Clone, Copy, PartialEq, Eq, Structural)]
pub enum SyncOutcome {
    /// It is where the master said.
    Synced,
    /// It was left as it is, until an operator decides.
    Locked,
    /// It stays pending.
    Failed,
}

/// Since when an issue under a key has been there, if it is raised now.
pub open spec fn since_when(issues: Map<Seq<char>, Issue>, key: Seq<char>, now: i64) -> i64 {
    if issues.contains_key(key) {
        since_of(issues[key])
    } else {
        now
    }
}

/// Whether a repository's issue, and nothing else, was set to say that the
/// local history goes on after the remote commit.
pub open spec fn locked_ahead(
    before: Map<Seq<char>, Issue>,
    after: Map<Seq<char>, Issue>,
    repository: (Seq<char>, Seq<char>),
    local: Seq<char>,
    remote: Seq<char>,
    now: i64,
) -> bool {
    let key = repository_issue_key(repository.0, repository.1);
    &&& after == before.insert(key, after[key])
    &&& match after[key] {
        Issue::ReplicaAhead { collection_id, tenant_id, local: held, remote: announced, since } => {
            &&& collection_id@ == repository.0
            &&& tenant_id@ == repository.1
            &&& held@ == local
            &&& announced@ == remote
            &&& since == since_when(before, key, now)
        },
        _ => false,
    }
}

/// Whether a repository's issue, and nothing else, was set to say that its
/// history and the remote one parted.
pub open spec fn locked_diverged(
    before: Map<Seq<char>, Issue>,
    after: Map<Seq<char>, Issue>,
    repository: (Seq<char>, Seq<char>),
    local: Seq<char>,
    remote: Seq<char>,
    now: i64,
) -> bool {
    let key = repository_issue_key(repository.0, repository.1);
    &&& after == before.insert(key, after[key])
    &&& match after[key] {
        Issue::HistoryDiverged {
            collection_id,
            tenant_id,
            local: held,
            remote: announced,
            since,
        } => {
            &&& collection_id@ == repository.0
            &&& tenant_id@ == repository.1
            &&& held@ == local
            &&& announced@ == remote
            &&& since == since_when(before, key, now)
        },
        _ => false,
    }
}

/// Locks a repository because this replica is ahead of its master for it.
pub fn lock_ahead(
    issues: &mut Issues,
    collection_id: &str,
    tenant_id: &str,
    local: &str,
    remote: &str,
    now: i64,
) -> (result: SyncOutcome)
    requires
        old(issues).is_valid(),
    ensures
        final(issues).is_valid(),
        result == SyncOutcome::Locked,
        locked_ahead(
            old(issues)@,
            final(issues)@,
            (collection_id@, tenant_id@),
            local@,
            remote@,
            now,
        ),
{
    issues.raise(
        Issues::repository_key(collection_id, tenant_id).as_str(),
        Issue::ReplicaAhead {
            collection_id: collection_id.to_owned(),
            tenant_id: tenant_id.to_owned(),
            local: local.to_owned(),
            remote: remote.to_owned(),
            since: now,
        },
    );
    SyncOutcome::Locked
}

/// Locks a repository because its history and its master's parted.
pub fn lock_diverged(
    issues: &mut Issues,
    collection_id: &str,
    tenant_id: &str,
    local: &str,
    remote: &str,
    now: i64,
) -> (result: SyncOutcome)
    requires
        old(issues).is_valid(),
    ensures
        final(issues).is_valid(),
        result == SyncOutcome::Locked,
        locked_diverged(
            old(issues)@,
            final(issues)@,
            (collection_id@, tenant_id@),
            local@,
            remote@,
            now,
        ),
{
    issues.raise(
        Issues::repository_key(collection_id, tenant_id).as_str(),
        Issue::HistoryDiverged {
            collection_id: collection_id.to_owned(),
            tenant_id: tenant_id.to_owned(),
            local: local.to_owned(),
            remote: remote.to_owned(),
            since: now,
        },
    );
    SyncOutcome::Locked
}

/// Lifts a repository's lock. Tells whether there was one.
pub fn unlock(issues: &mut Issues, collection_id: &str, tenant_id: &str) -> (result: bool)
    requires
        old(issues).is_valid(),
    ensures
        final(issues).is_valid(),
        final(issues)@ == old(issues)@.remove(repository_issue_key(collection_id@, tenant_id@)),
        result == old(issues)@.contains_key(repository_issue_key(collection_id@, tenant_id@)),
{
    issues.clear(Issues::repository_key(collection_id, tenant_id).as_str())
}

/// Decides from the local history alone whether anything is to be downloaded:
/// `None` means that a pack has to be asked for. A replica that is ahead, or
/// whose history parted from the master's, is locked.
pub fn before_download(
    issues: &mut Issues,
    collection_id: &str,
    tenant_id: &str,
    head_sha: &str,
    relation: &HeadRelation,
    now: i64,
) -> (result: Option<SyncOutcome>)
    requires
        old(issues).is_valid(),
    ensures
        final(issues).is_valid(),
        match *relation {
            HeadRelation::Same => result == Some(SyncOutcome::Synced) && final(issues)@ == old(
                issues,
            )@,
            HeadRelation::Unknown => result is None && final(issues)@ == old(issues)@,
            HeadRelation::Ahead { local } => result == Some(SyncOutcome::Locked) && locked_ahead(
                old(issues)@,
                final(issues)@,
                (collection_id@, tenant_id@),
                local@,
                head_sha@,
                now,
            ),
            HeadRelation::Diverged { local } => result == Some(SyncOutcome::Locked)
                && locked_diverged(
                old(issues)@,
                final(issues)@,
                (collection_id@, tenant_id@),
                local@,
                head_sha@,
                now,
            ),
        },
{
    match relation {
        HeadRelation::Same => Some(SyncOutcome::Synced),
        HeadRelation::Ahead { local } => Some(
            lock_ahead(issues, collection_id, tenant_id, local.as_str(), head_sha, now),
        ),
        HeadRelation::Diverged { local } => Some(
            lock_diverged(issues, collection_id, tenant_id, local.as_str(), head_sha, now),
        ),
        HeadRelation::Unknown => None,
    }
}

/// The commit that a downloaded pack is applied up to: the one that it states,
/// or else the one that was asked for.
pub fn landing_head(pack_head_sha: Option<String>, head_sha: &str) -> (result: String)
    ensures
        result@ == match pack_head_sha {
            Some(stated) => stated@,
            None => head_sha@,
        },
{
    match pack_head_sha {
        Some(stated) => stated,
        None => head_sha.to_owned(),
    }
}

/// Decides what an imported pack means for its repository.
pub fn after_apply(
    issues: &mut Issues,
    collection_id: &str,
    tenant_id: &str,
    applied: &PackApply,
    now: i64,
) -> (result: SyncOutcome)
    requires
        old(issues).is_valid(),
    ensures
        final(issues).is_valid(),
        match *applied {
            PackApply::FastForwarded { .. } | PackApply::UpToDate => result == SyncOutcome::Synced
                && final(issues)@ == old(issues)@,
            PackApply::Ahead { local, remote } => result == SyncOutcome::Locked && locked_ahead(
                old(issues)@,
                final(issues)@,
                (collection_id@, tenant_id@),
                local@,
                remote@,
                now,
            ),
            PackApply::Diverged { local, remote } => result == SyncOutcome::Locked
                && locked_diverged(
                old(issues)@,
                final(issues)@,
                (collection_id@, tenant_id@),
                local@,
                remote@,
                now,
            ),
        },
{
    match applied {
        PackApply::FastForwarded { .. } => SyncOutcome::Synced,
        PackApply::UpToDate => SyncOutcome::Synced,
        PackApply::Ahead { local, remote } => lock_ahead(
            issues,
            collection_id,
            tenant_id,
            local.as_str(),
            remote.as_str(),
            now,
        ),
        PackApply::Diverged { local, remote } => lock_diverged(
            issues,
            collection_id,
            tenant_id,
            local.as_str(),
            remote.as_str(),
            now,
        ),
    }
}

impl ReplicaFollower {
    /// Settles the sync of one repository. A deletion counts as done, however
    /// it went; a repository that was synced is unlocked; one that failed is
    /// queued again for the same commit.
    pub fn sync_repository(
        &mut self,
        collection_id: &str,
        tenant_id: &str,
        target: &SyncTarget,
        fetched: Result<SyncOutcome, String>,
        issues: &mut Issues,
    ) -> (result: SyncOutcome)
        requires
            old(issues).is_valid(),
        ensures
            final(issues).is_valid(),
            final(self).is_same_node(old(self)),
            final(self).full_reconcile_requested == old(self).full_reconcile_requested,
            final(issues)@ == if target@ is At && fetched == Ok::<SyncOutcome, String>(
                SyncOutcome::Synced,
            ) {
                old(issues)@.remove(repository_issue_key(collection_id@, tenant_id@))
            } else {
                old(issues)@
            },
            match target@ {
                Target::Deleted => result == SyncOutcome::Synced && final(self).pending@ == old(
                    self,
                ).pending@,
                Target::At(head_sha) => match fetched {
                    Ok(outcome) => result == outcome && final(self).pending@ == old(self).pending@,
                    Err(_) => {
                        &&& result == SyncOutcome::Failed
                        &&& final(self).pending@ == old(self).pending@.insert(
                            repository_key(collection_id@, tenant_id@),
                            Sync {
                                collection_id: collection_id@,
                                tenant_id: tenant_id@,
                                target: Target::At(head_sha),
                            },
                        )
                    },
                },
            },
    {
        let head_sha: &String = match target {
            SyncTarget::Deleted => {
                return SyncOutcome::Synced;
            },
            SyncTarget::At { head_sha } => head_sha,
        };
        match fetched {
            Ok(SyncOutcome::Synced) => {
                unlock(issues, collection_id, tenant_id);
                SyncOutcome::Synced
            },
            Ok(outcome) => outcome,
            Err(_) => {
                self.pending.queue(collection_id, tenant_id, head_sha.as_str());
                SyncOutcome::Failed
            },
        }
    }
}

/// A repository that was locked against a commit counts as locked for as long
/// as the master announces that commit, and only then.
pub proof fn law_lock_holds_for_its_commit(
    before: Map<Seq<char>, Issue>,
    after: Map<Seq<char>, Issue>,
    repository: (Seq<char>, Seq<char>),
    local: Seq<char>,
    remote: Seq<char>,
    announced: Seq<char>,
    now: i64,
)
    requires
        locked_ahead(before, after, repository, local, remote, now) || locked_diverged(
            before,
            after,
            repository,
            local,
            remote,
            now,
        ),
    ensures
        locked_at(after, repository.0, repository.1, announced) == (announced == remote),
{
}

/// A repository whose lock was lifted is not locked against any commit.
pub proof fn law_unlocked_is_not_locked(
    issues: Map<Seq<char>, Issue>,
    collection_id: Seq<char>,
    tenant_id: Seq<char>,
    announced: Seq<char>,
)
    ensures
        !locked_at(
            issues.remove(repository_issue_key(collection_id, tenant_id)),
            collection_id,
            tenant_id,
            announced,
        ),
{
}

} // verus!
