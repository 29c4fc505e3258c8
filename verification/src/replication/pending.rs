//! The repositories that a replica knows it has to look at.
use vstd::prelude::*;
use crate::replication::index::{key_of, repository_key};

verus! {

/// What a repository is to become.
#[derive(Debug)]
pub enum SyncTarget {
    /// The master has it at this commit.
    At { head_sha: String },
    /// The master has it no more.
    Deleted,
}

/// What a repository is to become, over characters.
pub enum Target {
    At(Seq<char>),
    Deleted,
}

/// A repository to look at.
#[derive(Debug)]
pub struct PendingSync {
    pub collection_id: String,
    pub tenant_id: String,
    pub target: SyncTarget,
}

/// A repository to look at, over characters.
pub struct Sync {
    pub collection_id: Seq<char>,
    pub tenant_id: Seq<char>,
    pub target: Target,
}

impl View for SyncTarget {
    type V = Target;

    open spec fn view(&self) -> Target {
        match *self {
            SyncTarget::At { head_sha } => Target::At(head_sha@),
            SyncTarget::Deleted => Target::Deleted,
        }
    }
}

impl View for PendingSync {
    type V = Sync;

    open spec fn view(&self) -> Sync {
        Sync {
            collection_id: self.collection_id@,
            tenant_id: self.tenant_id@,
            target: self.target@,
        }
    }
}

/// Copies a repository to look at.
pub fn copy_sync(sync: &PendingSync) -> (result: PendingSync)
    ensures
        result@ == sync@,
{
    PendingSync {
        collection_id: sync.collection_id.clone(),
        tenant_id: sync.tenant_id.clone(),
        target: match &sync.target {
            SyncTarget::At { head_sha } => SyncTarget::At { head_sha: head_sha.clone() },
            SyncTarget::Deleted => SyncTarget::Deleted,
        },
    }
}

/// The repositories that a map holds, by their keys.
pub uninterp spec fn pending_syncs(map: dashmap::DashMap<String, PendingSync>) -> Map<
    Seq<char>,
    Sync,
>;

/// No repositories.
pub open spec fn no_syncs() -> Map<Seq<char>, Sync> {
    Map::empty()
}

/// `dashmap::DashMap::new`: a map without repositories.
#[verifier::external_body]
fn new_syncs() -> (result: dashmap::DashMap<String, PendingSync>)
    ensures
        pending_syncs(result) == no_syncs(),
{
    dashmap::DashMap::new()
}

/// `dashmap::DashMap::insert`: sets what is under a key.
#[verifier::external_body]
fn put_sync(map: &mut dashmap::DashMap<String, PendingSync>, key: String, sync: PendingSync)
    ensures
        pending_syncs(*final(map)) == pending_syncs(*old(map)).insert(key@, sync@),
{
    map.insert(key, sync);
}

/// `dashmap::DashMap::remove`: drops what is under a key.
#[verifier::external_body]
fn drop_sync(map: &mut dashmap::DashMap<String, PendingSync>, key: &str)
    ensures
        pending_syncs(*final(map)) == pending_syncs(*old(map)).remove(key@),
{
    map.remove(key);
}

/// Whether a number is that of a map's keys, of which there are finitely many.
pub open spec fn counts_keys(count: nat, syncs: Map<Seq<char>, Sync>) -> bool {
    syncs.dom().finite() && syncs.dom().len() == count
}

/// `dashmap::DashMap::len`: the number of keys, of which there are finitely
/// many.
#[verifier::external_body]
fn count_syncs(map: &dashmap::DashMap<String, PendingSync>) -> (result: usize)
    ensures
        counts_keys(result as nat, pending_syncs(*map)),
{
    map.len()
}

/// `dashmap::DashMap::iter`: a copy of everything with its key, each once, in
/// no particular order.
#[verifier::external_body]
fn all_syncs(map: &dashmap::DashMap<String, PendingSync>) -> (result: Vec<(String, PendingSync)>)
    ensures
        lists_syncs(result@, pending_syncs(*map)),
{
    map.iter().map(|entry| (entry.key().clone(), copy_sync(entry.value()))).collect()
}

/// Whether a list holds everything of a map under its key, once.
pub open spec fn lists_syncs(list: Seq<(String, PendingSync)>, syncs: Map<Seq<char>, Sync>) -> bool {
    &&& forall|i: int|
        0 <= i < list.len() ==> syncs.contains_key((#[trigger] list[i]).0@) && syncs[list[i].0@]
            == list[i].1@
    &&& forall|i: int, j: int|
        0 <= i < j < list.len() ==> (#[trigger] list[i]).0@ != (#[trigger] list[j]).0@
    &&& forall|key: Seq<char>| #[trigger]
        syncs.contains_key(key) ==> exists|i: int|
            0 <= i < list.len() && (#[trigger] list[i]).0@ == key
}

/// The repositories that a replica has to look at.
pub struct PendingSet {
    syncs: dashmap::DashMap<String, PendingSync>,
}

impl View for PendingSet {
    type V = Map<Seq<char>, Sync>;

    closed spec fn view(&self) -> Map<Seq<char>, Sync> {
        pending_syncs(self.syncs)
    }
}

impl PendingSet {
    /// Nothing to look at.
    pub fn new() -> (result: Self)
        ensures
            result@ == no_syncs(),
    {
        PendingSet { syncs: new_syncs() }
    }

    /// Sets what is under a key.
    pub fn put(&mut self, key: String, sync: PendingSync)
        ensures
            final(self)@ == old(self)@.insert(key@, sync@),
    {
        put_sync(&mut self.syncs, key, sync);
    }

    /// Queues a repository for the commit that the master has it at.
    pub fn queue(&mut self, collection_id: &str, tenant_id: &str, head_sha: &str)
        ensures
            final(self)@ == old(self)@.insert(
                repository_key(collection_id@, tenant_id@),
                Sync {
                    collection_id: collection_id@,
                    tenant_id: tenant_id@,
                    target: Target::At(head_sha@),
                },
            ),
    {
        self.put(
            key_of(collection_id, tenant_id),
            PendingSync {
                collection_id: collection_id.to_owned(),
                tenant_id: tenant_id.to_owned(),
                target: SyncTarget::At { head_sha: head_sha.to_owned() },
            },
        );
    }

    /// Drops what is under a key.
    pub fn remove(&mut self, key: &str)
        ensures
            final(self)@ == old(self)@.remove(key@),
    {
        drop_sync(&mut self.syncs, key);
    }

    /// How many repositories there are to look at.
    pub fn len(&self) -> (result: usize)
        ensures
            self@.dom().finite(),
            result == self@.dom().len(),
    {
        count_syncs(&self.syncs)
    }

    /// Whether there is nothing to look at.
    pub fn is_empty(&self) -> (result: bool)
        ensures
            result == (self@ == no_syncs()),
    {
        let count: usize = self.len();
        proof {
            if count == 0 {
                assert(self@.dom() =~= Set::empty());
                assert(self@ =~= no_syncs());
            } else if self@ == no_syncs() {
                assert(self@.dom() =~= Set::empty());
            }
        }
        count == 0
    }

    /// Everything there is to look at, with its keys.
    pub fn targets(&self) -> (result: Vec<(String, PendingSync)>)
        ensures
            lists_syncs(result@, self@),
    {
        all_syncs(&self.syncs)
    }
}

} // verus!
