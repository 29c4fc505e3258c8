//! Every repository that a node holds, kept without walking the disk.
use vstd::prelude::*;
use crate::keyed::TextMap;
use crate::replication::wire::{Head, RepositoryHead, RepositoryScan};
use crate::sorting::{lemma_sorted_views, stable_sort, stable_sorted, views};
use crate::text::{joined, less, same, text_less};

verus! {

/// Seconds between two scans of an index that stays incomplete.
pub const INCOMPLETE_RESCAN_MIN_SECS: u64 = 5;

/// A repository of the index, and when it was last announced: at no time for
/// one that a scan found.
#[derive(Debug)]
pub struct IndexEntry {
    pub head: RepositoryHead,
    pub announced_at: u64,
}

/// A repository of the index over characters.
pub struct Indexed {
    pub head: Head,
    pub announced_at: u64,
}

impl View for IndexEntry {
    type V = Indexed;

    open spec fn view(&self) -> Indexed {
        Indexed { head: self.head@, announced_at: self.announced_at }
    }
}

/// The key of a repository.
pub open spec fn repository_key(collection_id: Seq<char>, tenant_id: Seq<char>) -> Seq<char> {
    collection_id + "/"@ + tenant_id
}

/// The key of a repository.
pub fn key_of(collection_id: &str, tenant_id: &str) -> (result: String)
    ensures
        result@ == repository_key(collection_id@, tenant_id@),
{
    let mut key: String = joined(collection_id, "/");
    key.append(tenant_id);
    key
}

/// Whether a repository comes before another: by collection, then by tenant.
pub open spec fn head_before(left: Head, right: Head) -> bool {
    text_less(left.collection_id, right.collection_id) || (left.collection_id
        == right.collection_id && text_less(left.tenant_id, right.tenant_id))
}

/// The repositories that a node holds.
#[derive(Debug)]
pub struct RepositoryIndex {
    heads: TextMap<IndexEntry>,
    complete: bool,
    scanned: bool,
    sequence: u64,
}

/// The last head of a scan under a key.
pub open spec fn last_scanned(scan: Seq<Head>, key: Seq<char>) -> Option<Head>
    decreases scan.len(),
{
    if scan.len() == 0 {
        None
    } else if repository_key(scan.last().collection_id, scan.last().tenant_id) == key {
        Some(scan.last())
    } else {
        last_scanned(scan.drop_last(), key)
    }
}

/// What an index holds under a key once a scan is folded in: what was
/// announced while the scan ran stays; else what the scan found; else, if the
/// scan saw everything, nothing.
pub open spec fn merged(
    held: Option<Indexed>,
    found: Option<Head>,
    complete: bool,
    started_at: u64,
) -> Option<Indexed> {
    if held matches Some(entry) && entry.announced_at > started_at {
        held
    } else {
        match found {
            Some(head) => Some(Indexed { head, announced_at: 0 }),
            None => if complete {
                None
            } else {
                held
            },
        }
    }
}

/// What a map of entries holds under a key.
pub open spec fn entry_at(entries: Map<Seq<char>, IndexEntry>, key: Seq<char>) -> Option<Indexed> {
    if entries.contains_key(key) {
        Some(entries[key]@)
    } else {
        None
    }
}

/// The key of a head's repository.
pub open spec fn head_key(head: Head) -> Seq<char> {
    repository_key(head.collection_id, head.tenant_id)
}

/// Whether an entry is that of the repository of a key, announced no later
/// than the last announcement.
pub open spec fn is_proper_entry(entry: Indexed, key: Seq<char>, sequence: u64) -> bool {
    head_key(entry.head) == key && entry.announced_at <= sequence
}

/// Whether every entry is that of the repository under its key, announced no
/// later than the last announcement.
pub open spec fn are_proper(entries: Map<Seq<char>, IndexEntry>, sequence: u64) -> bool {
    forall|key: Seq<char>|
        (#[trigger] entry_at(entries, key)) is Some ==> is_proper_entry(
            entry_at(entries, key)->0,
            key,
            sequence,
        )
}

/// What a scan says under a key is about the repository of that key.
proof fn lemma_last_scanned(scan: Seq<Head>, key: Seq<char>)
    ensures
        last_scanned(scan, key) matches Some(head) ==> head_key(head) == key,
    decreases scan.len(),
{
    if scan.len() > 0 {
        lemma_last_scanned(scan.drop_last(), key);
    }
}

/// The heads of a list of entries.
pub open spec fn heads_of(pairs: Seq<(Seq<char>, IndexEntry)>) -> Seq<Head> {
    Seq::new(pairs.len(), |i: int| pairs[i].1.head@)
}

/// Whether an index differs by one announcement alone: that a repository is at
/// a head, or that it is gone.
pub open spec fn announced(
    before: RepositoryIndex,
    after: RepositoryIndex,
    head: Head,
    gone: bool,
) -> bool {
    &&& after.announcements() == before.announcements() + 1
    &&& after.is_complete() == before.is_complete()
    &&& after.is_scanned() == before.is_scanned()
    &&& forall|key: Seq<char>| #[trigger]
        after.held(key) == if key != repository_key(head.collection_id, head.tenant_id) {
            before.held(key)
        } else if gone {
            None
        } else {
            Some(Indexed { head, announced_at: (before.announcements() + 1) as u64 })
        }
}

impl RepositoryIndex {
    /// The entry under a key.
    pub closed spec fn held(&self, key: Seq<char>) -> Option<Indexed> {
        entry_at(self.heads@, key)
    }

    /// The heads, in the order of their keys.
    pub closed spec fn heads(&self) -> Seq<Head> {
        heads_of(self.heads.pairs())
    }

    /// The number of announcements so far.
    pub closed spec fn announcements(&self) -> nat {
        self.sequence as nat
    }

    /// Whether the last scan saw everything.
    pub closed spec fn is_complete(&self) -> bool {
        self.complete
    }

    /// Whether a scan was ever folded in.
    pub closed spec fn is_scanned(&self) -> bool {
        self.scanned
    }

    /// Whether the entries are kept under their keys, and none was announced
    /// after the last announcement.
    pub closed spec fn is_valid(&self) -> bool {
        self.heads.is_valid() && are_proper(self.heads@, self.sequence)
    }

    /// An index that knows nothing yet.
    pub fn new() -> (result: Self)
        ensures
            result.is_valid(),
            forall|key: Seq<char>| #[trigger] result.held(key) is None,
            result.heads().len() == 0,
            result.announcements() == 0,
            !result.is_complete(),
            !result.is_scanned(),
    {
        RepositoryIndex { heads: TextMap::new(), complete: false, scanned: false, sequence: 0 }
    }

    /// The key of a repository.
    pub fn key(collection_id: &str, tenant_id: &str) -> (result: String)
        ensures
            result@ == repository_key(collection_id@, tenant_id@),
    {
        key_of(collection_id, tenant_id)
    }

    /// The number of announcements so far: where a scan that starts now is.
    pub fn sequence(&self) -> (result: u64)
        ensures
            result == self.announcements(),
    {
        self.sequence
    }

    /// Records that a repository is at `head_sha`.
    pub fn record_head(&mut self, collection_id: &str, tenant_id: &str, head_sha: &str)
        requires
            old(self).is_valid(),
            old(self).announcements() < u64::MAX,
        ensures
            final(self).is_valid(),
            announced(
                *old(self),
                *final(self),
                Head { collection_id: collection_id@, tenant_id: tenant_id@, head_sha: head_sha@ },
                false,
            ),
    {
        self.sequence = self.sequence + 1;
        let entry: IndexEntry = IndexEntry {
            head: RepositoryHead {
                collection_id: collection_id.to_owned(),
                tenant_id: tenant_id.to_owned(),
                head_sha: head_sha.to_owned(),
            },
            announced_at: self.sequence,
        };
        let ghost before = self.heads@;
        self.heads.insert(key_of(collection_id, tenant_id), entry);
        assert(are_proper(self.heads@, self.sequence)) by {
            assert forall|key: Seq<char>|
                (#[trigger] entry_at(self.heads@, key)) is Some implies is_proper_entry(
                entry_at(self.heads@, key)->0,
                key,
                self.sequence,
            ) by {
                assert(entry_at(before, key) is Some ==> is_proper_entry(
                    entry_at(before, key)->0,
                    key,
                    old(self).sequence,
                ));
            }
        }
    }

    /// Records that a repository is gone.
    pub fn remove(&mut self, collection_id: &str, tenant_id: &str)
        requires
            old(self).is_valid(),
            old(self).announcements() < u64::MAX,
        ensures
            final(self).is_valid(),
            announced(
                *old(self),
                *final(self),
                Head { collection_id: collection_id@, tenant_id: tenant_id@, head_sha: seq![] },
                true,
            ),
    {
        self.sequence = self.sequence + 1;
        let ghost before = self.heads@;
        self.heads.remove(key_of(collection_id, tenant_id).as_str());
        assert(are_proper(self.heads@, self.sequence)) by {
            assert forall|key: Seq<char>|
                (#[trigger] entry_at(self.heads@, key)) is Some implies is_proper_entry(
                entry_at(self.heads@, key)->0,
                key,
                self.sequence,
            ) by {
                assert(entry_at(before, key) is Some ==> is_proper_entry(
                    entry_at(before, key)->0,
                    key,
                    old(self).sequence,
                ));
            }
        }
    }

    /// The repositories, by collection and tenant. The listing is complete
    /// only where the index is and the store still vouches for itself.
    pub fn snapshot(&self, identity_intact: bool) -> (result: RepositoryScan)
        ensures
            views(result.repositories@) == stable_sorted(
                self.heads(),
                |left: Head, right: Head| head_before(left, right),
            ),
            result.complete == (self.is_complete() && identity_intact),
    {
        let ghost pairs = self.heads.pairs();
        let mut repositories: Vec<RepositoryHead> = Vec::new();
        let mut i: usize = 0;
        while i < self.heads.len()
            invariant
                i <= pairs.len(),
                pairs == self.heads.pairs(),
                repositories.len() == i,
                forall|j: int|
                    0 <= j < i ==> (#[trigger] repositories@[j])@ == pairs[j].1.head@,
            decreases pairs.len() - i,
        {
            let head: &RepositoryHead = &self.heads.value_at(i).head;
            repositories.push(
                RepositoryHead {
                    collection_id: head.collection_id.clone(),
                    tenant_id: head.tenant_id.clone(),
                    head_sha: head.head_sha.clone(),
                },
            );
            i = i + 1;
        }
        assert(views(repositories@) =~= self.heads());
        let precedes = |left: &RepositoryHead, right: &RepositoryHead| -> (r: bool)
            ensures
                r == head_before(left@, right@),
            {
                less(left.collection_id.as_str(), right.collection_id.as_str()) || (same(
                    left.collection_id.as_str(),
                    right.collection_id.as_str(),
                ) && less(left.tenant_id.as_str(), right.tenant_id.as_str()))
            };
        let ghost before = |left: RepositoryHead, right: RepositoryHead|
            head_before(left@, right@);
        let ghost before_view = |left: Head, right: Head| head_before(left, right);
        proof {
            lemma_sorted_views(repositories@, before, before_view);
        }
        let sorted: Vec<RepositoryHead> = stable_sort(repositories, precedes, Ghost(before));
        RepositoryScan { repositories: sorted, complete: self.complete && identity_intact }
    }

    /// Whether the disk is to be scanned: before the first scan, and again,
    /// but not at once, while the last one was incomplete. `since_last_secs`
    /// is the time since the last scan, if there was one.
    pub fn needs_scan(&self, since_last_secs: Option<u64>) -> (result: bool)
        ensures
            result == (!self.is_scanned() || (!self.is_complete() && match since_last_secs {
                Some(seconds) => seconds >= 5,
                None => true,
            })),
    {
        if !self.scanned {
            return true;
        }
        if self.complete {
            return false;
        }
        match since_last_secs {
            Some(seconds) => seconds >= INCOMPLETE_RESCAN_MIN_SECS,
            None => true,
        }
    }

    /// Folds a scan of the disk in. `started_at` is where the announcements
    /// were when the scan started. A scan of a store that does not vouch for
    /// itself counts as incomplete.
    pub fn rescan(&mut self, started_at: u64, scan: &RepositoryScan, identity_intact: bool)
        requires
            old(self).is_valid(),
        ensures
            final(self).is_valid(),
            final(self).announcements() == old(self).announcements(),
            final(self).is_scanned(),
            final(self).is_complete() == (scan.complete && identity_intact),
            forall|key: Seq<char>| #[trigger]
                final(self).held(key) == merged(
                    old(self).held(key),
                    last_scanned(views(scan.repositories@), key),
                    scan.complete && identity_intact,
                    started_at,
                ),
    {
        let complete: bool = scan.complete && identity_intact;
        let ghost before = self.heads@;
        let ghost all = views(scan.repositories@);
        if complete {
            self.drop_unseen(started_at, scan);
        }
        let ghost kept = self.heads@;
        let mut i: usize = 0;
        assert(all.take(0) =~= Seq::empty());
        while i < scan.repositories.len()
            invariant
                i <= scan.repositories.len(),
                self.heads.is_valid(),
                self.sequence == old(self).sequence,
                all == views(scan.repositories@),
                forall|key: Seq<char>| #[trigger]
                    entry_at(self.heads@, key) == merged(
                        entry_at(kept, key),
                        last_scanned(all.take(i as int), key),
                        false,
                        started_at,
                    ),
            decreases scan.repositories.len() - i,
        {
            let head: &RepositoryHead = &scan.repositories[i];
            let key: String = key_of(head.collection_id.as_str(), head.tenant_id.as_str());
            proof {
                assert(all.take(i + 1).drop_last() =~= all.take(i as int));
                assert(all.take(i + 1).last() == head@);
            }
            let announced_since: bool = match self.heads.get(key.as_str()) {
                Some(entry) => entry.announced_at > started_at,
                None => false,
            };
            let ghost name = key@;
            let ghost current = self.heads@;
            assert(entry_at(current, name) == merged(
                entry_at(kept, name),
                last_scanned(all.take(i as int), name),
                false,
                started_at,
            ));
            if !announced_since {
                self.heads.insert(
                    key,
                    IndexEntry {
                        head: RepositoryHead {
                            collection_id: head.collection_id.clone(),
                            tenant_id: head.tenant_id.clone(),
                            head_sha: head.head_sha.clone(),
                        },
                        announced_at: 0,
                    },
                );
            }
            assert forall|other: Seq<char>| #[trigger] entry_at(self.heads@, other) == merged(
                entry_at(kept, other),
                last_scanned(all.take(i + 1), other),
                false,
                started_at,
            ) by {
                assert(entry_at(current, other) == merged(
                    entry_at(kept, other),
                    last_scanned(all.take(i as int), other),
                    false,
                    started_at,
                ));
            }
            i = i + 1;
        }
        assert(all.take(i as int) =~= all);
        self.complete = complete;
        self.scanned = true;
        assert forall|key: Seq<char>| #[trigger] self.held(key) == merged(
            entry_at(before, key),
            last_scanned(all, key),
            complete,
            started_at,
        ) by {
            assert(entry_at(self.heads@, key) == merged(
                entry_at(kept, key),
                last_scanned(all, key),
                false,
                started_at,
            ));
        }
        assert(are_proper(self.heads@, self.sequence)) by {
            assert forall|key: Seq<char>|
                (#[trigger] entry_at(self.heads@, key)) is Some implies is_proper_entry(
                entry_at(self.heads@, key)->0,
                key,
                self.sequence,
            ) by {
                assert(self.held(key) == merged(
                    entry_at(before, key),
                    last_scanned(all, key),
                    complete,
                    started_at,
                ));
                lemma_last_scanned(all, key);
                assert(entry_at(before, key) is Some ==> is_proper_entry(
                    entry_at(before, key)->0,
                    key,
                    self.sequence,
                ));
            }
        }
    }

    /// Drops the entries that a complete scan did not see, but for those
    /// announced since it started.
    fn drop_unseen(&mut self, started_at: u64, scan: &RepositoryScan)
        requires
            old(self).is_valid(),
        ensures
            final(self).is_valid(),
            final(self).sequence == old(self).sequence,
            final(self).complete == old(self).complete,
            final(self).scanned == old(self).scanned,
            forall|key: Seq<char>| #[trigger]
                entry_at(final(self).heads@, key) == kept_entry(
                    entry_at(old(self).heads@, key),
                    last_scanned(views(scan.repositories@), key) is Some,
                    started_at,
                ),
    {
        let seen: TextMap<()> = seen_keys(scan);
        let ghost before = self.heads@;
        self.heads = keep_seen(&self.heads, &seen, started_at);
        assert(are_proper(self.heads@, self.sequence)) by {
            assert forall|key: Seq<char>|
                (#[trigger] entry_at(self.heads@, key)) is Some implies is_proper_entry(
                entry_at(self.heads@, key)->0,
                key,
                self.sequence,
            ) by {
                assert(entry_at(before, key) is Some);
            }
        }
    }
}

/// What stays of an entry after a complete scan.
spec fn kept_entry(entry: Option<Indexed>, seen: bool, started_at: u64) -> Option<Indexed> {
    match entry {
        Some(held) => if held.announced_at > started_at || seen {
            Some(held)
        } else {
            None
        },
        None => None,
    }
}

/// The keys that a scan saw.
fn seen_keys(scan: &RepositoryScan) -> (result: TextMap<()>)
    ensures
        result.is_valid(),
        forall|key: Seq<char>| #[trigger]
            result@.contains_key(key) <==> last_scanned(views(scan.repositories@), key) is Some,
{
    let ghost all = views(scan.repositories@);
    let mut seen: TextMap<()> = TextMap::new();
    let mut i: usize = 0;
    assert(all.take(0) =~= Seq::empty());
    while i < scan.repositories.len()
        invariant
            i <= scan.repositories.len(),
            seen.is_valid(),
            all == views(scan.repositories@),
            forall|key: Seq<char>| #[trigger]
                seen@.contains_key(key) <==> last_scanned(all.take(i as int), key) is Some,
        decreases scan.repositories.len() - i,
    {
        let head: &RepositoryHead = &scan.repositories[i];
        assert(all.take(i + 1).drop_last() =~= all.take(i as int));
        assert(all.take(i + 1).last() == head@);
        seen.insert(key_of(head.collection_id.as_str(), head.tenant_id.as_str()), ());
        i = i + 1;
    }
    assert(all.take(i as int) =~= all);
    seen
}

/// Whether one of the first entries of a list has the given key.
spec fn listed_before<V>(pairs: Seq<(Seq<char>, V)>, count: int, key: Seq<char>) -> bool {
    exists|k: int| 0 <= k < count && (#[trigger] pairs[k]).0 == key
}

/// The entries that were seen, or announced since.
fn keep_seen(heads: &TextMap<IndexEntry>, seen: &TextMap<()>, started_at: u64) -> (result: TextMap<
    IndexEntry,
>)
    requires
        heads.is_valid(),
        seen.is_valid(),
    ensures
        result.is_valid(),
        forall|key: Seq<char>| #[trigger]
            entry_at(result@, key) == kept_entry(
                entry_at(heads@, key),
                seen@.contains_key(key),
                started_at,
            ),
{
    let ghost pairs = heads.pairs();
    let mut kept: TextMap<IndexEntry> = TextMap::new();
    proof {
        crate::keyed::law_pairs_are_the_map(*heads);
    }
    let mut j: usize = 0;
    while j < heads.len()
        invariant
            j <= pairs.len(),
            pairs == heads.pairs(),
            kept.is_valid(),
            seen.is_valid(),
            forall|i: int|
                0 <= i < pairs.len() ==> heads@.contains_key((#[trigger] pairs[i]).0)
                    && heads@[pairs[i].0] == pairs[i].1,
            forall|key: Seq<char>| #[trigger]
                entry_at(kept@, key) == (if listed_before(pairs, j as int, key) {
                    kept_entry(entry_at(heads@, key), seen@.contains_key(key), started_at)
                } else {
                    None
                }),
        decreases pairs.len() - j,
    {
        let key: &str = heads.key_at(j);
        let entry: &IndexEntry = heads.value_at(j);
        let ghost before = kept@;
        assert(entry_at(heads@, key@) == Some(entry@));
        if entry.announced_at > started_at || seen.contains_key(key) {
            kept.insert(
                key.to_owned(),
                IndexEntry {
                    head: RepositoryHead {
                        collection_id: entry.head.collection_id.clone(),
                        tenant_id: entry.head.tenant_id.clone(),
                        head_sha: entry.head.head_sha.clone(),
                    },
                    announced_at: entry.announced_at,
                },
            );
        }
        assert forall|other: Seq<char>| #[trigger] entry_at(kept@, other) == (if listed_before(
            pairs,
            j + 1,
            other,
        ) {
            kept_entry(entry_at(heads@, other), seen@.contains_key(other), started_at)
        } else {
            None
        }) by {
            assert(entry_at(before, other) == (if listed_before(pairs, j as int, other) {
                kept_entry(entry_at(heads@, other), seen@.contains_key(other), started_at)
            } else {
                None
            }));
            if other == key@ {
                assert(pairs[j as int].0 == other);
                assert(listed_before(pairs, j + 1, other));
            } else {
                assert(listed_before(pairs, j + 1, other) == listed_before(
                    pairs,
                    j as int,
                    other,
                ));
            }
        }
        j = j + 1;
    }
    assert forall|key: Seq<char>| #[trigger] entry_at(kept@, key) == kept_entry(
        entry_at(heads@, key),
        seen@.contains_key(key),
        started_at,
    ) by {
        if heads@.contains_key(key) {
            let k = choose|k: int| 0 <= k < pairs.len() && (#[trigger] pairs[k]).0 == key;
            assert(listed_before(pairs, pairs.len() as int, key));
        }
    }
    kept
}

/// An index lists what it holds, each repository once.
pub proof fn law_index_lists_what_it_holds(index: RepositoryIndex)
    requires
        index.is_valid(),
    ensures
        forall|i: int|
            0 <= i < index.heads().len() ==> #[trigger] is_held(index, index.heads()[i]),
        forall|key: Seq<char>|
            (#[trigger] index.held(key)) is Some ==> index.heads().contains(
                index.held(key)->0.head,
            ),
        forall|i: int, j: int|
            0 <= i < j < index.heads().len() ==> head_key(#[trigger] index.heads()[i]) != head_key(
                #[trigger] index.heads()[j],
            ),
{
    let pairs = index.heads.pairs();
    let heads = index.heads();
    crate::keyed::law_pairs_are_the_map(index.heads);
    crate::keyed::lemma_key_count(index.heads);
    let keys = crate::keyed::keys_of(pairs);
    assert forall|i: int| 0 <= i < heads.len() implies #[trigger] is_held(index, heads[i]) && head_key(
        heads[i],
    ) == keys[i] by {
        assert(index.heads@.contains_key(pairs[i].0));
        assert(entry_at(index.heads@, pairs[i].0) == Some(pairs[i].1@));
    }
    assert forall|key: Seq<char>| (#[trigger] index.held(key)) is Some implies heads.contains(
        index.held(key)->0.head,
    ) by {
        assert(index.heads@.contains_key(key));
        let i = choose|i: int| 0 <= i < pairs.len() && (#[trigger] pairs[i]).0 == key;
        assert(heads[i] == index.held(key)->0.head);
    }
    assert forall|i: int, j: int| 0 <= i < j < heads.len() implies head_key(#[trigger] heads[i])
        != head_key(#[trigger] heads[j]) by {
        assert(is_held(index, heads[i]) && is_held(index, heads[j]));
        assert(keys[i] != keys[j]);
    }
}

/// Whether an index holds a repository at the given head.
pub open spec fn is_held(index: RepositoryIndex, head: Head) -> bool {
    index.held(head_key(head)) matches Some(entry) && entry.head == head
}

/// A scan never takes back what was announced while it ran.
pub proof fn law_scan_yields_to_announcements(
    held: Indexed,
    found: Option<Head>,
    complete: bool,
    started_at: u64,
)
    requires
        held.announced_at > started_at,
    ensures
        merged(Some(held), found, complete, started_at) == Some(held),
{
}

/// What a scan makes of a repository that was not announced while it ran: the
/// index then holds it as the scan found it; one that the scan did not find is
/// dropped if the scan saw everything, and stays as it was if not. `start` is
/// the index when the scan began, `before` when it is folded in.
pub proof fn law_scan_replaces_the_rest(
    start: RepositoryIndex,
    before: RepositoryIndex,
    found: Option<Head>,
    complete: bool,
    key: Seq<char>,
)
    requires
        start.is_valid(),
        before.held(key) == start.held(key),
    ensures
        merged(before.held(key), found, complete, start.announcements() as u64) == match found {
            Some(head) => Some(Indexed { head, announced_at: 0 }),
            None => if complete {
                None
            } else {
                start.held(key)
            },
        },
{
    assert(entry_at(start.heads@, key) is Some ==> is_proper_entry(
        entry_at(start.heads@, key)->0,
        key,
        start.sequence,
    ));
}

/// What was announced while a scan ran is held as it was announced, whatever
/// the scan found. `start` is the index when the scan began, `before` that
/// before the announcement, `after` that after it.
pub proof fn law_announcement_outlives_a_scan(
    start: RepositoryIndex,
    before: RepositoryIndex,
    after: RepositoryIndex,
    head: Head,
    found: Option<Head>,
    complete: bool,
)
    requires
        start.announcements() <= before.announcements() < u64::MAX,
        announced(before, after, head, false),
    ensures
        after.held(head_key(head)) matches Some(entry) && entry.head == head,
        merged(after.held(head_key(head)), found, complete, start.announcements() as u64)
            == after.held(head_key(head)),
{
    assert(after.held(head_key(head)) is Some);
}

/// A repository that is gone is not listed, and every other one is as it was;
/// announced again, it is listed once, at its new head. `gone` and `head` name
/// one repository.
pub proof fn law_gone_until_announced(
    before: RepositoryIndex,
    removed: RepositoryIndex,
    recorded: RepositoryIndex,
    gone: Head,
    head: Head,
    other: Head,
)
    requires
        before.is_valid(),
        removed.is_valid(),
        recorded.is_valid(),
        before.announcements() + 2 <= u64::MAX,
        head_key(gone) == head_key(head),
        announced(before, removed, gone, true),
        announced(removed, recorded, head, false),
    ensures
        forall|i: int|
            0 <= i < removed.heads().len() ==> head_key(#[trigger] removed.heads()[i]) != head_key(
                head,
            ),
        head_key(other) != head_key(head) ==> (removed.heads().contains(other)
            <==> before.heads().contains(other)),
        recorded.heads().contains(head),
        forall|i: int, j: int|
            0 <= i < j < recorded.heads().len() ==> head_key(#[trigger] recorded.heads()[i])
                != head_key(#[trigger] recorded.heads()[j]),
{
    law_index_lists_what_it_holds(before);
    law_index_lists_what_it_holds(removed);
    law_index_lists_what_it_holds(recorded);
    let key = head_key(head);
    assert(removed.held(key) is None);
    assert(recorded.held(key) is Some);
    assert forall|i: int| 0 <= i < removed.heads().len() implies head_key(
        #[trigger] removed.heads()[i],
    ) != key by {
        assert(is_held(removed, removed.heads()[i]));
    }
    if head_key(other) != key {
        assert(removed.held(head_key(other)) == before.held(head_key(other)));
        if removed.heads().contains(other) {
            let i = choose|i: int| 0 <= i < removed.heads().len() && removed.heads()[i] == other;
            assert(is_held(removed, removed.heads()[i]));
        }
        if before.heads().contains(other) {
            let i = choose|i: int| 0 <= i < before.heads().len() && before.heads()[i] == other;
            assert(is_held(before, before.heads()[i]));
        }
    }
}

/// A scan that did not see everything removes nothing.
pub proof fn law_incomplete_scan_removes_nothing(
    held: Indexed,
    found: Option<Head>,
    started_at: u64,
)
    ensures
        merged(Some(held), found, false, started_at) is Some,
{
}

} // verus!
