//! The open issues of a node: what it waits on an operator for.
use vstd::prelude::*;
use crate::keyed::{keys_increase, lists_key, map_of, TextMap};
use crate::sorting::{stable_sort, stable_sorted};
use crate::text::{has_prefix, joined, lemma_less_irreflexive, text_less};

verus! {

/// Something that a node has stopped doing until an operator looks at it.
#[derive(Debug)]
pub enum Issue {
    /// This replica holds more history of a repository than its master.
    ReplicaAhead {
        collection_id: String,
        tenant_id: String,
        local: String,
        remote: String,
        since: i64,
    },
    /// The histories of a repository here and on the master have parted.
    HistoryDiverged {
        collection_id: String,
        tenant_id: String,
        local: String,
        remote: String,
        since: i64,
    },
    /// The master states another data set than the pinned one.
    IdentityMismatch { pinned: String, stated: String, since: i64 },
    /// A listing would have deleted most of what this replica holds.
    DeletionRefused { would_delete: usize, held: usize, since: i64 },
    /// This node's identity file is gone.
    IdentityFileMissing { path: String, since: i64 },
    /// This node's identity file holds another identity.
    IdentityFileChanged { path: String, expected: String, found: String, since: i64 },
    /// Two processes present one node id.
    NodeIdCollision { node_id: String, since: i64 },
}

/// When an issue appeared.
pub open spec fn since_of(issue: Issue) -> i64 {
    match issue {
        Issue::ReplicaAhead { since, .. } => since,
        Issue::HistoryDiverged { since, .. } => since,
        Issue::IdentityMismatch { since, .. } => since,
        Issue::DeletionRefused { since, .. } => since,
        Issue::IdentityFileMissing { since, .. } => since,
        Issue::IdentityFileChanged { since, .. } => since,
        Issue::NodeIdCollision { since, .. } => since,
    }
}

/// An issue that appeared at another time.
pub open spec fn dated(issue: Issue, value: i64) -> Issue {
    match issue {
        Issue::ReplicaAhead { collection_id, tenant_id, local, remote, .. } => Issue::ReplicaAhead {
            collection_id,
            tenant_id,
            local,
            remote,
            since: value,
        },
        Issue::HistoryDiverged {
            collection_id,
            tenant_id,
            local,
            remote,
            ..
        } => Issue::HistoryDiverged { collection_id, tenant_id, local, remote, since: value },
        Issue::IdentityMismatch { pinned, stated, .. } => Issue::IdentityMismatch {
            pinned,
            stated,
            since: value,
        },
        Issue::DeletionRefused { would_delete, held, .. } => Issue::DeletionRefused {
            would_delete,
            held,
            since: value,
        },
        Issue::IdentityFileMissing { path, .. } => Issue::IdentityFileMissing {
            path,
            since: value,
        },
        Issue::IdentityFileChanged { path, expected, found, .. } => Issue::IdentityFileChanged {
            path,
            expected,
            found,
            since: value,
        },
        Issue::NodeIdCollision { node_id, .. } => Issue::NodeIdCollision { node_id, since: value },
    }
}

impl Issue {
    /// When the issue appeared.
    pub fn since(&self) -> (result: i64)
        ensures
            result == since_of(*self),
    {
        match self {
            Issue::ReplicaAhead { since, .. } => *since,
            Issue::HistoryDiverged { since, .. } => *since,
            Issue::IdentityMismatch { since, .. } => *since,
            Issue::DeletionRefused { since, .. } => *since,
            Issue::IdentityFileMissing { since, .. } => *since,
            Issue::IdentityFileChanged { since, .. } => *since,
            Issue::NodeIdCollision { since, .. } => *since,
        }
    }

    /// Sets when the issue appeared.
    pub fn set_since(&mut self, value: i64)
        ensures
            *final(self) == dated(*old(self), value),
    {
        match self {
            Issue::ReplicaAhead { since, .. } => {
                *since = value;
            },
            Issue::HistoryDiverged { since, .. } => {
                *since = value;
            },
            Issue::IdentityMismatch { since, .. } => {
                *since = value;
            },
            Issue::DeletionRefused { since, .. } => {
                *since = value;
            },
            Issue::IdentityFileMissing { since, .. } => {
                *since = value;
            },
            Issue::IdentityFileChanged { since, .. } => {
                *since = value;
            },
            Issue::NodeIdCollision { since, .. } => {
                *since = value;
            },
        }
    }

    /// A copy of the issue.
    pub fn copy(&self) -> (result: Issue)
        ensures
            result == *self,
    {
        match self {
            Issue::ReplicaAhead { collection_id, tenant_id, local, remote, since } =>
            Issue::ReplicaAhead {
                collection_id: collection_id.clone(),
                tenant_id: tenant_id.clone(),
                local: local.clone(),
                remote: remote.clone(),
                since: *since,
            },
            Issue::HistoryDiverged { collection_id, tenant_id, local, remote, since } =>
            Issue::HistoryDiverged {
                collection_id: collection_id.clone(),
                tenant_id: tenant_id.clone(),
                local: local.clone(),
                remote: remote.clone(),
                since: *since,
            },
            Issue::IdentityMismatch { pinned, stated, since } => Issue::IdentityMismatch {
                pinned: pinned.clone(),
                stated: stated.clone(),
                since: *since,
            },
            Issue::DeletionRefused { would_delete, held, since } => Issue::DeletionRefused {
                would_delete: *would_delete,
                held: *held,
                since: *since,
            },
            Issue::IdentityFileMissing { path, since } => Issue::IdentityFileMissing {
                path: path.clone(),
                since: *since,
            },
            Issue::IdentityFileChanged { path, expected, found, since } =>
            Issue::IdentityFileChanged {
                path: path.clone(),
                expected: expected.clone(),
                found: found.clone(),
                since: *since,
            },
            Issue::NodeIdCollision { node_id, since } => Issue::NodeIdCollision {
                node_id: node_id.clone(),
                since: *since,
            },
        }
    }
}

/// Key of the issue that the master's identity is not the pinned one.
pub const ISSUE_IDENTITY_MISMATCH: &'static str = "identity_mismatch";

/// Key of the issue that deletions are refused.
pub const ISSUE_DELETION_REFUSED: &'static str = "deletion_refused";

/// Key of the issue that the identity file is not what it was.
pub const ISSUE_IDENTITY_FILE: &'static str = "identity_file";

/// Key of the issue that this node's own id collides.
pub const ISSUE_NODE_ID_COLLISION: &'static str = "node_id_collision";

/// The issues of a list of entries.
pub open spec fn issues_in(pairs: Seq<(Seq<char>, Issue)>) -> Seq<Issue> {
    Seq::new(pairs.len(), |i: int| pairs[i].1)
}

/// The number of keys in a list of entries that start with a prefix.
pub open spec fn prefixed_count(pairs: Seq<(Seq<char>, Issue)>, prefix: Seq<char>) -> nat
    decreases pairs.len(),
{
    if pairs.len() == 0 {
        0
    } else {
        prefixed_count(pairs.drop_last(), prefix) + (if prefix.is_prefix_of(pairs.last().0) {
            1nat
        } else {
            0nat
        })
    }
}

/// The key of the issue of a repository.
pub open spec fn repository_issue_key(collection_id: Seq<char>, tenant_id: Seq<char>) -> Seq<char> {
    "repository:"@ + collection_id + "/"@ + tenant_id
}

/// The key of the issue that a node id collides.
pub open spec fn collision_issue_key(node_id: Seq<char>) -> Seq<char> {
    "node_id_collision:"@ + node_id
}

/// The open issues of a node, one under each key.
#[derive(Debug)]
pub struct Issues {
    inner: TextMap<Issue>,
}

impl View for Issues {
    type V = Map<Seq<char>, Issue>;

    closed spec fn view(&self) -> Map<Seq<char>, Issue> {
        self.inner@
    }
}

impl Issues {
    /// The issues with their keys, in the order of the keys.
    pub closed spec fn entries(&self) -> Seq<(Seq<char>, Issue)> {
        self.inner.pairs()
    }

    /// Whether the issues are kept in the order of their keys.
    pub closed spec fn is_valid(&self) -> bool {
        self.inner.is_valid()
    }

    /// No issues.
    pub fn new() -> (result: Self)
        ensures
            result.is_valid(),
            result@ == Map::<Seq<char>, Issue>::empty(),
    {
        Issues { inner: TextMap::new() }
    }

    /// The key of the issue of a repository.
    pub fn repository_key(collection_id: &str, tenant_id: &str) -> (result: String)
        ensures
            result@ == repository_issue_key(collection_id@, tenant_id@),
    {
        let mut key: String = joined("repository:", collection_id);
        key.append("/");
        key.append(tenant_id);
        key
    }

    /// The key of the issue that a node id collides.
    pub fn collision_key(node_id: &str) -> (result: String)
        ensures
            result@ == collision_issue_key(node_id@),
    {
        joined("node_id_collision:", node_id)
    }

    /// Opens an issue under a key, or replaces the one there; an issue that
    /// was open keeps the time when it appeared. Tells whether it is new.
    pub fn raise(&mut self, key: &str, issue: Issue) -> (result: bool)
        requires
            old(self).is_valid(),
        ensures
            final(self).is_valid(),
            result == !old(self)@.contains_key(key@),
            final(self)@ == old(self)@.insert(
                key@,
                if old(self)@.contains_key(key@) {
                    dated(issue, since_of(old(self)@[key@]))
                } else {
                    issue
                },
            ),
    {
        let mut raised: Issue = issue;
        let new: bool = match self.inner.get(key) {
            Some(existing) => {
                raised.set_since(existing.since());
                false
            },
            None => true,
        };
        self.inner.insert(key.to_owned(), raised);
        new
    }

    /// Closes the issue under a key. Tells whether one was open.
    pub fn clear(&mut self, key: &str) -> (result: bool)
        requires
            old(self).is_valid(),
        ensures
            final(self).is_valid(),
            result == old(self)@.contains_key(key@),
            final(self)@ == old(self)@.remove(key@),
    {
        self.inner.remove(key).is_some()
    }

    /// The issue under a key.
    pub fn get(&self, key: &str) -> (result: Option<Issue>)
        requires
            self.is_valid(),
        ensures
            match result {
                Some(issue) => self@.contains_key(key@) && issue == self@[key@],
                None => !self@.contains_key(key@),
            },
    {
        match self.inner.get(key) {
            Some(issue) => Some(issue.copy()),
            None => None,
        }
    }

    /// Whether no issue is open.
    pub fn is_empty(&self) -> (result: bool)
        requires
            self.is_valid(),
        ensures
            result == (self.entries().len() == 0),
            result == (self@ == Map::<Seq<char>, Issue>::empty()),
    {
        let empty: bool = self.inner.len() == 0;
        proof {
            let pairs = self.inner.pairs();
            if empty {
                assert(self@ =~= Map::<Seq<char>, Issue>::empty());
            } else {
                crate::keyed::law_pairs_are_the_map(self.inner);
                assert(self@.contains_key(pairs[0].0));
            }
        }
        empty
    }

    /// How many open issues have a key with the given prefix.
    pub fn count_with_prefix(&self, prefix: &str) -> (result: usize)
        ensures
            result == prefixed_count(self.entries(), prefix@),
    {
        let ghost pairs = self.inner.pairs();
        let mut count: usize = 0;
        let mut i: usize = 0;
        assert(pairs.take(0) =~= Seq::empty());
        while i < self.inner.len()
            invariant
                i <= pairs.len(),
                pairs == self.inner.pairs(),
                count <= i,
                count == prefixed_count(pairs.take(i as int), prefix@),
            decreases pairs.len() - i,
        {
            assert(pairs.take(i + 1).drop_last() =~= pairs.take(i as int));
            assert(pairs.take(i + 1).last() == pairs[i as int]);
            if has_prefix(self.inner.key_at(i), prefix) {
                count = count + 1;
            }
            i = i + 1;
        }
        assert(pairs.take(i as int) =~= pairs);
        count
    }

    /// The open issues, oldest first; those of one age by their keys.
    pub fn all(&self) -> (result: Vec<Issue>)
        ensures
            result@ == stable_sorted(
                issues_in(self.entries()),
                |left: Issue, right: Issue| since_of(left) < since_of(right),
            ),
    {
        let ghost pairs = self.inner.pairs();
        let mut issues: Vec<Issue> = Vec::new();
        let mut i: usize = 0;
        while i < self.inner.len()
            invariant
                i <= pairs.len(),
                pairs == self.inner.pairs(),
                issues@ == issues_in(pairs.take(i as int)),
            decreases pairs.len() - i,
        {
            issues.push(self.inner.value_at(i).copy());
            i = i + 1;
            assert(issues@ =~= issues_in(pairs.take(i as int)));
        }
        assert(pairs.take(i as int) =~= pairs);
        let precedes = |left: &Issue, right: &Issue| -> (r: bool)
            ensures
                r == (since_of(*left) < since_of(*right)),
            { left.since() < right.since() };
        let ghost before = |left: Issue, right: Issue| since_of(left) < since_of(right);
        stable_sort(issues, precedes, Ghost(before))
    }
}

impl Default for Issues {
    fn default() -> (result: Self)
        ensures
            result.is_valid(),
            result@ == Map::<Seq<char>, Issue>::empty(),
    {
        Issues::new()
    }
}

/// The entries and the map are the same issues.
pub proof fn law_entries_are_the_issues(issues: Issues)
    requires
        issues.is_valid(),
    ensures
        keys_increase(issues.entries()),
        issues@ == map_of(issues.entries()),
{
}

/// An issue that is raised again and again keeps the time when it appeared.
pub proof fn law_first_appearance_is_kept(issue: Issue, again: Issue)
    ensures
        since_of(dated(again, since_of(issue))) == since_of(issue),
{
}

/// The issues are shown oldest first, and all of them are.
pub proof fn law_issues_oldest_first(issues: Seq<Issue>)
    ensures
        ({
            let shown = stable_sorted(
                issues,
                |left: Issue, right: Issue| since_of(left) < since_of(right),
            );
            &&& shown.to_multiset() == issues.to_multiset()
            &&& forall|i: int, j: int|
                0 <= i < j < shown.len() ==> since_of(#[trigger] shown[i]) <= since_of(
                    #[trigger] shown[j],
                )
        }),
{
    let before = |left: Issue, right: Issue| since_of(left) < since_of(right);
    crate::sorting::lemma_sorted_keeps_items(issues, before);
    assert(crate::sorting::is_ranking(before));
    crate::sorting::lemma_sorted_is_sorted(issues, before);
    let shown = stable_sorted(issues, before);
    assert forall|i: int, j: int| 0 <= i < j < shown.len() implies since_of(#[trigger] shown[i])
        <= since_of(#[trigger] shown[j]) by {
        assert(!before(shown[j], shown[i]));
    }
}

/// The keys of issues that start with a prefix.
pub open spec fn prefixed_keys(issues: Map<Seq<char>, Issue>, prefix: Seq<char>) -> Set<Seq<char>> {
    issues.dom().filter(|key: Seq<char>| prefix.is_prefix_of(key))
}

spec fn listed_keys(pairs: Seq<(Seq<char>, Issue)>, prefix: Seq<char>) -> Set<Seq<char>> {
    Set::new(|key: Seq<char>| lists_key(pairs, key) && prefix.is_prefix_of(key))
}

proof fn lemma_listed_keys(pairs: Seq<(Seq<char>, Issue)>, prefix: Seq<char>)
    requires
        keys_increase(pairs),
    ensures
        listed_keys(pairs, prefix).finite(),
        listed_keys(pairs, prefix).len() == prefixed_count(pairs, prefix),
    decreases pairs.len(),
{
    let keys = listed_keys(pairs, prefix);
    if pairs.len() == 0 {
        assert(keys =~= Set::empty());
    } else {
        let init = pairs.drop_last();
        let last = pairs.last().0;
        lemma_listed_keys(init, prefix);
        assert(!lists_key(init, last)) by {
            if lists_key(init, last) {
                let i = choose|i: int| 0 <= i < init.len() && (#[trigger] init[i]).0 == last;
                assert(text_less(pairs[i].0, pairs[pairs.len() - 1].0));
                lemma_less_irreflexive(last);
            }
        }
        assert forall|key: Seq<char>| #[trigger]
            lists_key(pairs, key) <==> lists_key(init, key) || key == last by {
            if lists_key(init, key) {
                let i = choose|i: int| 0 <= i < init.len() && (#[trigger] init[i]).0 == key;
                assert(pairs[i].0 == key);
            }
            if lists_key(pairs, key) {
                let i = choose|i: int| 0 <= i < pairs.len() && (#[trigger] pairs[i]).0 == key;
                if i < init.len() {
                    assert(init[i].0 == key);
                }
            }
            assert(pairs[pairs.len() - 1].0 == last);
        }
        if prefix.is_prefix_of(last) {
            assert(keys =~= listed_keys(init, prefix).insert(last));
        } else {
            assert(keys =~= listed_keys(init, prefix));
        }
    }
}

/// Issues are counted by their keys, each once, whatever the order they came
/// in and however often they were raised.
pub proof fn law_count_is_of_keys(issues: Issues, prefix: Seq<char>)
    requires
        issues.is_valid(),
    ensures
        prefixed_keys(issues@, prefix).finite(),
        prefixed_count(issues.entries(), prefix) == prefixed_keys(issues@, prefix).len(),
{
    lemma_listed_keys(issues.entries(), prefix);
    assert(listed_keys(issues.entries(), prefix) =~= prefixed_keys(issues@, prefix));
}

/// An issue that is raised adds one to the count of its prefix unless one was
/// open under its key, and nothing to the count of another; one that is
/// cleared takes one off.
pub proof fn law_count_follows_issues(
    before: Issues,
    after: Issues,
    key: Seq<char>,
    issue: Issue,
    prefix: Seq<char>,
)
    requires
        before.is_valid(),
        after.is_valid(),
    ensures
        ({
            let counted = prefixed_count(before.entries(), prefix);
            let counts = prefixed_count(after.entries(), prefix);
            let was_counted = before@.contains_key(key) && prefix.is_prefix_of(key);
            &&& after@ == before@.insert(key, issue) ==> counts == if prefix.is_prefix_of(key)
                && !was_counted {
                counted + 1
            } else {
                counted
            }
            &&& after@ == before@.remove(key) ==> counted == if was_counted {
                counts + 1
            } else {
                counts
            }
        }),
{
    law_count_is_of_keys(before, prefix);
    law_count_is_of_keys(after, prefix);
    let old_keys = prefixed_keys(before@, prefix);
    let new_keys = prefixed_keys(after@, prefix);
    if after@ == before@.insert(key, issue) {
        if prefix.is_prefix_of(key) {
            assert(new_keys =~= old_keys.insert(key));
        } else {
            assert(new_keys =~= old_keys);
        }
    }
    if after@ == before@.remove(key) {
        assert(new_keys =~= old_keys.remove(key));
    }
}

/// A repository's key tells its ids.
proof fn lemma_repository_keys_differ(
    collection: Seq<char>,
    tenant: Seq<char>,
    other_collection: Seq<char>,
    other_tenant: Seq<char>,
)
    requires
        !collection.contains('/'),
        !other_collection.contains('/'),
        repository_issue_key(collection, tenant) == repository_issue_key(
            other_collection,
            other_tenant,
        ),
    ensures
        collection == other_collection,
        tenant == other_tenant,
{
    reveal_strlit("repository:");
    reveal_strlit("/");
    let head = "repository:"@.len() as int;
    let key = repository_issue_key(collection, tenant);
    let other = repository_issue_key(other_collection, other_tenant);
    assert forall|i: int| 0 <= i < collection.len() implies collection[i] == key[head + i] by {}
    assert forall|i: int| 0 <= i < other_collection.len() implies other_collection[i] == key[head
        + i] by {
        assert(other[head + i] == other_collection[i]);
    }
    assert(key[head + collection.len()] == '/');
    assert(other[head + other_collection.len()] == '/');
    if collection.len() < other_collection.len() {
        assert(other_collection[collection.len() as int] == '/');
    } else if other_collection.len() < collection.len() {
        assert(collection[other_collection.len() as int] == '/');
    }
    assert(collection =~= other_collection);
    assert(key.skip(head + collection.len() + 1) =~= tenant);
    assert(other.skip(head + collection.len() + 1) =~= other_tenant);
}

/// The repositories that wait for an operator are counted once each: the
/// count is the number of the repositories that an issue is open for, where
/// no collection id holds a slash.
pub proof fn law_locked_repositories(issues: Issues, locked: Set<(Seq<char>, Seq<char>)>)
    requires
        issues.is_valid(),
        locked.finite(),
        forall|repository: (Seq<char>, Seq<char>)| #[trigger]
            locked.contains(repository) ==> !repository.0.contains('/') && issues@.contains_key(
                repository_issue_key(repository.0, repository.1),
            ),
        forall|key: Seq<char>|
            #![trigger issues@.contains_key(key)]
            issues@.contains_key(key) && "repository:"@.is_prefix_of(key) ==> exists|
                repository: (Seq<char>, Seq<char>),
            | #[trigger]
                locked.contains(repository) && key == repository_issue_key(
                    repository.0,
                    repository.1,
                ),
    ensures
        prefixed_count(issues.entries(), "repository:"@) == locked.len(),
{
    let key_of = |repository: (Seq<char>, Seq<char>)|
        repository_issue_key(repository.0, repository.1);
    let keys = prefixed_keys(issues@, "repository:"@);
    law_count_is_of_keys(issues, "repository:"@);
    assert(locked.map(key_of) =~= keys) by {
        assert forall|key: Seq<char>| locked.map(key_of).contains(key) <==> keys.contains(key) by {
            if locked.map(key_of).contains(key) {
                let repository = choose|repository: (Seq<char>, Seq<char>)|
                    locked.contains(repository) && key == key_of(repository);
                assert(key.take("repository:"@.len() as int) =~= "repository:"@);
            }
            if keys.contains(key) {
                assert(issues@.contains_key(key));
                let repository = choose|repository: (Seq<char>, Seq<char>)| #[trigger]
                    locked.contains(repository) && key == repository_issue_key(
                        repository.0,
                        repository.1,
                    );
                assert(key_of(repository) == key);
            }
        }
    }
    assert(vstd::relations::injective_on(key_of, locked)) by {
        assert forall|left: (Seq<char>, Seq<char>), right: (Seq<char>, Seq<char>)|
            locked.contains(left) && locked.contains(right) && #[trigger] key_of(left)
                == #[trigger] key_of(right) implies left == right by {
            lemma_repository_keys_differ(left.0, left.1, right.0, right.1);
        }
    }
    vstd::set_lib::lemma_map_size(locked, keys, key_of);
}

/// The issues that are not about a repository lock none.
pub proof fn law_other_issues_lock_nothing(node_id: Seq<char>)
    ensures
        !"repository:"@.is_prefix_of(ISSUE_IDENTITY_MISMATCH@),
        !"repository:"@.is_prefix_of(ISSUE_DELETION_REFUSED@),
        !"repository:"@.is_prefix_of(ISSUE_IDENTITY_FILE@),
        !"repository:"@.is_prefix_of(ISSUE_NODE_ID_COLLISION@),
        !"repository:"@.is_prefix_of(collision_issue_key(node_id)),
{
    reveal_strlit("repository:");
    reveal_strlit("identity_mismatch");
    reveal_strlit("deletion_refused");
    reveal_strlit("identity_file");
    reveal_strlit("node_id_collision");
    reveal_strlit("node_id_collision:");
    assert("repository:"@[0] == 'r');
    assert(collision_issue_key(node_id)[0] == 'n');
}

} // verus!
