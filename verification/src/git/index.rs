//! The order index of a directory: reading it, writing it, moving one entry,
//! and keeping it true while files come and go.
use vstd::prelude::*;
use vstd::utf8::*;
use crate::error::{invalid_operation, AppError, Fault};
use crate::git::model::{
    blob_at, blob_id, blob_oid_in_tree, find_entry, finish_plan, hash_blob, lookup, plan_outcome,
    planned, stored_order, stored_order_in, Blob, Change, CommitPlan, CommitRequest, Edit, Entry,
    EntryKind, FileChange, Plan, Request, StoredBlob, TreeEdit, TreeEntry,
};
use crate::order::{
    bare_name, child_path, directory_entry, display_directory, document_of, entry_name,
    is_index_path, is_order_file, leaf_of, order_file_path, order_in, parent_of, path_in, serialize,
    shown_directory, split_parent, ORDER_FILE_NAME,
};
use crate::sorting::views;
use crate::text::{copy_texts, decimal, joined, lemma_texts_push, same, spell, texts};

verus! {

/// Operations on a directory's order index.
pub struct GitOrder;

/// The edit and the change that store `entries` as a directory's index: an
/// index without entries is removed.
pub open spec fn index_step(
    directory: Seq<char>,
    entries: Seq<Seq<char>>,
    index_existed: bool,
) -> (Edit, Change) {
    let path = child_path(directory, ORDER_FILE_NAME@);
    let document = document_of(entries);
    if entries.len() == 0 {
        (Edit::Remove(path), Change::Deleted(path))
    } else if index_existed {
        (Edit::Write(path, document), Change::Updated(path, document))
    } else {
        (Edit::Write(path, document), Change::Created(path, document))
    }
}

/// The entries of an index that do not have the given name.
pub open spec fn without_name(entries: Seq<Seq<char>>, name: Seq<char>) -> Seq<Seq<char>> {
    entries.filter(|entry: Seq<char>| bare_name(entry) != name)
}

/// Position of the first entry with the given name, or the list's length.
pub open spec fn name_position(entries: Seq<Seq<char>>, name: Seq<char>) -> int
    decreases entries.len(),
{
    if entries.len() == 0 || bare_name(entries[0]) == name {
        0
    } else {
        1 + name_position(entries.skip(1), name)
    }
}

/// What removing an entry does to the stored order of its directory: nothing,
/// unless the order lists it.
pub open spec fn removal_step(
    stored: Option<Seq<Seq<char>>>,
    directory: Seq<char>,
    name: Seq<char>,
) -> Option<(Edit, Change)> {
    match stored {
        None => None,
        Some(entries) => if name_position(entries, name) == entries.len() {
            None
        } else {
            Some(index_step(directory, without_name(entries, name), true))
        },
    }
}

/// What adding an entry does to the stored order of its directory: it goes to
/// the end, unless the order lists its name already.
pub open spec fn append_step(
    stored: Option<Seq<Seq<char>>>,
    directory: Seq<char>,
    entry: Seq<char>,
) -> Option<(Edit, Change)> {
    match stored {
        None => None,
        Some(entries) => if name_position(entries, bare_name(entry)) < entries.len() {
            None
        } else {
            Some(index_step(directory, entries.push(entry), true))
        },
    }
}

/// What renaming an entry does to the stored order of its directory: the new
/// entry takes the place of the old one.
pub open spec fn rename_step(
    stored: Option<Seq<Seq<char>>>,
    directory: Seq<char>,
    from_name: Seq<char>,
    entry: Seq<char>,
) -> Option<(Edit, Change)> {
    match stored {
        None => None,
        Some(entries) => {
            let position = name_position(entries, from_name);
            if position == entries.len() {
                None
            } else {
                Some(index_step(directory, entries.update(position, entry), true))
            }
        },
    }
}

/// An optional step of a plan, over its views.
pub open spec fn step_view(step: Option<(TreeEdit, FileChange)>) -> Option<(Edit, Change)> {
    match step {
        None => None,
        Some((edit, change)) => Some((edit@, change@)),
    }
}

/// The edits of a plan with an optional step at the end.
pub open spec fn with_edit(edits: Seq<Edit>, step: Option<(Edit, Change)>) -> Seq<Edit> {
    match step {
        None => edits,
        Some((edit, _)) => edits.push(edit),
    }
}

/// The changes of a plan with an optional step at the end.
pub open spec fn with_change(changes: Seq<Change>, step: Option<(Edit, Change)>) -> Seq<Change> {
    match step {
        None => changes,
        Some((_, change)) => changes.push(change),
    }
}

/// Adds an optional step to a plan's edits and changes.
pub(crate) fn add_step(
    edits: &mut Vec<TreeEdit>,
    changes: &mut Vec<FileChange>,
    step: Option<(TreeEdit, FileChange)>,
)
    ensures
        views(final(edits)@) == with_edit(views(old(edits)@), step_view(step)),
        views(final(changes)@) == with_change(views(old(changes)@), step_view(step)),
{
    broadcast use crate::sorting::lemma_views_push;

    match step {
        None => {},
        Some((edit, change)) => {
            edits.push(edit);
            changes.push(change);
        },
    }
}

/// Finds the first entry with the given name.
fn find_name(entries: &[String], name: &str) -> (result: usize)
    ensures
        result == name_position(texts(entries@), name@),
        result <= entries.len(),
{
    let ghost all = texts(entries@);
    let mut i: usize = 0;
    assert(all.skip(0) =~= all);
    while i < entries.len()
        invariant
            i <= entries.len(),
            all == texts(entries@),
            name_position(all, name@) == i + name_position(all.skip(i as int), name@),
        decreases entries.len() - i,
    {
        if same(entry_name(entries[i].as_str()), name) {
            return i;
        }
        assert(all.skip(i as int).skip(1) =~= all.skip(i + 1));
        i = i + 1;
    }
    i
}

/// Keeps the entries that do not have the given name.
fn drop_name(entries: &[String], name: &str) -> (result: Vec<String>)
    ensures
        texts(result@) == without_name(texts(entries@), name@),
{
    let ghost all = texts(entries@);
    let ghost keeps = |entry: Seq<char>| bare_name(entry) != name@;
    let mut result: Vec<String> = Vec::new();
    let mut i: usize = 0;
    assert(texts(result@) =~= all.take(0).filter(keeps));
    while i < entries.len()
        invariant
            i <= entries.len(),
            all == texts(entries@),
            keeps == (|entry: Seq<char>| bare_name(entry) != name@),
            texts(result@) == all.take(i as int).filter(keeps),
        decreases entries.len() - i,
    {
        proof {
            assert(all.take(i + 1) =~= all.take(i as int).push(entries@[i as int]@));
            all.take(i as int).lemma_filter_push(entries@[i as int]@, keeps);
            lemma_texts_push(result@, entries@[i as int]);
        }
        if !same(entry_name(entries[i].as_str()), name) {
            result.push(entries[i].clone());
        }
        i = i + 1;
    }
    assert(all.take(i as int) =~= all);
    result
}

/// What an order write spells for each entry: a directory gets its slash.
pub open spec fn canonical_entry(kind: EntryKind, name: Seq<char>) -> Seq<char> {
    if kind == EntryKind::Tree {
        name + "/"@
    } else {
        name
    }
}

/// Whether a name exists in a directory of a tree, as a file or a directory.
pub open spec fn names_entry(tree: Seq<Entry>, directory: Seq<char>, name: Seq<char>) -> bool {
    lookup(tree, child_path(directory, name)) matches Some(entry) && entry.kind != EntryKind::Other
}

/// The canonical spelling of an order, or the fault of its first entry that
/// does not exist.
pub open spec fn canonical_order(
    tree: Seq<Entry>,
    directory: Seq<char>,
    entries: Seq<Seq<char>>,
) -> Result<Seq<Seq<char>>, Fault>
    decreases entries.len(),
{
    if entries.len() == 0 {
        Ok(Seq::empty())
    } else {
        match canonical_order(tree, directory, entries.drop_last()) {
            Err(fault) => Err(fault),
            Ok(before) => {
                let name = bare_name(entries.last());
                if names_entry(tree, directory, name) {
                    Ok(
                        before.push(
                            canonical_entry(
                                lookup(tree, child_path(directory, name))->0.kind,
                                name,
                            ),
                        ),
                    )
                } else {
                    Err(
                        Fault::InvalidOperation(
                            "order entry does not exist in '"@ + shown_directory(directory)
                                + "': "@ + name,
                        ),
                    )
                }
            },
        }
    }
}

/// The plan that stores `entries` as a directory's index, given the id of its
/// document, unless it is stored already.
pub open spec fn store_plan_for(
    tree: Seq<Entry>,
    directory: Seq<char>,
    entries: Seq<Seq<char>>,
    incoming: Result<Seq<char>, Seq<char>>,
    request: Request,
    auto: Seq<char>,
) -> Result<Option<Plan>, Fault> {
    let existing = blob_at(tree, child_path(directory, ORDER_FILE_NAME@));
    match incoming {
        Err(message) => Err(Fault::Git(message)),
        Ok(oid) => if existing == Some(oid) {
            Ok(None)
        } else {
            let step = index_step(directory, entries, existing is Some);
            planned(seq![step.0], seq![step.1], request, auto)
        },
    }
}

/// The plan that stores `entries` as a directory's index, unless it holds
/// them already.
pub open spec fn store_plan(
    tree: Seq<Entry>,
    directory: Seq<char>,
    entries: Seq<Seq<char>>,
    request: Request,
    auto: Seq<char>,
) -> Result<Option<Plan>, Fault> {
    store_plan_for(
        tree,
        directory,
        entries,
        blob_id(encode_utf8(document_of(entries))),
        request,
        auto,
    )
}

/// Whether a directory exists in a tree; the root always does.
pub open spec fn has_directory(tree: Seq<Entry>, directory: Seq<char>) -> bool {
    directory.len() == 0 || (lookup(tree, directory) matches Some(entry) && entry.kind
        == EntryKind::Tree)
}

/// What writing a directory's order comes to.
pub open spec fn write_order_plan(
    tree: Seq<Entry>,
    directory: Seq<char>,
    entries: Seq<Seq<char>>,
    request: Request,
) -> Result<Option<Plan>, Fault> {
    if !has_directory(tree, directory) {
        Err(Fault::FileNotFound(directory))
    } else {
        match canonical_order(tree, directory, entries) {
            Err(fault) => Err(fault),
            Ok(canonical) => store_plan(
                tree,
                directory,
                canonical,
                request,
                "order update: "@ + shown_directory(directory),
            ),
        }
    }
}

/// The entries of an index after one of them was put at `position`, or at the
/// end if there are fewer.
pub open spec fn repositioned(
    stored: Seq<Seq<char>>,
    name: Seq<char>,
    entry: Seq<char>,
    position: nat,
) -> Seq<Seq<char>> {
    let others = without_name(stored, name);
    if position < others.len() {
        others.insert(position as int, entry)
    } else {
        others.push(entry)
    }
}

/// Where an entry ends up among the others.
pub open spec fn landing_position(
    stored: Seq<Seq<char>>,
    name: Seq<char>,
    position: nat,
) -> nat {
    let others = without_name(stored, name);
    if position < others.len() {
        position
    } else {
        others.len()
    }
}

/// What moving one entry of a directory's order comes to.
pub open spec fn reorder_plan(
    tree: Seq<Entry>,
    blobs: Seq<StoredBlob>,
    path: Seq<char>,
    position: nat,
    allow_directory: bool,
    request: Request,
) -> Result<Option<Plan>, Fault> {
    let directory = parent_of(path);
    let name = leaf_of(path);
    let stored = match stored_order_in(tree, blobs, directory) {
        Some(order) => order,
        None => Seq::empty(),
    };
    if is_index_path(path) {
        Err(Fault::FileNotFound(path))
    } else {
        match lookup(tree, path) {
            Some(entry) => if entry.kind == EntryKind::Blob || (entry.kind == EntryKind::Tree
                && allow_directory) {
                store_plan(
                    tree,
                    directory,
                    repositioned(stored, name, canonical_entry(entry.kind, name), position),
                    request,
                    "order position: "@ + path + " -> "@ + decimal(
                        landing_position(stored, name, position),
                    ),
                )
            } else {
                Err(Fault::FileNotFound(path))
            },
            None => Err(Fault::FileNotFound(path)),
        }
    }
}

/// What deleting a directory's order comes to.
pub open spec fn delete_order_plan(tree: Seq<Entry>, directory: Seq<char>, request: Request) -> Result<
    Option<Plan>,
    Fault,
> {
    if blob_at(tree, child_path(directory, ORDER_FILE_NAME@)) is None {
        Err(Fault::OrderNotFound(shown_directory(directory)))
    } else {
        let step = index_step(directory, Seq::empty(), true);
        planned(
            seq![step.0],
            seq![step.1],
            request,
            "order delete: "@ + shown_directory(directory),
        )
    }
}

impl GitOrder {
    /// The order stored for a directory; not found where none is.
    pub fn read_order(tree: &[TreeEntry], blobs: &[Blob], directory: &str) -> (result: Result<
        Vec<String>,
        AppError,
    >)
        ensures
            match result {
                Ok(order) => stored_order_in(views(tree@), views(blobs@), directory@) == Some(
                    texts(order@),
                ),
                Err(error) => stored_order_in(views(tree@), views(blobs@), directory@) is None
                    && error@ == Fault::OrderNotFound(shown_directory(directory@)),
            },
    {
        match stored_order(tree, blobs, directory) {
            Some(order) => Ok(order),
            None => Err(
                AppError::OrderNotFound { directory: display_directory(directory).to_owned() },
            ),
        }
    }

    /// Plans the replacement of a directory's order. Every entry must exist
    /// in that directory; an order that is stored already needs no commit.
    pub fn write_order(
        tree: &[TreeEntry],
        directory: &str,
        order_entries: &[String],
        request: &CommitRequest,
    ) -> (result: Result<Option<CommitPlan>, AppError>)
        ensures
            plan_outcome(result) == write_order_plan(
                views(tree@),
                directory@,
                texts(order_entries@),
                request@,
            ),
    {
        if !directory.is_empty() {
            let found: bool = match find_entry(tree, directory) {
                Some(entry) => entry.kind == EntryKind::Tree,
                None => false,
            };
            if !found {
                return Err(AppError::FileNotFound { path: directory.to_owned() });
            }
        }
        match Self::canonicalize(tree, directory, order_entries) {
            Err(error) => Err(error),
            Ok(canonical) => Self::store(
                tree,
                directory,
                canonical.as_slice(),
                request,
                joined("order update: ", display_directory(directory)),
            ),
        }
    }

    /// Spells each entry of an order canonically, or refuses one that does
    /// not exist.
    fn canonicalize(tree: &[TreeEntry], directory: &str, entries: &[String]) -> (result: Result<
        Vec<String>,
        AppError,
    >)
        ensures
            match result {
                Ok(canonical) => canonical_order(views(tree@), directory@, texts(entries@)) == Ok::<
                    _,
                    Fault,
                >(texts(canonical@)),
                Err(error) => canonical_order(views(tree@), directory@, texts(entries@)) == Err::<
                    Seq<Seq<char>>,
                    _,
                >(error@),
            },
    {
        let ghost all = texts(entries@);
        let ghost head = views(tree@);
        let mut canonical: Vec<String> = Vec::new();
        let mut i: usize = 0;
        assert(texts(canonical@) =~= Seq::empty());
        assert(all.take(0) =~= Seq::empty());
        while i < entries.len()
            invariant
                i <= entries.len(),
                all == texts(entries@),
                head == views(tree@),
                canonical_order(head, directory@, all.take(i as int)) == Ok::<_, Fault>(
                    texts(canonical@),
                ),
            decreases entries.len() - i,
        {
            let name: &str = entry_name(entries[i].as_str());
            let path: String = path_in(directory, name);
            assert(all.take(i + 1).drop_last() =~= all.take(i as int));
            assert(all.take(i + 1).last() == entries@[i as int]@);
            let kind: EntryKind = match find_entry(tree, path.as_str()) {
                Some(entry) => entry.kind,
                None => EntryKind::Other,
            };
            broadcast use lemma_texts_push;

            if kind == EntryKind::Blob {
                canonical.push(name.to_owned());
            } else if kind == EntryKind::Tree {
                canonical.push(directory_entry(name));
            } else {
                let mut reason: String = joined(
                    "order entry does not exist in '",
                    display_directory(directory),
                );
                reason.append("': ");
                reason.append(name);
                proof {
                    lemma_canonical_fault(head, directory@, all, i as int);
                }
                return Err(invalid_operation(reason.as_str()));
            }
            i = i + 1;
        }
        assert(all.take(i as int) =~= all);
        Ok(canonical)
    }

    /// Plans the storing of an index, unless it is stored already.
    fn store(
        tree: &[TreeEntry],
        directory: &str,
        entries: &[String],
        request: &CommitRequest,
        auto: String,
    ) -> (result: Result<Option<CommitPlan>, AppError>)
        ensures
            plan_outcome(result) == store_plan(
                views(tree@),
                directory@,
                texts(entries@),
                request@,
                auto@,
            ),
    {
        let document: String = serialize(entries);
        let incoming: Result<String, String> = hash_blob(document.as_str().as_bytes());
        Self::store_document(tree, directory, entries, incoming, request, auto)
    }

    /// Plans the storing of an index whose document has the given id.
    pub fn store_document(
        tree: &[TreeEntry],
        directory: &str,
        entries: &[String],
        incoming: Result<String, String>,
        request: &CommitRequest,
        auto: String,
    ) -> (result: Result<Option<CommitPlan>, AppError>)
        ensures
            plan_outcome(result) == store_plan_for(
                views(tree@),
                directory@,
                texts(entries@),
                match incoming {
                    Ok(oid) => Ok(oid@),
                    Err(message) => Err(message@),
                },
                request@,
                auto@,
            ),
    {
        let path: String = order_file_path(directory);
        let existing: Option<&str> = blob_oid_in_tree(tree, path.as_str());
        let oid: String = match incoming {
            Ok(oid) => oid,
            Err(message) => {
                return Err(AppError::Git(message));
            },
        };
        if let Some(held) = existing {
            if same(held, oid.as_str()) {
                return Ok(None);
            }
        }
        let step: (TreeEdit, FileChange) = Self::stage_index(
            directory,
            entries,
            existing.is_some(),
        );
        let mut edits: Vec<TreeEdit> = Vec::new();
        let mut changes: Vec<FileChange> = Vec::new();
        edits.push(step.0);
        changes.push(step.1);
        let ghost expected = index_step(directory@, texts(entries@), existing is Some);
        assert(views(edits@) =~= seq![expected.0]);
        assert(views(changes@) =~= seq![expected.1]);
        finish_plan(edits, changes, request, auto)
    }

    /// Plans the move of one entry to a position of its directory's order. A
    /// directory is moved only where the caller allows it.
    pub fn reorder_entry(
        tree: &[TreeEntry],
        blobs: &[Blob],
        entry_path: &str,
        position: usize,
        allow_prefix_path: bool,
        request: &CommitRequest,
    ) -> (result: Result<Option<CommitPlan>, AppError>)
        ensures
            plan_outcome(result) == reorder_plan(
                views(tree@),
                views(blobs@),
                entry_path@,
                position as nat,
                allow_prefix_path,
                request@,
            ),
    {
        broadcast use lemma_texts_push;

        if is_order_file(entry_path) {
            return Err(AppError::FileNotFound { path: entry_path.to_owned() });
        }
        let (directory, name) = split_parent(entry_path);
        let kind: EntryKind = match find_entry(tree, entry_path) {
            Some(entry) => entry.kind,
            None => EntryKind::Other,
        };
        let canonical: String = if kind == EntryKind::Blob {
            name.to_owned()
        } else if kind == EntryKind::Tree && allow_prefix_path {
            directory_entry(name)
        } else {
            return Err(AppError::FileNotFound { path: entry_path.to_owned() });
        };
        let stored: Vec<String> = match stored_order(tree, blobs, directory) {
            Some(order) => order,
            None => Vec::new(),
        };
        let ghost before = match stored_order_in(views(tree@), views(blobs@), directory@) {
            Some(order) => order,
            None => Seq::empty(),
        };
        assert(texts(stored@) =~= before);
        let mut entries: Vec<String> = drop_name(stored.as_slice(), name);
        let ghost others = texts(entries@);
        let landing: usize = if position < entries.len() {
            position
        } else {
            entries.len()
        };
        let ghost spelled = canonical@;
        entries.insert(landing, canonical);
        assert(texts(entries@) =~= others.insert(landing as int, spelled));
        assert(others.insert(others.len() as int, spelled) =~= others.push(spelled));
        let mut auto: String = joined("order position: ", entry_path);
        auto.append(" -> ");
        auto.append(spell(landing as u64).as_str());
        Self::store(tree, directory, entries.as_slice(), request, auto)
    }

    /// Plans the removal of a directory's order.
    pub fn delete_order(tree: &[TreeEntry], directory: &str, request: &CommitRequest) -> (result:
        Result<Option<CommitPlan>, AppError>)
        ensures
            plan_outcome(result) == delete_order_plan(views(tree@), directory@, request@),
    {
        let path: String = order_file_path(directory);
        if blob_oid_in_tree(tree, path.as_str()).is_none() {
            return Err(
                AppError::OrderNotFound { directory: display_directory(directory).to_owned() },
            );
        }
        let none: Vec<String> = Vec::new();
        let step: (TreeEdit, FileChange) = Self::stage_index(directory, none.as_slice(), true);
        let mut edits: Vec<TreeEdit> = Vec::new();
        let mut changes: Vec<FileChange> = Vec::new();
        edits.push(step.0);
        changes.push(step.1);
        let ghost expected = index_step(directory@, Seq::empty(), true);
        assert(texts(none@) =~= Seq::empty());
        assert(views(edits@) =~= seq![expected.0]);
        assert(views(changes@) =~= seq![expected.1]);
        finish_plan(
            edits,
            changes,
            request,
            joined("order delete: ", display_directory(directory)),
        )
    }

    /// The edit and the change that store a directory's index.
    pub fn stage_index(directory: &str, order_entries: &[String], index_existed: bool) -> (result: (
        TreeEdit,
        FileChange,
    ))
        ensures
            (result.0@, result.1@) == index_step(directory@, texts(order_entries@), index_existed),
    {
        let path: String = order_file_path(directory);
        if order_entries.len() == 0 {
            return (TreeEdit::Remove { path: path.clone() }, FileChange::Deleted { path });
        }
        let content: String = serialize(order_entries);
        let edit: TreeEdit = TreeEdit::Write { path: path.clone(), content: content.clone() };
        if index_existed {
            (edit, FileChange::Updated { path, content })
        } else {
            (edit, FileChange::Created { path, content })
        }
    }

    /// Keeps an index true after one of its directory's entries went away.
    pub fn stage_entry_removed(
        tree: &[TreeEntry],
        blobs: &[Blob],
        directory: &str,
        name: &str,
    ) -> (result: Option<(TreeEdit, FileChange)>)
        ensures
            step_view(result) == removal_step(
                stored_order_in(views(tree@), views(blobs@), directory@),
                directory@,
                name@,
            ),
    {
        match stored_order(tree, blobs, directory) {
            None => None,
            Some(stored) => {
                if find_name(stored.as_slice(), name) == stored.len() {
                    return None;
                }
                let kept: Vec<String> = drop_name(stored.as_slice(), name);
                Some(Self::stage_index(directory, kept.as_slice(), true))
            },
        }
    }

    /// Keeps an index true after an entry came to its directory.
    pub fn stage_entry_appended(
        tree: &[TreeEntry],
        blobs: &[Blob],
        directory: &str,
        canonical_entry: &str,
    ) -> (result: Option<(TreeEdit, FileChange)>)
        ensures
            step_view(result) == append_step(
                stored_order_in(views(tree@), views(blobs@), directory@),
                directory@,
                canonical_entry@,
            ),
    {
        broadcast use lemma_texts_push;

        match stored_order(tree, blobs, directory) {
            None => None,
            Some(stored) => {
                let name: &str = entry_name(canonical_entry);
                if find_name(stored.as_slice(), name) < stored.len() {
                    return None;
                }
                let mut entries: Vec<String> = stored;
                entries.push(canonical_entry.to_owned());
                Some(Self::stage_index(directory, entries.as_slice(), true))
            },
        }
    }

    /// Keeps an index true after an entry of its directory changed its name.
    pub fn stage_entry_renamed(
        tree: &[TreeEntry],
        blobs: &[Blob],
        directory: &str,
        from_name: &str,
        canonical_entry: &str,
    ) -> (result: Option<(TreeEdit, FileChange)>)
        ensures
            step_view(result) == rename_step(
                stored_order_in(views(tree@), views(blobs@), directory@),
                directory@,
                from_name@,
                canonical_entry@,
            ),
    {
        match stored_order(tree, blobs, directory) {
            None => None,
            Some(stored) => {
                let position: usize = find_name(stored.as_slice(), from_name);
                if position == stored.len() {
                    return None;
                }
                let mut entries: Vec<String> = copy_texts(stored.as_slice());
                entries.set(position, canonical_entry.to_owned());
                assert(texts(entries@) =~= texts(stored@).update(
                    position as int,
                    canonical_entry@,
                ));
                Some(Self::stage_index(directory, entries.as_slice(), true))
            },
        }
    }
}

proof fn lemma_canonical_fault(
    tree: Seq<Entry>,
    directory: Seq<char>,
    entries: Seq<Seq<char>>,
    faulty: int,
)
    requires
        0 <= faulty < entries.len(),
        canonical_order(tree, directory, entries.take(faulty + 1)) is Err,
    ensures
        canonical_order(tree, directory, entries) == canonical_order(
            tree,
            directory,
            entries.take(faulty + 1),
        ),
    decreases entries.len(),
{
    if faulty + 1 == entries.len() {
        assert(entries.take(faulty + 1) =~= entries);
    } else {
        assert(entries.drop_last().take(faulty + 1) =~= entries.take(faulty + 1));
        lemma_canonical_fault(tree, directory, entries.drop_last(), faulty);
    }
}

/// Storing the order that an index holds already needs no commit.
pub proof fn law_restore_is_no_commit(
    tree: Seq<Entry>,
    directory: Seq<char>,
    entries: Seq<Seq<char>>,
    request: Request,
    auto: Seq<char>,
)
    requires
        blob_id(encode_utf8(document_of(entries))) is Ok,
        blob_at(tree, child_path(directory, ORDER_FILE_NAME@)) == Some(
            blob_id(encode_utf8(document_of(entries)))->Ok_0,
        ),
    ensures
        store_plan(tree, directory, entries, request, auto) == Ok::<Option<Plan>, Fault>(None),
{
}

/// What is stored reads back: a tree that holds the document of an order for
/// a directory gives that order.
pub proof fn law_stored_order_reads_back(
    tree: Seq<Entry>,
    blobs: Seq<StoredBlob>,
    directory: Seq<char>,
    entries: Seq<Seq<char>>,
    oid: Seq<char>,
)
    requires
        order_in(document_of(entries)) == Some(entries),
        blob_at(tree, child_path(directory, ORDER_FILE_NAME@)) == Some(oid),
        crate::git::model::content_of(blobs, oid) == Some(encode_utf8(document_of(entries))),
    ensures
        stored_order_in(tree, blobs, directory) == Some(entries),
{
    encode_utf8_valid_utf8(document_of(entries));
    encode_utf8_decode_utf8(document_of(entries));
}

/// Once a name is dropped from an order, the order does not list it, and
/// lists every other entry as before.
pub proof fn law_dropped_name_is_gone(entries: Seq<Seq<char>>, name: Seq<char>, entry: Seq<char>)
    ensures
        without_name(entries, name).contains(entry) <==> entries.contains(entry) && bare_name(entry)
            != name,
{
    let keeps = |e: Seq<char>| bare_name(e) != name;
    if without_name(entries, name).contains(entry) {
        let i = choose|i: int|
            0 <= i < without_name(entries, name).len() && without_name(entries, name)[i] == entry;
        entries.lemma_filter_pred(keeps, i);
        entries.lemma_filter_contains_rev(keeps, entry);
    }
    if entries.contains(entry) && bare_name(entry) != name {
        let i = choose|i: int| 0 <= i < entries.len() && entries[i] == entry;
        entries.lemma_filter_contains(keeps, i);
    }
}

/// The position of a name is that of the first entry that has it, or the end.
pub proof fn lemma_name_position(entries: Seq<Seq<char>>, name: Seq<char>)
    ensures
        0 <= name_position(entries, name) <= entries.len(),
        name_position(entries, name) < entries.len() ==> bare_name(
            entries[name_position(entries, name)],
        ) == name,
        forall|i: int|
            0 <= i < name_position(entries, name) ==> bare_name(#[trigger] entries[i]) != name,
    decreases entries.len(),
{
    if entries.len() > 0 && bare_name(entries[0]) != name {
        let rest = entries.skip(1);
        lemma_name_position(rest, name);
        assert forall|i: int| 0 <= i < name_position(entries, name) implies bare_name(
            #[trigger] entries[i],
        ) != name by {
            if i > 0 {
                assert(rest[i - 1] == entries[i]);
            }
        }
    }
}

/// Where no position is found for a name, no entry has it.
pub proof fn lemma_unlisted(entries: Seq<Seq<char>>, name: Seq<char>, entry: Seq<char>)
    requires
        name_position(entries, name) == entries.len(),
        entries.contains(entry),
    ensures
        bare_name(entry) != name,
    decreases entries.len(),
{
    let i = choose|i: int| 0 <= i < entries.len() && entries[i] == entry;
    if i > 0 {
        assert(entries.skip(1)[i - 1] == entry);
        lemma_unlisted(entries.skip(1), name, entry);
    }
}

/// A moved entry ends up at the position asked for, or at the end, and the
/// other entries keep their order around it.
pub proof fn law_reorder_moves_one(
    stored: Seq<Seq<char>>,
    name: Seq<char>,
    entry: Seq<char>,
    position: nat,
)
    ensures
        ({
            let result = repositioned(stored, name, entry, position);
            let at = landing_position(stored, name, position);
            &&& result[at as int] == entry
            &&& result.len() == without_name(stored, name).len() + 1
            &&& result.remove(at as int) == without_name(stored, name)
        }),
{
    let others = without_name(stored, name);
    let result = repositioned(stored, name, entry, position);
    let at = landing_position(stored, name, position);
    assert(result.remove(at as int) =~= others);
}

} // verus!
