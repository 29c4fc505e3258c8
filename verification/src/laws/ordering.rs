//! What becomes of the stored order of a directory.
use vstd::prelude::*;
use vstd::utf8::*;
use crate::error::Fault;
use crate::git::index::{
    append_step, canonical_order, delete_order_plan, lemma_name_position, removal_step, rename_step,
    reorder_plan, repositioned, without_name, write_order_plan,
};
use crate::git::model::{
    blob_at, blob_id, lookup, stored_order_in, Change, Edit, Entry, EntryKind, Plan, Request,
    StoredBlob,
};
use crate::json::{decoded_element, decoded_list, encoded_list};
use crate::laws::paths::law_entry_names_without_slash;
use crate::laws::trees::{is_first_at, law_bytes_are_the_first, law_entry_is_the_first, reads_as};
use crate::order::{child_path, document_of, leaf_of, order_in, parent_of, shown_directory};
use crate::text::{decimal, is_blank};

verus! {

/// The entries of an order that are not about a name, spelled with a slash or
/// without.
pub open spec fn others_in(order: Seq<Seq<char>>, name: Seq<char>) -> Seq<Seq<char>> {
    order.filter(|entry: Seq<char>| entry != name && entry != name + seq!['/'])
}

proof fn lemma_others(order: Seq<Seq<char>>, name: Seq<char>)
    requires
        !name.contains('/'),
    ensures
        without_name(order, name) == others_in(order, name),
    decreases order.len(),
{
    reveal(Seq::filter);
    if order.len() > 0 {
        lemma_others(order.drop_last(), name);
        law_entry_names_without_slash(order.last(), name);
    }
}

/// The file that holds the order of a directory.
pub open spec fn index_of(directory: Seq<char>) -> Seq<char> {
    if directory.len() == 0 {
        ".order.json"@
    } else {
        directory + seq!['/'] + ".order.json"@
    }
}

proof fn lemma_index_of(directory: Seq<char>)
    ensures
        child_path(directory, ".order.json"@) == index_of(directory),
{
    crate::laws::paths::law_child_is_joined(directory, ".order.json"@);
}

/// How an order spells an entry: a folder with a slash at its end.
pub open spec fn spelled(kind: EntryKind, name: Seq<char>) -> Seq<char> {
    if kind == EntryKind::Tree {
        name + seq!['/']
    } else {
        name
    }
}

proof fn lemma_slash()
    ensures
        "/"@ == seq!['/'],
{
    reveal_strlit("/");
    assert("/"@ =~= seq!['/']);
}

/// The document of an order is a JSON object with the order under its key, and
/// a newline; it is read from there, or from an array with nothing else.
pub proof fn law_document_of_an_order(order: Seq<Seq<char>>, content: Seq<char>)
    ensures
        document_of(order) == encoded_list("order"@, order) + seq!['\n'],
        order_in(content) == if decoded_list(content, "order"@) is Some {
            decoded_list(content, "order"@)
        } else {
            decoded_element(content)
        },
{
    assert(document_of(order) =~= encoded_list("order"@, order) + seq!['\n']);
}

/// The order of a directory is what the text of its index spells, and there is
/// none without an index, or with one that cannot be read.
pub proof fn law_order_is_what_the_index_spells(
    tree: Seq<Entry>,
    blobs: Seq<StoredBlob>,
    directory: Seq<char>,
    text: Seq<char>,
)
    ensures
        blob_at(tree, index_of(directory)) is Some && reads_as(
            tree,
            blobs,
            index_of(directory),
            text,
        ) ==> stored_order_in(tree, blobs, directory) == order_in(text),
        blob_at(tree, index_of(directory)) is None ==> stored_order_in(tree, blobs, directory)
            is None,
{
    lemma_index_of(directory);
    let path = index_of(directory);
    if blob_at(tree, path) is Some && reads_as(tree, blobs, path, text) {
        let (i, k) = choose|i: int, k: int| #[trigger]
            is_first_at(tree, path, i) && #[trigger] crate::laws::trees::is_read_at(
                blobs,
                tree[i].oid,
                k,
            ) && blobs[k].content == encode_utf8(text);
        law_entry_is_the_first(tree, path, i);
        law_bytes_are_the_first(blobs, tree[i].oid, k);
        encode_utf8_valid_utf8(text);
        encode_utf8_decode_utf8(text);
    }
}

/// An entry that is given a position stands there in the new order, or behind
/// the `n` others if there are fewer: at the lesser of the two numbers. Without
/// it the new order is the old one without it. The position it got is what the
/// message says, and the new order is stored unless it is stored already.
pub proof fn law_entry_gets_its_position(
    tree: Seq<Entry>,
    blobs: Seq<StoredBlob>,
    path: Seq<char>,
    position: nat,
    folders: bool,
    request: Request,
    before: Seq<Seq<char>>,
    kind: EntryKind,
    after: Seq<Seq<char>>,
    at: int,
    oid: Seq<char>,
)
    requires
        !is_blank(request.author_name),
        !is_blank(request.author_email),
        stored_order_in(tree, blobs, parent_of(path)) == Some(before) || (stored_order_in(
            tree,
            blobs,
            parent_of(path),
        ) is None && before.len() == 0),
        lookup(tree, path) matches Some(entry) && entry.kind == kind,
        kind == EntryKind::Blob || (kind == EntryKind::Tree && folders),
        leaf_of(path) != ".order.json"@,
        at == if position < others_in(before, leaf_of(path)).len() {
            position as int
        } else {
            others_in(before, leaf_of(path)).len() as int
        },
        after.len() == others_in(before, leaf_of(path)).len() + 1,
        after[at] == spelled(kind, leaf_of(path)),
        after.remove(at) == others_in(before, leaf_of(path)),
        blob_id(encode_utf8(document_of(after))) == Ok::<Seq<char>, Seq<char>>(oid),
    ensures
        ({
            let index = index_of(parent_of(path));
            if blob_at(tree, index) == Some(oid) {
                reorder_plan(tree, blobs, path, position, folders, request) == Ok::<
                    Option<Plan>,
                    Fault,
                >(None)
            } else {
                reorder_plan(tree, blobs, path, position, folders, request) matches Ok(Some(plan))
                    && plan.edits == seq![Edit::Write(index, document_of(after))] && plan.changes
                    == seq![
                    if blob_at(tree, index) is Some {
                        Change::Updated(index, document_of(after))
                    } else {
                        Change::Created(index, document_of(after))
                    },
                ] && plan.message == match request.message {
                    Some(asked) => asked,
                    None => "order position: "@ + path + " -> "@ + decimal(at as nat),
                }
            }
        }),
{
    let name = leaf_of(path);
    lemma_slash();
    lemma_index_of(parent_of(path));
    crate::laws::paths::law_path_is_directory_and_leaf(path);
    lemma_others(before, name);
    if before.len() == 0 {
        assert(before =~= Seq::empty());
    }
    let result = repositioned(before, name, spelled(kind, name), position);
    assert forall|i: int| 0 <= i < after.len() implies after[i] == result[i] by {
        if i < at {
            assert(after.remove(at)[i] == after[i]);
        } else if i > at {
            assert(after.remove(at)[i - 1] == after[i]);
        }
    }
    assert(after =~= result);
}

/// Only what exists has a position: a file, or a folder where folders may be
/// moved, and never an index.
pub proof fn law_only_an_entry_has_a_position(
    tree: Seq<Entry>,
    blobs: Seq<StoredBlob>,
    path: Seq<char>,
    position: nat,
    folders: bool,
    request: Request,
)
    requires
        leaf_of(path) == ".order.json"@ || lookup(tree, path) is None || lookup(tree, path)->0.kind
            == EntryKind::Other || (lookup(tree, path)->0.kind == EntryKind::Tree && !folders),
    ensures
        reorder_plan(tree, blobs, path, position, folders, request) == Err::<Option<Plan>, Fault>(
            Fault::FileNotFound(path),
        ),
{
}

/// Whether a directory has a file or a folder with a name, and an order spells
/// it so.
pub open spec fn spells(
    tree: Seq<Entry>,
    directory: Seq<char>,
    name: Seq<char>,
    entry: Seq<char>,
) -> bool {
    lookup(tree, child_path(directory, name)) matches Some(found) && found.kind != EntryKind::Other
        && entry == spelled(found.kind, name)
}

/// Whether an order can be written for a directory, and how its entries are
/// then spelled: each names a file or a folder there.
pub open spec fn is_spelling(
    tree: Seq<Entry>,
    directory: Seq<char>,
    names: Seq<Seq<char>>,
    order: Seq<Seq<char>>,
) -> bool {
    &&& order.len() == names.len()
    &&& forall|i: int|
        0 <= i < names.len() ==> spells(tree, directory, #[trigger] names[i], order[i])
}

proof fn lemma_canonical(
    tree: Seq<Entry>,
    directory: Seq<char>,
    entries: Seq<Seq<char>>,
    names: Seq<Seq<char>>,
    order: Seq<Seq<char>>,
)
    requires
        names.len() == entries.len(),
        forall|i: int| #![trigger names[i]]
            0 <= i < names.len() ==> !names[i].contains('/') && (entries[i] == names[i]
                || entries[i] == names[i] + seq!['/']),
        is_spelling(tree, directory, names, order),
    ensures
        canonical_order(tree, directory, entries) == Ok::<Seq<Seq<char>>, Fault>(order),
    decreases entries.len(),
{
    lemma_slash();
    if entries.len() == 0 {
        assert(order =~= Seq::empty());
    } else {
        let k = entries.len() - 1;
        assert(is_spelling(tree, directory, names.drop_last(), order.drop_last())) by {
            assert forall|i: int| 0 <= i < names.drop_last().len() implies spells(
                tree,
                directory,
                #[trigger] names.drop_last()[i],
                order.drop_last()[i],
            ) by {
                assert(names.drop_last()[i] == names[i]);
            }
        }
        assert forall|i: int| #![trigger names.drop_last()[i]]
            0 <= i < names.drop_last().len() implies !names.drop_last()[i].contains('/') && (
        entries.drop_last()[i] == names.drop_last()[i] || entries.drop_last()[i]
            == names.drop_last()[i] + seq!['/']) by {
            assert(names.drop_last()[i] == names[i]);
        }
        lemma_canonical(
            tree,
            directory,
            entries.drop_last(),
            names.drop_last(),
            order.drop_last(),
        );
        assert(names[k] == names.last() && order[k] == order.last());
        assert(spells(tree, directory, names[k], order[k]));
        law_entry_names_without_slash(entries[k], names[k]);
        assert(order.drop_last().push(order.last()) =~= order);
    }
}

/// An order that names what a directory has is stored as it is given, with a
/// slash behind each folder and behind nothing else, unless it is stored
/// already.
pub proof fn law_order_is_written_as_given(
    tree: Seq<Entry>,
    directory: Seq<char>,
    entries: Seq<Seq<char>>,
    request: Request,
    names: Seq<Seq<char>>,
    order: Seq<Seq<char>>,
    oid: Seq<char>,
)
    requires
        !is_blank(request.author_name),
        !is_blank(request.author_email),
        directory.len() == 0 || (lookup(tree, directory) matches Some(entry) && entry.kind
            == EntryKind::Tree),
        entries.len() > 0,
        names.len() == entries.len(),
        forall|i: int| #![trigger names[i]]
            0 <= i < names.len() ==> !names[i].contains('/') && (entries[i] == names[i]
                || entries[i] == names[i] + seq!['/']),
        is_spelling(tree, directory, names, order),
        blob_id(encode_utf8(document_of(order))) == Ok::<Seq<char>, Seq<char>>(oid),
    ensures
        ({
            let index = index_of(directory);
            if blob_at(tree, index) == Some(oid) {
                write_order_plan(tree, directory, entries, request) == Ok::<Option<Plan>, Fault>(
                    None,
                )
            } else {
                write_order_plan(tree, directory, entries, request) matches Ok(Some(plan))
                    && plan.edits == seq![Edit::Write(index, document_of(order))] && plan.changes
                    == seq![
                    if blob_at(tree, index) is Some {
                        Change::Updated(index, document_of(order))
                    } else {
                        Change::Created(index, document_of(order))
                    },
                ] && plan.message == match request.message {
                    Some(asked) => asked,
                    None => "order update: "@ + if directory.len() == 0 {
                        seq!['/']
                    } else {
                        directory
                    },
                }
            }
        }),
{
    lemma_index_of(directory);
    lemma_canonical(tree, directory, entries, names, order);
    crate::laws::paths::law_child_is_joined(directory, Seq::empty());
}

/// An order of a directory that does not exist is refused, and so is one that
/// names what the directory does not have; the first such entry is told.
pub proof fn law_order_of_what_is_not_there(
    tree: Seq<Entry>,
    directory: Seq<char>,
    entries: Seq<Seq<char>>,
    request: Request,
    at: int,
    name: Seq<char>,
)
    ensures
        directory.len() > 0 && (lookup(tree, directory) is None || lookup(tree, directory)->0.kind
            != EntryKind::Tree) ==> write_order_plan(tree, directory, entries, request) == Err::<
            Option<Plan>,
            Fault,
        >(Fault::FileNotFound(directory)),
        (directory.len() == 0 || (lookup(tree, directory) matches Some(entry) && entry.kind
            == EntryKind::Tree)) && 0 <= at < entries.len() && !name.contains('/') && (entries[at]
            == name || entries[at] == name + seq!['/']) && (lookup(
            tree,
            child_path(directory, name),
        ) is None || lookup(tree, child_path(directory, name))->0.kind == EntryKind::Other)
            && canonical_order(tree, directory, entries.take(at)) is Ok ==> write_order_plan(
            tree,
            directory,
            entries,
            request,
        ) == Err::<Option<Plan>, Fault>(
            Fault::InvalidOperation(
                "order entry does not exist in '"@ + if directory.len() == 0 {
                    seq!['/']
                } else {
                    directory
                } + "': "@ + name,
            ),
        ),
{
    crate::laws::paths::law_child_is_joined(directory, Seq::empty());
    if 0 <= at < entries.len() && !name.contains('/') && (entries[at] == name || entries[at] == name
        + seq!['/']) && canonical_order(tree, directory, entries.take(at)) is Ok && (lookup(
        tree,
        child_path(directory, name),
    ) is None || lookup(tree, child_path(directory, name))->0.kind == EntryKind::Other) {
        law_entry_names_without_slash(entries[at], name);
        lemma_first_fault(tree, directory, entries, at);
    }
}

proof fn lemma_first_fault(
    tree: Seq<Entry>,
    directory: Seq<char>,
    entries: Seq<Seq<char>>,
    at: int,
)
    requires
        0 <= at < entries.len(),
        canonical_order(tree, directory, entries.take(at)) is Ok,
        canonical_order(tree, directory, entries.take(at + 1)) is Err || !crate::git::index::names_entry(
            tree,
            directory,
            crate::order::bare_name(entries[at]),
        ),
    ensures
        canonical_order(tree, directory, entries) == canonical_order(
            tree,
            directory,
            entries.take(at + 1),
        ),
        canonical_order(tree, directory, entries) is Err,
        !crate::git::index::names_entry(tree, directory, crate::order::bare_name(entries[at]))
            ==> canonical_order(tree, directory, entries) == Err::<Seq<Seq<char>>, Fault>(
            Fault::InvalidOperation(
                "order entry does not exist in '"@ + shown_directory(directory) + "': "@
                    + crate::order::bare_name(entries[at]),
            ),
        ),
    decreases entries.len(),
{
    assert(entries.take(at + 1).drop_last() =~= entries.take(at));
    assert(entries.take(at + 1).last() == entries[at]);
    if at + 1 == entries.len() {
        assert(entries.take(at + 1) =~= entries);
    } else {
        let init = entries.drop_last();
        assert(init.take(at) =~= entries.take(at));
        assert(init.take(at + 1) =~= entries.take(at + 1));
        lemma_first_fault(tree, directory, init, at);
    }
}

/// An order that is deleted takes its index with it; there must be one.
pub proof fn law_order_is_deleted(tree: Seq<Entry>, directory: Seq<char>, request: Request)
    requires
        !is_blank(request.author_name),
        !is_blank(request.author_email),
    ensures
        ({
            let index = index_of(directory);
            let shown = if directory.len() == 0 {
                seq!['/']
            } else {
                directory
            };
            if blob_at(tree, index) is None {
                delete_order_plan(tree, directory, request) == Err::<Option<Plan>, Fault>(
                    Fault::OrderNotFound(shown),
                )
            } else {
                delete_order_plan(tree, directory, request) matches Ok(Some(plan)) && plan.edits
                    == seq![Edit::Remove(index)] && plan.changes == seq![Change::Deleted(index)]
                    && plan.message == match request.message {
                    Some(asked) => asked,
                    None => "order delete: "@ + shown,
                }
            }
        }),
{
    lemma_index_of(directory);
    crate::laws::paths::law_child_is_joined(directory, Seq::empty());
}

/// Whether an order lists a name, spelled with a slash or without.
pub open spec fn lists_name(order: Seq<Seq<char>>, name: Seq<char>) -> bool {
    order.contains(name) || order.contains(name + seq!['/'])
}

pub proof fn lemma_lists_name(order: Seq<Seq<char>>, name: Seq<char>)
    requires
        !name.contains('/'),
    ensures
        lists_name(order, name) <==> crate::git::index::name_position(order, name) < order.len(),
{
    let at = crate::git::index::name_position(order, name);
    lemma_name_position(order, name);
    if at < order.len() {
        law_entry_names_without_slash(order[at], name);
        assert(order.contains(order[at]));
    }
    if lists_name(order, name) {
        let entry = if order.contains(name) {
            name
        } else {
            name + seq!['/']
        };
        let i = choose|i: int| 0 <= i < order.len() && order[i] == entry;
        law_entry_names_without_slash(order[i], name);
        if at == order.len() {
            assert(crate::order::bare_name(order[i]) != name);
        }
    }
}

/// What leaves a directory leaves its order, and nothing else does: the order
/// is stored without it, or its index removed if nothing is left. An order that
/// does not list it stays.
pub proof fn law_order_loses_what_leaves(
    stored: Option<Seq<Seq<char>>>,
    directory: Seq<char>,
    name: Seq<char>,
)
    requires
        !name.contains('/'),
    ensures
        match stored {
            None => removal_step(stored, directory, name) is None,
            Some(order) => if !lists_name(order, name) {
                removal_step(stored, directory, name) is None
            } else {
                removal_step(stored, directory, name) matches Some((edit, change)) && {
                    let left = others_in(order, name);
                    let index = index_of(directory);
                    if left.len() == 0 {
                        edit == Edit::Remove(index) && change == Change::Deleted(index)
                    } else {
                        edit == Edit::Write(index, document_of(left)) && change == Change::Updated(
                            index,
                            document_of(left),
                        )
                    }
                }
            },
        },
{
    lemma_index_of(directory);
    if let Some(order) = stored {
        lemma_others(order, name);
        lemma_lists_name(order, name);
        lemma_name_position(order, name);
    }
}

/// What comes to a directory goes to the end of its order, if it has one that
/// does not list the name yet.
pub proof fn law_order_gains_what_comes(
    stored: Option<Seq<Seq<char>>>,
    directory: Seq<char>,
    name: Seq<char>,
    kind: EntryKind,
)
    requires
        !name.contains('/'),
    ensures
        match stored {
            None => append_step(stored, directory, spelled(kind, name)) is None,
            Some(order) => if lists_name(order, name) {
                append_step(stored, directory, spelled(kind, name)) is None
            } else {
                let now = order + seq![spelled(kind, name)];
                append_step(stored, directory, spelled(kind, name)) == Some(
                    (
                        Edit::Write(index_of(directory), document_of(now)),
                        Change::Updated(index_of(directory), document_of(now)),
                    ),
                )
            },
        },
{
    lemma_index_of(directory);
    law_entry_names_without_slash(spelled(kind, name), name);
    if let Some(order) = stored {
        lemma_lists_name(order, name);
        lemma_name_position(order, name);
        assert(order.push(spelled(kind, name)) =~= order + seq![spelled(kind, name)]);
    }
}

/// Whether the entry at a position is the first one of an order with a name.
pub open spec fn is_first_entry(order: Seq<Seq<char>>, name: Seq<char>, at: int) -> bool {
    &&& 0 <= at < order.len()
    &&& order[at] == name || order[at] == name + seq!['/']
    &&& forall|i: int| 0 <= i < at ==> #[trigger] order[i] != name && order[i] != name + seq!['/']
}

/// What gets a new name in its directory keeps its place: the new name stands
/// where the first entry with the old one stood, and every other entry stays
/// where it was.
pub proof fn law_order_keeps_the_place(
    stored: Option<Seq<Seq<char>>>,
    directory: Seq<char>,
    old_name: Seq<char>,
    entry: Seq<char>,
    at: int,
)
    requires
        !old_name.contains('/'),
    ensures
        stored is None ==> rename_step(stored, directory, old_name, entry) is None,
        stored matches Some(order) && !lists_name(order, old_name) ==> rename_step(
            stored,
            directory,
            old_name,
            entry,
        ) is None,
        stored is Some && is_first_entry(stored->0, old_name, at) ==> rename_step(
            stored,
            directory,
            old_name,
            entry,
        ) == Some(
            (
                Edit::Write(index_of(directory), document_of(stored->0.update(at, entry))),
                Change::Updated(index_of(directory), document_of(stored->0.update(at, entry))),
            ),
        ),
{
    lemma_index_of(directory);
    if let Some(order) = stored {
        lemma_lists_name(order, old_name);
        lemma_name_position(order, old_name);
        let position = crate::git::index::name_position(order, old_name);
        if is_first_entry(order, old_name, at) {
            law_entry_names_without_slash(order[at], old_name);
            if position < at {
                law_entry_names_without_slash(order[position], old_name);
            }
            assert(position == at);
        }
    }
}

} // verus!
