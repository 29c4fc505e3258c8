//! What a tree holds once a planned commit is made.
use vstd::prelude::*;
use vstd::utf8::*;
use crate::error::Fault;
use crate::git::files::{
    delete_directory_plan, delete_plan, files_inside, is_inside, move_directory_plan, move_plan,
    moved_plan, read_outcome, relocated, relocations, write_plan,
};
use crate::git::index::{
    append_step, law_stored_order_reads_back, lemma_name_position, name_position, removal_step,
    rename_step, with_edit, without_name,
};
use crate::git::model::{
    blob_after, blob_at, blob_id, content_of, file_text, stored_order_in, Change, Edit, Entry, EntryKind,
    Plan, Request, StoredBlob,
};
use crate::order::{
    bare_name, child_path, document_of, is_index_path, leaf_of, order_in, parent_of,
    ORDER_FILE_NAME,
};
use crate::seek::{law_no_filter_keeps_everything, window_text, Window};
use crate::text::{last_position, lemma_last_position};

verus! {

/// Whether an edit leaves what a path holds alone.
pub open spec fn leaves_alone(edit: Edit, path: Seq<char>) -> bool {
    match edit {
        Edit::Remove(dropped) => path != dropped && !(dropped + "/"@).is_prefix_of(path),
        Edit::Link(linked, _) => path != linked,
        Edit::Write(written, _) => path != written,
    }
}

/// The path of the index that orders the directory of a path.
pub open spec fn index_beside(path: Seq<char>) -> Seq<char> {
    child_path(parent_of(path), ORDER_FILE_NAME@)
}

/// Whether a path is, or would lie inside, the index that orders the directory
/// of another one.
pub open spec fn is_at_index(path: Seq<char>, beside: Seq<char>) -> bool {
    path == index_beside(beside) || is_inside(path, index_beside(beside))
}

/// A path is not inside the index of its own directory, and an entry of the
/// directory does not hold that index.
proof fn lemma_beside_its_index(path: Seq<char>)
    ensures
        !is_inside(path, index_beside(path)),
        !is_inside(index_beside(path), path),
        !is_index_path(path) ==> path != index_beside(path),
{
    reveal_strlit(".order.json");
    reveal_strlit("/");
    let index = index_beside(path);
    let slash = last_position(path, '/');
    lemma_last_position(path, '/');
    crate::order::law_index_path_round_trip(parent_of(path));
    if is_inside(path, index) {
        assert((index + "/"@)[index.len() as int] == '/');
        assert(path[index.len() as int] == '/');
    }
    if is_inside(index, path) {
        assert((path + "/"@)[path.len() as int] == '/');
        assert(index[path.len() as int] == '/');
    }
}

/// The edits after the first ones decide what a path holds only if they are
/// about it.
proof fn lemma_edits_of_step(
    tree: Seq<Entry>,
    edits: Seq<Edit>,
    step: Option<(Edit, Change)>,
    path: Seq<char>,
)
    requires
        step matches Some((edit, _)) ==> leaves_alone(edit, path),
    ensures
        blob_after(tree, with_edit(edits, step), path) == blob_after(tree, edits, path),
{
    if let Some((edit, _)) = step {
        assert(edits.push(edit).drop_last() =~= edits);
    }
}

/// A step that does not write to a path leaves nothing there where nothing was.
proof fn lemma_step_adds_nothing(
    tree: Seq<Entry>,
    edits: Seq<Edit>,
    step: Option<(Edit, Change)>,
    path: Seq<char>,
)
    requires
        blob_after(tree, edits, path) is None,
        step matches Some((edit, _)) ==> edit is Remove || leaves_alone(edit, path),
    ensures
        blob_after(tree, with_edit(edits, step), path) is None,
{
    if let Some((edit, _)) = step {
        assert(edits.push(edit).drop_last() =~= edits);
    }
}

/// After a planned write, the file holds the content.
pub proof fn law_write_is_kept(
    tree: Seq<Entry>,
    path: Seq<char>,
    content: Seq<char>,
    request: Request,
)
    requires
        blob_id(encode_utf8(content)) is Ok,
        write_plan(tree, path, content, request) matches Ok(Some(_)),
    ensures
        write_plan(tree, path, content, request) matches Ok(Some(plan)) && blob_after(
            tree,
            plan.edits,
            path,
        ) == Some(blob_id(encode_utf8(content))->Ok_0),
{
    let edits = seq![Edit::Write(path, content)];
    assert(edits.last() == Edit::Write(path, content));
}

/// The blob that a path holds once a planned change is made; what it held if
/// there is nothing to change.
pub open spec fn blob_once(tree: Seq<Entry>, plan: Option<Plan>, path: Seq<char>) -> Option<
    Seq<char>,
> {
    match plan {
        Some(made) => blob_after(tree, made.edits, path),
        None => blob_at(tree, path),
    }
}

/// What was written is what is read: a file that was written reads back with
/// its content, or with the window of it that is asked for. `after` is the
/// tree once the write is made, in a store that gives the content for its id.
pub proof fn law_written_reads_back(
    tree: Seq<Entry>,
    path: Seq<char>,
    content: Seq<char>,
    request: Request,
    after: Seq<Entry>,
    blobs: Seq<StoredBlob>,
    window: Window,
)
    requires
        write_plan(tree, path, content, request) is Ok,
        blob_at(after, path) == blob_once(
            tree,
            write_plan(tree, path, content, request)->Ok_0,
            path,
        ),
        blob_id(encode_utf8(content)) is Ok,
        content_of(blobs, blob_id(encode_utf8(content))->Ok_0) == Some(encode_utf8(content)),
    ensures
        read_outcome(after, blobs, path, window) == window_text(encode_utf8(content), window, path),
        window == (Window { from: None, to: None, maximum: None }) ==> read_outcome(
            after,
            blobs,
            path,
            window,
        ) == Ok::<Seq<char>, Fault>(content),
{
    if write_plan(tree, path, content, request)->Ok_0 is Some {
        law_write_is_kept(tree, path, content, request);
    }
    law_no_filter_keeps_everything(encode_utf8(content));
    encode_utf8_valid_utf8(content);
    encode_utf8_decode_utf8(content);
}

/// A write changes no other file.
pub proof fn law_write_is_local(
    tree: Seq<Entry>,
    path: Seq<char>,
    content: Seq<char>,
    request: Request,
    other: Seq<char>,
)
    requires
        write_plan(tree, path, content, request) is Ok,
        other != path,
    ensures
        blob_once(tree, write_plan(tree, path, content, request)->Ok_0, other) == blob_at(
            tree,
            other,
        ),
{
    reveal_with_fuel(blob_after, 2);
    let edits = seq![Edit::Write(path, content)];
    assert(edits.drop_last() =~= Seq::<Edit>::empty());
    assert(edits.last() == Edit::Write(path, content));
}

/// After a planned removal the file is gone. Every other file is as it was,
/// but for the index of the directory.
pub proof fn law_delete_removes(
    tree: Seq<Entry>,
    blobs: Seq<StoredBlob>,
    path: Seq<char>,
    request: Request,
    other: Seq<char>,
)
    requires
        delete_plan(tree, blobs, path, request) is Ok,
    ensures
        ({
            let plan = delete_plan(tree, blobs, path, request)->Ok_0;
            &&& blob_once(tree, plan, path) is None
            &&& other != path && !is_inside(other, path) && !is_at_index(other, path)
                ==> blob_once(tree, plan, other) == blob_at(tree, other)
        }),
{
    let step = removal_step(
        stored_order_in(tree, blobs, parent_of(path)),
        parent_of(path),
        leaf_of(path),
    );
    reveal_with_fuel(blob_after, 2);
    let first = seq![Edit::Remove(path)];
    assert(first.drop_last() =~= Seq::<Edit>::empty());
    assert(first.last() == Edit::Remove(path));
    lemma_beside_its_index(path);
    lemma_edits_of_step(tree, first, step, path);
    if other != path && !is_inside(other, path) && !is_at_index(other, path) {
        lemma_edits_of_step(tree, first, step, other);
    }
}

/// After a planned removal of a folder nothing inside it is left.
pub proof fn law_folder_is_gone(
    tree: Seq<Entry>,
    blobs: Seq<StoredBlob>,
    path: Seq<char>,
    request: Request,
    inner: Seq<char>,
)
    requires
        delete_directory_plan(tree, blobs, path, request) matches Ok(Some(_)),
        is_inside(inner, path),
    ensures
        delete_directory_plan(tree, blobs, path, request) matches Ok(Some(plan)) && blob_after(
            tree,
            plan.edits,
            inner,
        ) is None,
{
    let step = removal_step(
        stored_order_in(tree, blobs, parent_of(path)),
        parent_of(path),
        leaf_of(path),
    );
    reveal_with_fuel(blob_after, 2);
    let first = seq![Edit::Remove(path)];
    assert(first.last() == Edit::Remove(path));
    lemma_beside_its_index(path);
    if let Some((edit, _)) = step {
        assert(first.push(edit).drop_last() =~= first);
        assert(inner != index_beside(path));
    }
}

/// A removal of a folder changes no file outside it, but for the index of the
/// directory that the folder is in.
pub proof fn law_folder_removal_is_local(
    tree: Seq<Entry>,
    blobs: Seq<StoredBlob>,
    path: Seq<char>,
    request: Request,
    other: Seq<char>,
)
    requires
        delete_directory_plan(tree, blobs, path, request) is Ok,
        other != path,
        !is_inside(other, path),
        !is_at_index(other, path),
    ensures
        blob_once(tree, delete_directory_plan(tree, blobs, path, request)->Ok_0, other) == blob_at(
            tree,
            other,
        ),
{
    let step = removal_step(
        stored_order_in(tree, blobs, parent_of(path)),
        parent_of(path),
        leaf_of(path),
    );
    reveal_with_fuel(blob_after, 2);
    let first = seq![Edit::Remove(path)];
    assert(first.drop_last() =~= Seq::<Edit>::empty());
    assert(first.last() == Edit::Remove(path));
    lemma_edits_of_step(tree, first, step, other);
}

/// Once a file is removed, the order of its directory does not list it. `after`
/// is the tree once the removal is made, in a store that gives the contents
/// for their ids.
pub proof fn law_removed_is_not_listed(
    tree: Seq<Entry>,
    blobs: Seq<StoredBlob>,
    path: Seq<char>,
    request: Request,
    after: Seq<Entry>,
    stored: Seq<StoredBlob>,
    entry: Seq<char>,
)
    requires
        delete_plan(tree, blobs, path, request) is Ok,
        blob_at(after, index_beside(path)) == blob_once(
            tree,
            delete_plan(tree, blobs, path, request)->Ok_0,
            index_beside(path),
        ),
        blob_at(tree, index_beside(path)) matches Some(oid) ==> content_of(stored, oid)
            == content_of(blobs, oid),
        is_stored(
            without_name(stored_order_in(tree, blobs, parent_of(path))->0, leaf_of(path)),
            stored,
        ),
    ensures
        stored_order_in(after, stored, parent_of(path)) matches Some(order) ==> order.contains(entry)
            ==> bare_name(entry) != leaf_of(path),
{
    let before = stored_order_in(tree, blobs, parent_of(path));
    let step = removal_step(before, parent_of(path), leaf_of(path));
    reveal_with_fuel(blob_after, 2);
    let first = seq![Edit::Remove(path)];
    let index = index_beside(path);
    assert(first.drop_last() =~= Seq::<Edit>::empty());
    assert(first.last() == Edit::Remove(path));
    lemma_beside_its_index(path);
    assert(blob_after(tree, first, index) == blob_at(tree, index));
    match step {
        Some((edit, _)) => {
            let kept = without_name(before->0, leaf_of(path));
            assert(first.push(edit).drop_last() =~= first);
            crate::git::index::law_dropped_name_is_gone(before->0, leaf_of(path), entry);
            encode_utf8_valid_utf8(document_of(kept));
            encode_utf8_decode_utf8(document_of(kept));
        },
        None => {
            if let Some(order) = before {
                if order.contains(entry) {
                    crate::git::index::lemma_unlisted(order, leaf_of(path), entry);
                }
            }
        },
    }
}

/// After a planned move, the file is at its new path with its content, and
/// no longer at its old one. The new path may not lead into the index of the
/// directory that the file leaves.
pub proof fn law_move_carries_content(
    tree: Seq<Entry>,
    blobs: Seq<StoredBlob>,
    from: Seq<char>,
    to: Seq<char>,
    request: Request,
)
    requires
        move_plan(tree, blobs, from, to, request) matches Ok(Some(_)),
        !is_inside(to, index_beside(from)),
    ensures
        move_plan(tree, blobs, from, to, request) matches Ok(Some(plan)) && blob_after(
            tree,
            plan.edits,
            to,
        ) == blob_at(tree, from) && blob_after(tree, plan.edits, from) is None,
{
    reveal_with_fuel(blob_after, 3);
    let oid = blob_at(tree, from)->0;
    let edits = seq![Edit::Remove(from), Edit::Link(to, oid)];
    assert(edits.last() == Edit::Link(to, oid));
    assert(edits.drop_last() =~= seq![Edit::Remove(from)]);
    assert(edits.drop_last().last() == Edit::Remove(from));
    assert(blob_after(tree, edits, to) == Some(oid));
    assert(blob_after(tree, edits, from) is None);
    lemma_beside_its_index(from);
    lemma_beside_its_index(to);
    crate::order::law_index_path_round_trip(parent_of(from));
    crate::order::law_index_path_round_trip(parent_of(to));
    if parent_of(from) == parent_of(to) {
        let step = rename_step(
            stored_order_in(tree, blobs, parent_of(from)),
            parent_of(from),
            leaf_of(from),
            leaf_of(to),
        );
        lemma_edits_of_step(tree, edits, step, to);
        lemma_step_adds_nothing(tree, edits, step, from);
    } else {
        let left = removal_step(
            stored_order_in(tree, blobs, parent_of(from)),
            parent_of(from),
            leaf_of(from),
        );
        let came = append_step(
            stored_order_in(tree, blobs, parent_of(to)),
            parent_of(to),
            leaf_of(to),
        );
        lemma_edits_of_step(tree, edits, left, to);
        lemma_step_adds_nothing(tree, edits, left, from);
        lemma_edits_of_step(tree, with_edit(edits, left), came, to);
        lemma_step_adds_nothing(tree, with_edit(edits, left), came, from);
    }
}

/// The steps that keep the order of both directories true after a move leave
/// alone what is at neither index.
proof fn lemma_moved_steps_are_local(
    tree: Seq<Entry>,
    blobs: Seq<StoredBlob>,
    from: Seq<char>,
    to: Seq<char>,
    entry: Seq<char>,
    edits: Seq<Edit>,
    changes: Seq<Change>,
    request: Request,
    auto: Seq<char>,
    other: Seq<char>,
)
    requires
        moved_plan(tree, blobs, from, to, entry, edits, changes, request, auto) is Ok,
        !is_at_index(other, from),
        other != index_beside(to),
    ensures
        blob_once(
            tree,
            moved_plan(tree, blobs, from, to, entry, edits, changes, request, auto)->Ok_0,
            other,
        ) == blob_after(tree, edits, other),
{
    if parent_of(from) == parent_of(to) {
        let step = rename_step(
            stored_order_in(tree, blobs, parent_of(from)),
            parent_of(from),
            leaf_of(from),
            entry,
        );
        lemma_edits_of_step(tree, edits, step, other);
    } else {
        let left = removal_step(
            stored_order_in(tree, blobs, parent_of(from)),
            parent_of(from),
            leaf_of(from),
        );
        let came = append_step(
            stored_order_in(tree, blobs, parent_of(to)),
            parent_of(to),
            entry,
        );
        lemma_edits_of_step(tree, edits, left, other);
        lemma_edits_of_step(tree, with_edit(edits, left), came, other);
    }
}

/// A move of a file changes no other file, but for the indexes of the two
/// directories.
pub proof fn law_move_is_local(
    tree: Seq<Entry>,
    blobs: Seq<StoredBlob>,
    from: Seq<char>,
    to: Seq<char>,
    request: Request,
    other: Seq<char>,
)
    requires
        move_plan(tree, blobs, from, to, request) is Ok,
        other != from,
        !is_inside(other, from),
        other != to,
        !is_at_index(other, from),
        other != index_beside(to),
    ensures
        blob_once(tree, move_plan(tree, blobs, from, to, request)->Ok_0, other) == blob_at(
            tree,
            other,
        ),
{
    reveal_with_fuel(blob_after, 3);
    let oid = blob_at(tree, from)->0;
    let edits = seq![Edit::Remove(from), Edit::Link(to, oid)];
    assert(edits.last() == Edit::Link(to, oid));
    assert(edits.drop_last() =~= seq![Edit::Remove(from)]);
    assert(edits.drop_last().last() == Edit::Remove(from));
    assert(edits.drop_last().drop_last() =~= Seq::<Edit>::empty());
    assert(blob_after(tree, edits, other) == blob_at(tree, other));
    let content = file_text(tree, blobs, from)->Ok_0;
    lemma_moved_steps_are_local(
        tree,
        blobs,
        from,
        to,
        leaf_of(to),
        edits,
        seq![Change::Moved(from, to, content)],
        request,
        "move: "@ + from + " -> "@ + to,
        other,
    );
}

/// Whether the document of an order decodes to it and is in a store under its
/// id.
pub open spec fn is_stored(entries: Seq<Seq<char>>, stored: Seq<StoredBlob>) -> bool {
    let document = document_of(entries);
    &&& order_in(document) == Some(entries)
    &&& blob_id(encode_utf8(document)) is Ok
    &&& content_of(stored, blob_id(encode_utf8(document))->Ok_0) == Some(encode_utf8(document))
}

/// The order of the directory that a move leads to, once it is made: within
/// one directory the new entry takes the place of the old one, between two it
/// goes to the end.
pub open spec fn order_once_moved(
    entries: Seq<Seq<char>>,
    from: Seq<char>,
    to: Seq<char>,
    entry: Seq<char>,
) -> Seq<Seq<char>> {
    if parent_of(from) == parent_of(to) {
        entries.update(name_position(entries, leaf_of(from)), entry)
    } else {
        entries.push(entry)
    }
}

/// Whether a move changes the order of the directory that it leads to: within
/// one directory if the order lists the old name, between two if it does not
/// list the new one.
pub open spec fn move_changes_order(
    entries: Seq<Seq<char>>,
    from: Seq<char>,
    to: Seq<char>,
    entry: Seq<char>,
) -> bool {
    if parent_of(from) == parent_of(to) {
        name_position(entries, leaf_of(from)) < entries.len()
    } else {
        name_position(entries, bare_name(entry)) == entries.len()
    }
}

proof fn lemma_order_after_move(
    tree: Seq<Entry>,
    blobs: Seq<StoredBlob>,
    from: Seq<char>,
    to: Seq<char>,
    entry: Seq<char>,
    edits: Seq<Edit>,
    changes: Seq<Change>,
    request: Request,
    auto: Seq<char>,
    entries: Seq<Seq<char>>,
    after: Seq<Entry>,
    stored: Seq<StoredBlob>,
)
    requires
        moved_plan(tree, blobs, from, to, entry, edits, changes, request, auto) is Ok,
        stored_order_in(tree, blobs, parent_of(to)) == Some(entries),
        move_changes_order(entries, from, to, entry),
        is_stored(order_once_moved(entries, from, to, entry), stored),
        blob_at(after, index_beside(to)) == blob_once(
            tree,
            moved_plan(tree, blobs, from, to, entry, edits, changes, request, auto)->Ok_0,
            index_beside(to),
        ),
    ensures
        stored_order_in(after, stored, parent_of(to)) == Some(
            order_once_moved(entries, from, to, entry),
        ),
{
    let moved = order_once_moved(entries, from, to, entry);
    let document = document_of(moved);
    lemma_name_position(entries, leaf_of(from));
    lemma_name_position(entries, bare_name(entry));
    let earlier = if parent_of(from) == parent_of(to) {
        edits
    } else {
        with_edit(
            edits,
            removal_step(
                stored_order_in(tree, blobs, parent_of(from)),
                parent_of(from),
                leaf_of(from),
            ),
        )
    };
    assert(earlier.push(Edit::Write(index_beside(to), document)).last() == Edit::Write(
        index_beside(to),
        document,
    ));
    law_stored_order_reads_back(
        after,
        stored,
        parent_of(to),
        moved,
        blob_id(encode_utf8(document))->Ok_0,
    );
}

/// A file that is renamed in its directory keeps its place in the stored
/// order, under its new name; one that is moved to another directory goes to
/// the end of the order stored there. So the order reads once the move is
/// made. `after` is that tree, in a store that gives the contents for their
/// ids.
pub proof fn law_moved_file_is_ordered(
    tree: Seq<Entry>,
    blobs: Seq<StoredBlob>,
    from: Seq<char>,
    to: Seq<char>,
    request: Request,
    entries: Seq<Seq<char>>,
    after: Seq<Entry>,
    stored: Seq<StoredBlob>,
)
    requires
        move_plan(tree, blobs, from, to, request) is Ok,
        stored_order_in(tree, blobs, parent_of(to)) == Some(entries),
        move_changes_order(entries, from, to, leaf_of(to)),
        is_stored(order_once_moved(entries, from, to, leaf_of(to)), stored),
        blob_at(after, index_beside(to)) == blob_once(
            tree,
            move_plan(tree, blobs, from, to, request)->Ok_0,
            index_beside(to),
        ),
    ensures
        stored_order_in(after, stored, parent_of(to)) == Some(
            order_once_moved(entries, from, to, leaf_of(to)),
        ),
{
    let oid = blob_at(tree, from)->0;
    let content = file_text(tree, blobs, from)->Ok_0;
    lemma_order_after_move(
        tree,
        blobs,
        from,
        to,
        leaf_of(to),
        seq![Edit::Remove(from), Edit::Link(to, oid)],
        seq![Change::Moved(from, to, content)],
        request,
        "move: "@ + from + " -> "@ + to,
        entries,
        after,
        stored,
    );
}

/// A folder that is renamed where it is keeps its place in the stored order,
/// under its new name; one that is moved to another directory goes to the end
/// of the order stored there. So the order reads once the move is made.
/// `after` is that tree, in a store that gives the contents for their ids.
pub proof fn law_moved_folder_is_ordered(
    tree: Seq<Entry>,
    blobs: Seq<StoredBlob>,
    from: Seq<char>,
    to: Seq<char>,
    request: Request,
    entries: Seq<Seq<char>>,
    after: Seq<Entry>,
    stored: Seq<StoredBlob>,
)
    requires
        move_directory_plan(tree, blobs, from, to, request) matches Ok(Some(_)),
        stored_order_in(tree, blobs, parent_of(to)) == Some(entries),
        move_changes_order(entries, from, to, leaf_of(to) + "/"@),
        is_stored(order_once_moved(entries, from, to, leaf_of(to) + "/"@), stored),
        blob_at(after, index_beside(to)) == blob_once(
            tree,
            move_directory_plan(tree, blobs, from, to, request)->Ok_0,
            index_beside(to),
        ),
    ensures
        stored_order_in(after, stored, parent_of(to)) == Some(
            order_once_moved(entries, from, to, leaf_of(to) + "/"@),
        ),
{
    let (edits, changes) = relocations(tree, blobs, from, to, files_inside(tree, from))->Ok_0;
    lemma_order_after_move(
        tree,
        blobs,
        from,
        to,
        leaf_of(to) + "/"@,
        edits,
        changes,
        request,
        "move: "@ + from + "/ -> "@ + to + "/"@,
        entries,
        after,
        stored,
    );
}

/// Whether no two entries of a tree have one path.
pub open spec fn has_unique_paths(tree: Seq<Entry>) -> bool {
    forall|i: int, j: int|
        0 <= i < j < tree.len() ==> (#[trigger] tree[i]).path != (#[trigger] tree[j]).path
}

/// Where a file lands with its folder is not in the folder that it leaves,
/// unless one of the two folders lies in the other.
proof fn lemma_lands_outside(path: Seq<char>, from: Seq<char>, to: Seq<char>)
    requires
        from != to,
        !is_inside(to, from),
        !is_inside(from, to),
    ensures
        !is_inside(relocated(path, from, to), from),
{
    reveal_strlit("/");
    let landed = relocated(path, from, to);
    if is_inside(landed, from) {
        if from.len() < to.len() {
            assert(from + "/"@ =~= to.take(from.len() as int + 1));
        } else if from.len() == to.len() {
            assert forall|i: int| 0 <= i < from.len() implies from[i] == to[i] by {
                assert(landed[i] == (from + "/"@)[i]);
            }
            assert(from =~= to);
        } else {
            assert forall|i: int| 0 <= i <= to.len() implies (to + "/"@)[i] == from[i] by {
                assert(landed[i] == (from + "/"@)[i]);
            }
            assert(to + "/"@ =~= from.take(to.len() as int + 1));
        }
    }
}

/// Two files inside a folder land apart.
proof fn lemma_land_apart(one: Seq<char>, other: Seq<char>, from: Seq<char>, to: Seq<char>)
    requires
        is_inside(one, from),
        is_inside(other, from),
        one != other,
    ensures
        relocated(one, from, to) != relocated(other, from, to),
{
    reveal_strlit("/");
    let n = from.len() as int + 1;
    if relocated(one, from, to) == relocated(other, from, to) {
        let head = to + "/"@;
        assert(relocated(one, from, to).skip(head.len() as int) =~= one.skip(n));
        assert(relocated(other, from, to).skip(head.len() as int) =~= other.skip(n));
        assert(one =~= (from + "/"@) + one.skip(n));
        assert(other =~= (from + "/"@) + other.skip(n));
    }
}

/// What the edits of a folder's move do to where its files were and land.
proof fn lemma_relocations(
    tree: Seq<Entry>,
    blobs: Seq<StoredBlob>,
    from: Seq<char>,
    to: Seq<char>,
    files: Seq<Entry>,
    path: Seq<char>,
)
    requires
        relocations(tree, blobs, from, to, files) is Ok,
        from != to,
        !is_inside(to, from),
        !is_inside(from, to),
        has_unique_paths(files),
        forall|i: int| 0 <= i < files.len() ==> is_inside((#[trigger] files[i]).path, from),
        is_inside(path, from),
    ensures
        ({
            let edits = relocations(tree, blobs, from, to, files)->Ok_0.0;
            &&& blob_after(tree, edits, path) is None
            &&& forall|i: int|
                0 <= i < files.len() && (#[trigger] files[i]).path == path ==> blob_after(
                    tree,
                    edits,
                    relocated(path, from, to),
                ) == Some(files[i].oid)
        }),
    decreases files.len(),
{
    let edits = relocations(tree, blobs, from, to, files)->Ok_0.0;
    lemma_lands_outside(path, from, to);
    if files.len() == 0 {
        assert(edits.last() == Edit::Remove(from));
    } else {
        let earlier = relocations(tree, blobs, from, to, files.drop_last())->Ok_0.0;
        let last = files.last();
        lemma_relocations(tree, blobs, from, to, files.drop_last(), path);
        assert(edits.drop_last() =~= earlier);
        assert(edits.last() == Edit::Link(relocated(last.path, from, to), last.oid));
        assert(is_inside(files[files.len() - 1].path, from));
        lemma_lands_outside(last.path, from, to);
        assert forall|i: int|
            0 <= i < files.len() && (#[trigger] files[i]).path == path implies blob_after(
            tree,
            edits,
            relocated(path, from, to),
        ) == Some(files[i].oid) by {
            if i < files.len() - 1 {
                assert(files.drop_last()[i] == files[i]);
                assert(files[i].path != files[files.len() - 1].path);
                lemma_land_apart(path, last.path, from, to);
            }
        }
    }
}

/// The index beside a path that does not lie in a folder, and is not it, does
/// not lie in the folder either.
proof fn lemma_index_outside(path: Seq<char>, folder: Seq<char>)
    requires
        path != folder,
        !is_inside(path, folder),
    ensures
        !is_inside(index_beside(path), folder),
{
    reveal_strlit("/");
    reveal_strlit(".order.json");
    let parent = parent_of(path);
    let index = index_beside(path);
    let slash = last_position(path, '/');
    lemma_last_position(path, '/');
    if is_inside(index, folder) {
        let n = folder.len() as int;
        assert((folder + "/"@)[n] == '/');
        assert(index[n] == '/');
        if parent.len() > 0 {
            assert(n <= parent.len());
            assert forall|i: int| 0 <= i <= n implies (folder + "/"@)[i] == path[i] by {
                assert((folder + "/"@)[i] == index[i]);
            }
            assert(folder + "/"@ =~= path.take(n + 1));
        }
    }
}

/// After a planned move of a folder, each of its files is where it belongs in
/// the new folder, with its content, and no longer where it was. Neither folder
/// may lie in the other, and the file may not land in the index of the folder
/// that the old one is in.
pub proof fn law_folder_move_carries_files(
    tree: Seq<Entry>,
    blobs: Seq<StoredBlob>,
    from: Seq<char>,
    to: Seq<char>,
    request: Request,
    file: Entry,
)
    requires
        move_directory_plan(tree, blobs, from, to, request) matches Ok(Some(_)),
        has_unique_paths(tree),
        !is_inside(from, to),
        tree.contains(file),
        file.kind == EntryKind::Blob,
        is_inside(file.path, from),
        !is_at_index(relocated(file.path, from, to), from),
    ensures
        move_directory_plan(tree, blobs, from, to, request) matches Ok(Some(plan)) && blob_after(
            tree,
            plan.edits,
            relocated(file.path, from, to),
        ) == Some(file.oid) && blob_after(tree, plan.edits, file.path) is None,
{
    let landed = relocated(file.path, from, to);
    let inside = |entry: Entry| entry.kind == EntryKind::Blob && is_inside(entry.path, from);
    let files = files_inside(tree, from);
    lemma_filter_keeps_unique(tree, inside);
    assert forall|i: int| 0 <= i < files.len() implies is_inside((#[trigger] files[i]).path, from) by {
        tree.lemma_filter_pred(inside, i);
    }
    let k = choose|k: int| 0 <= k < tree.len() && tree[k] == file;
    tree.lemma_filter_contains(inside, k);
    let at = choose|at: int| 0 <= at < files.len() && files[at] == file;
    assert(files[at].path == file.path);
    lemma_relocations(tree, blobs, from, to, files, file.path);
    let edits = relocations(tree, blobs, from, to, files)->Ok_0.0;
    lemma_beside_its_index(from);
    lemma_beside_its_index(to);
    lemma_index_outside(to, from);
    assert(is_inside(landed, to)) by {
        assert((to + "/"@).is_prefix_of(landed));
    }
    assert(landed != index_beside(to));
    assert(file.path != index_beside(from));
    assert(file.path != index_beside(to));
    let entry = leaf_of(to) + "/"@;
    if parent_of(from) == parent_of(to) {
        let step = rename_step(
            stored_order_in(tree, blobs, parent_of(from)),
            parent_of(from),
            leaf_of(from),
            entry,
        );
        lemma_edits_of_step(tree, edits, step, landed);
        lemma_step_adds_nothing(tree, edits, step, file.path);
    } else {
        let left = removal_step(
            stored_order_in(tree, blobs, parent_of(from)),
            parent_of(from),
            leaf_of(from),
        );
        let came = append_step(
            stored_order_in(tree, blobs, parent_of(to)),
            parent_of(to),
            entry,
        );
        lemma_edits_of_step(tree, edits, left, landed);
        lemma_step_adds_nothing(tree, edits, left, file.path);
        lemma_edits_of_step(tree, with_edit(edits, left), came, landed);
        lemma_step_adds_nothing(tree, with_edit(edits, left), came, file.path);
    }
}

proof fn lemma_relocations_are_local(
    tree: Seq<Entry>,
    blobs: Seq<StoredBlob>,
    from: Seq<char>,
    to: Seq<char>,
    files: Seq<Entry>,
    other: Seq<char>,
)
    requires
        relocations(tree, blobs, from, to, files) is Ok,
        other != from,
        !is_inside(other, from),
        forall|i: int|
            0 <= i < files.len() ==> other != relocated((#[trigger] files[i]).path, from, to),
    ensures
        blob_after(tree, relocations(tree, blobs, from, to, files)->Ok_0.0, other) == blob_at(
            tree,
            other,
        ),
    decreases files.len(),
{
    let edits = relocations(tree, blobs, from, to, files)->Ok_0.0;
    reveal_with_fuel(blob_after, 2);
    if files.len() == 0 {
        assert(edits.last() == Edit::Remove(from));
        assert(edits.drop_last() =~= Seq::<Edit>::empty());
    } else {
        let last = files.last();
        assert forall|i: int| 0 <= i < files.drop_last().len() implies other != relocated(
            (#[trigger] files.drop_last()[i]).path,
            from,
            to,
        ) by {
            assert(files.drop_last()[i] == files[i]);
        }
        lemma_relocations_are_local(tree, blobs, from, to, files.drop_last(), other);
        assert(edits.drop_last() =~= relocations(
            tree,
            blobs,
            from,
            to,
            files.drop_last(),
        )->Ok_0.0);
        assert(edits.last() == Edit::Link(relocated(last.path, from, to), last.oid));
        assert(files[files.len() - 1] == last);
    }
}

/// A move of a folder changes no file that is neither in it nor where one of
/// its files lands, but for the indexes of the two directories.
pub proof fn law_folder_move_is_local(
    tree: Seq<Entry>,
    blobs: Seq<StoredBlob>,
    from: Seq<char>,
    to: Seq<char>,
    request: Request,
    other: Seq<char>,
)
    requires
        move_directory_plan(tree, blobs, from, to, request) is Ok,
        other != from,
        !is_inside(other, from),
        forall|i: int|
            0 <= i < files_inside(tree, from).len() ==> other != relocated(
                (#[trigger] files_inside(tree, from)[i]).path,
                from,
                to,
            ),
        !is_at_index(other, from),
        other != index_beside(to),
    ensures
        blob_once(tree, move_directory_plan(tree, blobs, from, to, request)->Ok_0, other)
            == blob_at(tree, other),
{
    let files = files_inside(tree, from);
    if files.len() > 0 {
        let (edits, changes) = relocations(tree, blobs, from, to, files)->Ok_0;
        lemma_relocations_are_local(tree, blobs, from, to, files, other);
        lemma_moved_steps_are_local(
            tree,
            blobs,
            from,
            to,
            leaf_of(to) + "/"@,
            edits,
            changes,
            request,
            "move: "@ + from + "/ -> "@ + to + "/"@,
            other,
        );
    }
}

/// Some entries of a tree without a path twice have no path twice.
proof fn lemma_filter_keeps_unique(tree: Seq<Entry>, wanted: spec_fn(Entry) -> bool)
    requires
        has_unique_paths(tree),
    ensures
        has_unique_paths(tree.filter(wanted)),
    decreases tree.len(),
{
    reveal(Seq::filter);
    if tree.len() > 0 {
        let rest = tree.drop_last();
        lemma_filter_keeps_unique(rest, wanted);
        let kept = rest.filter(wanted);
        assert forall|i: int, j: int|
            0 <= i < j < tree.filter(wanted).len() implies (#[trigger] tree.filter(wanted)[i]).path
            != (#[trigger] tree.filter(wanted)[j]).path by {
            if j < kept.len() {
                assert(kept[i].path != kept[j].path);
            } else {
                rest.lemma_filter_contains_rev(wanted, kept[i]);
                let k = choose|k: int| 0 <= k < rest.len() && rest[k] == kept[i];
                assert(tree[k].path != tree[tree.len() - 1].path);
            }
        }
    }
}

} // verus!
