//! What writing, reading, deleting and moving files comes to.
use vstd::prelude::*;
use vstd::utf8::*;
use crate::error::Fault;
use crate::git::files::{
    batch_outcome, batch_slot, delete_directory_plan, delete_plan, files_inside, kind_at,
    move_directory_plan, move_plan, read_outcome, relocated, relocations, write_plan, PathKind,
};
use crate::git::index::{append_step, removal_step, rename_step};
use crate::git::model::{
    blob_at, blob_id, content_of, file_text, lookup, stored_order_in, Change, Edit, Entry,
    EntryKind, Plan, Request, StoredBlob,
};
use crate::laws::trees::{law_text_is_what_bytes_spell, reads_as};
use crate::order::{leaf_of, parent_of};
use crate::seek::{window_text, Window};
use crate::text::is_blank;

verus! {

/// What a commit does to the order beside a change, if it does anything.
pub type OrderStep = Option<(Edit, Change)>;

/// The edits of a change and then those of the orders beside it.
pub open spec fn edits_with(edits: Seq<Edit>, first: OrderStep, second: OrderStep) -> Seq<Edit> {
    edits + match first {
        Some((edit, _)) => seq![edit],
        None => seq![],
    } + match second {
        Some((edit, _)) => seq![edit],
        None => seq![],
    }
}

/// What a commit announces of a change and then of the orders beside it.
pub open spec fn changes_with(
    changes: Seq<Change>,
    first: OrderStep,
    second: OrderStep,
) -> Seq<Change> {
    changes + match first {
        Some((_, change)) => seq![change],
        None => seq![],
    } + match second {
        Some((_, change)) => seq![change],
        None => seq![],
    }
}

/// Whether a request is by someone with a name and an address.
pub open spec fn is_signed(request: Request) -> bool {
    !is_blank(request.author_name) && !is_blank(request.author_email)
}

/// The message that a request asks for, or the one that goes without saying.
pub open spec fn message_of(request: Request, auto: Seq<char>) -> Seq<char> {
    match request.message {
        Some(asked) => asked,
        None => auto,
    }
}

/// A path is a file, a folder or nothing, as the tree has it; an index and
/// anything else in the tree is nothing.
pub proof fn law_path_is_what_the_tree_has(tree: Seq<Entry>, path: Seq<char>)
    ensures
        kind_at(tree, path) == PathKind::File <==> leaf_of(path) != ".order.json"@ && blob_at(
            tree,
            path,
        ) is Some,
        kind_at(tree, path) == PathKind::Directory <==> leaf_of(path) != ".order.json"@ && (lookup(
            tree,
            path,
        ) matches Some(entry) && entry.kind == EntryKind::Tree),
{
}

/// A written file gets the content, in one edit, and is announced as created if
/// there was nothing and as updated if there was a file; a file that has the
/// content already is left alone. A folder and an index cannot be written.
pub proof fn law_write_puts_the_content(
    tree: Seq<Entry>,
    path: Seq<char>,
    content: Seq<char>,
    request: Request,
    oid: Seq<char>,
)
    requires
        is_signed(request),
        blob_id(encode_utf8(content)) == Ok::<Seq<char>, Seq<char>>(oid),
    ensures
        ({
            let plan = write_plan(tree, path, content, request);
            if leaf_of(path) == ".order.json"@ {
                plan matches Err(fault) && fault is InvalidOperation
            } else {
                match lookup(tree, path) {
                    None => plan matches Ok(Some(made)) && made.edits == seq![
                        Edit::Write(path, content),
                    ] && made.changes == seq![Change::Created(path, content)] && made.message
                        == message_of(request, "create: "@ + path),
                    Some(entry) => if entry.kind != EntryKind::Blob {
                        plan == Err::<Option<Plan>, Fault>(
                            Fault::InvalidOperation("path is a folder: "@ + path),
                        )
                    } else if entry.oid == oid {
                        plan == Ok::<Option<Plan>, Fault>(None)
                    } else {
                        plan matches Ok(Some(made)) && made.edits == seq![
                            Edit::Write(path, content),
                        ] && made.changes == seq![Change::Updated(path, content)] && made.message
                            == message_of(request, "update: "@ + path)
                    },
                }
            }
        }),
{
}

/// Reading gives the window of the file's bytes, as text. There is nothing to
/// read where the tree has no file, nor at an index.
pub proof fn law_read_gives_the_file(
    tree: Seq<Entry>,
    blobs: Seq<StoredBlob>,
    path: Seq<char>,
    window: Window,
)
    ensures
        leaf_of(path) == ".order.json"@ || blob_at(tree, path) is None ==> read_outcome(
            tree,
            blobs,
            path,
            window,
        ) == Err::<Seq<char>, Fault>(Fault::FileNotFound(path)),
        leaf_of(path) != ".order.json"@ && blob_at(tree, path) is Some ==> match content_of(
            blobs,
            blob_at(tree, path)->0,
        ) {
            Some(bytes) => read_outcome(tree, blobs, path, window) == window_text(
                bytes,
                window,
                path,
            ),
            None => read_outcome(tree, blobs, path, window) is Err,
        },
{
}

/// Reading several files gives, for each in its place, what reading it alone
/// gives, or nothing where there is no file; it fails only if a file that is
/// there cannot be read.
pub proof fn law_batch_reads_each(
    tree: Seq<Entry>,
    blobs: Seq<StoredBlob>,
    reads: Seq<(Seq<char>, Window)>,
)
    ensures
        match batch_outcome(tree, blobs, reads) {
            Ok(slots) => slots.len() == reads.len() && forall|i: int|
                0 <= i < reads.len() ==> match read_outcome(
                    tree,
                    blobs,
                    (#[trigger] reads[i]).0,
                    reads[i].1,
                ) {
                    Ok(text) => slots[i] == Some(text),
                    Err(fault) => slots[i] is None && fault == Fault::FileNotFound(reads[i].0),
                },
            Err(fault) => exists|i: int|
                0 <= i < reads.len() && read_outcome(tree, blobs, (#[trigger] reads[i]).0, reads[i].1)
                    == Err::<Seq<char>, Fault>(fault) && blob_at(tree, reads[i].0) is Some,
        },
    decreases reads.len(),
{
    if reads.len() > 0 {
        let init = reads.drop_last();
        law_batch_reads_each(tree, blobs, init);
        assert(reads[reads.len() - 1] == reads.last());
        match batch_outcome(tree, blobs, init) {
            Err(fault) => {
                let i = choose|i: int|
                    0 <= i < init.len() && read_outcome(
                        tree,
                        blobs,
                        (#[trigger] init[i]).0,
                        init[i].1,
                    ) == Err::<Seq<char>, Fault>(fault) && blob_at(tree, init[i].0) is Some;
                assert(reads[i] == init[i]);
            },
            Ok(slots) => {
                if let Ok(slot) = batch_slot(tree, blobs, reads.last().0, reads.last().1) {
                    let all = slots.push(slot);
                    assert forall|i: int| 0 <= i < reads.len() implies match read_outcome(
                        tree,
                        blobs,
                        (#[trigger] reads[i]).0,
                        reads[i].1,
                    ) {
                        Ok(text) => all[i] == Some(text),
                        Err(fault) => all[i] is None && fault == Fault::FileNotFound(reads[i].0),
                    } by {
                        if i < init.len() {
                            assert(init[i] == reads[i]);
                        }
                    }
                }
            },
        }
    }
}

/// A deleted file is removed and announced as deleted, and its directory's
/// order loses it. There must be one, and it must not be an index.
pub proof fn law_delete_takes_the_file(
    tree: Seq<Entry>,
    blobs: Seq<StoredBlob>,
    path: Seq<char>,
    request: Request,
)
    requires
        is_signed(request),
    ensures
        if leaf_of(path) == ".order.json"@ || blob_at(tree, path) is None {
            delete_plan(tree, blobs, path, request) == Err::<Option<Plan>, Fault>(
                Fault::FileNotFound(path),
            )
        } else {
            let step = removal_step(
                stored_order_in(tree, blobs, parent_of(path)),
                parent_of(path),
                leaf_of(path),
            );
            delete_plan(tree, blobs, path, request) matches Ok(Some(made)) && made.edits
                == edits_with(seq![Edit::Remove(path)], step, None) && made.changes == changes_with(
                seq![Change::Deleted(path)],
                step,
                None,
            ) && made.message == message_of(request, "delete: "@ + path)
        },
{
    let step = removal_step(
        stored_order_in(tree, blobs, parent_of(path)),
        parent_of(path),
        leaf_of(path),
    );
    assert(edits_with(seq![Edit::Remove(path)], step, None) =~= crate::git::index::with_edit(
        seq![Edit::Remove(path)],
        step,
    ));
    assert(changes_with(seq![Change::Deleted(path)], step, None) =~= crate::git::index::with_change(
        seq![Change::Deleted(path)],
        step,
    ));
}

/// Whether an entry is a file below a folder.
pub open spec fn is_file_below(entry: Entry, folder: Seq<char>) -> bool {
    entry.kind == EntryKind::Blob && (folder + seq!['/']).is_prefix_of(entry.path)
}

/// The files below a folder, in the order of the tree.
pub open spec fn files_below(tree: Seq<Entry>, folder: Seq<char>) -> Seq<Entry> {
    tree.filter(|entry: Entry| is_file_below(entry, folder))
}

proof fn lemma_files_below(tree: Seq<Entry>, folder: Seq<char>)
    ensures
        files_inside(tree, folder) == files_below(tree, folder),
    decreases tree.len(),
{
    reveal_strlit("/");
    assert("/"@ =~= seq!['/']);
    reveal(Seq::filter);
    if tree.len() > 0 {
        lemma_files_below(tree.drop_last(), folder);
    }
}

/// A deleted folder is removed whole, each file below it is announced as
/// deleted, and its directory's order loses it. There must be one; nothing is
/// done if it has no files.
pub proof fn law_delete_takes_the_folder(
    tree: Seq<Entry>,
    blobs: Seq<StoredBlob>,
    path: Seq<char>,
    request: Request,
)
    requires
        is_signed(request),
    ensures
        ({
            let plan = delete_directory_plan(tree, blobs, path, request);
            let files = files_below(tree, path);
            if !(lookup(tree, path) matches Some(entry) && entry.kind == EntryKind::Tree) {
                plan == Err::<Option<Plan>, Fault>(Fault::FileNotFound(path))
            } else if files.len() == 0 {
                plan == Ok::<Option<Plan>, Fault>(None)
            } else {
                let step = removal_step(
                    stored_order_in(tree, blobs, parent_of(path)),
                    parent_of(path),
                    leaf_of(path),
                );
                plan matches Ok(Some(made)) && made.edits == edits_with(
                    seq![Edit::Remove(path)],
                    step,
                    None,
                ) && made.changes == changes_with(
                    Seq::new(files.len(), |i: int| Change::Deleted(files[i].path)),
                    step,
                    None,
                ) && made.message == message_of(request, "delete: "@ + path + "/"@)
            }
        }),
{
    lemma_files_below(tree, path);
    let files = files_below(tree, path);
    let step = removal_step(
        stored_order_in(tree, blobs, parent_of(path)),
        parent_of(path),
        leaf_of(path),
    );
    let gone = Seq::new(files.len(), |i: int| Change::Deleted(files[i].path));
    assert(crate::git::files::deletions(files) =~= gone);
    assert(edits_with(seq![Edit::Remove(path)], step, None) =~= crate::git::index::with_edit(
        seq![Edit::Remove(path)],
        step,
    ));
    assert(changes_with(gone, step, None) =~= crate::git::index::with_change(gone, step));
}

/// What a move does to the order of the directory that it leaves, or that it
/// stays in.
pub open spec fn order_left(
    tree: Seq<Entry>,
    blobs: Seq<StoredBlob>,
    from: Seq<char>,
    to: Seq<char>,
    entry: Seq<char>,
) -> OrderStep {
    let stored = stored_order_in(tree, blobs, parent_of(from));
    if parent_of(from) == parent_of(to) {
        rename_step(stored, parent_of(from), leaf_of(from), entry)
    } else {
        removal_step(stored, parent_of(from), leaf_of(from))
    }
}

/// What a move does to the order of another directory that it leads to.
pub open spec fn order_reached(
    tree: Seq<Entry>,
    blobs: Seq<StoredBlob>,
    from: Seq<char>,
    to: Seq<char>,
    entry: Seq<char>,
) -> OrderStep {
    if parent_of(from) == parent_of(to) {
        None
    } else {
        append_step(stored_order_in(tree, blobs, parent_of(to)), parent_of(to), entry)
    }
}

/// Why a move is refused before anything is read, if it is: a move to where it
/// starts, of what is not there, or to what is there already.
pub open spec fn move_refusal(
    tree: Seq<Entry>,
    from: Seq<char>,
    to: Seq<char>,
    is_there: bool,
) -> Option<Fault> {
    if from == to {
        Some(Fault::InvalidOperation("destination must differ from source path"@))
    } else if !is_there {
        Some(Fault::FileNotFound(from))
    } else if lookup(tree, to) is Some {
        Some(Fault::InvalidOperation("destination already exists: "@ + to))
    } else {
        None
    }
}

/// A moved file is taken away where it was and put, with the blob it has, where
/// it goes, and is announced as moved with its text; the orders of the two
/// directories follow.
pub proof fn law_move_puts_the_file(
    tree: Seq<Entry>,
    blobs: Seq<StoredBlob>,
    from: Seq<char>,
    to: Seq<char>,
    request: Request,
    text: Seq<char>,
)
    requires
        is_signed(request),
    ensures
        ({
            let plan = move_plan(tree, blobs, from, to, request);
            let refusal = move_refusal(tree, from, to, blob_at(tree, from) is Some);
            if leaf_of(from) == ".order.json"@ {
                plan == Err::<Option<Plan>, Fault>(Fault::FileNotFound(from))
            } else if leaf_of(to) == ".order.json"@ {
                plan matches Err(fault) && fault is InvalidOperation
            } else if refusal is Some {
                plan == Err::<Option<Plan>, Fault>(refusal->0)
            } else {
                reads_as(tree, blobs, from, text) ==> (plan matches Ok(Some(made)) && {
                    let left = order_left(tree, blobs, from, to, leaf_of(to));
                    let reached = order_reached(tree, blobs, from, to, leaf_of(to));
                    &&& made.edits == edits_with(
                        seq![Edit::Remove(from), Edit::Link(to, blob_at(tree, from)->0)],
                        left,
                        reached,
                    )
                    &&& made.changes == changes_with(
                        seq![Change::Moved(from, to, text)],
                        left,
                        reached,
                    )
                    &&& made.message == message_of(request, "move: "@ + from + " -> "@ + to)
                })
            }
        }),
{
    law_text_is_what_bytes_spell(tree, blobs, from, text);
    let left = order_left(tree, blobs, from, to, leaf_of(to));
    let reached = order_reached(tree, blobs, from, to, leaf_of(to));
    let edits = seq![Edit::Remove(from), Edit::Link(to, blob_at(tree, from)->0)];
    let changes = seq![Change::Moved(from, to, text)];
    assert(edits_with(edits, left, reached) =~= crate::git::index::with_edit(
        crate::git::index::with_edit(edits, left),
        reached,
    ));
    assert(changes_with(changes, left, reached) =~= crate::git::index::with_change(
        crate::git::index::with_change(changes, left),
        reached,
    ));
}

/// Where a file below a folder lands when the folder is moved.
pub open spec fn lands_at(path: Seq<char>, from: Seq<char>, to: Seq<char>, landed: Seq<char>) -> bool {
    exists|rest: Seq<char>| #[trigger] (from + seq!['/'] + rest) == path && landed == to + seq!['/']
        + rest
}

proof fn lemma_relocations(
    tree: Seq<Entry>,
    blobs: Seq<StoredBlob>,
    from: Seq<char>,
    to: Seq<char>,
    files: Seq<Entry>,
)
    ensures
        match relocations(tree, blobs, from, to, files) {
            Ok((edits, changes)) => {
                &&& edits.len() == files.len() + 1
                &&& edits[0] == Edit::Remove(from)
                &&& changes.len() == files.len()
                &&& forall|i: int| #![trigger files[i]]
                    0 <= i < files.len() ==> edits[i + 1] == Edit::Link(
                        relocated(files[i].path, from, to),
                        files[i].oid,
                    ) && file_text(tree, blobs, files[i].path) is Ok && changes[i] == Change::Moved(
                        files[i].path,
                        relocated(files[i].path, from, to),
                        file_text(tree, blobs, files[i].path)->Ok_0,
                    )
            },
            Err(fault) => exists|i: int|
                0 <= i < files.len() && file_text(tree, blobs, (#[trigger] files[i]).path) == Err::<
                    Seq<char>,
                    Fault,
                >(fault),
        },
    decreases files.len(),
{
    if files.len() > 0 {
        let init = files.drop_last();
        lemma_relocations(tree, blobs, from, to, init);
        assert(files[files.len() - 1] == files.last());
        match relocations(tree, blobs, from, to, init) {
            Err(fault) => {
                let i = choose|i: int|
                    0 <= i < init.len() && file_text(tree, blobs, (#[trigger] init[i]).path)
                        == Err::<Seq<char>, Fault>(fault);
                assert(files[i] == init[i]);
            },
            Ok((edits, changes)) => {
                if let Ok((all, told)) = relocations(tree, blobs, from, to, files) {
                    assert forall|i: int| #![trigger files[i]]
                        0 <= i < files.len() implies all[i + 1] == Edit::Link(
                        relocated(files[i].path, from, to),
                        files[i].oid,
                    ) && file_text(tree, blobs, files[i].path) is Ok && told[i] == Change::Moved(
                        files[i].path,
                        relocated(files[i].path, from, to),
                        file_text(tree, blobs, files[i].path)->Ok_0,
                    ) by {
                        if i < init.len() {
                            assert(init[i] == files[i]);
                        }
                    }
                }
            },
        }
    }
}

/// A moved folder is taken away whole, and each file below it, in the order of
/// the tree, is put at the same place below the new one, with the blob it has,
/// and announced as moved with its text; the orders of the two directories
/// follow. It fails only if such a file cannot be read. Nothing is done if
/// there is none.
pub proof fn law_move_puts_the_folder(
    tree: Seq<Entry>,
    blobs: Seq<StoredBlob>,
    from: Seq<char>,
    to: Seq<char>,
    request: Request,
)
    requires
        is_signed(request),
    ensures
        ({
            let plan = move_directory_plan(tree, blobs, from, to, request);
            let files = files_below(tree, from);
            let is_there = lookup(tree, from) matches Some(entry) && entry.kind == EntryKind::Tree;
            let refusal = move_refusal(tree, from, to, is_there);
            let entry = leaf_of(to) + seq!['/'];
            let left = order_left(tree, blobs, from, to, entry);
            let reached = order_reached(tree, blobs, from, to, entry);
            if from != to && (from + seq!['/']).is_prefix_of(to) {
                plan == Err::<Option<Plan>, Fault>(
                    Fault::InvalidOperation(
                        "destination must not be inside the source directory: "@ + to,
                    ),
                )
            } else if refusal is Some {
                plan == Err::<Option<Plan>, Fault>(refusal->0)
            } else if files.len() == 0 {
                plan == Ok::<Option<Plan>, Fault>(None)
            } else {
                match plan {
                    Err(fault) => exists|i: int|
                        0 <= i < files.len() && file_text(tree, blobs, (#[trigger] files[i]).path)
                            == Err::<Seq<char>, Fault>(fault),
                    Ok(None) => false,
                    Ok(Some(made)) => exists|edits: Seq<Edit>, changes: Seq<Change>|
                        made.edits == #[trigger] edits_with(edits, left, reached) && made.changes
                            == #[trigger] changes_with(changes, left, reached) && edits.len()
                            == files.len() + 1 && edits[0] == Edit::Remove(from) && changes.len()
                            == files.len() && forall|i: int| #![trigger files[i]]
                            0 <= i < files.len() ==> is_moved(
                                tree,
                                blobs,
                                from,
                                to,
                                files[i],
                                edits[i + 1],
                                changes[i],
                            ),
                }
            }
        }),
{
    reveal_strlit("/");
    assert("/"@ =~= seq!['/']);
    lemma_files_below(tree, from);
    let files = files_below(tree, from);
    let entry = leaf_of(to) + seq!['/'];
    let left = order_left(tree, blobs, from, to, entry);
    let reached = order_reached(tree, blobs, from, to, entry);
    lemma_relocations(tree, blobs, from, to, files);
    if let Ok((edits, changes)) = relocations(tree, blobs, from, to, files) {
        assert(edits_with(edits, left, reached) =~= crate::git::index::with_edit(
            crate::git::index::with_edit(edits, left),
            reached,
        ));
        assert(changes_with(changes, left, reached) =~= crate::git::index::with_change(
            crate::git::index::with_change(changes, left),
            reached,
        ));
        assert forall|i: int| #![trigger files[i]] 0 <= i < files.len() implies is_moved(
            tree,
            blobs,
            from,
            to,
            files[i],
            edits[i + 1],
            changes[i],
        ) by {
            let path = files[i].path;
            tree.lemma_filter_pred(|e: Entry| is_file_below(e, from), i);
            let rest = path.skip(from.len() as int + 1);
            assert(path =~= from + seq!['/'] + rest);
            assert(relocated(path, from, to) =~= to + seq!['/'] + rest);
            let text = file_text(tree, blobs, path)->Ok_0;
            law_text_is_what_bytes_spell(tree, blobs, path, text);
            assert(lands_at(path, from, to, relocated(path, from, to)));
        }
    }
}

/// Whether an edit and a change are those of a file that is moved with its
/// folder.
pub open spec fn is_moved(
    tree: Seq<Entry>,
    blobs: Seq<StoredBlob>,
    from: Seq<char>,
    to: Seq<char>,
    file: Entry,
    edit: Edit,
    change: Change,
) -> bool {
    exists|landed: Seq<char>, text: Seq<char>| #[trigger]
        lands_at(file.path, from, to, landed) && #[trigger] reads_as(tree, blobs, file.path, text)
            && edit == Edit::Link(landed, file.oid) && change == Change::Moved(
            file.path,
            landed,
            text,
        )
}

} // verus!
