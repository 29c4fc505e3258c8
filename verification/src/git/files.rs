//! Files of a repository: reading them, and planning the commits that write,
//! delete and move them.
use vstd::prelude::*;
use vstd::utf8::*;
use crate::error::{invalid_operation, AppError, Fault};
use crate::git::index::{
    add_step, append_step, removal_step, rename_step, with_change, with_edit, GitOrder,
};
use crate::git::model::{
    blob_at, blob_content_from_tree, blob_id, blob_oid_in_tree, content_of, file_text, find_blob,
    find_entry, finish_plan, hash_blob, lookup, plan_outcome, planned, stored_order_in, Blob,
    Change, CommitPlan, CommitRequest, Edit, Entry, EntryKind, FileChange, Plan, Request,
    StoredBlob, TreeEdit, TreeEntry,
};
use crate::order::{
    directory_entry, is_index_path, is_order_file, leaf_of, parent_of, split_parent,
};
use crate::seek::{window_text, SeekFilter, Window};
use crate::sorting::{lemma_views_push, views};
use crate::text::{characters, has_prefix, joined, same};

verus! {

/// Operations on the files of a repository.
pub struct GitFiles;

/// What a path of the last commit's tree is.
#[derive(Debug, Clone, Copy, PartialEq, Eq, Structural)]
pub enum PathKind {
    File,
    Directory,
    Missing,
}

/// What a path is; an order index is invisible.
pub open spec fn kind_at(tree: Seq<Entry>, path: Seq<char>) -> PathKind {
    if is_index_path(path) {
        PathKind::Missing
    } else {
        match lookup(tree, path) {
            Some(entry) => match entry.kind {
                EntryKind::Blob => PathKind::File,
                EntryKind::Tree => PathKind::Directory,
                EntryKind::Other => PathKind::Missing,
            },
            None => PathKind::Missing,
        }
    }
}

/// The window of a blob's text, or why it cannot be read.
pub open spec fn blob_window(
    blobs: Seq<StoredBlob>,
    oid: Seq<char>,
    path: Seq<char>,
    window: Window,
) -> Result<Seq<char>, Fault> {
    match content_of(blobs, oid) {
        None => Err(Fault::Git("object not found: "@ + oid)),
        Some(bytes) => window_text(bytes, window, path),
    }
}

/// The window of a file's text, or why it cannot be read.
pub open spec fn read_outcome(
    tree: Seq<Entry>,
    blobs: Seq<StoredBlob>,
    path: Seq<char>,
    window: Window,
) -> Result<Seq<char>, Fault> {
    if is_index_path(path) {
        Err(Fault::FileNotFound(path))
    } else {
        match blob_at(tree, path) {
            None => Err(Fault::FileNotFound(path)),
            Some(oid) => blob_window(blobs, oid, path, window),
        }
    }
}

/// One slot of a batch read: nothing where there is no file.
pub open spec fn batch_slot(
    tree: Seq<Entry>,
    blobs: Seq<StoredBlob>,
    path: Seq<char>,
    window: Window,
) -> Result<Option<Seq<char>>, Fault> {
    if is_index_path(path) || blob_at(tree, path) is None {
        Ok(None)
    } else {
        match blob_window(blobs, blob_at(tree, path)->0, path, window) {
            Ok(text) => Ok(Some(text)),
            Err(fault) => Err(fault),
        }
    }
}

/// The slots of a batch read, or the fault of the first file that exists but
/// cannot be read.
pub open spec fn batch_outcome(
    tree: Seq<Entry>,
    blobs: Seq<StoredBlob>,
    reads: Seq<(Seq<char>, Window)>,
) -> Result<Seq<Option<Seq<char>>>, Fault>
    decreases reads.len(),
{
    if reads.len() == 0 {
        Ok(Seq::empty())
    } else {
        match batch_outcome(tree, blobs, reads.drop_last()) {
            Err(fault) => Err(fault),
            Ok(slots) => match batch_slot(tree, blobs, reads.last().0, reads.last().1) {
                Err(fault) => Err(fault),
                Ok(slot) => Ok(slots.push(slot)),
            },
        }
    }
}

/// The reads of a batch over characters.
pub open spec fn reads_view(reads: Seq<(String, SeekFilter)>) -> Seq<(Seq<char>, Window)> {
    Seq::new(reads.len(), |i: int| (reads[i].0@, reads[i].1@))
}

/// The slots of a batch over characters.
pub open spec fn slots_view(slots: Seq<Option<String>>) -> Seq<Option<Seq<char>>> {
    Seq::new(slots.len(), |i: int| crate::text::optional_text(slots[i]))
}

/// What writing a file comes to, given the id of its content.
pub open spec fn write_plan_for(
    tree: Seq<Entry>,
    path: Seq<char>,
    content: Seq<char>,
    incoming: Result<Seq<char>, Seq<char>>,
    request: Request,
) -> Result<Option<Plan>, Fault> {
    let edits = seq![Edit::Write(path, content)];
    if is_index_path(path) {
        Err(
            Fault::InvalidOperation(
                "path is reserved for the file order index, write it through /order instead: "@
                    + path,
            ),
        )
    } else {
        match lookup(tree, path) {
            None => planned(
                edits,
                seq![Change::Created(path, content)],
                request,
                "create: "@ + path,
            ),
            Some(entry) => if entry.kind != EntryKind::Blob {
                Err(Fault::InvalidOperation("path is a folder: "@ + path))
            } else {
                match incoming {
                    Err(message) => Err(Fault::Git(message)),
                    Ok(oid) => if entry.oid == oid {
                        Ok(None)
                    } else {
                        planned(
                            edits,
                            seq![Change::Updated(path, content)],
                            request,
                            "update: "@ + path,
                        )
                    },
                }
            },
        }
    }
}

/// What writing a file comes to.
pub open spec fn write_plan(
    tree: Seq<Entry>,
    path: Seq<char>,
    content: Seq<char>,
    request: Request,
) -> Result<Option<Plan>, Fault> {
    write_plan_for(tree, path, content, blob_id(encode_utf8(content)), request)
}

/// What deleting a file comes to.
pub open spec fn delete_plan(
    tree: Seq<Entry>,
    blobs: Seq<StoredBlob>,
    path: Seq<char>,
    request: Request,
) -> Result<Option<Plan>, Fault> {
    if is_index_path(path) || blob_at(tree, path) is None {
        Err(Fault::FileNotFound(path))
    } else {
        let step = removal_step(
            stored_order_in(tree, blobs, parent_of(path)),
            parent_of(path),
            leaf_of(path),
        );
        planned(
            with_edit(seq![Edit::Remove(path)], step),
            with_change(seq![Change::Deleted(path)], step),
            request,
            "delete: "@ + path,
        )
    }
}

/// Whether a path lies inside a directory.
pub open spec fn is_inside(path: Seq<char>, directory: Seq<char>) -> bool {
    (directory + "/"@).is_prefix_of(path)
}

/// The files of a tree inside a directory, at any depth.
pub open spec fn files_inside(tree: Seq<Entry>, directory: Seq<char>) -> Seq<Entry> {
    tree.filter(|entry: Entry| entry.kind == EntryKind::Blob && is_inside(entry.path, directory))
}

/// The deletions of a list of entries.
pub open spec fn deletions(entries: Seq<Entry>) -> Seq<Change> {
    Seq::new(entries.len(), |i: int| Change::Deleted(entries[i].path))
}

/// Whether a tree holds a directory at `path`.
pub open spec fn is_directory(tree: Seq<Entry>, path: Seq<char>) -> bool {
    lookup(tree, path) matches Some(entry) && entry.kind == EntryKind::Tree
}

/// What deleting a directory comes to.
pub open spec fn delete_directory_plan(
    tree: Seq<Entry>,
    blobs: Seq<StoredBlob>,
    path: Seq<char>,
    request: Request,
) -> Result<Option<Plan>, Fault> {
    let files = files_inside(tree, path);
    if !is_directory(tree, path) {
        Err(Fault::FileNotFound(path))
    } else if files.len() == 0 {
        Ok(None)
    } else {
        let step = removal_step(
            stored_order_in(tree, blobs, parent_of(path)),
            parent_of(path),
            leaf_of(path),
        );
        planned(
            with_edit(seq![Edit::Remove(path)], step),
            with_change(deletions(files), step),
            request,
            "delete: "@ + path + "/"@,
        )
    }
}

/// The edits and changes of a move, with the order of both directories kept
/// true: in one directory the entry keeps its place under its new name,
/// between two it leaves the one and goes to the end of the other.
pub open spec fn moved_plan(
    tree: Seq<Entry>,
    blobs: Seq<StoredBlob>,
    from: Seq<char>,
    to: Seq<char>,
    entry: Seq<char>,
    edits: Seq<Edit>,
    changes: Seq<Change>,
    request: Request,
    auto: Seq<char>,
) -> Result<Option<Plan>, Fault> {
    if parent_of(from) == parent_of(to) {
        let step = rename_step(
            stored_order_in(tree, blobs, parent_of(from)),
            parent_of(from),
            leaf_of(from),
            entry,
        );
        planned(with_edit(edits, step), with_change(changes, step), request, auto)
    } else {
        let left = removal_step(
            stored_order_in(tree, blobs, parent_of(from)),
            parent_of(from),
            leaf_of(from),
        );
        let came = append_step(
            stored_order_in(tree, blobs, parent_of(to)),
            parent_of(to),
            entry,
        );
        planned(
            with_edit(with_edit(edits, left), came),
            with_change(with_change(changes, left), came),
            request,
            auto,
        )
    }
}

/// What moving a file comes to.
pub open spec fn move_plan(
    tree: Seq<Entry>,
    blobs: Seq<StoredBlob>,
    from: Seq<char>,
    to: Seq<char>,
    request: Request,
) -> Result<Option<Plan>, Fault> {
    if is_index_path(from) {
        Err(Fault::FileNotFound(from))
    } else if is_index_path(to) {
        Err(
            Fault::InvalidOperation(
                "destination is reserved for the file order index, write it through /order instead: "@
                    + to,
            ),
        )
    } else if from == to {
        Err(Fault::InvalidOperation("destination must differ from source path"@))
    } else if blob_at(tree, from) is None {
        Err(Fault::FileNotFound(from))
    } else if lookup(tree, to) is Some {
        Err(Fault::InvalidOperation("destination already exists: "@ + to))
    } else {
        match file_text(tree, blobs, from) {
            Err(fault) => Err(fault),
            Ok(content) => moved_plan(
                tree,
                blobs,
                from,
                to,
                leaf_of(to),
                seq![Edit::Remove(from), Edit::Link(to, blob_at(tree, from)->0)],
                seq![Change::Moved(from, to, content)],
                request,
                "move: "@ + from + " -> "@ + to,
            ),
        }
    }
}

/// Where a file inside `from` lies once `from` is moved to `to`.
pub open spec fn relocated(path: Seq<char>, from: Seq<char>, to: Seq<char>) -> Seq<char> {
    to + "/"@ + path.skip(from.len() as int + 1)
}

/// The edits and changes that move each of the given files with its
/// directory, or the fault of the first that cannot be read.
pub open spec fn relocations(
    tree: Seq<Entry>,
    blobs: Seq<StoredBlob>,
    from: Seq<char>,
    to: Seq<char>,
    files: Seq<Entry>,
) -> Result<(Seq<Edit>, Seq<Change>), Fault>
    decreases files.len(),
{
    if files.len() == 0 {
        Ok((seq![Edit::Remove(from)], Seq::empty()))
    } else {
        match relocations(tree, blobs, from, to, files.drop_last()) {
            Err(fault) => Err(fault),
            Ok((edits, changes)) => {
                let path = files.last().path;
                match file_text(tree, blobs, path) {
                    Err(fault) => Err(fault),
                    Ok(content) => Ok(
                        (
                            edits.push(Edit::Link(relocated(path, from, to), files.last().oid)),
                            changes.push(Change::Moved(path, relocated(path, from, to), content)),
                        ),
                    ),
                }
            },
        }
    }
}

/// What moving a directory comes to.
pub open spec fn move_directory_plan(
    tree: Seq<Entry>,
    blobs: Seq<StoredBlob>,
    from: Seq<char>,
    to: Seq<char>,
    request: Request,
) -> Result<Option<Plan>, Fault> {
    let files = files_inside(tree, from);
    if from == to {
        Err(Fault::InvalidOperation("destination must differ from source path"@))
    } else if is_inside(to, from) {
        Err(
            Fault::InvalidOperation("destination must not be inside the source directory: "@ + to),
        )
    } else if !is_directory(tree, from) {
        Err(Fault::FileNotFound(from))
    } else if lookup(tree, to) is Some {
        Err(Fault::InvalidOperation("destination already exists: "@ + to))
    } else if files.len() == 0 {
        Ok(None)
    } else {
        match relocations(tree, blobs, from, to, files) {
            Err(fault) => Err(fault),
            Ok((edits, changes)) => moved_plan(
                tree,
                blobs,
                from,
                to,
                leaf_of(to) + "/"@,
                edits,
                changes,
                request,
                "move: "@ + from + "/ -> "@ + to + "/"@,
            ),
        }
    }
}

/// The outcome of reading text, over the views.
pub open spec fn text_outcome(result: Result<String, AppError>) -> Result<Seq<char>, Fault> {
    match result {
        Ok(text) => Ok(text@),
        Err(error) => Err(error@),
    }
}

impl GitFiles {
    /// What a path of the last commit's tree is.
    pub fn path_kind(tree: &[TreeEntry], path: &str) -> (result: PathKind)
        ensures
            result == kind_at(views(tree@), path@),
    {
        if is_order_file(path) {
            return PathKind::Missing;
        }
        match find_entry(tree, path) {
            Some(entry) => match entry.kind {
                EntryKind::Blob => PathKind::File,
                EntryKind::Tree => PathKind::Directory,
                EntryKind::Other => PathKind::Missing,
            },
            None => PathKind::Missing,
        }
    }

    /// Reads the window of a blob's text.
    fn windowed_blob_content(
        blobs: &[Blob],
        oid: &str,
        file_path: &str,
        seek: &SeekFilter,
    ) -> (result: Result<String, AppError>)
        ensures
            text_outcome(result) == blob_window(views(blobs@), oid@, file_path@, seek@),
    {
        match find_blob(blobs, oid) {
            None => Err(AppError::Git(joined("object not found: ", oid))),
            Some(content) => seek.apply_reader(content.as_slice(), file_path),
        }
    }

    /// Reads the window of a file's text.
    pub fn read_file(
        tree: &[TreeEntry],
        blobs: &[Blob],
        file_path: &str,
        seek: &SeekFilter,
    ) -> (result: Result<String, AppError>)
        ensures
            text_outcome(result) == read_outcome(views(tree@), views(blobs@), file_path@, seek@),
    {
        if is_order_file(file_path) {
            return Err(AppError::FileNotFound { path: file_path.to_owned() });
        }
        match blob_oid_in_tree(tree, file_path) {
            None => Err(AppError::FileNotFound { path: file_path.to_owned() }),
            Some(oid) => Self::windowed_blob_content(blobs, oid, file_path, seek),
        }
    }

    /// Reads several files; a slot is empty where there is no file.
    pub fn batch_read_files(
        tree: &[TreeEntry],
        blobs: &[Blob],
        file_reads: &[(String, SeekFilter)],
    ) -> (result: Result<Vec<Option<String>>, AppError>)
        ensures
            match result {
                Ok(slots) => batch_outcome(views(tree@), views(blobs@), reads_view(file_reads@))
                    == Ok::<_, Fault>(slots_view(slots@)),
                Err(error) => batch_outcome(views(tree@), views(blobs@), reads_view(file_reads@))
                    == Err::<Seq<Option<Seq<char>>>, _>(error@),
            },
    {
        let ghost all = reads_view(file_reads@);
        let ghost head = views(tree@);
        let ghost stored = views(blobs@);
        let mut slots: Vec<Option<String>> = Vec::new();
        let mut i: usize = 0;
        assert(all.take(0) =~= Seq::empty());
        assert(slots_view(slots@) =~= Seq::empty());
        while i < file_reads.len()
            invariant
                i <= file_reads.len(),
                all == reads_view(file_reads@),
                head == views(tree@),
                stored == views(blobs@),
                batch_outcome(head, stored, all.take(i as int)) == Ok::<_, Fault>(
                    slots_view(slots@),
                ),
            decreases file_reads.len() - i,
        {
            let path: &str = file_reads[i].0.as_str();
            assert(all.take(i + 1).drop_last() =~= all.take(i as int));
            assert(all.take(i + 1).last() == all[i as int]);
            let found: Option<&str> = if is_order_file(path) {
                None
            } else {
                blob_oid_in_tree(tree, path)
            };
            let slot: Option<String> = match found {
                None => None,
                Some(oid) => match Self::windowed_blob_content(
                    blobs,
                    oid,
                    path,
                    &file_reads[i].1,
                ) {
                    Ok(text) => Some(text),
                    Err(error) => {
                        proof {
                            lemma_batch_fault(head, stored, all, i as int);
                        }
                        return Err(error);
                    },
                },
            };
            let ghost before = slots@;
            slots.push(slot);
            assert(slots_view(slots@) =~= slots_view(before).push(
                crate::text::optional_text(slot),
            ));
            i = i + 1;
        }
        assert(all.take(i as int) =~= all);
        Ok(slots)
    }

    /// Plans the write of a file. Content that is there already needs no
    /// commit.
    pub fn write_file(
        tree: &[TreeEntry],
        file_path: &str,
        content: &str,
        request: &CommitRequest,
    ) -> (result: Result<Option<CommitPlan>, AppError>)
        ensures
            plan_outcome(result) == write_plan(views(tree@), file_path@, content@, request@),
    {
        let incoming: Result<String, String> = hash_blob(content.as_bytes());
        Self::write_blob(tree, file_path, content, incoming, request)
    }

    /// Plans the write of a file whose content has the given id.
    pub fn write_blob(
        tree: &[TreeEntry],
        file_path: &str,
        content: &str,
        incoming: Result<String, String>,
        request: &CommitRequest,
    ) -> (result: Result<Option<CommitPlan>, AppError>)
        ensures
            plan_outcome(result) == write_plan_for(
                views(tree@),
                file_path@,
                content@,
                match incoming {
                    Ok(oid) => Ok(oid@),
                    Err(message) => Err(message@),
                },
                request@,
            ),
    {
        if is_order_file(file_path) {
            return Err(
                invalid_operation(
                    joined(
                        "path is reserved for the file order index, write it through /order instead: ",
                        file_path,
                    ).as_str(),
                ),
            );
        }
        let is_new_file: bool = match find_entry(tree, file_path) {
            None => true,
            Some(entry) => {
                if entry.kind != EntryKind::Blob {
                    return Err(invalid_operation(joined("path is a folder: ", file_path).as_str()));
                }
                match incoming {
                    Err(message) => {
                        return Err(AppError::Git(message));
                    },
                    Ok(oid) => {
                        if same(entry.oid.as_str(), oid.as_str()) {
                            return Ok(None);
                        }
                    },
                }
                false
            },
        };
        let mut edits: Vec<TreeEdit> = Vec::new();
        let mut changes: Vec<FileChange> = Vec::new();
        edits.push(TreeEdit::Write { path: file_path.to_owned(), content: content.to_owned() });
        assert(views(edits@) =~= seq![Edit::Write(file_path@, content@)]);
        if is_new_file {
            changes.push(
                FileChange::Created { path: file_path.to_owned(), content: content.to_owned() },
            );
            assert(views(changes@) =~= seq![Change::Created(file_path@, content@)]);
            finish_plan(edits, changes, request, joined("create: ", file_path))
        } else {
            changes.push(
                FileChange::Updated { path: file_path.to_owned(), content: content.to_owned() },
            );
            assert(views(changes@) =~= seq![Change::Updated(file_path@, content@)]);
            finish_plan(edits, changes, request, joined("update: ", file_path))
        }
    }

    /// Plans the deletion of a file.
    pub fn delete_file(
        tree: &[TreeEntry],
        blobs: &[Blob],
        file_path: &str,
        request: &CommitRequest,
    ) -> (result: Result<Option<CommitPlan>, AppError>)
        ensures
            plan_outcome(result) == delete_plan(
                views(tree@),
                views(blobs@),
                file_path@,
                request@,
            ),
    {
        if is_order_file(file_path) || blob_oid_in_tree(tree, file_path).is_none() {
            return Err(AppError::FileNotFound { path: file_path.to_owned() });
        }
        let mut edits: Vec<TreeEdit> = Vec::new();
        let mut changes: Vec<FileChange> = Vec::new();
        edits.push(TreeEdit::Remove { path: file_path.to_owned() });
        changes.push(FileChange::Deleted { path: file_path.to_owned() });
        assert(views(edits@) =~= seq![Edit::Remove(file_path@)]);
        assert(views(changes@) =~= seq![Change::Deleted(file_path@)]);
        let (directory, name) = split_parent(file_path);
        let step: Option<(TreeEdit, FileChange)> = GitOrder::stage_entry_removed(
            tree,
            blobs,
            directory,
            name,
        );
        add_step(&mut edits, &mut changes, step);
        finish_plan(edits, changes, request, joined("delete: ", file_path))
    }

    /// The files of a tree inside a directory.
    fn subtree_blob_paths<'a>(tree: &'a [TreeEntry], dir_path: &str) -> (result: Vec<&'a TreeEntry>)
        ensures
            views(result@) == files_inside(views(tree@), dir_path@),
    {
        let prefix: String = joined(dir_path, "/");
        let ghost all = views(tree@);
        let ghost keeps = |entry: Entry|
            entry.kind == EntryKind::Blob && is_inside(entry.path, dir_path@);
        let mut files: Vec<&'a TreeEntry> = Vec::new();
        let mut i: usize = 0;
        assert(views(files@) =~= all.take(0).filter(keeps));
        while i < tree.len()
            invariant
                i <= tree.len(),
                all == views(tree@),
                prefix@ == dir_path@ + "/"@,
                keeps == (|entry: Entry|
                    entry.kind == EntryKind::Blob && is_inside(entry.path, dir_path@)),
                views(files@) == all.take(i as int).filter(keeps),
            decreases tree.len() - i,
        {
            proof {
                assert(all.take(i + 1) =~= all.take(i as int).push(tree@[i as int]@));
                all.take(i as int).lemma_filter_push(tree@[i as int]@, keeps);
                lemma_views_push(files@, &tree@[i as int]);
            }
            if tree[i].kind == EntryKind::Blob && has_prefix(
                tree[i].path.as_str(),
                prefix.as_str(),
            ) {
                files.push(&tree[i]);
            }
            i = i + 1;
        }
        assert(all.take(i as int) =~= all);
        files
    }

    /// Plans the deletion of a directory with everything in it. One that
    /// holds no file needs no commit.
    pub fn delete_directory(
        tree: &[TreeEntry],
        blobs: &[Blob],
        dir_path: &str,
        request: &CommitRequest,
    ) -> (result: Result<Option<CommitPlan>, AppError>)
        ensures
            plan_outcome(result) == delete_directory_plan(
                views(tree@),
                views(blobs@),
                dir_path@,
                request@,
            ),
    {
        if !Self::is_tree(tree, dir_path) {
            return Err(AppError::FileNotFound { path: dir_path.to_owned() });
        }
        let files: Vec<&TreeEntry> = Self::subtree_blob_paths(tree, dir_path);
        let ghost inside = files_inside(views(tree@), dir_path@);
        assert(inside.len() == files.len());
        if files.len() == 0 {
            return Ok(None);
        }
        let mut edits: Vec<TreeEdit> = Vec::new();
        edits.push(TreeEdit::Remove { path: dir_path.to_owned() });
        assert(views(edits@) =~= seq![Edit::Remove(dir_path@)]);
        let mut changes: Vec<FileChange> = Vec::new();
        let mut i: usize = 0;
        while i < files.len()
            invariant
                i <= files.len(),
                changes.len() == i,
                inside == views(files@),
                forall|j: int|
                    0 <= j < i ==> (#[trigger] changes@[j])@ == Change::Deleted(inside[j].path),
            decreases files.len() - i,
        {
            changes.push(FileChange::Deleted { path: files[i].path.clone() });
            i = i + 1;
        }
        assert(views(changes@) =~= deletions(inside));
        let (directory, name) = split_parent(dir_path);
        let step: Option<(TreeEdit, FileChange)> = GitOrder::stage_entry_removed(
            tree,
            blobs,
            directory,
            name,
        );
        add_step(&mut edits, &mut changes, step);
        let mut auto: String = joined("delete: ", dir_path);
        auto.append("/");
        finish_plan(edits, changes, request, auto)
    }

    /// Whether a tree holds a directory at `path`.
    fn is_tree(tree: &[TreeEntry], path: &str) -> (result: bool)
        ensures
            result == is_directory(views(tree@), path@),
    {
        match find_entry(tree, path) {
            Some(entry) => entry.kind == EntryKind::Tree,
            None => false,
        }
    }

    /// Completes the plan of a move with the order of both directories.
    fn finish_move(
        tree: &[TreeEntry],
        blobs: &[Blob],
        from_path: &str,
        to_path: &str,
        entry: &str,
        edits: Vec<TreeEdit>,
        changes: Vec<FileChange>,
        request: &CommitRequest,
        auto: String,
    ) -> (result: Result<Option<CommitPlan>, AppError>)
        ensures
            plan_outcome(result) == moved_plan(
                views(tree@),
                views(blobs@),
                from_path@,
                to_path@,
                entry@,
                views(edits@),
                views(changes@),
                request@,
                auto@,
            ),
    {
        let (from_directory, from_name) = split_parent(from_path);
        let (to_directory, _to_name) = split_parent(to_path);
        let mut all_edits: Vec<TreeEdit> = edits;
        let mut all_changes: Vec<FileChange> = changes;
        if same(from_directory, to_directory) {
            let step: Option<(TreeEdit, FileChange)> = GitOrder::stage_entry_renamed(
                tree,
                blobs,
                from_directory,
                from_name,
                entry,
            );
            add_step(&mut all_edits, &mut all_changes, step);
        } else {
            let left: Option<(TreeEdit, FileChange)> = GitOrder::stage_entry_removed(
                tree,
                blobs,
                from_directory,
                from_name,
            );
            add_step(&mut all_edits, &mut all_changes, left);
            let came: Option<(TreeEdit, FileChange)> = GitOrder::stage_entry_appended(
                tree,
                blobs,
                to_directory,
                entry,
            );
            add_step(&mut all_edits, &mut all_changes, came);
        }
        finish_plan(all_edits, all_changes, request, auto)
    }

    /// Plans the move of a file.
    pub fn move_file(
        tree: &[TreeEntry],
        blobs: &[Blob],
        from_path: &str,
        to_path: &str,
        request: &CommitRequest,
    ) -> (result: Result<Option<CommitPlan>, AppError>)
        ensures
            plan_outcome(result) == move_plan(
                views(tree@),
                views(blobs@),
                from_path@,
                to_path@,
                request@,
            ),
    {
        if is_order_file(from_path) {
            return Err(AppError::FileNotFound { path: from_path.to_owned() });
        }
        if is_order_file(to_path) {
            return Err(
                invalid_operation(
                    joined(
                        "destination is reserved for the file order index, write it through /order instead: ",
                        to_path,
                    ).as_str(),
                ),
            );
        }
        if same(from_path, to_path) {
            return Err(invalid_operation("destination must differ from source path"));
        }
        let oid: &str = match blob_oid_in_tree(tree, from_path) {
            Some(oid) => oid,
            None => {
                return Err(AppError::FileNotFound { path: from_path.to_owned() });
            },
        };
        if find_entry(tree, to_path).is_some() {
            return Err(invalid_operation(joined("destination already exists: ", to_path).as_str()));
        }
        let content: String = match blob_content_from_tree(tree, blobs, from_path) {
            Ok(content) => content,
            Err(error) => {
                return Err(error);
            },
        };
        let mut edits: Vec<TreeEdit> = Vec::new();
        let mut changes: Vec<FileChange> = Vec::new();
        edits.push(TreeEdit::Remove { path: from_path.to_owned() });
        edits.push(TreeEdit::Link { path: to_path.to_owned(), oid: oid.to_owned() });
        let ghost text = content@;
        changes.push(
            FileChange::Moved {
                from_path: from_path.to_owned(),
                to_path: to_path.to_owned(),
                content,
            },
        );
        assert(views(edits@) =~= seq![Edit::Remove(from_path@), Edit::Link(to_path@, oid@)]);
        assert(views(changes@) =~= seq![Change::Moved(from_path@, to_path@, text)]);
        let mut auto: String = joined("move: ", from_path);
        auto.append(" -> ");
        auto.append(to_path);
        Self::finish_move(
            tree,
            blobs,
            from_path,
            to_path,
            split_parent(to_path).1,
            edits,
            changes,
            request,
            auto,
        )
    }

    /// Plans the move of a directory with everything in it. One that holds no
    /// file needs no commit.
    pub fn move_directory(
        tree: &[TreeEntry],
        blobs: &[Blob],
        from_path: &str,
        to_path: &str,
        request: &CommitRequest,
    ) -> (result: Result<Option<CommitPlan>, AppError>)
        ensures
            plan_outcome(result) == move_directory_plan(
                views(tree@),
                views(blobs@),
                from_path@,
                to_path@,
                request@,
            ),
    {
        if same(from_path, to_path) {
            return Err(invalid_operation("destination must differ from source path"));
        }
        if has_prefix(to_path, joined(from_path, "/").as_str()) {
            return Err(
                invalid_operation(
                    joined(
                        "destination must not be inside the source directory: ",
                        to_path,
                    ).as_str(),
                ),
            );
        }
        if !Self::is_tree(tree, from_path) {
            return Err(AppError::FileNotFound { path: from_path.to_owned() });
        }
        if find_entry(tree, to_path).is_some() {
            return Err(invalid_operation(joined("destination already exists: ", to_path).as_str()));
        }
        let files: Vec<&TreeEntry> = Self::subtree_blob_paths(tree, from_path);
        let ghost inside = files_inside(views(tree@), from_path@);
        assert(inside.len() == files.len());
        if files.len() == 0 {
            return Ok(None);
        }
        proof {
            let keeps = |entry: Entry|
                entry.kind == EntryKind::Blob && is_inside(entry.path, from_path@);
            assert forall|i: int| 0 <= i < files.len() implies is_inside(
                (#[trigger] files@[i]).path@,
                from_path@,
            ) by {
                views(tree@).lemma_filter_pred(keeps, i);
                assert(inside[i] == files@[i]@);
            }
        }
        match Self::relocate(tree, blobs, from_path, to_path, &files) {
            Err(error) => Err(error),
            Ok((edits, changes)) => {
                let mut auto: String = joined("move: ", from_path);
                auto.append("/ -> ");
                auto.append(to_path);
                auto.append("/");
                let entry: String = directory_entry(split_parent(to_path).1);
                Self::finish_move(
                    tree,
                    blobs,
                    from_path,
                    to_path,
                    entry.as_str(),
                    edits,
                    changes,
                    request,
                    auto,
                )
            },
        }
    }

    /// The edits and changes that move files with their directory.
    fn relocate(
        tree: &[TreeEntry],
        blobs: &[Blob],
        from_path: &str,
        to_path: &str,
        files: &Vec<&TreeEntry>,
    ) -> (result: Result<(Vec<TreeEdit>, Vec<FileChange>), AppError>)
        requires
            forall|i: int|
                0 <= i < files.len() ==> is_inside((#[trigger] files@[i]).path@, from_path@),
        ensures
            match result {
                Ok(moved) => relocations(
                    views(tree@),
                    views(blobs@),
                    from_path@,
                    to_path@,
                    views(files@),
                ) == Ok::<_, Fault>((views(moved.0@), views(moved.1@))),
                Err(error) => relocations(
                    views(tree@),
                    views(blobs@),
                    from_path@,
                    to_path@,
                    views(files@),
                ) == Err::<(Seq<Edit>, Seq<Change>), _>(error@),
            },
    {
        let ghost head = views(tree@);
        let ghost stored = views(blobs@);
        let ghost all = views(files@);
        let mut edits: Vec<TreeEdit> = Vec::new();
        let mut changes: Vec<FileChange> = Vec::new();
        edits.push(TreeEdit::Remove { path: from_path.to_owned() });
        assert(views(edits@) =~= seq![Edit::Remove(from_path@)]);
        assert(views(changes@) =~= Seq::empty());
        assert(all.take(0) =~= Seq::empty());
        let base: usize = characters(from_path).len();
        let mut i: usize = 0;
        while i < files.len()
            invariant
                i <= files.len(),
                head == views(tree@),
                stored == views(blobs@),
                all == views(files@),
                base == from_path@.len(),
                forall|j: int|
                    0 <= j < files.len() ==> is_inside((#[trigger] files@[j]).path@, from_path@),
                relocations(head, stored, from_path@, to_path@, all.take(i as int)) == Ok::<
                    _,
                    Fault,
                >((views(edits@), views(changes@))),
            decreases files.len() - i,
        {
            broadcast use lemma_views_push;

            let source: &str = files[i].path.as_str();
            proof {
                assert(all.take(i + 1).drop_last() =~= all.take(i as int));
                assert(all.take(i + 1).last() == files@[i as int]@);
                assert(is_inside(files@[i as int].path@, from_path@));
                reveal_strlit("/");
            }
            let length: usize = characters(source).len();
            let relative: &str = source.substring_char(base + 1, length);
            assert(relative@ =~= source@.skip(from_path@.len() as int + 1));
            let mut destination: String = joined(to_path, "/");
            destination.append(relative);
            let content: String = match blob_content_from_tree(tree, blobs, source) {
                Ok(content) => content,
                Err(error) => {
                    proof {
                        lemma_relocation_fault(
                            head,
                            stored,
                            from_path@,
                            to_path@,
                            all,
                            i as int,
                        );
                    }
                    return Err(error);
                },
            };
            edits.push(
                TreeEdit::Link { path: destination.clone(), oid: files[i].oid.clone() },
            );
            changes.push(
                FileChange::Moved {
                    from_path: source.to_owned(),
                    to_path: destination,
                    content,
                },
            );
            i = i + 1;
        }
        assert(all.take(i as int) =~= all);
        Ok((edits, changes))
    }
}

proof fn lemma_batch_fault(
    tree: Seq<Entry>,
    blobs: Seq<StoredBlob>,
    reads: Seq<(Seq<char>, Window)>,
    faulty: int,
)
    requires
        0 <= faulty < reads.len(),
        batch_outcome(tree, blobs, reads.take(faulty + 1)) is Err,
    ensures
        batch_outcome(tree, blobs, reads) == batch_outcome(tree, blobs, reads.take(faulty + 1)),
    decreases reads.len(),
{
    if faulty + 1 == reads.len() {
        assert(reads.take(faulty + 1) =~= reads);
    } else {
        assert(reads.drop_last().take(faulty + 1) =~= reads.take(faulty + 1));
        lemma_batch_fault(tree, blobs, reads.drop_last(), faulty);
    }
}

proof fn lemma_relocation_fault(
    tree: Seq<Entry>,
    blobs: Seq<StoredBlob>,
    from: Seq<char>,
    to: Seq<char>,
    files: Seq<Entry>,
    faulty: int,
)
    requires
        0 <= faulty < files.len(),
        relocations(tree, blobs, from, to, files.take(faulty + 1)) is Err,
    ensures
        relocations(tree, blobs, from, to, files) == relocations(
            tree,
            blobs,
            from,
            to,
            files.take(faulty + 1),
        ),
    decreases files.len(),
{
    if faulty + 1 == files.len() {
        assert(files.take(faulty + 1) =~= files);
    } else {
        assert(files.drop_last().take(faulty + 1) =~= files.take(faulty + 1));
        lemma_relocation_fault(tree, blobs, from, to, files.drop_last(), faulty);
    }
}

/// Writing what a file holds already needs no commit.
pub proof fn law_rewrite_is_no_commit(
    tree: Seq<Entry>,
    path: Seq<char>,
    content: Seq<char>,
    request: Request,
)
    requires
        !is_index_path(path),
        blob_id(encode_utf8(content)) is Ok,
        blob_at(tree, path) == Some(blob_id(encode_utf8(content))->Ok_0),
    ensures
        write_plan(tree, path, content, request) == Ok::<Option<Plan>, Fault>(None),
{
}

/// No file route reads, writes, deletes or moves an order index.
pub proof fn law_index_is_out_of_reach(
    tree: Seq<Entry>,
    blobs: Seq<StoredBlob>,
    path: Seq<char>,
    content: Seq<char>,
    other: Seq<char>,
    window: Window,
    request: Request,
)
    requires
        is_index_path(path),
    ensures
        read_outcome(tree, blobs, path, window) == Err::<Seq<char>, Fault>(
            Fault::FileNotFound(path),
        ),
        batch_slot(tree, blobs, path, window) == Ok::<Option<Seq<char>>, Fault>(None),
        kind_at(tree, path) == PathKind::Missing,
        write_plan(tree, path, content, request) is Err,
        delete_plan(tree, blobs, path, request) is Err,
        move_plan(tree, blobs, path, other, request) is Err,
        move_plan(tree, blobs, other, path, request) is Err,
{
}

} // verus!
