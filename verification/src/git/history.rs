//! Commit history: what a commit did, undoing it, and going back to it.
use vstd::prelude::*;
use vstd::utf8::*;
use crate::error::{invalid_operation, AppError, Fault};
use crate::git::files::is_inside;
use crate::git::model::{
    blob_after, blob_at, blob_content_from_tree, blob_oid_in_tree, file_text, finish_plan,
    plan_outcome, planned, Blob, Change, CommitPlan, CommitRequest, Edit, Entry, FileChange, Plan,
    Request, StoredBlob, TreeEdit, TreeEntry,
};
use crate::sorting::views;
use crate::text::{joined, optional_text, same};

verus! {

/// Operations on the commits of a repository.
pub struct GitCommits;

/// Helpers shared by the repository operations.
pub struct GitUtils;

/// How a commit changed one path.
#[derive(Debug, Clone, Copy, PartialEq, Eq, Structural)]
pub enum DeltaStatus {
    Added,
    Deleted,
    Modified,
    Renamed,
    Other,
}

/// One path-level difference between a commit and its parent.
#[derive(Debug)]
pub struct DeltaRecord {
    pub status: DeltaStatus,
    pub old_oid: String,
    pub new_oid: String,
    pub old_path: Option<String>,
    pub new_path: Option<String>,
}

/// A difference over characters.
pub struct Delta {
    pub status: DeltaStatus,
    pub old_oid: Seq<char>,
    pub new_oid: Seq<char>,
    pub old_path: Option<Seq<char>>,
    pub new_path: Option<Seq<char>>,
}

impl Delta {
    /// Whether two differences are about the same paths and blobs.
    pub open spec fn is_same_file(self, other: Delta) -> bool {
        &&& self.old_path == other.old_path
        &&& self.new_path == other.new_path
        &&& self.old_oid == other.old_oid
        &&& self.new_oid == other.new_oid
    }
}

impl View for DeltaRecord {
    type V = Delta;

    open spec fn view(&self) -> Delta {
        Delta {
            status: self.status,
            old_oid: self.old_oid@,
            new_oid: self.new_oid@,
            old_path: optional_text(self.old_path),
            new_path: optional_text(self.new_path),
        }
    }
}

/// The commit that a revert or a rollback names.
#[derive(Debug)]
pub struct TargetCommit {
    pub message: Option<String>,
    pub has_parent: bool,
}

/// A target's message, or a word for one that is not text.
pub open spec fn target_message(target: TargetCommit) -> Seq<char> {
    match target.message {
        Some(message) => message@,
        None => "unknown"@,
    }
}

/// The edits and changes of a plan so far.
pub type Steps = (Seq<Edit>, Seq<Change>);

/// A plan that does nothing yet.
pub open spec fn no_steps() -> Steps {
    (Seq::empty(), Seq::empty())
}

/// What undoing one difference takes: what was added goes, what was deleted
/// or modified comes back as it was, what was renamed gets its old name.
pub open spec fn revert_step(
    parent_tree: Seq<Entry>,
    blobs: Seq<StoredBlob>,
    delta: Delta,
) -> Result<Steps, Fault> {
    match delta.status {
        DeltaStatus::Added => match delta.new_path {
            Some(path) => Ok((seq![Edit::Remove(path)], seq![Change::Deleted(path)])),
            None => Ok(no_steps()),
        },
        DeltaStatus::Deleted => match delta.old_path {
            Some(path) => match file_text(parent_tree, blobs, path) {
                Ok(content) => Ok(
                    (
                        seq![Edit::Link(path, delta.old_oid)],
                        seq![Change::Created(path, content)],
                    ),
                ),
                Err(fault) => Err(fault),
            },
            None => Ok(no_steps()),
        },
        DeltaStatus::Modified => match delta.old_path {
            Some(path) => match file_text(parent_tree, blobs, path) {
                Ok(content) => Ok(
                    (
                        seq![Edit::Link(path, delta.old_oid)],
                        seq![Change::Updated(path, content)],
                    ),
                ),
                Err(fault) => Err(fault),
            },
            None => Ok(no_steps()),
        },
        DeltaStatus::Renamed => if delta.old_path is Some && delta.new_path is Some {
            let old_path = delta.old_path->0;
            let new_path = delta.new_path->0;
            match file_text(parent_tree, blobs, old_path) {
                Ok(content) => Ok(
                    (
                        seq![Edit::Remove(new_path), Edit::Link(old_path, delta.old_oid)],
                        seq![Change::Moved(new_path, old_path, content)],
                    ),
                ),
                Err(fault) => Err(fault),
            }
        } else {
            Ok(no_steps())
        },
        DeltaStatus::Other => Ok(no_steps()),
    }
}

/// Two runs of steps, one after the other; the first fault wins.
pub open spec fn chained(first: Result<Steps, Fault>, second: Result<Steps, Fault>) -> Result<
    Steps,
    Fault,
> {
    match first {
        Err(fault) => Err(fault),
        Ok(a) => match second {
            Err(fault) => Err(fault),
            Ok(b) => Ok((a.0 + b.0, a.1 + b.1)),
        },
    }
}

/// What undoing a list of differences takes.
pub open spec fn revert_steps(
    parent_tree: Seq<Entry>,
    blobs: Seq<StoredBlob>,
    deltas: Seq<Delta>,
) -> Result<Steps, Fault>
    decreases deltas.len(),
{
    if deltas.len() == 0 {
        Ok(no_steps())
    } else {
        chained(
            revert_steps(parent_tree, blobs, deltas.drop_last()),
            revert_step(parent_tree, blobs, deltas.last()),
        )
    }
}

/// What reverting a commit comes to.
pub open spec fn revert_plan(
    sha: Seq<char>,
    target: Option<TargetCommit>,
    parent_tree: Seq<Entry>,
    blobs: Seq<StoredBlob>,
    deltas: Seq<Delta>,
    request: Request,
) -> Result<Option<Plan>, Fault> {
    match target {
        None => Err(Fault::CommitNotFound(sha)),
        Some(commit) => if !commit.has_parent {
            Err(Fault::InvalidOperation("cannot revert the initial commit"@))
        } else {
            match revert_steps(parent_tree, blobs, deltas) {
                Err(fault) => Err(fault),
                Ok((edits, changes)) => planned(
                    edits,
                    changes,
                    request,
                    "revert: "@ + target_message(commit),
                ),
            }
        },
    }
}

/// What giving one path the blob it had takes: nothing where it has it.
pub open spec fn restore_step(
    head: Seq<Entry>,
    target_tree: Seq<Entry>,
    blobs: Seq<StoredBlob>,
    path: Seq<char>,
    oid: Seq<char>,
) -> Result<Steps, Fault> {
    if blob_at(head, path) == Some(oid) {
        Ok(no_steps())
    } else {
        match file_text(target_tree, blobs, path) {
            Err(fault) => Err(fault),
            Ok(content) => Ok(
                (
                    seq![Edit::Link(path, oid)],
                    seq![
                        if blob_at(head, path) is Some {
                            Change::Updated(path, content)
                        } else {
                            Change::Created(path, content)
                        },
                    ],
                ),
            ),
        }
    }
}

/// What dropping one path takes: nothing where it is gone.
pub open spec fn drop_step(head: Seq<Entry>, path: Seq<char>) -> Steps {
    if blob_at(head, path) is None {
        no_steps()
    } else {
        (seq![Edit::Remove(path)], seq![Change::Deleted(path)])
    }
}

/// What going back to one difference's outcome takes.
pub open spec fn rollback_step(
    head: Seq<Entry>,
    target_tree: Seq<Entry>,
    blobs: Seq<StoredBlob>,
    delta: Delta,
) -> Result<Steps, Fault> {
    match delta.status {
        DeltaStatus::Added | DeltaStatus::Modified => match delta.new_path {
            Some(path) => restore_step(head, target_tree, blobs, path, delta.new_oid),
            None => Ok(no_steps()),
        },
        DeltaStatus::Deleted => match delta.old_path {
            Some(path) => Ok(drop_step(head, path)),
            None => Ok(no_steps()),
        },
        DeltaStatus::Renamed => if delta.old_path is Some && delta.new_path is Some {
            let old_path = delta.old_path->0;
            let new_path = delta.new_path->0;
            if blob_at(head, old_path) is Some && blob_at(head, new_path) is None {
                match file_text(target_tree, blobs, new_path) {
                    Err(fault) => Err(fault),
                    Ok(content) => Ok(
                        (
                            seq![Edit::Remove(old_path), Edit::Link(new_path, delta.new_oid)],
                            seq![Change::Moved(old_path, new_path, content)],
                        ),
                    ),
                }
            } else {
                chained(
                    restore_step(head, target_tree, blobs, new_path, delta.new_oid),
                    Ok(drop_step(head, old_path)),
                )
            }
        } else {
            Ok(no_steps())
        },
        DeltaStatus::Other => Ok(no_steps()),
    }
}

/// What going back to the outcome of a list of differences takes.
pub open spec fn rollback_steps(
    head: Seq<Entry>,
    target_tree: Seq<Entry>,
    blobs: Seq<StoredBlob>,
    deltas: Seq<Delta>,
) -> Result<Steps, Fault>
    decreases deltas.len(),
{
    if deltas.len() == 0 {
        Ok(no_steps())
    } else {
        chained(
            rollback_steps(head, target_tree, blobs, deltas.drop_last()),
            rollback_step(head, target_tree, blobs, deltas.last()),
        )
    }
}

/// What rolling back to a commit comes to. Files that are as they were need
/// no commit.
pub open spec fn rollback_plan(
    sha: Seq<char>,
    target: Option<TargetCommit>,
    head: Seq<Entry>,
    target_tree: Seq<Entry>,
    blobs: Seq<StoredBlob>,
    deltas: Seq<Delta>,
    request: Request,
) -> Result<Option<Plan>, Fault> {
    match target {
        None => Err(Fault::CommitNotFound(sha)),
        Some(commit) => match rollback_steps(head, target_tree, blobs, deltas) {
            Err(fault) => Err(fault),
            Ok((edits, changes)) => if changes.len() == 0 {
                Ok(None)
            } else {
                planned(edits, changes, request, "rollback: "@ + target_message(commit))
            },
        },
    }
}

/// The steps of a plan under construction.
struct Draft {
    edits: Vec<TreeEdit>,
    changes: Vec<FileChange>,
}

impl View for Draft {
    type V = Steps;

    closed spec fn view(&self) -> Steps {
        (views(self.edits@), views(self.changes@))
    }
}

impl Draft {
    fn new() -> (result: Draft)
        ensures
            result@ == no_steps(),
    {
        let result: Draft = Draft { edits: Vec::new(), changes: Vec::new() };
        assert(views(result.edits@) =~= Seq::empty());
        assert(views(result.changes@) =~= Seq::empty());
        result
    }

    fn edit(&mut self, edit: TreeEdit)
        ensures
            final(self)@ == (old(self)@.0.push(edit@), old(self)@.1),
    {
        broadcast use crate::sorting::lemma_views_push;

        self.edits.push(edit);
    }

    fn change(&mut self, change: FileChange)
        ensures
            final(self)@ == (old(self)@.0, old(self)@.1.push(change@)),
    {
        broadcast use crate::sorting::lemma_views_push;

        self.changes.push(change);
    }
}

/// Whether a draft became what `step` adds to what it was, or the fault of
/// `step` is the error.
spec fn added(before: Steps, after: Steps, result: Result<(), AppError>, step: Result<Steps, Fault>) -> bool {
    match result {
        Ok(()) => step is Ok && after == (before.0 + step->Ok_0.0, before.1 + step->Ok_0.1),
        Err(error) => step == Err::<Steps, Fault>(error@),
    }
}

/// Adds what undoing one difference takes.
fn add_revert_step(
    draft: &mut Draft,
    parent_tree: &[TreeEntry],
    blobs: &[Blob],
    delta: &DeltaRecord,
) -> (result: Result<(), AppError>)
    ensures
        added(
            old(draft)@,
            final(draft)@,
            result,
            revert_step(views(parent_tree@), views(blobs@), delta@),
        ),
{
    let ghost before = draft@;
    assert(before.0 + Seq::<Edit>::empty() =~= before.0);
    assert(before.1 + Seq::<Change>::empty() =~= before.1);
    match delta.status {
        DeltaStatus::Added => {
            if let Some(path) = &delta.new_path {
                draft.edit(TreeEdit::Remove { path: path.clone() });
                draft.change(FileChange::Deleted { path: path.clone() });
                assert(draft@.0 =~= before.0 + seq![Edit::Remove(path@)]);
                assert(draft@.1 =~= before.1 + seq![Change::Deleted(path@)]);
            }
        },
        DeltaStatus::Deleted => {
            if let Some(path) = &delta.old_path {
                let content: String = match blob_content_from_tree(
                    parent_tree,
                    blobs,
                    path.as_str(),
                ) {
                    Ok(content) => content,
                    Err(error) => {
                        return Err(error);
                    },
                };
                let ghost text = content@;
                draft.edit(TreeEdit::Link { path: path.clone(), oid: delta.old_oid.clone() });
                draft.change(FileChange::Created { path: path.clone(), content });
                assert(draft@.0 =~= before.0 + seq![Edit::Link(path@, delta.old_oid@)]);
                assert(draft@.1 =~= before.1 + seq![Change::Created(path@, text)]);
            }
        },
        DeltaStatus::Modified => {
            if let Some(path) = &delta.old_path {
                let content: String = match blob_content_from_tree(
                    parent_tree,
                    blobs,
                    path.as_str(),
                ) {
                    Ok(content) => content,
                    Err(error) => {
                        return Err(error);
                    },
                };
                let ghost text = content@;
                draft.edit(TreeEdit::Link { path: path.clone(), oid: delta.old_oid.clone() });
                draft.change(FileChange::Updated { path: path.clone(), content });
                assert(draft@.0 =~= before.0 + seq![Edit::Link(path@, delta.old_oid@)]);
                assert(draft@.1 =~= before.1 + seq![Change::Updated(path@, text)]);
            }
        },
        DeltaStatus::Renamed => {
            if let Some(old_path) = &delta.old_path {
                if let Some(new_path) = &delta.new_path {
                    let content: String = match blob_content_from_tree(
                        parent_tree,
                        blobs,
                        old_path.as_str(),
                    ) {
                        Ok(content) => content,
                        Err(error) => {
                            return Err(error);
                        },
                    };
                    let ghost text = content@;
                    draft.edit(TreeEdit::Remove { path: new_path.clone() });
                    draft.edit(
                        TreeEdit::Link { path: old_path.clone(), oid: delta.old_oid.clone() },
                    );
                    draft.change(
                        FileChange::Moved {
                            from_path: new_path.clone(),
                            to_path: old_path.clone(),
                            content,
                        },
                    );
                    assert(draft@.0 =~= before.0 + seq![
                        Edit::Remove(new_path@),
                        Edit::Link(old_path@, delta.old_oid@),
                    ]);
                    assert(draft@.1 =~= before.1 + seq![
                        Change::Moved(new_path@, old_path@, text),
                    ]);
                }
            }
        },
        DeltaStatus::Other => {},
    }
    Ok(())
}

/// Adds what giving one path the blob it had takes.
fn add_restore_step(
    draft: &mut Draft,
    head: &[TreeEntry],
    target_tree: &[TreeEntry],
    blobs: &[Blob],
    path: &str,
    oid: &str,
) -> (result: Result<(), AppError>)
    ensures
        added(
            old(draft)@,
            final(draft)@,
            result,
            restore_step(views(head@), views(target_tree@), views(blobs@), path@, oid@),
        ),
{
    let ghost before = draft@;
    assert(before.0 + Seq::<Edit>::empty() =~= before.0);
    assert(before.1 + Seq::<Change>::empty() =~= before.1);
    let existing: Option<&str> = blob_oid_in_tree(head, path);
    if let Some(held) = existing {
        if same(held, oid) {
            return Ok(());
        }
    }
    let content: String = match blob_content_from_tree(target_tree, blobs, path) {
        Ok(content) => content,
        Err(error) => {
            return Err(error);
        },
    };
    let ghost text = content@;
    draft.edit(TreeEdit::Link { path: path.to_owned(), oid: oid.to_owned() });
    let change: FileChange = if existing.is_some() {
        FileChange::Updated { path: path.to_owned(), content }
    } else {
        FileChange::Created { path: path.to_owned(), content }
    };
    let ghost made = change@;
    draft.change(change);
    assert(draft@.0 =~= before.0 + seq![Edit::Link(path@, oid@)]);
    assert(draft@.1 =~= before.1 + seq![made]);
    Ok(())
}

/// Adds what dropping one path takes.
fn add_drop_step(draft: &mut Draft, head: &[TreeEntry], path: &str)
    ensures
        final(draft)@ == (
            old(draft)@.0 + drop_step(views(head@), path@).0,
            old(draft)@.1 + drop_step(views(head@), path@).1,
        ),
{
    let ghost before = draft@;
    if blob_oid_in_tree(head, path).is_some() {
        draft.edit(TreeEdit::Remove { path: path.to_owned() });
        draft.change(FileChange::Deleted { path: path.to_owned() });
    }
    assert(draft@.0 =~= before.0 + drop_step(views(head@), path@).0);
    assert(draft@.1 =~= before.1 + drop_step(views(head@), path@).1);
}

/// Adds what going back to one difference's outcome takes.
fn add_rollback_step(
    draft: &mut Draft,
    head: &[TreeEntry],
    target_tree: &[TreeEntry],
    blobs: &[Blob],
    delta: &DeltaRecord,
) -> (result: Result<(), AppError>)
    ensures
        added(
            old(draft)@,
            final(draft)@,
            result,
            rollback_step(views(head@), views(target_tree@), views(blobs@), delta@),
        ),
{
    let ghost before = draft@;
    assert(before.0 + Seq::<Edit>::empty() =~= before.0);
    assert(before.1 + Seq::<Change>::empty() =~= before.1);
    match delta.status {
        DeltaStatus::Added | DeltaStatus::Modified => match &delta.new_path {
            Some(path) => add_restore_step(
                draft,
                head,
                target_tree,
                blobs,
                path.as_str(),
                delta.new_oid.as_str(),
            ),
            None => Ok(()),
        },
        DeltaStatus::Deleted => {
            if let Some(path) = &delta.old_path {
                add_drop_step(draft, head, path.as_str());
            }
            Ok(())
        },
        DeltaStatus::Renamed => {
            if let Some(old_path) = &delta.old_path {
                if let Some(new_path) = &delta.new_path {
                    let old_in_head: bool = blob_oid_in_tree(head, old_path.as_str()).is_some();
                    let new_in_head: bool = blob_oid_in_tree(head, new_path.as_str()).is_some();
                    if old_in_head && !new_in_head {
                        let content: String = match blob_content_from_tree(
                            target_tree,
                            blobs,
                            new_path.as_str(),
                        ) {
                            Ok(content) => content,
                            Err(error) => {
                                return Err(error);
                            },
                        };
                        let ghost text = content@;
                        draft.edit(TreeEdit::Remove { path: old_path.clone() });
                        draft.edit(
                            TreeEdit::Link { path: new_path.clone(), oid: delta.new_oid.clone() },
                        );
                        draft.change(
                            FileChange::Moved {
                                from_path: old_path.clone(),
                                to_path: new_path.clone(),
                                content,
                            },
                        );
                        assert(draft@.0 =~= before.0 + seq![
                            Edit::Remove(old_path@),
                            Edit::Link(new_path@, delta.new_oid@),
                        ]);
                        assert(draft@.1 =~= before.1 + seq![
                            Change::Moved(old_path@, new_path@, text),
                        ]);
                    } else {
                        match add_restore_step(
                            draft,
                            head,
                            target_tree,
                            blobs,
                            new_path.as_str(),
                            delta.new_oid.as_str(),
                        ) {
                            Ok(()) => {},
                            Err(error) => {
                                return Err(error);
                            },
                        }
                        let ghost restored = restore_step(
                            views(head@),
                            views(target_tree@),
                            views(blobs@),
                            new_path@,
                            delta.new_oid@,
                        )->Ok_0;
                        let ghost dropped = drop_step(views(head@), old_path@);
                        add_drop_step(draft, head, old_path.as_str());
                        assert(draft@.0 =~= before.0 + (restored.0 + dropped.0));
                        assert(draft@.1 =~= before.1 + (restored.1 + dropped.1));
                    }
                }
            }
            Ok(())
        },
        DeltaStatus::Other => Ok(()),
    }
}

/// A target's message, or a word for one that is not text.
fn message_of(target: &TargetCommit) -> (result: &str)
    ensures
        result@ == target_message(*target),
{
    match &target.message {
        Some(message) => message.as_str(),
        None => "unknown",
    }
}

impl GitCommits {
    /// Plans the commit that undoes a commit's changes.
    pub fn revert_commit(
        sha: &str,
        target: Option<&TargetCommit>,
        parent_tree: &[TreeEntry],
        blobs: &[Blob],
        deltas: &[DeltaRecord],
        request: &CommitRequest,
    ) -> (result: Result<Option<CommitPlan>, AppError>)
        ensures
            plan_outcome(result) == revert_plan(
                sha@,
                match target {
                    Some(commit) => Some(*commit),
                    None => None,
                },
                views(parent_tree@),
                views(blobs@),
                views(deltas@),
                request@,
            ),
    {
        let commit: &TargetCommit = match target {
            Some(commit) => commit,
            None => {
                return Err(AppError::CommitNotFound { sha: sha.to_owned() });
            },
        };
        if !commit.has_parent {
            return Err(invalid_operation("cannot revert the initial commit"));
        }
        let ghost parent = views(parent_tree@);
        let ghost stored = views(blobs@);
        let ghost all = views(deltas@);
        let mut draft: Draft = Draft::new();
        let mut i: usize = 0;
        assert(all.take(0) =~= Seq::empty());
        while i < deltas.len()
            invariant
                i <= deltas.len(),
                target == Some(commit),
                commit.has_parent,
                parent == views(parent_tree@),
                stored == views(blobs@),
                all == views(deltas@),
                revert_steps(parent, stored, all.take(i as int)) == Ok::<_, Fault>(draft@),
            decreases deltas.len() - i,
        {
            assert(all.take(i + 1).drop_last() =~= all.take(i as int));
            assert(all.take(i + 1).last() == deltas@[i as int]@);
            match add_revert_step(&mut draft, parent_tree, blobs, &deltas[i]) {
                Ok(()) => {},
                Err(error) => {
                    proof {
                        lemma_revert_fault(parent, stored, all, i as int);
                    }
                    return Err(error);
                },
            }
            i = i + 1;
        }
        assert(all.take(i as int) =~= all);
        finish_plan(draft.edits, draft.changes, request, joined("revert: ", message_of(commit)))
    }

    /// Plans the commit that gives every file a commit touched the state it
    /// had at that commit.
    pub fn rollback_commit(
        sha: &str,
        target: Option<&TargetCommit>,
        head: &[TreeEntry],
        target_tree: &[TreeEntry],
        blobs: &[Blob],
        deltas: &[DeltaRecord],
        request: &CommitRequest,
    ) -> (result: Result<Option<CommitPlan>, AppError>)
        ensures
            plan_outcome(result) == rollback_plan(
                sha@,
                match target {
                    Some(commit) => Some(*commit),
                    None => None,
                },
                views(head@),
                views(target_tree@),
                views(blobs@),
                views(deltas@),
                request@,
            ),
    {
        let commit: &TargetCommit = match target {
            Some(commit) => commit,
            None => {
                return Err(AppError::CommitNotFound { sha: sha.to_owned() });
            },
        };
        let ghost current = views(head@);
        let ghost wanted = views(target_tree@);
        let ghost stored = views(blobs@);
        let ghost all = views(deltas@);
        let mut draft: Draft = Draft::new();
        let mut i: usize = 0;
        assert(all.take(0) =~= Seq::empty());
        while i < deltas.len()
            invariant
                i <= deltas.len(),
                target == Some(commit),
                current == views(head@),
                wanted == views(target_tree@),
                stored == views(blobs@),
                all == views(deltas@),
                rollback_steps(current, wanted, stored, all.take(i as int)) == Ok::<_, Fault>(
                    draft@,
                ),
            decreases deltas.len() - i,
        {
            assert(all.take(i + 1).drop_last() =~= all.take(i as int));
            assert(all.take(i + 1).last() == deltas@[i as int]@);
            match add_rollback_step(&mut draft, head, target_tree, blobs, &deltas[i]) {
                Ok(()) => {},
                Err(error) => {
                    proof {
                        lemma_rollback_fault(current, wanted, stored, all, i as int);
                    }
                    return Err(error);
                },
            }
            i = i + 1;
        }
        assert(all.take(i as int) =~= all);
        assert(draft@.1.len() == draft.changes.len());
        if draft.changes.len() == 0 {
            return Ok(None);
        }
        finish_plan(draft.edits, draft.changes, request, joined("rollback: ", message_of(commit)))
    }
}

proof fn lemma_revert_fault(
    parent_tree: Seq<Entry>,
    blobs: Seq<StoredBlob>,
    deltas: Seq<Delta>,
    faulty: int,
)
    requires
        0 <= faulty < deltas.len(),
        revert_steps(parent_tree, blobs, deltas.take(faulty + 1)) is Err,
    ensures
        revert_steps(parent_tree, blobs, deltas) == revert_steps(
            parent_tree,
            blobs,
            deltas.take(faulty + 1),
        ),
    decreases deltas.len(),
{
    if faulty + 1 == deltas.len() {
        assert(deltas.take(faulty + 1) =~= deltas);
    } else {
        assert(deltas.drop_last().take(faulty + 1) =~= deltas.take(faulty + 1));
        lemma_revert_fault(parent_tree, blobs, deltas.drop_last(), faulty);
    }
}

proof fn lemma_rollback_fault(
    head: Seq<Entry>,
    target_tree: Seq<Entry>,
    blobs: Seq<StoredBlob>,
    deltas: Seq<Delta>,
    faulty: int,
)
    requires
        0 <= faulty < deltas.len(),
        rollback_steps(head, target_tree, blobs, deltas.take(faulty + 1)) is Err,
    ensures
        rollback_steps(head, target_tree, blobs, deltas) == rollback_steps(
            head,
            target_tree,
            blobs,
            deltas.take(faulty + 1),
        ),
    decreases deltas.len(),
{
    if faulty + 1 == deltas.len() {
        assert(deltas.take(faulty + 1) =~= deltas);
    } else {
        assert(deltas.drop_last().take(faulty + 1) =~= deltas.take(faulty + 1));
        lemma_rollback_fault(head, target_tree, blobs, deltas.drop_last(), faulty);
    }
}

/// What the steps for one difference are after: the path they give a blob,
/// with that blob, the path that they leave without one, and the path that
/// they remove to that end, if it takes that.
#[verifier::ext_equal]
pub struct Aim {
    pub given: Option<Seq<char>>,
    pub blob: Seq<char>,
    pub gone: Option<Seq<char>>,
    pub removed: Option<Seq<char>>,
}

/// What going back to one difference's outcome is after. A path that the
/// current tree has no blob at is not removed.
pub open spec fn rollback_aim(head: Seq<Entry>, delta: Delta) -> Aim {
    let given = match delta.status {
        DeltaStatus::Added | DeltaStatus::Modified => delta.new_path,
        DeltaStatus::Renamed => if delta.old_path is Some {
            delta.new_path
        } else {
            None
        },
        _ => None,
    };
    let gone = match delta.status {
        DeltaStatus::Deleted => delta.old_path,
        DeltaStatus::Renamed => if delta.new_path is Some {
            delta.old_path
        } else {
            None
        },
        _ => None,
    };
    Aim {
        given,
        blob: delta.new_oid,
        gone,
        removed: match gone {
            Some(path) => if blob_at(head, path) is Some {
                Some(path)
            } else {
                None
            },
            None => None,
        },
    }
}

/// What undoing one difference is after.
pub open spec fn revert_aim(delta: Delta) -> Aim {
    let given = match delta.status {
        DeltaStatus::Deleted | DeltaStatus::Modified => delta.old_path,
        DeltaStatus::Renamed => if delta.new_path is Some {
            delta.old_path
        } else {
            None
        },
        _ => None,
    };
    let gone = match delta.status {
        DeltaStatus::Added => delta.new_path,
        DeltaStatus::Renamed => if delta.old_path is Some {
            delta.new_path
        } else {
            None
        },
        _ => None,
    };
    Aim {
        given,
        blob: delta.old_oid,
        gone,
        removed: gone,
    }
}

/// What going back to the outcome of each difference is after.
pub open spec fn rollback_aims(head: Seq<Entry>, deltas: Seq<Delta>) -> Seq<Aim> {
    deltas.map_values(|delta: Delta| rollback_aim(head, delta))
}

/// What undoing each difference is after.
pub open spec fn revert_aims(deltas: Seq<Delta>) -> Seq<Aim> {
    deltas.map_values(|delta: Delta| revert_aim(delta))
}

/// Whether two aims, the first of them reached before the second, can both be
/// met: a path that both give a blob gets the same one, a path that one gives
/// a blob is not to be gone for the other, and nothing that the first gave a
/// blob lies inside what the second removes.
pub open spec fn aims_agree(first: Aim, second: Aim) -> bool {
    &&& first.given is Some && second.given is Some && first.given->0 == second.given->0
        ==> first.blob == second.blob
    &&& first.given is Some && second.gone is Some ==> first.given->0 != second.gone->0
    &&& first.gone is Some && second.given is Some ==> first.gone->0 != second.given->0
    &&& first.given is Some && second.removed is Some ==> !is_inside(
        first.given->0,
        second.removed->0,
    )
}

/// Whether aims can be met in turn: each agrees with those that follow, and
/// none is to give a blob to the path that it leaves without one. Additions,
/// deletions and modifications of different files allow it where they are
/// listed by path, also if a file became a directory or a directory a file.
pub open spec fn can_be_met(aims: Seq<Aim>) -> bool {
    &&& forall|i: int, j: int|
        0 <= i < j < aims.len() ==> aims_agree(#[trigger] aims[i], #[trigger] aims[j])
    &&& forall|i: int|
        0 <= i < aims.len() && (#[trigger] aims[i]).given is Some && aims[i].gone is Some
            ==> aims[i].given->0 != aims[i].gone->0
}

/// Whether a tree holds no file inside a file.
pub open spec fn is_proper(tree: Seq<Entry>) -> bool {
    forall|outer: Seq<char>, inner: Seq<char>|
        blob_at(tree, outer) is Some && blob_at(tree, inner) is Some ==> !(#[trigger] is_inside(
            inner,
            outer,
        ))
}

/// Whether the steps towards an aim have nothing to do with a path.
pub open spec fn spares(aim: Aim, path: Seq<char>) -> bool {
    &&& aim.given is Some ==> aim.given->0 != path
    &&& aim.removed is Some ==> aim.removed->0 != path && !is_inside(path, aim.removed->0)
}

/// Whether the steps towards an aim leave a path that holds `held` with it.
spec fn respects(aim: Aim, path: Seq<char>, held: Option<Seq<char>>) -> bool {
    &&& aim.given is Some && aim.given->0 == path ==> held == Some(aim.blob)
    &&& aim.removed is Some && held is Some ==> aim.removed->0 != path && !is_inside(
        path,
        aim.removed->0,
    )
}

/// Whether an edit leaves a path that holds `held` with it.
spec fn keeps(edit: Edit, path: Seq<char>, held: Option<Seq<char>>) -> bool {
    match edit {
        Edit::Remove(dropped) => path == dropped || is_inside(path, dropped) ==> held is None,
        Edit::Link(linked, oid) => path == linked ==> held == Some(oid),
        Edit::Write(written, _) => path != written,
    }
}

spec fn all_keep(edits: Seq<Edit>, path: Seq<char>, held: Option<Seq<char>>) -> bool {
    forall|i: int| 0 <= i < edits.len() ==> keeps(#[trigger] edits[i], path, held)
}

proof fn lemma_edits_keep(
    tree: Seq<Entry>,
    first: Seq<Edit>,
    second: Seq<Edit>,
    path: Seq<char>,
    held: Option<Seq<char>>,
)
    requires
        blob_after(tree, first, path) == held,
        all_keep(second, path, held),
    ensures
        blob_after(tree, first + second, path) == held,
    decreases second.len(),
{
    if second.len() == 0 {
        assert(first + second =~= first);
    } else {
        assert((first + second).drop_last() =~= first + second.drop_last());
        assert((first + second).last() == second.last());
        assert(all_keep(second.drop_last(), path, held));
        lemma_edits_keep(tree, first, second.drop_last(), path, held);
        assert(keeps(second[second.len() - 1], path, held));
    }
}

proof fn lemma_rollback_step_keeps(
    head: Seq<Entry>,
    target_tree: Seq<Entry>,
    blobs: Seq<StoredBlob>,
    delta: Delta,
    path: Seq<char>,
    held: Option<Seq<char>>,
)
    requires
        rollback_step(head, target_tree, blobs, delta) is Ok,
        respects(rollback_aim(head, delta), path, held),
    ensures
        all_keep(rollback_step(head, target_tree, blobs, delta)->Ok_0.0, path, held),
{
}

proof fn lemma_rollback_keeps(
    head: Seq<Entry>,
    target_tree: Seq<Entry>,
    blobs: Seq<StoredBlob>,
    deltas: Seq<Delta>,
    path: Seq<char>,
)
    requires
        rollback_steps(head, target_tree, blobs, deltas) is Ok,
        forall|i: int|
            0 <= i < deltas.len() ==> respects(
                rollback_aim(head, #[trigger] deltas[i]),
                path,
                blob_at(head, path),
            ),
    ensures
        blob_after(head, rollback_steps(head, target_tree, blobs, deltas)->Ok_0.0, path)
            == blob_at(head, path),
    decreases deltas.len(),
{
    if deltas.len() > 0 {
        let init = deltas.drop_last();
        let held = blob_at(head, path);
        assert forall|i: int| 0 <= i < init.len() implies respects(
            rollback_aim(head, #[trigger] init[i]),
            path,
            held,
        ) by {
            assert(init[i] == deltas[i]);
        }
        lemma_rollback_keeps(head, target_tree, blobs, init, path);
        assert(respects(rollback_aim(head, deltas[deltas.len() - 1]), path, held));
        lemma_rollback_step_keeps(head, target_tree, blobs, deltas.last(), path, held);
        lemma_edits_keep(
            head,
            rollback_steps(head, target_tree, blobs, init)->Ok_0.0,
            rollback_step(head, target_tree, blobs, deltas.last())->Ok_0.0,
            path,
            held,
        );
    }
}

/// A rollback leaves every path alone that the commit was not about.
pub proof fn law_rollback_is_local(
    head: Seq<Entry>,
    target_tree: Seq<Entry>,
    blobs: Seq<StoredBlob>,
    deltas: Seq<Delta>,
    path: Seq<char>,
)
    requires
        rollback_steps(head, target_tree, blobs, deltas) is Ok,
        forall|i: int|
            0 <= i < deltas.len() ==> spares(rollback_aim(head, #[trigger] deltas[i]), path),
    ensures
        blob_after(head, rollback_steps(head, target_tree, blobs, deltas)->Ok_0.0, path)
            == blob_at(head, path),
{
    lemma_rollback_keeps(head, target_tree, blobs, deltas, path);
}

/// Whether, after the edits, the paths of a difference hold what the commit
/// left there.
pub open spec fn holds_outcome(head: Seq<Entry>, edits: Seq<Edit>, delta: Delta) -> bool {
    match delta.status {
        DeltaStatus::Added | DeltaStatus::Modified => delta.new_path matches Some(path)
            ==> blob_after(head, edits, path) == Some(delta.new_oid),
        DeltaStatus::Deleted => delta.old_path matches Some(path) ==> blob_after(
            head,
            edits,
            path,
        ) is None,
        DeltaStatus::Renamed => delta.old_path is Some && delta.new_path is Some ==> blob_after(
            head,
            edits,
            delta.new_path->0,
        ) == Some(delta.new_oid) && blob_after(head, edits, delta.old_path->0) is None,
        DeltaStatus::Other => true,
    }
}

proof fn lemma_rollback_step_restores(
    head: Seq<Entry>,
    target_tree: Seq<Entry>,
    blobs: Seq<StoredBlob>,
    first: Seq<Edit>,
    delta: Delta,
)
    requires
        is_proper(head),
        rollback_step(head, target_tree, blobs, delta) is Ok,
        can_be_met(seq![rollback_aim(head, delta)]),
        rollback_aim(head, delta).given matches Some(path) ==> blob_at(head, path) == Some(
            delta.new_oid,
        ) ==> blob_after(head, first, path) == Some(delta.new_oid),
        rollback_aim(head, delta).gone matches Some(path) ==> blob_at(head, path) is None
            ==> blob_after(head, first, path) is None,
    ensures
        holds_outcome(
            head,
            first + rollback_step(head, target_tree, blobs, delta)->Ok_0.0,
            delta,
        ),
{
    reveal_with_fuel(blob_after, 3);
    let second = rollback_step(head, target_tree, blobs, delta)->Ok_0.0;
    let edits = first + second;
    assert(seq![rollback_aim(head, delta)][0] == rollback_aim(head, delta));
    if delta.old_path is Some && delta.new_path is Some {
        assert(blob_at(head, delta.old_path->0) is Some && blob_at(head, delta.new_path->0) is Some
            ==> !is_inside(delta.new_path->0, delta.old_path->0));
    }
    if second.len() == 0 {
        assert(edits =~= first);
    } else if second.len() == 1 {
        assert(edits =~= first.push(second[0]));
        assert(edits.drop_last() =~= first);
    } else {
        assert(second.len() == 2);
        assert(edits =~= first.push(second[0]).push(second[1]));
        assert(edits.last() == second[1]);
        assert(edits.drop_last() =~= first.push(second[0]));
        assert(edits.drop_last().last() == second[0]);
        assert(first.push(second[0]).drop_last() =~= first);
    }
}

proof fn lemma_can_be_met_prefix(aims: Seq<Aim>)
    requires
        can_be_met(aims),
        aims.len() > 0,
    ensures
        can_be_met(aims.drop_last()),
        can_be_met(seq![aims.last()]),
{
    assert forall|i: int, j: int| 0 <= i < j < aims.drop_last().len() implies aims_agree(
        #[trigger] aims.drop_last()[i],
        #[trigger] aims.drop_last()[j],
    ) by {
        assert(aims_agree(aims[i], aims[j]));
    }
    assert(aims[aims.len() - 1] == aims.last());
}

/// A rollback gives every file that the commit was about the state it had
/// there: its blob, or none.
pub proof fn law_rollback_restores(
    head: Seq<Entry>,
    target_tree: Seq<Entry>,
    blobs: Seq<StoredBlob>,
    deltas: Seq<Delta>,
)
    requires
        is_proper(head),
        rollback_steps(head, target_tree, blobs, deltas) is Ok,
        can_be_met(rollback_aims(head, deltas)),
    ensures
        forall|i: int|
            0 <= i < deltas.len() ==> holds_outcome(
                head,
                rollback_steps(head, target_tree, blobs, deltas)->Ok_0.0,
                #[trigger] deltas[i],
            ),
    decreases deltas.len(),
{
    if deltas.len() > 0 {
        let init = deltas.drop_last();
        let last = deltas.last();
        let aims = rollback_aims(head, deltas);
        let aim = rollback_aim(head, last);
        assert(rollback_aims(head, init) =~= aims.drop_last());
        assert(aims.last() == aim);
        lemma_can_be_met_prefix(aims);
        law_rollback_restores(head, target_tree, blobs, init);
        let first = rollback_steps(head, target_tree, blobs, init)->Ok_0.0;
        let second = rollback_step(head, target_tree, blobs, last)->Ok_0.0;
        if aim.given is Some && blob_at(head, aim.given->0) == Some(aim.blob) {
            let path = aim.given->0;
            assert forall|i: int| 0 <= i < init.len() implies respects(
                rollback_aim(head, #[trigger] init[i]),
                path,
                blob_at(head, path),
            ) by {
                assert(init[i] == deltas[i]);
                assert(aims_agree(aims[i], aims[aims.len() - 1]));
                if aims[i].removed is Some {
                    assert(!is_inside(path, aims[i].removed->0));
                }
            }
            lemma_rollback_keeps(head, target_tree, blobs, init, path);
        }
        if aim.gone is Some && blob_at(head, aim.gone->0) is None {
            let path = aim.gone->0;
            assert forall|i: int| 0 <= i < init.len() implies respects(
                rollback_aim(head, #[trigger] init[i]),
                path,
                blob_at(head, path),
            ) by {
                assert(init[i] == deltas[i]);
                assert(aims_agree(aims[i], aims[aims.len() - 1]));
            }
            lemma_rollback_keeps(head, target_tree, blobs, init, path);
        }
        lemma_rollback_step_restores(head, target_tree, blobs, first, last);
        assert forall|i: int| 0 <= i < deltas.len() implies holds_outcome(
            head,
            rollback_steps(head, target_tree, blobs, deltas)->Ok_0.0,
            #[trigger] deltas[i],
        ) by {
            if i < init.len() {
                assert(init[i] == deltas[i]);
                assert(holds_outcome(head, first, init[i]));
                let earlier = rollback_aim(head, deltas[i]);
                assert(aims[i] == earlier);
                assert(aims_agree(aims[i], aims[aims.len() - 1]));
                if earlier.given is Some {
                    let path = earlier.given->0;
                    let oid = earlier.blob;
                    lemma_rollback_step_keeps(head, target_tree, blobs, last, path, Some(oid));
                    lemma_edits_keep(head, first, second, path, Some(oid));
                }
                if earlier.gone is Some {
                    let path = earlier.gone->0;
                    lemma_rollback_step_keeps(head, target_tree, blobs, last, path, None);
                    lemma_edits_keep(head, first, second, path, None);
                }
            }
        }
    }
}

/// Rolling back to the same commit again changes nothing: a tree that holds
/// what the rollback left needs no steps, so no commit is planned.
pub proof fn law_rollback_settles(
    sha: Seq<char>,
    commit: TargetCommit,
    head: Seq<Entry>,
    target_tree: Seq<Entry>,
    blobs: Seq<StoredBlob>,
    deltas: Seq<Delta>,
    settled: Seq<Entry>,
    request: Request,
)
    requires
        is_proper(head),
        rollback_steps(head, target_tree, blobs, deltas) is Ok,
        can_be_met(rollback_aims(head, deltas)),
        forall|path: Seq<char>| #[trigger]
            blob_at(settled, path) == blob_after(
                head,
                rollback_steps(head, target_tree, blobs, deltas)->Ok_0.0,
                path,
            ),
    ensures
        rollback_steps(settled, target_tree, blobs, deltas) == Ok::<_, Fault>(no_steps()),
        rollback_plan(sha, Some(commit), settled, target_tree, blobs, deltas, request) == Ok::<
            Option<Plan>,
            Fault,
        >(None),
{
    law_rollback_restores(head, target_tree, blobs, deltas);
    let edits = rollback_steps(head, target_tree, blobs, deltas)->Ok_0.0;
    assert forall|i: int| 0 <= i < deltas.len() implies rollback_step(
        settled,
        target_tree,
        blobs,
        #[trigger] deltas[i],
    ) == Ok::<_, Fault>(no_steps()) by {
        let delta = deltas[i];
        assert(holds_outcome(head, edits, delta));
        if delta.old_path is Some {
            assert(blob_at(settled, delta.old_path->0) == blob_after(
                head,
                edits,
                delta.old_path->0,
            ));
        }
        if delta.new_path is Some {
            assert(blob_at(settled, delta.new_path->0) == blob_after(
                head,
                edits,
                delta.new_path->0,
            ));
        }
        assert(Seq::<Edit>::empty() + Seq::<Edit>::empty() =~= Seq::<Edit>::empty());
        assert(Seq::<Change>::empty() + Seq::<Change>::empty() =~= Seq::<Change>::empty());
    }
    lemma_no_rollback_steps(settled, target_tree, blobs, deltas);
}

proof fn lemma_no_rollback_steps(
    head: Seq<Entry>,
    target_tree: Seq<Entry>,
    blobs: Seq<StoredBlob>,
    deltas: Seq<Delta>,
)
    requires
        forall|i: int|
            0 <= i < deltas.len() ==> rollback_step(head, target_tree, blobs, #[trigger] deltas[i])
                == Ok::<_, Fault>(no_steps()),
    ensures
        rollback_steps(head, target_tree, blobs, deltas) == Ok::<_, Fault>(no_steps()),
    decreases deltas.len(),
{
    if deltas.len() > 0 {
        assert forall|i: int| 0 <= i < deltas.drop_last().len() implies rollback_step(
            head,
            target_tree,
            blobs,
            #[trigger] deltas.drop_last()[i],
        ) == Ok::<_, Fault>(no_steps()) by {
            assert(deltas.drop_last()[i] == deltas[i]);
        }
        lemma_no_rollback_steps(head, target_tree, blobs, deltas.drop_last());
        assert(deltas[deltas.len() - 1] == deltas.last());
        assert(Seq::<Edit>::empty() + Seq::<Edit>::empty() =~= Seq::<Edit>::empty());
        assert(Seq::<Change>::empty() + Seq::<Change>::empty() =~= Seq::<Change>::empty());
    }
}

/// Whether, after the edits, the paths of a difference hold what the commit's
/// parent had there.
pub open spec fn holds_origin(head: Seq<Entry>, edits: Seq<Edit>, delta: Delta) -> bool {
    match delta.status {
        DeltaStatus::Added => delta.new_path matches Some(path) ==> blob_after(
            head,
            edits,
            path,
        ) is None,
        DeltaStatus::Deleted | DeltaStatus::Modified => delta.old_path matches Some(path)
            ==> blob_after(head, edits, path) == Some(delta.old_oid),
        DeltaStatus::Renamed => delta.old_path is Some && delta.new_path is Some ==> blob_after(
            head,
            edits,
            delta.old_path->0,
        ) == Some(delta.old_oid) && blob_after(head, edits, delta.new_path->0) is None,
        DeltaStatus::Other => true,
    }
}

proof fn lemma_revert_step_keeps(
    parent_tree: Seq<Entry>,
    blobs: Seq<StoredBlob>,
    delta: Delta,
    path: Seq<char>,
    held: Option<Seq<char>>,
)
    requires
        revert_step(parent_tree, blobs, delta) is Ok,
        respects(revert_aim(delta), path, held),
    ensures
        all_keep(revert_step(parent_tree, blobs, delta)->Ok_0.0, path, held),
{
}

/// A revert leaves every path alone that the commit was not about.
pub proof fn law_revert_is_local(
    head: Seq<Entry>,
    parent_tree: Seq<Entry>,
    blobs: Seq<StoredBlob>,
    deltas: Seq<Delta>,
    path: Seq<char>,
)
    requires
        revert_steps(parent_tree, blobs, deltas) is Ok,
        forall|i: int| 0 <= i < deltas.len() ==> spares(revert_aim(#[trigger] deltas[i]), path),
    ensures
        blob_after(head, revert_steps(parent_tree, blobs, deltas)->Ok_0.0, path) == blob_at(
            head,
            path,
        ),
    decreases deltas.len(),
{
    if deltas.len() > 0 {
        let init = deltas.drop_last();
        let held = blob_at(head, path);
        assert forall|i: int| 0 <= i < init.len() implies spares(
            revert_aim(#[trigger] init[i]),
            path,
        ) by {
            assert(init[i] == deltas[i]);
        }
        law_revert_is_local(head, parent_tree, blobs, init, path);
        assert(spares(revert_aim(deltas[deltas.len() - 1]), path));
        lemma_revert_step_keeps(parent_tree, blobs, deltas.last(), path, held);
        lemma_edits_keep(
            head,
            revert_steps(parent_tree, blobs, init)->Ok_0.0,
            revert_step(parent_tree, blobs, deltas.last())->Ok_0.0,
            path,
            held,
        );
    }
}

proof fn lemma_revert_step_undoes(
    head: Seq<Entry>,
    parent_tree: Seq<Entry>,
    blobs: Seq<StoredBlob>,
    first: Seq<Edit>,
    delta: Delta,
)
    requires
        revert_step(parent_tree, blobs, delta) is Ok,
        can_be_met(seq![revert_aim(delta)]),
    ensures
        holds_origin(head, first + revert_step(parent_tree, blobs, delta)->Ok_0.0, delta),
{
    reveal_with_fuel(blob_after, 3);
    let second = revert_step(parent_tree, blobs, delta)->Ok_0.0;
    let edits = first + second;
    assert(seq![revert_aim(delta)][0] == revert_aim(delta));
    if second.len() == 1 {
        assert(edits =~= first.push(second[0]));
        assert(edits.drop_last() =~= first);
    } else if second.len() == 2 {
        assert(edits =~= first.push(second[0]).push(second[1]));
        assert(edits.last() == second[1]);
        assert(edits.drop_last() =~= first.push(second[0]));
        assert(edits.drop_last().last() == second[0]);
        assert(first.push(second[0]).drop_last() =~= first);
    }
}

/// A revert gives every file that the commit was about the state it had in
/// the commit's parent, whatever the current tree holds.
pub proof fn law_revert_undoes(
    head: Seq<Entry>,
    parent_tree: Seq<Entry>,
    blobs: Seq<StoredBlob>,
    deltas: Seq<Delta>,
)
    requires
        revert_steps(parent_tree, blobs, deltas) is Ok,
        can_be_met(revert_aims(deltas)),
    ensures
        forall|i: int|
            0 <= i < deltas.len() ==> holds_origin(
                head,
                revert_steps(parent_tree, blobs, deltas)->Ok_0.0,
                #[trigger] deltas[i],
            ),
    decreases deltas.len(),
{
    if deltas.len() > 0 {
        let init = deltas.drop_last();
        let last = deltas.last();
        let aims = revert_aims(deltas);
        assert(revert_aims(init) =~= aims.drop_last());
        assert(aims.last() == revert_aim(last));
        lemma_can_be_met_prefix(aims);
        law_revert_undoes(head, parent_tree, blobs, init);
        let first = revert_steps(parent_tree, blobs, init)->Ok_0.0;
        let second = revert_step(parent_tree, blobs, last)->Ok_0.0;
        lemma_revert_step_undoes(head, parent_tree, blobs, first, last);
        assert forall|i: int| 0 <= i < deltas.len() implies holds_origin(
            head,
            revert_steps(parent_tree, blobs, deltas)->Ok_0.0,
            #[trigger] deltas[i],
        ) by {
            if i < init.len() {
                assert(init[i] == deltas[i]);
                assert(holds_origin(head, first, init[i]));
                let earlier = revert_aim(deltas[i]);
                assert(aims[i] == earlier);
                assert(aims_agree(aims[i], aims[aims.len() - 1]));
                if earlier.given is Some {
                    let path = earlier.given->0;
                    let oid = earlier.blob;
                    lemma_revert_step_keeps(parent_tree, blobs, last, path, Some(oid));
                    lemma_edits_keep(head, first, second, path, Some(oid));
                }
                if earlier.gone is Some {
                    let path = earlier.gone->0;
                    lemma_revert_step_keeps(parent_tree, blobs, last, path, None);
                    lemma_edits_keep(head, first, second, path, None);
                }
            }
        }
    }
}

} // verus!
