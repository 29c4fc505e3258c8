//! What rolling back to a commit and undoing one come to.
use vstd::prelude::*;
use crate::error::Fault;
use crate::git::history::{
    chained, no_steps, revert_plan, revert_step, revert_steps, rollback_plan, rollback_step,
    rollback_steps, Delta, DeltaStatus, Steps, TargetCommit,
};
use crate::git::model::{blob_at, file_text, Change, Edit, Entry, Plan, Request, StoredBlob};
use crate::laws::trees::{is_absent, law_text_is_what_bytes_spell, reads_as};
use crate::text::is_blank;

verus! {

/// Whether a difference leaves a blob at a path.
pub open spec fn leaves_blob(delta: Delta, path: Seq<char>) -> bool {
    delta.new_path == Some(path) && (delta.status == DeltaStatus::Added || delta.status
        == DeltaStatus::Modified || (delta.status == DeltaStatus::Renamed && delta.old_path is Some))
}

/// Whether a difference found a blob at a path.
pub open spec fn found_blob(delta: Delta, path: Seq<char>) -> bool {
    delta.old_path == Some(path) && (delta.status == DeltaStatus::Deleted || delta.status
        == DeltaStatus::Modified || (delta.status == DeltaStatus::Renamed && delta.new_path is Some))
}

/// Whether a path of a tree can be read as text.
pub open spec fn is_readable(tree: Seq<Entry>, blobs: Seq<StoredBlob>, path: Seq<char>) -> bool {
    exists|text: Seq<char>| reads_as(tree, blobs, path, text)
}

proof fn lemma_readable(tree: Seq<Entry>, blobs: Seq<StoredBlob>, path: Seq<char>)
    ensures
        is_readable(tree, blobs, path) <==> file_text(tree, blobs, path) is Ok,
{
    if let Ok(text) = file_text(tree, blobs, path) {
        law_text_is_what_bytes_spell(tree, blobs, path, text);
    }
    if is_readable(tree, blobs, path) {
        let text = choose|text: Seq<char>| reads_as(tree, blobs, path, text);
        law_text_is_what_bytes_spell(tree, blobs, path, text);
    }
}

/// A rollback of one difference succeeds exactly if each path that it leaves a
/// blob at has that blob already or can be read as the commit had it.
pub proof fn law_rollback_of_one_succeeds(
    head: Seq<Entry>,
    then: Seq<Entry>,
    blobs: Seq<StoredBlob>,
    delta: Delta,
)
    ensures
        rollback_step(head, then, blobs, delta) is Ok <==> forall|path: Seq<char>| #[trigger]
            leaves_blob(delta, path) ==> blob_at(head, path) == Some(delta.new_oid) || is_readable(
                then,
                blobs,
                path,
            ),
{
    let step = rollback_step(head, then, blobs, delta);
    if let Some(path) = delta.new_path {
        lemma_readable(then, blobs, path);
        let fits = blob_at(head, path) == Some(delta.new_oid) || is_readable(then, blobs, path);
        assert(step is Ok <==> (leaves_blob(delta, path) ==> fits));
    }
    assert forall|path: Seq<char>| step is Ok && #[trigger] leaves_blob(delta, path) implies blob_at(
        head,
        path,
    ) == Some(delta.new_oid) || is_readable(then, blobs, path) by {}
}

/// A rollback succeeds exactly if each path that its differences leave a blob
/// at has that blob already or can be read as the commit had it. What became of
/// a file since does not matter: one that was deleted comes back.
pub proof fn law_rollback_succeeds(
    head: Seq<Entry>,
    then: Seq<Entry>,
    blobs: Seq<StoredBlob>,
    deltas: Seq<Delta>,
)
    ensures
        rollback_steps(head, then, blobs, deltas) is Ok <==> forall|i: int, path: Seq<char>|
            0 <= i < deltas.len() && #[trigger] leaves_blob(deltas[i], path) ==> blob_at(head, path)
                == Some(deltas[i].new_oid) || is_readable(then, blobs, path),
    decreases deltas.len(),
{
    if deltas.len() > 0 {
        let init = deltas.drop_last();
        let last = deltas.last();
        law_rollback_succeeds(head, then, blobs, init);
        law_rollback_of_one_succeeds(head, then, blobs, last);
        if rollback_steps(head, then, blobs, deltas) is Ok {
            assert forall|i: int, path: Seq<char>|
                0 <= i < deltas.len() && #[trigger] leaves_blob(deltas[i], path) implies blob_at(
                head,
                path,
            ) == Some(deltas[i].new_oid) || is_readable(then, blobs, path) by {
                if i < init.len() {
                    assert(leaves_blob(init[i], path));
                } else {
                    assert(leaves_blob(last, path));
                }
            }
        }
        if forall|i: int, path: Seq<char>|
            0 <= i < deltas.len() && #[trigger] leaves_blob(deltas[i], path) ==> blob_at(head, path)
                == Some(deltas[i].new_oid) || is_readable(then, blobs, path) {
            assert forall|i: int, path: Seq<char>|
                0 <= i < init.len() && #[trigger] leaves_blob(init[i], path) implies blob_at(
                head,
                path,
            ) == Some(init[i].new_oid) || is_readable(then, blobs, path) by {
                assert(leaves_blob(deltas[i], path));
            }
            assert forall|path: Seq<char>| #[trigger] leaves_blob(last, path) implies blob_at(
                head,
                path,
            ) == Some(last.new_oid) || is_readable(then, blobs, path) by {
                assert(leaves_blob(deltas[deltas.len() - 1], path));
            }
        }
    }
}

/// A file that a commit added or modified is rolled back by one edit: it gets
/// the blob it had, and is announced as created if there is none now and as
/// updated if there is another, with the text that it had. Nothing is done to
/// one that is as it was.
pub proof fn law_rollback_brings_a_file_back(
    head: Seq<Entry>,
    then: Seq<Entry>,
    blobs: Seq<StoredBlob>,
    delta: Delta,
    path: Seq<char>,
    text: Seq<char>,
)
    requires
        delta.status == DeltaStatus::Added || delta.status == DeltaStatus::Modified,
        delta.new_path == Some(path),
    ensures
        blob_at(head, path) == Some(delta.new_oid) ==> rollback_step(head, then, blobs, delta)
            == Ok::<Steps, Fault>((seq![], seq![])),
        blob_at(head, path) is None && reads_as(then, blobs, path, text) ==> rollback_step(
            head,
            then,
            blobs,
            delta,
        ) == Ok::<Steps, Fault>(
            (seq![Edit::Link(path, delta.new_oid)], seq![Change::Created(path, text)]),
        ),
        blob_at(head, path) is Some && blob_at(head, path) != Some(delta.new_oid) && reads_as(
            then,
            blobs,
            path,
            text,
        ) ==> rollback_step(head, then, blobs, delta) == Ok::<Steps, Fault>(
            (seq![Edit::Link(path, delta.new_oid)], seq![Change::Updated(path, text)]),
        ),
        blob_at(head, path) != Some(delta.new_oid) && is_absent(then, path) ==> rollback_step(
            head,
            then,
            blobs,
            delta,
        ) == Err::<Steps, Fault>(Fault::FileNotFound(path)),
{
    law_text_is_what_bytes_spell(then, blobs, path, text);
}

/// A file that a commit deleted is removed again, and announced as deleted, if
/// there is one now; else nothing is done.
pub proof fn law_rollback_takes_a_file_away(
    head: Seq<Entry>,
    then: Seq<Entry>,
    blobs: Seq<StoredBlob>,
    delta: Delta,
    path: Seq<char>,
)
    requires
        delta.status == DeltaStatus::Deleted,
        delta.old_path == Some(path),
    ensures
        blob_at(head, path) is None ==> rollback_step(head, then, blobs, delta) == Ok::<
            Steps,
            Fault,
        >((seq![], seq![])),
        blob_at(head, path) is Some ==> rollback_step(head, then, blobs, delta) == Ok::<
            Steps,
            Fault,
        >((seq![Edit::Remove(path)], seq![Change::Deleted(path)])),
{
}

/// A file that a commit renamed is moved again, and announced as moved, if it
/// has its old name only. Else each of the two names is seen to by itself: the
/// new one gets the blob it had, unless it has it, and then the old one is
/// removed, if there is something there.
pub proof fn law_rollback_moves_a_file(
    head: Seq<Entry>,
    then: Seq<Entry>,
    blobs: Seq<StoredBlob>,
    delta: Delta,
    from: Seq<char>,
    to: Seq<char>,
    text: Seq<char>,
)
    requires
        delta.status == DeltaStatus::Renamed,
        delta.old_path == Some(from),
        delta.new_path == Some(to),
        reads_as(then, blobs, to, text),
    ensures
        ({
            let at_from = blob_at(head, from);
            let at_to = blob_at(head, to);
            let oid = delta.new_oid;
            let step = rollback_step(head, then, blobs, delta);
            &&& at_from is Some && at_to is None ==> step == Ok::<Steps, Fault>(
                (
                    seq![Edit::Remove(from), Edit::Link(to, oid)],
                    seq![Change::Moved(from, to, text)],
                ),
            )
            &&& at_from is None && at_to is None ==> step == Ok::<Steps, Fault>(
                (seq![Edit::Link(to, oid)], seq![Change::Created(to, text)]),
            )
            &&& at_from is None && at_to is Some && at_to != Some(oid) ==> step == Ok::<
                Steps,
                Fault,
            >((seq![Edit::Link(to, oid)], seq![Change::Updated(to, text)]))
            &&& at_from is Some && at_to is Some && at_to != Some(oid) ==> step == Ok::<
                Steps,
                Fault,
            >(
                (
                    seq![Edit::Link(to, oid), Edit::Remove(from)],
                    seq![Change::Updated(to, text), Change::Deleted(from)],
                ),
            )
            &&& at_from is Some && at_to == Some(oid) ==> step == Ok::<Steps, Fault>(
                (seq![Edit::Remove(from)], seq![Change::Deleted(from)]),
            )
            &&& at_from is None && at_to == Some(oid) ==> step == Ok::<Steps, Fault>(
                (seq![], seq![]),
            )
        }),
{
    law_text_is_what_bytes_spell(then, blobs, to, text);
    let none_edits = Seq::<Edit>::empty();
    let none_changes = Seq::<Change>::empty();
    let link = seq![Edit::Link(to, delta.new_oid)];
    let drop = seq![Edit::Remove(from)];
    let gone = seq![Change::Deleted(from)];
    assert(none_edits + none_edits =~= none_edits);
    assert(none_changes + none_changes =~= none_changes);
    assert(link + none_edits =~= link);
    assert(none_edits + drop =~= drop);
    assert(none_changes + gone =~= gone);
    assert(seq![Change::Created(to, text)] + none_changes =~= seq![Change::Created(to, text)]);
    assert(seq![Change::Updated(to, text)] + none_changes =~= seq![Change::Updated(to, text)]);
    assert(link + drop =~= seq![Edit::Link(to, delta.new_oid), Edit::Remove(from)]);
    assert(seq![Change::Updated(to, text)] + gone =~= seq![
        Change::Updated(to, text),
        Change::Deleted(from),
    ]);
}

/// Differences are rolled back one after the other, in their order: those of
/// two lists by the steps of the first and then of the second, one by its own,
/// none by none. The first that fails decides.
pub proof fn law_rollback_goes_in_turn(
    head: Seq<Entry>,
    then: Seq<Entry>,
    blobs: Seq<StoredBlob>,
    first: Seq<Delta>,
    second: Seq<Delta>,
    delta: Delta,
)
    ensures
        rollback_steps(head, then, blobs, seq![]) == Ok::<Steps, Fault>((seq![], seq![])),
        rollback_steps(head, then, blobs, seq![delta]) == rollback_step(head, then, blobs, delta),
        match rollback_steps(head, then, blobs, first) {
            Err(fault) => rollback_steps(head, then, blobs, first + second) == Err::<Steps, Fault>(
                fault,
            ),
            Ok((edits, changes)) => match rollback_steps(head, then, blobs, second) {
                Err(fault) => rollback_steps(head, then, blobs, first + second) == Err::<
                    Steps,
                    Fault,
                >(fault),
                Ok((more_edits, more_changes)) => rollback_steps(head, then, blobs, first + second)
                    == Ok::<Steps, Fault>((edits + more_edits, changes + more_changes)),
            },
        },
    decreases second.len(),
{
    reveal_with_fuel(rollback_steps, 2);
    assert(seq![delta].drop_last() =~= Seq::<Delta>::empty());
    lemma_nothing_before(rollback_step(head, then, blobs, delta));
    if second.len() == 0 {
        assert(first + second =~= first);
        lemma_nothing_after(rollback_steps(head, then, blobs, first));
    } else {
        assert((first + second).drop_last() =~= first + second.drop_last());
        law_rollback_goes_in_turn(head, then, blobs, first, second.drop_last(), delta);
        if let (Ok((edits, changes)), Ok((more, others)), Ok((last, end))) = (
            rollback_steps(head, then, blobs, first),
            rollback_steps(head, then, blobs, second.drop_last()),
            rollback_step(head, then, blobs, second.last()),
        ) {
            assert(edits + more + last =~= edits + (more + last));
            assert(changes + others + end =~= changes + (others + end));
        }
    }
}

proof fn lemma_nothing_before(step: Result<Steps, Fault>)
    ensures
        chained(Ok(no_steps()), step) == step,
{
    if let Ok((edits, changes)) = step {
        assert(Seq::<Edit>::empty() + edits =~= edits);
        assert(Seq::<Change>::empty() + changes =~= changes);
    }
}

proof fn lemma_nothing_after(step: Result<Steps, Fault>)
    ensures
        step matches Ok((edits, changes)) ==> edits + Seq::<Edit>::empty() == edits && changes
            + Seq::<Change>::empty() == changes,
{
    if let Ok((edits, changes)) = step {
        assert(edits + Seq::<Edit>::empty() =~= edits);
        assert(changes + Seq::<Change>::empty() =~= changes);
    }
}

/// A rollback is of a commit that exists; it makes one commit of all its steps,
/// or none if it changes nothing.
pub proof fn law_rollback_is_one_commit(
    sha: Seq<char>,
    commit: TargetCommit,
    head: Seq<Entry>,
    then: Seq<Entry>,
    blobs: Seq<StoredBlob>,
    deltas: Seq<Delta>,
    request: Request,
)
    requires
        !is_blank(request.author_name),
        !is_blank(request.author_email),
    ensures
        rollback_plan(sha, None, head, then, blobs, deltas, request) == Err::<Option<Plan>, Fault>(
            Fault::CommitNotFound(sha),
        ),
        match rollback_steps(head, then, blobs, deltas) {
            Err(fault) => rollback_plan(sha, Some(commit), head, then, blobs, deltas, request)
                == Err::<Option<Plan>, Fault>(fault),
            Ok((edits, changes)) => match rollback_plan(
                sha,
                Some(commit),
                head,
                then,
                blobs,
                deltas,
                request,
            ) {
                Err(_) => false,
                Ok(None) => changes.len() == 0,
                Ok(Some(plan)) => {
                    &&& changes.len() > 0
                    &&& plan.edits == edits
                    &&& plan.changes == changes
                    &&& plan.message == match request.message {
                        Some(asked) => asked,
                        None => "rollback: "@ + match commit.message {
                            Some(message) => message@,
                            None => "unknown"@,
                        },
                    }
                },
            },
        },
{
}

/// Undoing one difference succeeds exactly if each path that it found a blob at
/// can be read as it was before.
pub proof fn law_revert_of_one_succeeds(
    before: Seq<Entry>,
    blobs: Seq<StoredBlob>,
    delta: Delta,
)
    ensures
        revert_step(before, blobs, delta) is Ok <==> forall|path: Seq<char>| #[trigger]
            found_blob(delta, path) ==> is_readable(before, blobs, path),
{
    let step = revert_step(before, blobs, delta);
    if let Some(path) = delta.old_path {
        lemma_readable(before, blobs, path);
        assert(step is Ok <==> (found_blob(delta, path) ==> is_readable(before, blobs, path)));
    }
    assert forall|path: Seq<char>| step is Ok && #[trigger] found_blob(delta, path) implies
        is_readable(before, blobs, path) by {}
}

/// A revert succeeds exactly if each path that its differences found a blob at
/// can be read as it was before the commit.
pub proof fn law_revert_succeeds(before: Seq<Entry>, blobs: Seq<StoredBlob>, deltas: Seq<Delta>)
    ensures
        revert_steps(before, blobs, deltas) is Ok <==> forall|i: int, path: Seq<char>|
            0 <= i < deltas.len() && #[trigger] found_blob(deltas[i], path) ==> is_readable(
                before,
                blobs,
                path,
            ),
    decreases deltas.len(),
{
    if deltas.len() > 0 {
        let init = deltas.drop_last();
        let last = deltas.last();
        law_revert_succeeds(before, blobs, init);
        law_revert_of_one_succeeds(before, blobs, last);
        if revert_steps(before, blobs, deltas) is Ok {
            assert forall|i: int, path: Seq<char>|
                0 <= i < deltas.len() && #[trigger] found_blob(deltas[i], path) implies is_readable(
                before,
                blobs,
                path,
            ) by {
                if i < init.len() {
                    assert(found_blob(init[i], path));
                } else {
                    assert(found_blob(last, path));
                }
            }
        }
        if forall|i: int, path: Seq<char>|
            0 <= i < deltas.len() && #[trigger] found_blob(deltas[i], path) ==> is_readable(
                before,
                blobs,
                path,
            ) {
            assert forall|i: int, path: Seq<char>|
                0 <= i < init.len() && #[trigger] found_blob(init[i], path) implies is_readable(
                before,
                blobs,
                path,
            ) by {
                assert(found_blob(deltas[i], path));
            }
            assert forall|path: Seq<char>| #[trigger] found_blob(last, path) implies is_readable(
                before,
                blobs,
                path,
            ) by {
                assert(found_blob(deltas[deltas.len() - 1], path));
            }
        }
    }
}

/// What was added is removed again, whatever it is now; what was deleted or
/// modified gets back the blob it had, and is announced as created or as
/// updated with its old text; what was renamed gets its old name and blob.
pub proof fn law_revert_undoes_one(
    before: Seq<Entry>,
    blobs: Seq<StoredBlob>,
    delta: Delta,
    path: Seq<char>,
    to: Seq<char>,
    text: Seq<char>,
)
    ensures
        delta.status == DeltaStatus::Added && delta.new_path == Some(path) ==> revert_step(
            before,
            blobs,
            delta,
        ) == Ok::<Steps, Fault>((seq![Edit::Remove(path)], seq![Change::Deleted(path)])),
        delta.status == DeltaStatus::Deleted && delta.old_path == Some(path) && reads_as(
            before,
            blobs,
            path,
            text,
        ) ==> revert_step(before, blobs, delta) == Ok::<Steps, Fault>(
            (seq![Edit::Link(path, delta.old_oid)], seq![Change::Created(path, text)]),
        ),
        delta.status == DeltaStatus::Modified && delta.old_path == Some(path) && reads_as(
            before,
            blobs,
            path,
            text,
        ) ==> revert_step(before, blobs, delta) == Ok::<Steps, Fault>(
            (seq![Edit::Link(path, delta.old_oid)], seq![Change::Updated(path, text)]),
        ),
        delta.status == DeltaStatus::Renamed && delta.old_path == Some(path) && delta.new_path
            == Some(to) && reads_as(before, blobs, path, text) ==> revert_step(before, blobs, delta)
            == Ok::<Steps, Fault>(
            (
                seq![Edit::Remove(to), Edit::Link(path, delta.old_oid)],
                seq![Change::Moved(to, path, text)],
            ),
        ),
        delta.status != DeltaStatus::Added && delta.status != DeltaStatus::Other && delta.old_path
            == Some(path) && delta.new_path is Some && is_absent(before, path) ==> revert_step(
            before,
            blobs,
            delta,
        ) == Err::<Steps, Fault>(Fault::FileNotFound(path)),
        delta.status == DeltaStatus::Other ==> revert_step(before, blobs, delta) == Ok::<
            Steps,
            Fault,
        >((seq![], seq![])),
{
    law_text_is_what_bytes_spell(before, blobs, path, text);
}

/// Differences are undone one after the other, in their order. The first that
/// fails decides.
pub proof fn law_revert_goes_in_turn(
    before: Seq<Entry>,
    blobs: Seq<StoredBlob>,
    first: Seq<Delta>,
    second: Seq<Delta>,
    delta: Delta,
)
    ensures
        revert_steps(before, blobs, seq![]) == Ok::<Steps, Fault>((seq![], seq![])),
        revert_steps(before, blobs, seq![delta]) == revert_step(before, blobs, delta),
        match revert_steps(before, blobs, first) {
            Err(fault) => revert_steps(before, blobs, first + second) == Err::<Steps, Fault>(fault),
            Ok((edits, changes)) => match revert_steps(before, blobs, second) {
                Err(fault) => revert_steps(before, blobs, first + second) == Err::<Steps, Fault>(
                    fault,
                ),
                Ok((more_edits, more_changes)) => revert_steps(before, blobs, first + second)
                    == Ok::<Steps, Fault>((edits + more_edits, changes + more_changes)),
            },
        },
    decreases second.len(),
{
    reveal_with_fuel(revert_steps, 2);
    assert(seq![delta].drop_last() =~= Seq::<Delta>::empty());
    lemma_nothing_before(revert_step(before, blobs, delta));
    if second.len() == 0 {
        assert(first + second =~= first);
        lemma_nothing_after(revert_steps(before, blobs, first));
    } else {
        assert((first + second).drop_last() =~= first + second.drop_last());
        law_revert_goes_in_turn(before, blobs, first, second.drop_last(), delta);
        if let (Ok((edits, changes)), Ok((more, others)), Ok((last, end))) = (
            revert_steps(before, blobs, first),
            revert_steps(before, blobs, second.drop_last()),
            revert_step(before, blobs, second.last()),
        ) {
            assert(edits + more + last =~= edits + (more + last));
            assert(changes + others + end =~= changes + (others + end));
        }
    }
}

/// A revert is of a commit that exists and has a parent; it makes one commit of
/// all its steps.
pub proof fn law_revert_is_one_commit(
    sha: Seq<char>,
    commit: TargetCommit,
    before: Seq<Entry>,
    blobs: Seq<StoredBlob>,
    deltas: Seq<Delta>,
    request: Request,
)
    requires
        !is_blank(request.author_name),
        !is_blank(request.author_email),
    ensures
        revert_plan(sha, None, before, blobs, deltas, request) == Err::<Option<Plan>, Fault>(
            Fault::CommitNotFound(sha),
        ),
        !commit.has_parent ==> revert_plan(sha, Some(commit), before, blobs, deltas, request)
            == Err::<Option<Plan>, Fault>(Fault::InvalidOperation("cannot revert the initial commit"@)),
        commit.has_parent ==> match revert_steps(before, blobs, deltas) {
            Err(fault) => revert_plan(sha, Some(commit), before, blobs, deltas, request) == Err::<Option<Plan>, Fault>(fault),
            Ok((edits, changes)) => revert_plan(sha, Some(commit), before, blobs, deltas, request)
                matches Ok(Some(plan)) && plan.edits == edits && plan.changes == changes
                && plan.message == match request.message {
                Some(asked) => asked,
                None => "revert: "@ + match commit.message {
                    Some(message) => message@,
                    None => "unknown"@,
                },
            },
        },
{
}

} // verus!
