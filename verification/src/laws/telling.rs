//! What history tells of commits and files, and how lists are put in order.
use vstd::prelude::*;
use vstd::utf8::*;
use crate::error::Fault;
use crate::git::dates::{
    counts_for, date_of, is_retained, law_creation_is_oldest, law_update_is_newest, DateFilter,
    DateKind, Dated,
};
use crate::git::history::{Delta, DeltaStatus};
use crate::git::listing::{counts_directory, counts_file, extension_allowed};
use crate::git::log::{
    file_detail, file_details, file_patch, former_path, is_touched, line_owner, line_text,
    path_before, FileDetail, PatchLine, Sighting,
};
use crate::git::model::{Entry, EntryKind, StoredBlob};
use crate::laws::showing::{is_in_sight, lemma_sight};
use crate::laws::trees::{is_absent, law_text_is_what_bytes_spell, reads_as};
use crate::order::leaf_of;
use crate::sorting::{lemma_slot, slot, stable_sorted};
use crate::text::text_less;

verus! {

/// A commit that is told in detail tells each of its differences, in order, by
/// itself.
pub proof fn law_details_are_of_each_difference(
    tree: Seq<Entry>,
    blobs: Seq<StoredBlob>,
    deltas: Seq<Delta>,
    lines: Seq<PatchLine>,
)
    ensures
        match file_details(tree, blobs, deltas, lines, deltas.len() as int) {
            Ok(details) => details.len() == deltas.len() && forall|i: int| #![trigger details[i]]
                0 <= i < deltas.len() ==> file_detail(
                    tree,
                    blobs,
                    deltas[i],
                    file_patch(deltas, lines, i),
                ) == Ok::<FileDetail, Fault>(details[i]),
            Err(fault) => exists|i: int|
                0 <= i < deltas.len() && #[trigger] file_detail(
                    tree,
                    blobs,
                    deltas[i],
                    file_patch(deltas, lines, i),
                ) == Err::<FileDetail, Fault>(fault),
        },
{
    lemma_details(tree, blobs, deltas, lines, deltas.len() as int);
}

proof fn lemma_details(
    tree: Seq<Entry>,
    blobs: Seq<StoredBlob>,
    deltas: Seq<Delta>,
    lines: Seq<PatchLine>,
    count: int,
)
    requires
        0 <= count <= deltas.len(),
    ensures
        match file_details(tree, blobs, deltas, lines, count) {
            Ok(details) => details.len() == count && forall|i: int| #![trigger details[i]]
                0 <= i < count ==> file_detail(
                    tree,
                    blobs,
                    deltas[i],
                    file_patch(deltas, lines, i),
                ) == Ok::<FileDetail, Fault>(details[i]),
            Err(fault) => exists|i: int|
                0 <= i < count && #[trigger] file_detail(
                    tree,
                    blobs,
                    deltas[i],
                    file_patch(deltas, lines, i),
                ) == Err::<FileDetail, Fault>(fault),
        },
    decreases count,
{
    if count > 0 {
        lemma_details(tree, blobs, deltas, lines, count - 1);
    }
}

/// A difference is told by its path, what happened to it in a word, where it
/// came from if it was moved, its text in the commit and its own patch. One
/// that was deleted is told by its old path and without a text. It cannot be
/// told only if its text cannot be read.
pub proof fn law_detail_tells_the_difference(
    tree: Seq<Entry>,
    blobs: Seq<StoredBlob>,
    delta: Delta,
    diff: Seq<char>,
    path: Seq<char>,
    text: Seq<char>,
)
    ensures
        delta.status == DeltaStatus::Deleted && delta.old_path == Some(path) ==> file_detail(
            tree,
            blobs,
            delta,
            diff,
        ) == Ok::<FileDetail, Fault>(
            FileDetail {
                path,
                change: "deleted"@,
                from_path: None,
                content: Seq::empty(),
                diff,
            },
        ),
        delta.status != DeltaStatus::Deleted && delta.new_path == Some(path) && reads_as(
            tree,
            blobs,
            path,
            text,
        ) ==> file_detail(tree, blobs, delta, diff) == Ok::<FileDetail, Fault>(
            FileDetail {
                path,
                change: if delta.status == DeltaStatus::Added {
                    "created"@
                } else if delta.status == DeltaStatus::Renamed {
                    "moved"@
                } else {
                    "updated"@
                },
                from_path: if delta.status == DeltaStatus::Renamed {
                    delta.old_path
                } else {
                    None
                },
                content: text,
                diff,
            },
        ),
        delta.status != DeltaStatus::Deleted && delta.new_path == Some(path) && is_absent(tree, path)
            ==> file_detail(tree, blobs, delta, diff) == Err::<FileDetail, Fault>(
            Fault::FileNotFound(path),
        ),
{
    law_text_is_what_bytes_spell(tree, blobs, path, text);
}

/// A line of a patch is its content behind its mark, if it has one of the four
/// that a reader sees; bytes that are not UTF-8 are left out.
pub proof fn law_line_is_mark_and_content(line: PatchLine, text: Seq<char>)
    ensures
        line.content == encode_utf8(text) ==> line_text(line) == if line.origin == '+'
            || line.origin == '-' || line.origin == ' ' || line.origin == '\\' {
            seq![line.origin] + text
        } else {
            text
        },
        !valid_utf8(line.content) ==> line_text(line) == if line.origin == '+' || line.origin == '-'
            || line.origin == ' ' || line.origin == '\\' {
            seq![line.origin]
        } else {
            Seq::empty()
        },
{
    encode_utf8_valid_utf8(text);
    encode_utf8_decode_utf8(text);
    assert(seq![line.origin] + Seq::<char>::empty() =~= seq![line.origin]);
}

/// The patch of a difference is made of its lines, in order, and of no other
/// line: a line is that of the first difference with its paths and its blobs.
pub proof fn law_patch_is_made_of_lines(
    deltas: Seq<Delta>,
    first: Seq<PatchLine>,
    line: PatchLine,
    index: int,
)
    requires
        0 <= index < deltas.len(),
        forall|i: int|
            0 <= i < index ==> !((#[trigger] deltas[i]).old_path == deltas[index].old_path
                && deltas[i].new_path == deltas[index].new_path && deltas[i].old_oid
                == deltas[index].old_oid && deltas[i].new_oid == deltas[index].new_oid),
    ensures
        file_patch(deltas, Seq::empty(), index).len() == 0,
        ({
            let delta = deltas[index];
            file_patch(deltas, first.push(line), index) == if delta.old_path == line.old_path
                && delta.new_path == line.new_path && delta.old_oid == line.old_oid && delta.new_oid
                == line.new_oid {
                file_patch(deltas, first, index) + line_text(line)
            } else {
                file_patch(deltas, first, index)
            }
        }),
{
    assert(first.push(line).drop_last() =~= first);
    lemma_owner(deltas, line);
}

proof fn lemma_owner(deltas: Seq<Delta>, line: PatchLine)
    ensures
        0 <= line_owner(deltas, line) <= deltas.len(),
        line_owner(deltas, line) < deltas.len() ==> crate::git::log::is_line_of(
            deltas[line_owner(deltas, line)],
            line,
        ),
        forall|i: int|
            0 <= i < line_owner(deltas, line) ==> !crate::git::log::is_line_of(
                #[trigger] deltas[i],
                line,
            ),
    decreases deltas.len(),
{
    if deltas.len() > 0 && !crate::git::log::is_line_of(deltas[0], line) {
        let rest = deltas.skip(1);
        lemma_owner(rest, line);
        assert forall|i: int|
            0 <= i < line_owner(deltas, line) implies !crate::git::log::is_line_of(
            #[trigger] deltas[i],
            line,
        ) by {
            if i > 0 {
                assert(rest[i - 1] == deltas[i]);
            }
        }
    }
}

/// A file that was renamed to a path came from the old path of the first rename
/// that says so.
pub proof fn law_rename_tells_where_from(deltas: Seq<Delta>, path: Seq<char>, at: int)
    ensures
        0 <= at < deltas.len() && deltas[at].status == DeltaStatus::Renamed && deltas[at].new_path
            == Some(path) && (forall|i: int|
            0 <= i < at ==> !((#[trigger] deltas[i]).status == DeltaStatus::Renamed
                && deltas[i].new_path == Some(path))) ==> former_path(deltas, path)
            == deltas[at].old_path,
        (forall|i: int|
            0 <= i < deltas.len() ==> !((#[trigger] deltas[i]).status == DeltaStatus::Renamed
                && deltas[i].new_path == Some(path))) ==> former_path(deltas, path) is None,
    decreases deltas.len(),
{
    if deltas.len() > 0 && !(deltas[0].status == DeltaStatus::Renamed && deltas[0].new_path == Some(
        path,
    )) {
        let rest = deltas.skip(1);
        law_rename_tells_where_from(rest, path, at - 1);
        assert forall|i: int| 0 <= i < rest.len() implies #[trigger] rest[i] == deltas[i + 1] by {}
    }
}

/// A commit touched a file if it is there before or after but not both, or if
/// its content or its mode differs; a first commit if it has it. Before a
/// commit that brought it in by a rename, its former path is followed.
pub proof fn law_touched_means_different(sighting: Sighting, path: Seq<char>)
    ensures
        match sighting {
            Sighting::Root { exists } => is_touched(sighting) == exists && path_before(
                sighting,
                path,
            ) == path,
            Sighting::Child { in_commit, in_parent, renamed_from } => {
                &&& in_commit is None && in_parent is None ==> !is_touched(sighting)
                &&& in_commit is Some != in_parent is Some ==> is_touched(sighting)
                &&& in_commit is Some && in_parent is Some ==> (is_touched(sighting)
                    <==> in_commit->0.oid@ != in_parent->0.oid@ || in_commit->0.filemode
                    != in_parent->0.filemode)
                &&& path_before(sighting, path) == if in_commit is Some && in_parent is None
                    && renamed_from is Some {
                    renamed_from->0@
                } else {
                    path
                }
            },
        },
{
}

/// Whether a commit has a difference that is filed under a path: its new path,
/// or its old one if it has no new one.
pub open spec fn touches_path(commit: Dated, path: Seq<char>, only_added: bool) -> bool {
    exists|i: int| #![trigger commit.deltas[i]]
        0 <= i < commit.deltas.len() && (commit.deltas[i].new_path == Some(path) || (
        commit.deltas[i].new_path is None && commit.deltas[i].old_path == Some(path))) && (
        only_added ==> commit.deltas[i].status == DeltaStatus::Added)
}

proof fn lemma_touches(commit: Dated, path: Seq<char>)
    ensures
        counts_for(commit, path, DateKind::Updated) <==> touches_path(commit, path, false),
        counts_for(commit, path, DateKind::Created) <==> touches_path(commit, path, true),
{
    if touches_path(commit, path, false) {
        let i = choose|i: int| #![trigger commit.deltas[i]]
            0 <= i < commit.deltas.len() && (commit.deltas[i].new_path == Some(path) || (
            commit.deltas[i].new_path is None && commit.deltas[i].old_path == Some(path)));
        assert(crate::git::dates::filed_path(commit.deltas[i]) == Some(path));
    }
    if touches_path(commit, path, true) {
        let i = choose|i: int| #![trigger commit.deltas[i]]
            0 <= i < commit.deltas.len() && (commit.deltas[i].new_path == Some(path) || (
            commit.deltas[i].new_path is None && commit.deltas[i].old_path == Some(path)))
                && commit.deltas[i].status == DeltaStatus::Added;
        assert(crate::git::dates::filed_path(commit.deltas[i]) == Some(path));
    }
}

/// Whether a second lies in the range of a filter: not before its start, and
/// before its end.
pub open spec fn is_within(filter: DateFilter, second: i64) -> bool {
    &&& filter.from matches Some(from) ==> from.seconds < second || (from.seconds == second
        && from.nanos == 0)
    &&& filter.to matches Some(to) ==> second < to.seconds || (second == to.seconds && to.nanos > 0)
}

/// A date filter keeps a file exactly if its date is in range: the newest commit
/// of the history that touched it for its update, the oldest that added it for
/// its creation. One without such a commit is not kept.
pub proof fn law_date_decides(
    history: Seq<Dated>,
    path: Seq<char>,
    filter: DateFilter,
    at: int,
)
    ensures
        filter.kind == DateKind::Updated && 0 <= at < history.len() && touches_path(
            history[at],
            path,
            false,
        ) && (forall|i: int| 0 <= i < at ==> !touches_path(#[trigger] history[i], path, false))
            ==> (is_retained(history, path, filter) <==> is_within(
            filter,
            history[at].committed_at,
        )),
        filter.kind == DateKind::Created && 0 <= at < history.len() && touches_path(
            history[at],
            path,
            true,
        ) && (forall|i: int|
            at < i < history.len() ==> !touches_path(#[trigger] history[i], path, true)) ==> (
        is_retained(history, path, filter) <==> is_within(filter, history[at].committed_at)),
        (forall|i: int|
            0 <= i < history.len() ==> !touches_path(
                #[trigger] history[i],
                path,
                filter.kind == DateKind::Created,
            )) ==> !is_retained(history, path, filter),
{
    assert forall|i: int| 0 <= i < history.len() implies (counts_for(
        #[trigger] history[i],
        path,
        DateKind::Updated,
    ) <==> touches_path(history[i], path, false)) && (counts_for(history[i], path, DateKind::Created)
        <==> touches_path(history[i], path, true)) by {
        lemma_touches(history[i], path);
    }
    if filter.kind == DateKind::Updated && 0 <= at < history.len() && touches_path(
        history[at],
        path,
        false,
    ) && (forall|i: int| 0 <= i < at ==> !touches_path(#[trigger] history[i], path, false)) {
        law_update_is_newest(history, path, at);
    }
    if filter.kind == DateKind::Created && 0 <= at < history.len() && touches_path(
        history[at],
        path,
        true,
    ) && (forall|i: int|
        at < i < history.len() ==> !touches_path(#[trigger] history[i], path, true)) {
        law_creation_is_oldest(history, path, at);
    }
    if forall|i: int|
        0 <= i < history.len() ==> !touches_path(
            #[trigger] history[i],
            path,
            filter.kind == DateKind::Created,
        ) {
        lemma_undated(history, path, filter.kind);
    }
}

proof fn lemma_undated(history: Seq<Dated>, path: Seq<char>, kind: DateKind)
    requires
        forall|i: int| 0 <= i < history.len() ==> !counts_for(#[trigger] history[i], path, kind),
    ensures
        date_of(history, path, kind) is None,
    decreases history.len(),
{
    if history.len() > 0 {
        let init = history.drop_last();
        assert(!counts_for(history[history.len() - 1], path, kind));
        assert forall|i: int| 0 <= i < init.len() implies !counts_for(
            #[trigger] init[i],
            path,
            kind,
        ) by {
            assert(init[i] == history[i]);
        }
        lemma_undated(init, path, kind);
    }
}

/// Whether the extension of a name, behind its last dot, is one of those that
/// are allowed, whatever the case of its ASCII letters.
pub open spec fn ends_as_allowed(name: Seq<char>, allowed: Seq<Seq<char>>) -> bool {
    exists|stem: Seq<char>, extension: Seq<char>, i: int|
        name == #[trigger] (stem + seq!['.'] + extension) && stem.len() > 0
            && !extension.contains('.') && 0 <= i < allowed.len() && name != ".."@
            && crate::git::listing::same_but_case(#[trigger] allowed[i], extension)
}

/// Texts count as one whatever the case of their ASCII letters, and are equal
/// otherwise.
pub proof fn law_case_of_letters_is_left_out(left: Seq<char>, right: Seq<char>)
    ensures
        crate::git::listing::same_but_case(left, right) <==> left.len() == right.len() && forall|
            i: int,
        |
            0 <= i < left.len() ==> is_one_letter(#[trigger] left[i], right[i]),
{
    if crate::git::listing::same_but_case(left, right) {
        assert forall|i: int| 0 <= i < left.len() implies is_one_letter(
            #[trigger] left[i],
            right[i],
        ) by {
            lemma_lower(left[i]);
            lemma_lower(right[i]);
            assert(crate::git::listing::ascii_lower(left[i]) == crate::git::listing::ascii_lower(
                right[i],
            ));
        }
    }
    if left.len() == right.len() && forall|i: int|
        0 <= i < left.len() ==> is_one_letter(#[trigger] left[i], right[i]) {
        assert forall|i: int| 0 <= i < left.len() implies crate::git::listing::ascii_lower(
            #[trigger] left[i],
        ) == crate::git::listing::ascii_lower(right[i]) by {
            lemma_lower(left[i]);
            lemma_lower(right[i]);
            assert(is_one_letter(left[i], right[i]));
        }
    }
}

proof fn lemma_lower(c: char)
    ensures
        crate::git::listing::ascii_lower(c) as u32 == if 65 <= c as u32 <= 90 {
            c as u32 + 32
        } else {
            c as u32 as int
        },
{
}

/// Whether two characters are equal, or one ASCII letter in two cases.
pub open spec fn is_one_letter(left: char, right: char) -> bool {
    ||| left as u32 == right as u32
    ||| 'a' as u32 <= left as u32 <= 'z' as u32 && right as u32 + 32 == left as u32
    ||| 'a' as u32 <= right as u32 <= 'z' as u32 && left as u32 + 32 == right as u32
}

/// A count is of the files that a listing shows, those with an allowed
/// extension only if some are set, and of the folders in sight.
pub proof fn law_count_is_of_what_is_shown(
    entry: Entry,
    depth: Option<nat>,
    hidden: bool,
    extensions: Option<Seq<Seq<char>>>,
)
    ensures
        counts_file(entry, depth, hidden, extensions) <==> entry.kind == EntryKind::Blob
            && is_in_sight(entry.path, depth, hidden) && leaf_of(entry.path) != ".order.json"@ && (
        extensions matches Some(allowed) ==> ends_as_allowed(leaf_of(entry.path), allowed)),
        counts_directory(entry, depth, hidden) <==> entry.kind == EntryKind::Tree && is_in_sight(
            entry.path,
            depth,
            hidden,
        ),
{
    lemma_sight(entry.path, depth, hidden);
    if let Some(allowed) = extensions {
        lemma_extension(leaf_of(entry.path), allowed);
    }
}

pub proof fn lemma_extension(name: Seq<char>, allowed: Seq<Seq<char>>)
    ensures
        extension_allowed(name, allowed) <==> ends_as_allowed(name, allowed),
{
    let dot = crate::text::last_position(name, '.');
    crate::text::lemma_last_position(name, '.');
    if extension_allowed(name, allowed) {
        let extension = name.skip(dot + 1);
        let stem = name.take(dot);
        assert(name =~= stem + seq!['.'] + extension);
        assert forall|k: int| 0 <= k < extension.len() implies extension[k] != '.' by {
            assert(extension[k] == name[dot + 1 + k]);
        }
        let i = choose|i: int|
            0 <= i < allowed.len() && crate::git::listing::same_but_case(
                #[trigger] allowed[i],
                extension,
            );
        assert(name == stem + seq!['.'] + extension);
        assert(crate::git::listing::same_but_case(allowed[i], extension));
    }
    if ends_as_allowed(name, allowed) {
        let (stem, extension, i) = choose|stem: Seq<char>, extension: Seq<char>, i: int|
            name == #[trigger] (stem + seq!['.'] + extension) && stem.len() > 0
                && !extension.contains('.') && 0 <= i < allowed.len() && name != ".."@
                && crate::git::listing::same_but_case(#[trigger] allowed[i], extension);
        let at = stem.len() as int;
        assert(name[at] == '.');
        assert forall|k: int| at < k < name.len() implies name[k] != '.' by {
            assert(name[k] == extension[k - at - 1]);
        }
        crate::text::lemma_last_position_is(name, '.', at);
        assert(name.skip(at + 1) =~= extension);
    }
}

/// A text comes before another if it is a proper beginning of it, or if at the
/// first place where they differ its character has the lower code point.
pub proof fn law_texts_compare_by_first_difference(left: Seq<char>, right: Seq<char>, at: int)
    requires
        0 <= at <= left.len(),
        at <= right.len(),
        left.take(at) == right.take(at),
        at < left.len() && at < right.len() ==> left[at] != right[at],
        at == left.len() || at == right.len() || left[at] != right[at],
    ensures
        text_less(left, right) <==> if at == left.len() || at == right.len() {
            at == left.len() && at < right.len()
        } else {
            (left[at] as u32) < (right[at] as u32)
        },
    decreases at,
{
    if at > 0 {
        assert(left[0] == left.take(at)[0]);
        assert(right[0] == right.take(at)[0]);
        assert(left.skip(1).take(at - 1) =~= left.take(at).skip(1));
        assert(right.skip(1).take(at - 1) =~= right.take(at).skip(1));
        law_texts_compare_by_first_difference(left.skip(1), right.skip(1), at - 1);
    }
}

/// A list that is in order already stays as it is, also where items rank alike.
pub proof fn law_sorting_leaves_what_is_sorted<T>(items: Seq<T>, before: spec_fn(T, T) -> bool)
    requires
        forall|i: int, j: int|
            0 <= i < j < items.len() ==> !before(#[trigger] items[j], #[trigger] items[i]),
    ensures
        stable_sorted(items, before) == items,
    decreases items.len(),
{
    if items.len() > 0 {
        let init = items.drop_last();
        let last = items.last();
        assert forall|i: int, j: int| 0 <= i < j < init.len() implies !before(
            #[trigger] init[j],
            #[trigger] init[i],
        ) by {
            assert(!before(items[j], items[i]));
        }
        law_sorting_leaves_what_is_sorted(init, before);
        lemma_slot(init, last, before);
        let at = slot(init, last, before);
        if at < init.len() {
            assert(!before(items[items.len() - 1], items[at]));
        }
        assert(init.insert(at, last) =~= items);
    } else {
        assert(stable_sorted(items, before) =~= items);
    }
}

} // verus!
