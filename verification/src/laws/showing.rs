//! What a listing shows of a repository.
use vstd::prelude::*;
use crate::git::dates::{is_retained, retained, Dated};
use crate::git::folders::{
    are_clear_of_files, holds_directory, law_tree_shows_its_directories, leads_to_listed,
    leads_to_stub,
};
use crate::git::listing::{
    finds_directory, finds_file, is_hidden, lemma_selected, lowercase_of, name_matches, prefix_text,
    selected, selected_tree, shown_files, shows_file, ListingRequest,
};
use crate::git::model::{Entry, EntryKind};
use crate::git::tree::{
    components, depth_model, goes_beyond, holds_file, is_prefix_free, law_tree_shows_its_files,
    lists_path,
};
use crate::laws::paths::law_parts_make_the_path;
use crate::order::{child_path, leaf_of};
use crate::text::texts;

verus! {

/// Whether some entry of a tree is a file with a path.
pub open spec fn has_file(entries: Seq<Entry>, path: Seq<char>) -> bool {
    exists|i: int|
        0 <= i < entries.len() && (#[trigger] entries[i]).kind == EntryKind::Blob && entries[i].path
            == path
}

/// Whether some entry of a tree is a folder with a path.
pub open spec fn has_folder(entries: Seq<Entry>, path: Seq<char>) -> bool {
    exists|i: int|
        0 <= i < entries.len() && (#[trigger] entries[i]).kind == EntryKind::Tree && entries[i].path
            == path
}

/// Whether a name begins with a dot.
pub open spec fn is_dotted(name: Seq<char>) -> bool {
    name.len() > 0 && name[0] == '.'
}

/// Whether a listing gets to a path: it has no more parts than the listing has
/// levels, which are at least one, and none of them begins with a dot unless
/// hidden ones are wanted.
pub open spec fn is_in_sight(path: Seq<char>, depth: Option<nat>, hidden: bool) -> bool {
    &&& depth matches Some(levels) ==> components(path).len() <= levels || components(path).len()
        == 1
    &&& !hidden ==> forall|i: int|
        0 <= i < components(path).len() ==> !is_dotted(#[trigger] components(path)[i])
}

/// Whether a name begins, in lower case, with one of some texts in lower case.
pub open spec fn is_sought(needles: Seq<Seq<char>>, name: Seq<char>) -> bool {
    exists|j: int|
        0 <= j < needles.len() && lowercase_of(#[trigger] needles[j]).is_prefix_of(
            lowercase_of(name),
        )
}

/// Whether some part of a path is sought.
pub open spec fn has_sought_part(needles: Seq<Seq<char>>, path: Seq<char>) -> bool {
    exists|i: int|
        0 <= i < components(path).len() && is_sought(needles, #[trigger] components(path)[i])
}

/// What is selected are the entries that are wanted, in their order.
pub proof fn law_selected_are_the_wanted(entries: Seq<Entry>, wanted: spec_fn(Entry) -> bool)
    ensures
        selected(entries, wanted) == entries.filter(wanted).map_values(|entry: Entry| entry.path),
    decreases entries.len(),
{
    reveal(Seq::filter);
    if entries.len() > 0 {
        law_selected_are_the_wanted(entries.drop_last(), wanted);
    }
    assert(selected(entries, wanted) =~= entries.filter(wanted).map_values(
        |entry: Entry| entry.path,
    ));
}

pub proof fn lemma_sight(path: Seq<char>, depth: Option<nat>, hidden: bool)
    ensures
        crate::git::listing::is_reached(path, depth, hidden) <==> is_in_sight(path, depth, hidden),
{
    law_parts_make_the_path(path);
    if !hidden && is_hidden(path) {
        let i = choose|i: int|
            0 <= i < components(path).len() && crate::git::listing::is_hidden_name(
                #[trigger] components(path)[i],
            );
        assert(is_dotted(components(path)[i]));
    }
    if !hidden && !is_hidden(path) {
        assert forall|i: int| 0 <= i < components(path).len() implies !is_dotted(
            #[trigger] components(path)[i],
        ) by {
            assert(!crate::git::listing::is_hidden_name(components(path)[i]));
        }
    }
}

/// A listing shows exactly the files of a tree that it gets to, but for the
/// order indexes.
pub proof fn law_files_in_sight_are_shown(
    entries: Seq<Entry>,
    depth: Option<nat>,
    hidden: bool,
    path: Seq<char>,
)
    ensures
        shown_files(entries, depth, hidden).contains(path) <==> has_file(entries, path)
            && is_in_sight(path, depth, hidden) && leaf_of(path) != ".order.json"@,
{
    let shows = |entry: Entry| shows_file(entry, depth, hidden);
    lemma_selected(entries, shows, path);
    lemma_sight(path, depth, hidden);
    if has_file(entries, path) && is_in_sight(path, depth, hidden) && leaf_of(path)
        != ".order.json"@ {
        let i = choose|i: int|
            0 <= i < entries.len() && (#[trigger] entries[i]).kind == EntryKind::Blob
                && entries[i].path == path;
        assert(shows(entries[i]));
    }
}

proof fn lemma_sought(needles: Seq<Seq<char>>, path: Seq<char>)
    ensures
        crate::git::listing::part_matches(
            needles,
            components(path),
            components(path).len() as int,
        ) <==> has_sought_part(needles, path),
        forall|name: Seq<char>| #[trigger] name_matches(needles, name) <==> is_sought(needles, name),
{
    assert forall|name: Seq<char>| #[trigger] name_matches(needles, name) <==> is_sought(
        needles,
        name,
    ) by {}
    if crate::git::listing::part_matches(
        needles,
        components(path),
        components(path).len() as int,
    ) {
        let i = choose|i: int|
            0 <= i < components(path).len() && name_matches(needles, #[trigger] components(path)[i]);
        assert(is_sought(needles, components(path)[i]));
    }
    if has_sought_part(needles, path) {
        let i = choose|i: int|
            0 <= i < components(path).len() && is_sought(needles, #[trigger] components(path)[i]);
        assert(name_matches(needles, components(path)[i]));
    }
}

/// A search finds exactly the files that the listing without it shows and of
/// whose path some part, at whatever depth, begins with what is sought.
pub proof fn law_search_finds_by_any_part(
    entries: Seq<Entry>,
    needles: Seq<Seq<char>>,
    depth: Option<nat>,
    hidden: bool,
    path: Seq<char>,
)
    ensures
        selected(
            entries,
            |entry: Entry| finds_file(entry, needles, depth, hidden),
        ).contains(path) <==> shown_files(entries, depth, hidden).contains(path)
            && has_sought_part(needles, path),
{
    let finds = |entry: Entry| finds_file(entry, needles, depth, hidden);
    let shows = |entry: Entry| shows_file(entry, depth, hidden);
    lemma_selected(entries, finds, path);
    lemma_selected(entries, shows, path);
    lemma_sought(needles, path);
    if shown_files(entries, depth, hidden).contains(path) && has_sought_part(needles, path) {
        let i = choose|i: int|
            0 <= i < entries.len() && shows(#[trigger] entries[i]) && entries[i].path == path;
        assert(finds(entries[i]));
    }
    if selected(entries, finds).contains(path) {
        let i = choose|i: int|
            0 <= i < entries.len() && finds(#[trigger] entries[i]) && entries[i].path == path;
        assert(shows(entries[i]));
    }
}

/// Whether no file of a tree lies below another.
pub open spec fn files_are_apart(entries: Seq<Entry>) -> bool {
    forall|i: int, j: int|
        0 <= i < entries.len() && 0 <= j < entries.len() && (#[trigger] entries[i]).kind
            == EntryKind::Blob && (#[trigger] entries[j]).kind == EntryKind::Blob ==> !goes_beyond(
            components(entries[i].path),
            components(entries[j].path),
        )
}

/// Whether no file of a tree is, or lies above, a folder of it.
pub open spec fn folders_are_apart(entries: Seq<Entry>) -> bool {
    forall|i: int, j: int|
        0 <= i < entries.len() && 0 <= j < entries.len() && (#[trigger] entries[i]).kind
            == EntryKind::Tree && (#[trigger] entries[j]).kind == EntryKind::Blob ==> entries[i].path
            != entries[j].path && !goes_beyond(
            components(entries[i].path),
            components(entries[j].path),
        )
}

/// Two paths with the same parts are the same.
pub proof fn lemma_same_parts(left: Seq<char>, right: Seq<char>)
    requires
        components(left) == components(right),
    ensures
        left == right,
    decreases left.len(),
{
    law_parts_make_the_path(left);
    law_parts_make_the_path(right);
    if left.contains('/') && right.contains('/') {
        let a = choose|a: Seq<char>| #[trigger]
            (components(left)[0] + seq!['/'] + a) == left && components(left) == seq![
                components(left)[0],
            ] + components(a);
        let b = choose|b: Seq<char>| #[trigger]
            (components(right)[0] + seq!['/'] + b) == right && components(right) == seq![
                components(right)[0],
            ] + components(b);
        assert(components(left).skip(1) =~= components(a));
        assert(components(right).skip(1) =~= components(b));
        lemma_same_parts(a, b);
    } else if left.contains('/') {
        let a = choose|a: Seq<char>| #[trigger]
            (components(left)[0] + seq!['/'] + a) == left && components(left) == seq![
                components(left)[0],
            ] + components(a);
        law_parts_make_the_path(a);
        assert(components(left).len() >= 2);
        assert(components(right).len() == 1);
    } else if right.contains('/') {
        let b = choose|b: Seq<char>| #[trigger]
            (components(right)[0] + seq!['/'] + b) == right && components(right) == seq![
                components(right)[0],
            ] + components(b);
        law_parts_make_the_path(b);
        assert(components(right).len() >= 2);
        assert(components(left).len() == 1);
    } else {
        assert(components(left)[0] == left);
        assert(components(right)[0] == right);
    }
}

/// The paths of entries that are files are apart if the files are.
pub proof fn lemma_files_prefix_free(entries: Seq<Entry>, paths: Seq<Seq<char>>)
    requires
        files_are_apart(entries),
        forall|i: int| 0 <= i < paths.len() ==> has_file(entries, #[trigger] paths[i]),
    ensures
        is_prefix_free(paths),
{
    assert forall|i: int, j: int|
        0 <= i < paths.len() && 0 <= j < paths.len() implies !goes_beyond(
        components(#[trigger] paths[i]),
        components(#[trigger] paths[j]),
    ) by {
        assert(has_file(entries, paths[i]) && has_file(entries, paths[j]));
        let a = choose|a: int|
            0 <= a < entries.len() && (#[trigger] entries[a]).kind == EntryKind::Blob
                && entries[a].path == paths[i];
        let b = choose|b: int|
            0 <= b < entries.len() && (#[trigger] entries[b]).kind == EntryKind::Blob
                && entries[b].path == paths[j];
        assert(!goes_beyond(components(entries[a].path), components(entries[b].path)));
    }
}

pub proof fn lemma_lists_path(paths: Seq<Seq<char>>, path: Seq<char>)
    ensures
        lists_path(paths, components(path)) <==> paths.contains(path),
{
    if lists_path(paths, components(path)) {
        let i = choose|i: int|
            0 <= i < paths.len() && components(#[trigger] paths[i]) == components(path);
        lemma_same_parts(paths[i], path);
    }
    if paths.contains(path) {
        let i = choose|i: int| 0 <= i < paths.len() && paths[i] == path;
        assert(components(paths[i]) == components(path));
    }
}

/// The files that a search or a date filter is to show: those in sight, with a
/// part that is sought if something is, dated in the range if one is set.
pub open spec fn is_asked_for(
    entries: Seq<Entry>,
    history: Seq<Dated>,
    request: ListingRequest,
    path: Seq<char>,
) -> bool {
    &&& shown_files(
        entries,
        depth_model(request.maximum_depth),
        request.include_hidden_files,
    ).contains(path)
    &&& request.file_name_starts_with matches Some(needles) ==> has_sought_part(
        texts(needles@),
        path,
    )
    &&& request.date_filter matches Some(filter) ==> is_retained(
        history,
        child_path(prefix_text(request), path),
        filter,
    )
}

/// The files that a search finds, or those that are shown without one.
spec fn flat_files(entries: Seq<Entry>, request: ListingRequest) -> Seq<Seq<char>> {
    let depth = depth_model(request.maximum_depth);
    let hidden = request.include_hidden_files;
    match request.file_name_starts_with {
        Some(needles) => selected(
            entries,
            |entry: Entry| finds_file(entry, texts(needles@), depth, hidden),
        ),
        None => shown_files(entries, depth, hidden),
    }
}

proof fn lemma_flat(entries: Seq<Entry>, request: ListingRequest, path: Seq<char>)
    ensures
        flat_files(entries, request).contains(path) <==> shown_files(
            entries,
            depth_model(request.maximum_depth),
            request.include_hidden_files,
        ).contains(path) && (request.file_name_starts_with matches Some(needles)
            ==> has_sought_part(texts(needles@), path)),
        forall|i: int|
            0 <= i < flat_files(entries, request).len() ==> has_file(
                entries,
                #[trigger] flat_files(entries, request)[i],
            ),
{
    assert(flat_files(entries, request) == match request.file_name_starts_with {
        Some(needles) => selected(
            entries,
            |entry: Entry|
                finds_file(
                    entry,
                    texts(needles@),
                    depth_model(request.maximum_depth),
                    request.include_hidden_files,
                ),
        ),
        None => shown_files(
            entries,
            depth_model(request.maximum_depth),
            request.include_hidden_files,
        ),
    });
    let depth = depth_model(request.maximum_depth);
    let hidden = request.include_hidden_files;
    let flat = match request.file_name_starts_with {
        Some(needles) => selected(
            entries,
            |entry: Entry| finds_file(entry, texts(needles@), depth, hidden),
        ),
        None => shown_files(entries, depth, hidden),
    };
    if let Some(needles) = request.file_name_starts_with {
        law_search_finds_by_any_part(entries, texts(needles@), depth, hidden, path);
    }
    assert forall|i: int| 0 <= i < flat.len() implies has_file(entries, #[trigger] flat[i]) by {
        assert(flat.contains(flat[i]));
        if let Some(needles) = request.file_name_starts_with {
            law_search_finds_by_any_part(entries, texts(needles@), depth, hidden, flat[i]);
        }
        law_files_in_sight_are_shown(entries, depth, hidden, flat[i]);
    }
}

/// The tree of a search or a date filter has exactly the files that are asked
/// for, each at its path.
pub proof fn law_search_shows_what_is_asked_for(
    entries: Seq<Entry>,
    history: Seq<Dated>,
    request: ListingRequest,
    path: Seq<char>,
)
    requires
        files_are_apart(entries),
        request.file_name_starts_with is Some || request.date_filter is Some,
    ensures
        holds_file(selected_tree(entries, history, request), components(path)) <==> is_asked_for(
            entries,
            history,
            request,
            path,
        ),
{
    let depth = depth_model(request.maximum_depth);
    let hidden = request.include_hidden_files;
    let flat = match request.file_name_starts_with {
        Some(needles) => selected(
            entries,
            |entry: Entry| finds_file(entry, texts(needles@), depth, hidden),
        ),
        None => shown_files(entries, depth, hidden),
    };
    lemma_flat(entries, request, path);
    lemma_files_prefix_free(entries, flat);
    match request.date_filter {
        Some(filter) => {
            let prefix = prefix_text(request);
            let kept = retained(history, prefix, flat, filter);
            let keeps = |p: Seq<char>| is_retained(history, child_path(prefix, p), filter);
            lemma_filter_contains(flat, keeps, path);
            assert forall|i: int| 0 <= i < kept.len() implies has_file(entries, #[trigger] kept[i]) by {
                assert(kept.contains(kept[i]));
                lemma_filter_contains(flat, keeps, kept[i]);
                let k = choose|k: int| 0 <= k < flat.len() && flat[k] == kept[i];
                assert(has_file(entries, flat[k]));
            }
            lemma_files_prefix_free(entries, kept);
            law_tree_shows_its_files(kept, Seq::empty(), None, components(path));
            lemma_lists_path(kept, path);
        },
        None => {
            let needles = request.file_name_starts_with->0;
            let stubs = selected(
                entries,
                |entry: Entry| finds_directory(entry, texts(needles@), depth, hidden),
            );
            law_tree_shows_its_files(flat, stubs, None, components(path));
            lemma_lists_path(flat, path);
        },
    }
}

pub proof fn lemma_filter_contains<T>(items: Seq<T>, keeps: spec_fn(T) -> bool, item: T)
    ensures
        items.filter(keeps).contains(item) <==> items.contains(item) && keeps(item),
{
    if items.filter(keeps).contains(item) {
        let i = choose|i: int| 0 <= i < items.filter(keeps).len() && items.filter(keeps)[i] == item;
        items.lemma_filter_pred(keeps, i);
        items.lemma_filter_contains_rev(keeps, item);
    }
    if items.contains(item) && keeps(item) {
        let i = choose|i: int| 0 <= i < items.len() && items[i] == item;
        items.lemma_filter_contains(keeps, i);
    }
}

/// Whether a search shows a folder for itself: its own name is the first part
/// of its path that is sought, or it is as deep as the listing goes and any
/// part is.
pub open spec fn is_shown_folder(
    entries: Seq<Entry>,
    needles: Seq<Seq<char>>,
    depth: Option<nat>,
    hidden: bool,
    path: Seq<char>,
) -> bool {
    let parts = components(path);
    &&& has_folder(entries, path)
    &&& is_in_sight(path, depth, hidden)
    &&& if depth matches Some(levels) && (parts.len() == levels || (levels == 0 && parts.len()
        == 1)) {
        has_sought_part(needles, path)
    } else {
        is_sought(needles, parts.last()) && forall|i: int|
            0 <= i < parts.len() - 1 ==> !is_sought(needles, #[trigger] parts[i])
    }
}

proof fn lemma_found_folder(
    entries: Seq<Entry>,
    needles: Seq<Seq<char>>,
    depth: Option<nat>,
    hidden: bool,
    path: Seq<char>,
)
    ensures
        selected(
            entries,
            |entry: Entry| finds_directory(entry, needles, depth, hidden),
        ).contains(path) <==> is_shown_folder(entries, needles, depth, hidden, path),
{
    let finds = |entry: Entry| finds_directory(entry, needles, depth, hidden);
    lemma_selected(entries, finds, path);
    lemma_sight(path, depth, hidden);
    lemma_sought(needles, path);
    let parts = components(path);
    law_parts_make_the_path(path);
    assert(crate::git::listing::part_matches(needles, parts, parts.len() - 1) <==> exists|i: int|
        0 <= i < parts.len() - 1 && is_sought(needles, #[trigger] parts[i])) by {
        if crate::git::listing::part_matches(needles, parts, parts.len() - 1) {
            let i = choose|i: int|
                0 <= i < parts.len() - 1 && name_matches(needles, #[trigger] parts[i]);
            assert(is_sought(needles, parts[i]));
        }
        if exists|i: int| 0 <= i < parts.len() - 1 && is_sought(needles, #[trigger] parts[i]) {
            let i = choose|i: int|
                0 <= i < parts.len() - 1 && is_sought(needles, #[trigger] parts[i]);
            assert(name_matches(needles, parts[i]));
        }
    }
    if is_shown_folder(entries, needles, depth, hidden, path) {
        let i = choose|i: int|
            0 <= i < entries.len() && (#[trigger] entries[i]).kind == EntryKind::Tree
                && entries[i].path == path;
        assert(finds(entries[i]));
    }
    if selected(entries, finds).contains(path) {
        let i = choose|i: int|
            0 <= i < entries.len() && finds(#[trigger] entries[i]) && entries[i].path == path;
        assert(entries[i].kind == EntryKind::Tree);
        assert(has_folder(entries, path));
    }
}

/// A search shows a folder exactly if a file that it finds lies below it, or a
/// folder that it shows for itself is it or lies below it.
pub proof fn law_search_shows_folders(
    entries: Seq<Entry>,
    history: Seq<Dated>,
    request: ListingRequest,
    path: Seq<Seq<char>>,
)
    requires
        files_are_apart(entries),
        folders_are_apart(entries),
        request.file_name_starts_with is Some,
        request.date_filter is None,
        path.len() > 0,
    ensures
        ({
            let needles = texts(request.file_name_starts_with->0@);
            let depth = depth_model(request.maximum_depth);
            let hidden = request.include_hidden_files;
            holds_directory(selected_tree(entries, history, request), path) <==> (exists|
                file: Seq<char>,
            | #[trigger]
                is_asked_for(entries, history, request, file) && goes_beyond(components(file), path))
                || (exists|folder: Seq<char>| #[trigger]
                is_shown_folder(entries, needles, depth, hidden, folder) && (components(folder)
                    == path || goes_beyond(components(folder), path)))
        }),
{
    let needles = request.file_name_starts_with->0;
    let depth = depth_model(request.maximum_depth);
    let hidden = request.include_hidden_files;
    let flat = selected(
        entries,
        |entry: Entry| finds_file(entry, texts(needles@), depth, hidden),
    );
    let finds = |entry: Entry| finds_directory(entry, texts(needles@), depth, hidden);
    let stubs = selected(entries, finds);
    lemma_flat(entries, request, Seq::empty());
    lemma_files_prefix_free(entries, flat);
    assert(are_clear_of_files(stubs, flat)) by {
        assert forall|i: int, j: int|
            0 <= i < stubs.len() && 0 <= j < flat.len() implies components(#[trigger] stubs[i])
            != components(#[trigger] flat[j]) && !goes_beyond(
            components(stubs[i]),
            components(flat[j]),
        ) by {
            assert(stubs.contains(stubs[i]));
            lemma_selected(entries, finds, stubs[i]);
            let a = choose|a: int|
                0 <= a < entries.len() && finds(#[trigger] entries[a]) && entries[a].path
                    == stubs[i];
            assert(has_file(entries, flat[j]));
            let b = choose|b: int|
                0 <= b < entries.len() && (#[trigger] entries[b]).kind == EntryKind::Blob
                    && entries[b].path == flat[j];
            assert(entries[a].kind == EntryKind::Tree);
            if components(stubs[i]) == components(flat[j]) {
                lemma_same_parts(stubs[i], flat[j]);
            }
        }
    }
    law_tree_shows_its_directories(flat, stubs, None, path);
    if leads_to_listed(flat, None, path) {
        let i = choose|i: int|
            0 <= i < flat.len() && goes_beyond(components(#[trigger] flat[i]), path);
        lemma_flat(entries, request, flat[i]);
        assert(flat.contains(flat[i]));
        assert(is_asked_for(entries, history, request, flat[i]));
    }
    if leads_to_stub(stubs, path) {
        let i = choose|i: int|
            0 <= i < stubs.len() && (components(#[trigger] stubs[i]) == path || goes_beyond(
                components(stubs[i]),
                path,
            ));
        assert(stubs.contains(stubs[i]));
        lemma_found_folder(entries, texts(needles@), depth, hidden, stubs[i]);
    }
    if exists|file: Seq<char>| #[trigger]
        is_asked_for(entries, history, request, file) && goes_beyond(components(file), path) {
        let file = choose|file: Seq<char>| #[trigger]
            is_asked_for(entries, history, request, file) && goes_beyond(components(file), path);
        lemma_flat(entries, request, file);
        let i = choose|i: int| 0 <= i < flat.len() && flat[i] == file;
        assert(goes_beyond(components(flat[i]), path));
    }
    if exists|folder: Seq<char>| #[trigger]
        is_shown_folder(entries, texts(needles@), depth, hidden, folder) && (components(folder)
            == path || goes_beyond(components(folder), path)) {
        let folder = choose|folder: Seq<char>| #[trigger]
            is_shown_folder(entries, texts(needles@), depth, hidden, folder) && (components(folder)
                == path || goes_beyond(components(folder), path));
        lemma_found_folder(entries, texts(needles@), depth, hidden, folder);
        let i = choose|i: int| 0 <= i < stubs.len() && stubs[i] == folder;
        assert(components(stubs[i]) == path || goes_beyond(components(stubs[i]), path));
    }
}

} // verus!
