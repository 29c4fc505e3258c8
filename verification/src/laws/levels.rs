//! What a listing of everything shows, level by level.
use vstd::prelude::*;
use crate::git::dates::Dated;
use crate::git::files::is_inside;
use crate::git::listing::{
    by_name, empty_directories, entries_inside, filled, first_level, in_stored_order, is_root_entry,
    lemma_selected, listing_level, listing_page, listing_root, order_before, ordered, plain_files,
    prefix_text, selected, shown_files, shown_tree, with_ordered_children, ListingRequest,
    OrderOptions,
};
use crate::git::model::{stored_order_in, Entry, EntryKind, StoredBlob};
use crate::git::tree::{
    components, depth_model, goes_beyond, holds_file, is_made, law_tree_shows_its_files,
    leads_to_file, name_of, Node,
};
use crate::laws::paths::law_parts_make_the_path;
use crate::laws::showing::{
    files_are_apart, has_file, has_folder, is_dotted, is_in_sight, law_files_in_sight_are_shown,
    lemma_files_prefix_free, lemma_lists_path, lemma_sight,
};
use crate::order::{child_path, leaf_of};
use crate::sorting::{lemma_sorted_keeps_items, page_of, stable_sorted};
use crate::text::text_less;

verus! {

proof fn lemma_sorted_contains<T>(items: Seq<T>, before: spec_fn(T, T) -> bool, item: T)
    ensures
        stable_sorted(items, before).contains(item) <==> items.contains(item),
{
    lemma_sorted_keeps_items(items, before);
    let sorted = stable_sorted(items, before);
    broadcast use vstd::seq_lib::group_to_multiset_ensures;

    assert(sorted.contains(item) <==> sorted.to_multiset().count(item) > 0);
    assert(items.contains(item) <==> items.to_multiset().count(item) > 0);
}

proof fn lemma_sorted_holds(
    nodes: Seq<Node>,
    before: spec_fn(Node, Node) -> bool,
    path: Seq<Seq<char>>,
)
    ensures
        holds_file(stable_sorted(nodes, before), path) <==> holds_file(nodes, path),
{
    let sorted = stable_sorted(nodes, before);
    if path.len() > 0 {
        if holds_file(sorted, path) {
            let node = choose|node: Node| #[trigger]
                sorted.contains(node) && name_of(node) == path[0] && leads_to_file(node, path);
            lemma_sorted_contains(nodes, before, node);
            assert(nodes.contains(node));
        }
        if holds_file(nodes, path) {
            let node = choose|node: Node| #[trigger]
                nodes.contains(node) && name_of(node) == path[0] && leads_to_file(node, path);
            lemma_sorted_contains(nodes, before, node);
            assert(sorted.contains(node));
        }
    }
}

proof fn lemma_stored_order_holds(
    stored: Option<Seq<Seq<char>>>,
    nodes: Seq<Node>,
    implicit: Option<i64>,
    path: Seq<Seq<char>>,
)
    ensures
        holds_file(in_stored_order(stored, nodes, implicit), path) <==> holds_file(nodes, path),
{
    if let Some(order) = stored {
        lemma_sorted_holds(
            nodes,
            |left: Node, right: Node| order_before(order, implicit, left, right),
            path,
        );
    }
}

proof fn lemma_holds_last(nodes: Seq<Node>, path: Seq<Seq<char>>)
    requires
        nodes.len() > 0,
        path.len() > 0,
    ensures
        holds_file(nodes, path) <==> holds_file(nodes.drop_last(), path) || (name_of(nodes.last())
            == path[0] && leads_to_file(nodes.last(), path)),
{
    let init = nodes.drop_last();
    if holds_file(nodes, path) {
        let node = choose|node: Node| #[trigger]
            nodes.contains(node) && name_of(node) == path[0] && leads_to_file(node, path);
        let i = choose|i: int| 0 <= i < nodes.len() && nodes[i] == node;
        if i < init.len() {
            assert(init[i] == node);
            assert(init.contains(node));
        }
    }
    if holds_file(init, path) {
        let node = choose|node: Node| #[trigger]
            init.contains(node) && name_of(node) == path[0] && leads_to_file(node, path);
        let i = choose|i: int| 0 <= i < init.len() && init[i] == node;
        assert(nodes[i] == node);
        assert(nodes.contains(node));
    }
    assert(nodes[nodes.len() - 1] == nodes.last());
    assert(nodes.contains(nodes.last()));
}

proof fn lemma_children_hold(
    tree: Seq<Entry>,
    blobs: Seq<StoredBlob>,
    directory: Seq<char>,
    nodes: Seq<Node>,
    implicit: Option<i64>,
    path: Seq<Seq<char>>,
)
    ensures
        holds_file(with_ordered_children(tree, blobs, directory, nodes, implicit), path)
            <==> holds_file(nodes, path),
    decreases nodes, 0nat,
{
    let result = with_ordered_children(tree, blobs, directory, nodes, implicit);
    if nodes.len() > 0 && path.len() > 0 {
        let init = nodes.drop_last();
        lemma_children_hold(tree, blobs, directory, init, implicit, path);
        lemma_holds_last(nodes, path);
        lemma_holds_last(result, path);
        let before = with_ordered_children(tree, blobs, directory, init, implicit);
        assert(result.drop_last() =~= before);
        match nodes.last() {
            Node::File(_) => {},
            Node::Directory(name, children) => {
                if path.len() > 1 {
                    lemma_ordered_holds(
                        tree,
                        blobs,
                        child_path(directory, name),
                        children,
                        implicit,
                        path.skip(1),
                    );
                }
            },
        }
    } else {
        assert(nodes.len() == 0 ==> result =~= nodes);
    }
}

/// Putting nodes into their stored order neither adds nor drops a file.
proof fn lemma_ordered_holds(
    tree: Seq<Entry>,
    blobs: Seq<StoredBlob>,
    directory: Seq<char>,
    nodes: Seq<Node>,
    implicit: Option<i64>,
    path: Seq<Seq<char>>,
)
    ensures
        holds_file(ordered(tree, blobs, directory, nodes, implicit), path) <==> holds_file(
            nodes,
            path,
        ),
    decreases nodes, 1nat,
{
    lemma_children_hold(tree, blobs, directory, nodes, implicit, path);
    lemma_stored_order_holds(
        stored_order_in(tree, blobs, directory),
        with_ordered_children(tree, blobs, directory, nodes, implicit),
        implicit,
        path,
    );
}

/// What lies inside a folder are the entries whose path goes on behind it, by
/// what they go on with.
pub proof fn law_inside_is_what_goes_on(
    tree: Seq<Entry>,
    directory: Seq<char>,
    path: Seq<char>,
    kind: EntryKind,
    oid: Seq<char>,
)
    ensures
        entries_inside(tree, directory).contains(Entry { path, kind, oid }) <==> tree.contains(
            Entry { path: directory + seq!['/'] + path, kind, oid },
        ),
    decreases tree.len(),
{
    reveal_strlit("/");
    assert("/"@ =~= seq!['/']);
    let wanted = Entry { path, kind, oid };
    let full = Entry { path: directory + seq!['/'] + path, kind, oid };
    let inside = entries_inside(tree, directory);
    if tree.len() > 0 {
        let init = tree.drop_last();
        let last = tree.last();
        let before = entries_inside(init, directory);
        law_inside_is_what_goes_on(init, directory, path, kind, oid);
        assert(tree[tree.len() - 1] == last);
        if is_inside(last.path, directory) {
            assert(last.path =~= directory + seq!['/'] + last.path.skip(directory.len() as int + 1));
        }
        assert(full.path.skip(directory.len() as int + 1) =~= path);
        assert(is_inside(full.path, directory)) by {
            assert(full.path.subrange(0, directory.len() as int + 1) =~= directory + "/"@);
        }
        if inside.contains(wanted) {
            let i = choose|i: int| 0 <= i < inside.len() && inside[i] == wanted;
            if i < before.len() {
                assert(before[i] == wanted);
                assert(before.contains(wanted));
                let k = choose|k: int| 0 <= k < init.len() && init[k] == full;
                assert(tree[k] == full);
            } else {
                assert(last == full);
                assert(tree[tree.len() - 1] == full);
            }
        }
        if tree.contains(full) {
            let k = choose|k: int| 0 <= k < tree.len() && tree[k] == full;
            if k < init.len() {
                assert(init[k] == full);
                assert(before.contains(wanted));
                let i = choose|i: int| 0 <= i < before.len() && before[i] == wanted;
                assert(inside[i] == wanted);
            } else {
                assert(inside.last() == wanted);
                assert(inside[inside.len() - 1] == wanted);
            }
        }
    }
}

/// The parts of what lies in a folder are the folder and what it goes on with.
proof fn lemma_parts_inside(folder: Seq<char>, rest: Seq<char>)
    requires
        !folder.contains('/'),
    ensures
        components(folder + seq!['/'] + rest) == seq![folder] + components(rest),
{
    let path = folder + seq!['/'] + rest;
    let slash = crate::text::first_position(path, '/');
    crate::text::lemma_first_position(path, '/');
    assert(path[folder.len() as int] == '/');
    if slash < folder.len() {
        assert(path[slash] == folder[slash]);
        assert(folder[slash] == '/');
    }
    assert(slash == folder.len());
    assert(path.take(slash) =~= folder);
    assert(path.skip(slash + 1) =~= rest);
}

/// Whether every file of a tree that lies in a folder has the first folder of
/// its path in the tree.
pub open spec fn has_its_folders(entries: Seq<Entry>) -> bool {
    forall|i: int|
        0 <= i < entries.len() && (#[trigger] entries[i]).kind == EntryKind::Blob && components(
            entries[i].path,
        ).len() > 1 ==> has_folder(entries, components(entries[i].path)[0])
}

proof fn lemma_inside_apart(entries: Seq<Entry>, folder: Seq<char>)
    requires
        files_are_apart(entries),
        !folder.contains('/'),
    ensures
        files_are_apart(entries_inside(entries, folder)),
{
    let inside = entries_inside(entries, folder);
    assert forall|i: int, j: int|
        0 <= i < inside.len() && 0 <= j < inside.len() && (#[trigger] inside[i]).kind
            == EntryKind::Blob && (#[trigger] inside[j]).kind == EntryKind::Blob implies !goes_beyond(
        components(inside[i].path),
        components(inside[j].path),
    ) by {
        law_inside_is_what_goes_on(
            entries,
            folder,
            inside[i].path,
            inside[i].kind,
            inside[i].oid,
        );
        law_inside_is_what_goes_on(
            entries,
            folder,
            inside[j].path,
            inside[j].kind,
            inside[j].oid,
        );
        assert(inside.contains(inside[i]) && inside.contains(inside[j]));
        let left = Entry {
            path: folder + seq!['/'] + inside[i].path,
            kind: inside[i].kind,
            oid: inside[i].oid,
        };
        let right = Entry {
            path: folder + seq!['/'] + inside[j].path,
            kind: inside[j].kind,
            oid: inside[j].oid,
        };
        let a = choose|a: int| 0 <= a < entries.len() && entries[a] == left;
        let b = choose|b: int| 0 <= b < entries.len() && entries[b] == right;
        assert(!goes_beyond(components(entries[a].path), components(entries[b].path)));
        lemma_parts_inside(folder, inside[i].path);
        lemma_parts_inside(folder, inside[j].path);
        let longer = components(inside[i].path);
        let shorter = components(inside[j].path);
        if goes_beyond(longer, shorter) {
            let whole = components(left.path);
            let short = components(right.path);
            assert(short =~= whole.take(short.len() as int)) by {
                assert forall|k: int| 0 <= k < short.len() implies short[k] == whole[k] by {
                    if k > 0 {
                        assert(short[k] == shorter[k - 1]);
                        assert(whole[k] == longer[k - 1]);
                        assert(shorter[k - 1] == longer.take(shorter.len() as int)[k - 1]);
                    }
                }
            }
            assert(goes_beyond(whole, short));
        }
    }
}

proof fn lemma_has_file_inside(entries: Seq<Entry>, folder: Seq<char>, rest: Seq<char>)
    ensures
        has_file(entries_inside(entries, folder), rest) <==> has_file(
            entries,
            folder + seq!['/'] + rest,
        ),
{
    let inside = entries_inside(entries, folder);
    let path = folder + seq!['/'] + rest;
    if has_file(inside, rest) {
        let i = choose|i: int|
            0 <= i < inside.len() && (#[trigger] inside[i]).kind == EntryKind::Blob
                && inside[i].path == rest;
        law_inside_is_what_goes_on(entries, folder, rest, EntryKind::Blob, inside[i].oid);
        assert(inside.contains(inside[i]));
        let full = Entry { path, kind: EntryKind::Blob, oid: inside[i].oid };
        let k = choose|k: int| 0 <= k < entries.len() && entries[k] == full;
        assert(entries[k].kind == EntryKind::Blob);
    }
    if has_file(entries, path) {
        let k = choose|k: int|
            0 <= k < entries.len() && (#[trigger] entries[k]).kind == EntryKind::Blob
                && entries[k].path == path;
        law_inside_is_what_goes_on(entries, folder, rest, EntryKind::Blob, entries[k].oid);
        assert(entries.contains(entries[k]));
        let part = Entry { path: rest, kind: EntryKind::Blob, oid: entries[k].oid };
        let i = choose|i: int| 0 <= i < inside.len() && inside[i] == part;
        assert(inside[i].kind == EntryKind::Blob);
    }
}

/// What a folder of the first level shows: the files in sight inside it.
proof fn lemma_filled_holds(
    entries: Seq<Entry>,
    blobs: Seq<StoredBlob>,
    depth: Option<nat>,
    hidden: bool,
    options: Option<OrderOptions>,
    node: Node,
    folder: Seq<char>,
    rest: Seq<char>,
)
    requires
        files_are_apart(entries),
        !folder.contains('/'),
        depth != Some(0nat),
        node matches Node::Directory(name, _) && name == folder,
        hidden || !is_dotted(folder),
    ensures
        ({
            let path = folder + seq!['/'] + rest;
            leads_to_file(filled(entries, blobs, depth, hidden, options, node), components(path))
                <==> has_file(entries, path) && is_in_sight(path, depth, hidden) && leaf_of(path)
                != ".order.json"@
        }),
{
    let path = folder + seq!['/'] + rest;
    let inside = entries_inside(entries, folder);
    let parts = components(rest);
    lemma_parts_inside(folder, rest);
    law_parts_make_the_path(rest);
    law_parts_make_the_path(path);
    assert(components(path).skip(1) =~= parts);
    assert(leaf_of(path) == leaf_of(rest));
    let below = match depth {
        Some(levels) => Some((levels - 1) as nat),
        None => None,
    };
    let children = if depth == Some(1nat) {
        Seq::empty()
    } else {
        shown_tree(inside, below, hidden)
    };
    if let Some(chosen) = options {
        lemma_ordered_holds(
            entries,
            blobs,
            folder,
            children,
            chosen.implicit_default_index,
            parts,
        );
    }
    assert(is_in_sight(path, depth, hidden) <==> depth != Some(1nat) && is_in_sight(
        rest,
        below,
        hidden,
    )) by {
        let whole = components(path);
        assert(whole[0] == folder);
        if !hidden && is_in_sight(path, depth, hidden) {
            assert forall|i: int| 0 <= i < parts.len() implies !is_dotted(#[trigger] parts[i]) by {
                assert(parts[i] == whole[i + 1]);
            }
        }
        if !hidden && is_in_sight(rest, below, hidden) {
            assert forall|i: int| 0 <= i < whole.len() implies !is_dotted(#[trigger] whole[i]) by {
                if i > 0 {
                    assert(whole[i] == parts[i - 1]);
                }
            }
        }
    }
    if depth == Some(1nat) {
        assert(!holds_file(Seq::<Node>::empty(), parts));
    } else {
        lemma_inside_apart(entries, folder);
        lemma_has_file_inside(entries, folder, rest);
        let flat = shown_files(inside, below, hidden);
        law_files_in_sight_are_shown(inside, below, hidden, rest);
        assert forall|i: int| 0 <= i < flat.len() implies has_file(inside, #[trigger] flat[i]) by {
            assert(flat.contains(flat[i]));
            law_files_in_sight_are_shown(inside, below, hidden, flat[i]);
        }
        lemma_files_prefix_free(inside, flat);
        law_tree_shows_its_files(
            flat,
            crate::git::listing::end_directories(inside, below, hidden),
            below,
            parts,
        );
        lemma_lists_path(flat, rest);
        if flat.contains(rest) {
            assert(is_made(parts.len(), below, 1));
        }
    }
}

proof fn lemma_one_part(path: Seq<char>)
    ensures
        components(path).len() == 1 <==> !path.contains('/'),
        components(path).len() == 1 ==> components(path)[0] == path,
{
    law_parts_make_the_path(path);
    if path.contains('/') {
        let rest = choose|rest: Seq<char>| #[trigger]
            (components(path)[0] + seq!['/'] + rest) == path && components(path) == seq![
                components(path)[0],
            ] + components(rest);
        law_parts_make_the_path(rest);
    }
}

/// The first level of a listing has the folders and files at the root that are
/// in sight.
proof fn lemma_first_level(entries: Seq<Entry>, hidden: bool, node: Node)
    ensures
        first_level(entries, hidden).contains(node) <==> match node {
            Node::File(name) => has_file(entries, name) && !name.contains('/') && (hidden
                || !is_dotted(name)) && leaf_of(name) != ".order.json"@,
            Node::Directory(name, children) => has_folder(entries, name) && !name.contains('/') && (
            hidden || !is_dotted(name)) && children.len() == 0,
        },
{
    let by = |left: Node, right: Node| text_less(name_of(left), name_of(right));
    let is_folder = |entry: Entry| is_root_entry(entry, EntryKind::Tree, hidden);
    let is_file = |entry: Entry| is_root_entry(entry, EntryKind::Blob, hidden);
    let folders = selected(entries, is_folder);
    let files = selected(entries, is_file);
    let a = by_name(empty_directories(folders));
    let b = by_name(plain_files(files));
    lemma_sorted_contains(empty_directories(folders), by, node);
    lemma_sorted_contains(plain_files(files), by, node);
    let name = name_of(node);
    lemma_one_part(name);
    lemma_sight(name, None, hidden);
    lemma_selected(entries, is_folder, name);
    lemma_selected(entries, is_file, name);
    assert(!name.contains('/') ==> (is_in_sight(name, None, hidden) <==> (hidden || !is_dotted(
        name,
    )))) by {
        if !name.contains('/') {
            assert(components(name)[0] == name);
        }
    }
    assert(first_level(entries, hidden).contains(node) <==> a.contains(node) || b.contains(node)) by {
        if first_level(entries, hidden).contains(node) {
            let i = choose|i: int| 0 <= i < (a + b).len() && (a + b)[i] == node;
            if i < a.len() {
                assert(a[i] == node);
            } else {
                assert(b[i - a.len()] == node);
            }
        }
        if a.contains(node) {
            let i = choose|i: int| 0 <= i < a.len() && a[i] == node;
            assert((a + b)[i] == node);
        }
        if b.contains(node) {
            let i = choose|i: int| 0 <= i < b.len() && b[i] == node;
            assert((a + b)[a.len() + i] == node);
        }
    }
    match node {
        Node::File(_) => {
            if empty_directories(folders).contains(node) {
                let i = choose|i: int|
                    0 <= i < empty_directories(folders).len() && empty_directories(folders)[i]
                        == node;
            }
            if plain_files(files).contains(node) {
                let i = choose|i: int|
                    0 <= i < plain_files(files).len() && plain_files(files)[i] == node;
                assert(files[i] == name);
                assert(files.contains(name));
                let k = choose|k: int|
                    0 <= k < entries.len() && is_file(#[trigger] entries[k]) && entries[k].path
                        == name;
                assert(entries[k].kind == EntryKind::Blob);
            }
            if has_file(entries, name) && !name.contains('/') && (hidden || !is_dotted(name))
                && leaf_of(name) != ".order.json"@ {
                let k = choose|k: int|
                    0 <= k < entries.len() && (#[trigger] entries[k]).kind == EntryKind::Blob
                        && entries[k].path == name;
                assert(is_file(entries[k]));
                let i = choose|i: int| 0 <= i < files.len() && files[i] == name;
                assert(plain_files(files)[i] == node);
            }
        },
        Node::Directory(_, children) => {
            if plain_files(files).contains(node) {
                let i = choose|i: int|
                    0 <= i < plain_files(files).len() && plain_files(files)[i] == node;
            }
            if empty_directories(folders).contains(node) {
                let i = choose|i: int|
                    0 <= i < empty_directories(folders).len() && empty_directories(folders)[i]
                        == node;
                assert(folders[i] == name);
                assert(folders.contains(name));
                let k = choose|k: int|
                    0 <= k < entries.len() && is_folder(#[trigger] entries[k]) && entries[k].path
                        == name;
                assert(entries[k].kind == EntryKind::Tree);
            }
            if has_folder(entries, name) && !name.contains('/') && (hidden || !is_dotted(name))
                && children.len() == 0 {
                let k = choose|k: int|
                    0 <= k < entries.len() && (#[trigger] entries[k]).kind == EntryKind::Tree
                        && entries[k].path == name;
                assert(is_folder(entries[k]));
                let i = choose|i: int| 0 <= i < folders.len() && folders[i] == name;
                assert(children =~= Seq::empty());
                assert(empty_directories(folders)[i] == node);
            }
        },
    }
}

/// A listing of everything, on a page that is large enough, has exactly the
/// files that are in sight, each at its path, and no index.
pub proof fn law_listing_shows_everything_in_sight(
    tree: Seq<Entry>,
    blobs: Seq<StoredBlob>,
    history: Seq<Dated>,
    request: ListingRequest,
    path: Seq<char>,
)
    requires
        request.file_name_starts_with is None,
        request.date_filter is None,
        request.page == 1,
        request.per_page >= listing_level(tree, blobs, history, request).len(),
        request.maximum_depth != Some(0usize),
        files_are_apart(listing_root(tree, prefix_text(request))),
        has_its_folders(listing_root(tree, prefix_text(request))),
    ensures
        holds_file(listing_page(tree, blobs, history, request), components(path)) <==> has_file(
            listing_root(tree, prefix_text(request)),
            path,
        ) && is_in_sight(path, depth_model(request.maximum_depth), request.include_hidden_files)
            && leaf_of(path) != ".order.json"@,
{
    let entries = listing_root(tree, prefix_text(request));
    let depth = depth_model(request.maximum_depth);
    let hidden = request.include_hidden_files;
    let options = request.order_options;
    let first = first_level(entries, hidden);
    let level = listing_level(tree, blobs, history, request);
    let nodes = page_of(level, request.page as nat, request.per_page as nat);
    let shown = listing_page(tree, blobs, history, request);
    let parts = components(path);
    crate::sorting::law_pages_follow_on(level, 1, request.per_page as nat);
    assert(1 * (request.per_page as int) == request.per_page);
    assert(nodes =~= level);
    lemma_one_part(path);
    law_parts_make_the_path(path);
    assert forall|node: Node| #[trigger] level.contains(node) <==> first.contains(node) by {
        if let Some(chosen) = options {
            if let Some(order) = stored_order_in(entries, blobs, Seq::empty()) {
                lemma_sorted_contains(
                    first,
                    |left: Node, right: Node|
                        order_before(order, chosen.implicit_default_index, left, right),
                    node,
                );
            }
        }
    }
    if holds_file(shown, parts) {
        let node = choose|node: Node| #[trigger]
            shown.contains(node) && name_of(node) == parts[0] && leads_to_file(node, parts);
        let i = choose|i: int| 0 <= i < shown.len() && shown[i] == node;
        assert(node == filled(entries, blobs, depth, hidden, options, level[i]));
        assert(level.contains(level[i]));
        lemma_first_level(entries, hidden, level[i]);
        if parts.len() == 1 {
            assert(level[i] is File);
            assert(parts[0] == path);
            lemma_sight(path, depth, hidden);
            assert(is_in_sight(path, depth, hidden));
        } else {
            let folder = parts[0];
            let rest = choose|rest: Seq<char>| #[trigger]
                (folder + seq!['/'] + rest) == path && parts == seq![folder] + components(rest);
            assert(level[i] is Directory);
            lemma_filled_holds(entries, blobs, depth, hidden, options, level[i], folder, rest);
        }
    }
    if has_file(entries, path) && is_in_sight(path, depth, hidden) && leaf_of(path)
        != ".order.json"@ {
        if parts.len() == 1 {
            let node = Node::File(path);
            assert(parts[0] == path);
            lemma_first_level(entries, hidden, node);
            assert(level.contains(node));
            let i = choose|i: int| 0 <= i < level.len() && level[i] == node;
            assert(shown[i] == filled(entries, blobs, depth, hidden, options, level[i]));
            assert(shown.contains(shown[i]));
            assert(leads_to_file(shown[i], parts));
        } else {
            let folder = parts[0];
            let rest = choose|rest: Seq<char>| #[trigger]
                (folder + seq!['/'] + rest) == path && parts == seq![folder] + components(rest);
            let k = choose|k: int|
                0 <= k < entries.len() && (#[trigger] entries[k]).kind == EntryKind::Blob
                    && entries[k].path == path;
            assert(has_folder(entries, folder));
            assert(!parts[0].contains('/'));
            let node = Node::Directory(folder, Seq::empty());
            lemma_first_level(entries, hidden, node);
            assert(level.contains(node));
            let i = choose|i: int| 0 <= i < level.len() && level[i] == node;
            lemma_filled_holds(entries, blobs, depth, hidden, options, node, folder, rest);
            assert(shown[i] == filled(entries, blobs, depth, hidden, options, level[i]));
            assert(shown.contains(shown[i]));
        }
    }
}

} // verus!
