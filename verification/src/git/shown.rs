//! What a listing shows at every depth.
use vstd::prelude::*;
use crate::git::dates::{is_retained, retained, Dated, DateFilter};
use crate::git::listing::{
    by_name, empty_directories, end_directories, entries_inside, filled, finds_directory,
    finds_file, first_level, in_stored_order, is_root_entry, is_selection, lemma_selected,
    listing_level, listing_page, listing_root, order_before, ordered, plain_files, prefix_text,
    selected, selected_tree, shown_files, shown_tree, shows_file, with_ordered_children,
    ListingRequest, OrderOptions,
};
use crate::git::model::{stored_order_in, Entry, EntryKind, StoredBlob};
use crate::git::tree::{
    arranged, arranges_to, components, depth_model, has_name, lemma_arranged_contains, lemma_name_slot, name_of,
    name_slot, put, tree_of, with_directory, with_file, with_files, with_stub, with_stubs, Node,
};
use crate::order::{child_path, is_index_path, leaf_of, ORDER_FILE_NAME};
use crate::sorting::{
    law_pages_follow_on, lemma_slot, more_after, page_of, page_offset, slot, stable_sorted,
};
use crate::text::{
    first_position, last_position, lemma_first_position, lemma_last_position,
    lemma_last_position_is, text_less, texts,
};

verus! {

/// Whether no file of a tree, at any depth, has a name.
pub open spec fn is_free_of(nodes: Seq<Node>, name: Seq<char>) -> bool
    decreases nodes,
{
    forall|i: int|
        0 <= i < nodes.len() ==> match #[trigger] nodes[i] {
            Node::File(file) => file != name,
            Node::Directory(_, children) => is_free_of(children, name),
        }
}

proof fn lemma_put_free(nodes: Seq<Node>, node: Node, name: Seq<char>)
    requires
        is_free_of(nodes, name),
        is_free_of(seq![node], name),
    ensures
        is_free_of(put(nodes, node), name),
{
    let slot = name_slot(nodes, name_of(node));
    let result = put(nodes, node);
    lemma_name_slot(nodes, name_of(node));
    assert(seq![node][0] == node);
    assert forall|i: int| 0 <= i < result.len() implies match #[trigger] result[i] {
        Node::File(file) => file != name,
        Node::Directory(_, children) => is_free_of(children, name),
    } by {
        if i == slot {
            assert(result[i] == node);
        } else if i < slot || has_name(nodes, name_of(node)) {
            assert(result[i] == nodes[i]);
        } else {
            assert(result[i] == nodes[i - 1]);
        }
    }
}

proof fn lemma_update_free(nodes: Seq<Node>, at: int, children: Seq<Node>, name: Seq<char>)
    requires
        0 <= at < nodes.len(),
        is_free_of(nodes, name),
        is_free_of(children, name),
    ensures
        is_free_of(nodes.update(at, Node::Directory(name_of(nodes[at]), children)), name),
{
    let result = nodes.update(at, Node::Directory(name_of(nodes[at]), children));
    assert forall|i: int| 0 <= i < result.len() implies match #[trigger] result[i] {
        Node::File(file) => file != name,
        Node::Directory(_, inner) => is_free_of(inner, name),
    } by {
        if i != at {
            assert(result[i] == nodes[i]);
        }
    }
}

proof fn lemma_directory_free(nodes: Seq<Node>, directory: Seq<char>, name: Seq<char>)
    requires
        is_free_of(nodes, name),
    ensures
        is_free_of(with_directory(nodes, directory), name),
{
    let empty = Node::Directory(directory, Seq::empty());
    assert(is_free_of(Seq::empty(), name));
    assert(is_free_of(seq![empty], name));
    lemma_put_free(nodes, empty, name);
}

proof fn lemma_with_file_free(
    nodes: Seq<Node>,
    path: Seq<Seq<char>>,
    max_depth: Option<nat>,
    depth: nat,
    name: Seq<char>,
)
    requires
        is_free_of(nodes, name),
        path.len() > 0 ==> path.last() != name,
    ensures
        is_free_of(with_file(nodes, path, max_depth, depth), name),
    decreases path.len(),
{
    if path.len() == 1 {
        assert(is_free_of(seq![Node::File(path[0])], name));
        lemma_put_free(nodes, Node::File(path[0]), name);
    } else if path.len() > 1 {
        lemma_directory_free(nodes, path[0], name);
        assert(path.skip(1).last() == path.last());
        assert(is_free_of(Seq::empty(), name));
        lemma_with_file_free(Seq::empty(), path.skip(1), max_depth, depth + 1, name);
        let made = Node::Directory(
            path[0],
            with_file(Seq::empty(), path.skip(1), max_depth, depth + 1),
        );
        assert(is_free_of(seq![made], name));
        lemma_put_free(nodes, made, name);
        let slot = name_slot(nodes, path[0]);
        lemma_name_slot(nodes, path[0]);
        if has_name(nodes, path[0]) {
            if let Node::Directory(_, children) = nodes[slot] {
                lemma_with_file_free(children, path.skip(1), max_depth, depth + 1, name);
                lemma_update_free(
                    nodes,
                    slot,
                    with_file(children, path.skip(1), max_depth, depth + 1),
                    name,
                );
            }
        }
    }
}

proof fn lemma_with_stub_free(nodes: Seq<Node>, path: Seq<Seq<char>>, name: Seq<char>)
    requires
        is_free_of(nodes, name),
    ensures
        is_free_of(with_stub(nodes, path), name),
    decreases path.len(),
{
    if path.len() > 0 {
        lemma_directory_free(nodes, path[0], name);
        assert(is_free_of(Seq::empty(), name));
        lemma_with_stub_free(Seq::empty(), path.skip(1), name);
        let made = Node::Directory(path[0], with_stub(Seq::empty(), path.skip(1)));
        assert(is_free_of(seq![made], name));
        lemma_put_free(nodes, made, name);
        let slot = name_slot(nodes, path[0]);
        lemma_name_slot(nodes, path[0]);
        if has_name(nodes, path[0]) {
            if let Node::Directory(_, children) = nodes[slot] {
                lemma_with_stub_free(children, path.skip(1), name);
                lemma_update_free(nodes, slot, with_stub(children, path.skip(1)), name);
            }
        }
    }
}

proof fn lemma_files_free(paths: Seq<Seq<char>>, max_depth: Option<nat>, name: Seq<char>)
    requires
        forall|i: int| 0 <= i < paths.len() ==> components(#[trigger] paths[i]).last() != name,
    ensures
        is_free_of(with_files(paths, max_depth), name),
    decreases paths.len(),
{
    if paths.len() > 0 {
        let init = paths.drop_last();
        assert forall|i: int| 0 <= i < init.len() implies components(#[trigger] init[i]).last()
            != name by {
            assert(init[i] == paths[i]);
        }
        lemma_files_free(init, max_depth, name);
        assert(paths[paths.len() - 1] == paths.last());
        lemma_with_file_free(
            with_files(init, max_depth),
            components(paths.last()),
            max_depth,
            1,
            name,
        );
    }
}

proof fn lemma_stubs_free(nodes: Seq<Node>, stubs: Seq<Seq<char>>, name: Seq<char>)
    requires
        is_free_of(nodes, name),
    ensures
        is_free_of(with_stubs(nodes, stubs), name),
    decreases stubs.len(),
{
    if stubs.len() > 0 {
        lemma_stubs_free(nodes, stubs.drop_last(), name);
        lemma_with_stub_free(
            with_stubs(nodes, stubs.drop_last()),
            components(stubs.last()),
            name,
        );
    }
}

proof fn lemma_arranged_free(nodes: Seq<Node>, name: Seq<char>)
    requires
        is_free_of(nodes, name),
    ensures
        is_free_of(arranged(nodes), name),
    decreases nodes,
{
    let result = arranged(nodes);
    assert forall|i: int| 0 <= i < result.len() implies match #[trigger] result[i] {
        Node::File(file) => file != name,
        Node::Directory(_, children) => is_free_of(children, name),
    } by {
        let node = result[i];
        lemma_arranged_contains(nodes, node);
        assert(result.contains(node));
        if let Node::Directory(_, _) = node {
            let x = choose|x: Node| #[trigger]
                nodes.contains(x) && arranges_to(x, node);
            let k = choose|k: int| 0 <= k < nodes.len() && nodes[k] == x;
            if let Node::Directory(_, children) = nodes[k] {
                lemma_arranged_free(children, name);
            }
        }
    }
}

proof fn lemma_tree_free(
    flat: Seq<Seq<char>>,
    stubs: Seq<Seq<char>>,
    max_depth: Option<nat>,
    name: Seq<char>,
)
    requires
        forall|i: int| 0 <= i < flat.len() ==> components(#[trigger] flat[i]).last() != name,
    ensures
        is_free_of(tree_of(flat, stubs, max_depth), name),
{
    lemma_files_free(flat, max_depth, name);
    lemma_stubs_free(with_files(flat, max_depth), stubs, name);
    lemma_arranged_free(with_stubs(with_files(flat, max_depth), stubs), name);
}

proof fn lemma_sorted_free(nodes: Seq<Node>, before: spec_fn(Node, Node) -> bool, name: Seq<char>)
    requires
        is_free_of(nodes, name),
    ensures
        is_free_of(stable_sorted(nodes, before), name),
    decreases nodes.len(),
{
    if nodes.len() > 0 {
        let init = nodes.drop_last();
        let last = nodes.last();
        assert forall|i: int| 0 <= i < init.len() implies match #[trigger] init[i] {
            Node::File(file) => file != name,
            Node::Directory(_, children) => is_free_of(children, name),
        } by {
            assert(init[i] == nodes[i]);
        }
        lemma_sorted_free(init, before, name);
        let sorted = stable_sorted(init, before);
        let at = slot(sorted, last, before);
        lemma_slot(sorted, last, before);
        let result = stable_sorted(nodes, before);
        assert(nodes[nodes.len() - 1] == last);
        assert forall|i: int| 0 <= i < result.len() implies match #[trigger] result[i] {
            Node::File(file) => file != name,
            Node::Directory(_, children) => is_free_of(children, name),
        } by {
            if i < at {
                assert(result[i] == sorted[i]);
            } else if i > at {
                assert(result[i] == sorted[i - 1]);
            }
        }
    }
}

proof fn lemma_stored_order_free(
    stored: Option<Seq<Seq<char>>>,
    nodes: Seq<Node>,
    implicit: Option<i64>,
    name: Seq<char>,
)
    requires
        is_free_of(nodes, name),
    ensures
        is_free_of(in_stored_order(stored, nodes, implicit), name),
{
    if let Some(order) = stored {
        lemma_sorted_free(
            nodes,
            |left: Node, right: Node| order_before(order, implicit, left, right),
            name,
        );
    }
}

proof fn lemma_children_free(
    tree: Seq<Entry>,
    blobs: Seq<StoredBlob>,
    directory: Seq<char>,
    nodes: Seq<Node>,
    implicit: Option<i64>,
    name: Seq<char>,
)
    requires
        is_free_of(nodes, name),
    ensures
        is_free_of(with_ordered_children(tree, blobs, directory, nodes, implicit), name),
    decreases nodes, 0nat,
{
    if nodes.len() > 0 {
        let init = nodes.drop_last();
        let last = nodes.last();
        assert forall|i: int| 0 <= i < init.len() implies match #[trigger] init[i] {
            Node::File(file) => file != name,
            Node::Directory(_, children) => is_free_of(children, name),
        } by {
            assert(init[i] == nodes[i]);
        }
        lemma_children_free(tree, blobs, directory, init, implicit, name);
        assert(nodes[nodes.len() - 1] == last);
        let before = with_ordered_children(tree, blobs, directory, init, implicit);
        let result = with_ordered_children(tree, blobs, directory, nodes, implicit);
        if let Node::Directory(inner, children) = last {
            lemma_ordered_free(
                tree,
                blobs,
                child_path(directory, inner),
                children,
                implicit,
                name,
            );
        }
        assert forall|i: int| 0 <= i < result.len() implies match #[trigger] result[i] {
            Node::File(file) => file != name,
            Node::Directory(_, children) => is_free_of(children, name),
        } by {
            if i < before.len() {
                assert(result[i] == before[i]);
            }
        }
    }
}

proof fn lemma_ordered_free(
    tree: Seq<Entry>,
    blobs: Seq<StoredBlob>,
    directory: Seq<char>,
    nodes: Seq<Node>,
    implicit: Option<i64>,
    name: Seq<char>,
)
    requires
        is_free_of(nodes, name),
    ensures
        is_free_of(ordered(tree, blobs, directory, nodes, implicit), name),
    decreases nodes, 1nat,
{
    lemma_children_free(tree, blobs, directory, nodes, implicit, name);
    lemma_stored_order_free(
        stored_order_in(tree, blobs, directory),
        with_ordered_children(tree, blobs, directory, nodes, implicit),
        implicit,
        name,
    );
}

/// The last part of a path is its leaf name.
proof fn lemma_last_component(path: Seq<char>)
    ensures
        components(path).len() > 0,
        components(path).last() == leaf_of(path),
    decreases path.len(),
{
    let slash = first_position(path, '/');
    lemma_first_position(path, '/');
    lemma_last_position(path, '/');
    if slash < path.len() {
        let rest = path.skip(slash + 1);
        lemma_last_component(rest);
        lemma_last_position(rest, '/');
        let within = last_position(rest, '/');
        let position = slash + 1 + within;
        assert forall|i: int| position < i < path.len() implies path[i] != '/' by {
            assert(path[i] == rest[i - slash - 1]);
        }
        if within >= 0 {
            assert(path[position] == rest[within]);
        }
        lemma_last_position_is(path, '/', position);
        assert(leaf_of(path) =~= leaf_of(rest));
    } else {
        if last_position(path, '/') >= 0 {
            assert(path[last_position(path, '/')] == '/');
        }
        assert(leaf_of(path) =~= path);
    }
}

/// Where no path is one of an order index, no last part is the name of one.
proof fn lemma_no_index_parts(paths: Seq<Seq<char>>)
    requires
        forall|i: int| 0 <= i < paths.len() ==> !is_index_path(#[trigger] paths[i]),
    ensures
        forall|i: int|
            0 <= i < paths.len() ==> components(#[trigger] paths[i]).last() != ORDER_FILE_NAME@,
{
    assert forall|i: int| 0 <= i < paths.len() implies components(#[trigger] paths[i]).last()
        != ORDER_FILE_NAME@ by {
        lemma_last_component(paths[i]);
    }
}

proof fn lemma_selected_without_index(entries: Seq<Entry>, wanted: spec_fn(Entry) -> bool)
    requires
        forall|entry: Entry| #[trigger] wanted(entry) ==> !is_index_path(entry.path),
    ensures
        forall|i: int|
            0 <= i < selected(entries, wanted).len() ==> !is_index_path(
                #[trigger] selected(entries, wanted)[i],
            ),
{
    let paths = selected(entries, wanted);
    assert forall|i: int| 0 <= i < paths.len() implies !is_index_path(#[trigger] paths[i]) by {
        assert(paths.contains(paths[i]));
        lemma_selected(entries, wanted, paths[i]);
    }
}

proof fn lemma_shown_tree_free(entries: Seq<Entry>, maximum_depth: Option<nat>, hidden: bool)
    ensures
        is_free_of(shown_tree(entries, maximum_depth, hidden), ORDER_FILE_NAME@),
{
    let shows = |entry: Entry| shows_file(entry, maximum_depth, hidden);
    lemma_selected_without_index(entries, shows);
    lemma_no_index_parts(shown_files(entries, maximum_depth, hidden));
    lemma_tree_free(
        shown_files(entries, maximum_depth, hidden),
        end_directories(entries, maximum_depth, hidden),
        maximum_depth,
        ORDER_FILE_NAME@,
    );
}

proof fn lemma_retained_without_index(
    history: Seq<Dated>,
    prefix: Seq<char>,
    paths: Seq<Seq<char>>,
    filter: DateFilter,
)
    requires
        forall|i: int| 0 <= i < paths.len() ==> !is_index_path(#[trigger] paths[i]),
    ensures
        forall|i: int|
            0 <= i < retained(history, prefix, paths, filter).len() ==> !is_index_path(
                #[trigger] retained(history, prefix, paths, filter)[i],
            ),
{
    let kept = retained(history, prefix, paths, filter);
    let keeps = |path: Seq<char>| is_retained(history, child_path(prefix, path), filter);
    assert forall|i: int| 0 <= i < kept.len() implies !is_index_path(#[trigger] kept[i]) by {
        assert(kept.contains(kept[i]));
        paths.lemma_filter_contains_rev(keeps, kept[i]);
        let k = choose|k: int| 0 <= k < paths.len() && paths[k] == kept[i];
        assert(!is_index_path(paths[k]));
    }
}

proof fn lemma_selected_tree_free(
    entries: Seq<Entry>,
    history: Seq<Dated>,
    request: ListingRequest,
)
    ensures
        is_free_of(selected_tree(entries, history, request), ORDER_FILE_NAME@),
{
    let depth = depth_model(request.maximum_depth);
    let hidden = request.include_hidden_files;
    let flat = match request.file_name_starts_with {
        Some(needles) => selected(
            entries,
            |entry: Entry| finds_file(entry, texts(needles@), depth, hidden),
        ),
        None => shown_files(entries, depth, hidden),
    };
    match request.file_name_starts_with {
        Some(needles) => lemma_selected_without_index(
            entries,
            |entry: Entry| finds_file(entry, texts(needles@), depth, hidden),
        ),
        None => lemma_selected_without_index(
            entries,
            |entry: Entry| shows_file(entry, depth, hidden),
        ),
    }
    match request.date_filter {
        Some(filter) => {
            let kept = retained(history, prefix_text(request), flat, filter);
            lemma_retained_without_index(history, prefix_text(request), flat, filter);
            lemma_no_index_parts(kept);
            lemma_tree_free(kept, Seq::empty(), None, ORDER_FILE_NAME@);
        },
        None => {
            lemma_no_index_parts(flat);
            lemma_tree_free(
                flat,
                selected(
                    entries,
                    |entry: Entry|
                        finds_directory(
                            entry,
                            texts(request.file_name_starts_with->0@),
                            depth,
                            hidden,
                        ),
                ),
                None,
                ORDER_FILE_NAME@,
            );
        },
    }
}

proof fn lemma_first_level_free(entries: Seq<Entry>, hidden: bool)
    ensures
        is_free_of(first_level(entries, hidden), ORDER_FILE_NAME@),
{
    let by = |left: Node, right: Node| text_less(name_of(left), name_of(right));
    let folders = selected(entries, |entry: Entry| is_root_entry(entry, EntryKind::Tree, hidden));
    let is_file = |entry: Entry| is_root_entry(entry, EntryKind::Blob, hidden);
    let files = selected(entries, is_file);
    assert(is_free_of(Seq::empty(), ORDER_FILE_NAME@));
    assert(is_free_of(empty_directories(folders), ORDER_FILE_NAME@));
    assert(is_free_of(plain_files(files), ORDER_FILE_NAME@)) by {
        assert forall|i: int| 0 <= i < files.len() implies #[trigger] files[i] != ORDER_FILE_NAME@ by {
            assert(files.contains(files[i]));
            lemma_selected(entries, is_file, files[i]);
            lemma_last_component(files[i]);
            let k = choose|k: int|
                0 <= k < entries.len() && is_file(#[trigger] entries[k]) && entries[k].path
                    == files[i];
            lemma_first_position(files[i], '/');
            assert(components(files[i]).len() == 1);
            if first_position(files[i], '/') < files[i].len() {
                lemma_last_component(files[i].skip(first_position(files[i], '/') + 1));
            }
        }
    }
    lemma_sorted_free(empty_directories(folders), by, ORDER_FILE_NAME@);
    lemma_sorted_free(plain_files(files), by, ORDER_FILE_NAME@);
    let first = by_name(empty_directories(folders));
    let second = by_name(plain_files(files));
    assert forall|i: int| 0 <= i < (first + second).len() implies match #[trigger] (first
        + second)[i] {
        Node::File(file) => file != ORDER_FILE_NAME@,
        Node::Directory(_, children) => is_free_of(children, ORDER_FILE_NAME@),
    } by {
        if i < first.len() {
            assert((first + second)[i] == first[i]);
        } else {
            assert((first + second)[i] == second[i - first.len()]);
        }
    }
}

proof fn lemma_level_free(
    tree: Seq<Entry>,
    blobs: Seq<StoredBlob>,
    history: Seq<Dated>,
    request: ListingRequest,
)
    ensures
        is_free_of(listing_level(tree, blobs, history, request), ORDER_FILE_NAME@),
{
    let entries = listing_root(tree, prefix_text(request));
    if is_selection(request) {
        let nodes = selected_tree(entries, history, request);
        lemma_selected_tree_free(entries, history, request);
        if let Some(options) = request.order_options {
            lemma_ordered_free(
                entries,
                blobs,
                Seq::empty(),
                nodes,
                options.implicit_default_index,
                ORDER_FILE_NAME@,
            );
        }
    } else {
        let level = first_level(entries, request.include_hidden_files);
        lemma_first_level_free(entries, request.include_hidden_files);
        if let Some(options) = request.order_options {
            lemma_stored_order_free(
                stored_order_in(entries, blobs, Seq::empty()),
                level,
                options.implicit_default_index,
                ORDER_FILE_NAME@,
            );
        }
    }
}

proof fn lemma_filled_free(
    entries: Seq<Entry>,
    blobs: Seq<StoredBlob>,
    maximum_depth: Option<nat>,
    hidden: bool,
    order_options: Option<OrderOptions>,
    node: Node,
)
    requires
        node is Directory,
    ensures
        filled(
            entries,
            blobs,
            maximum_depth,
            hidden,
            order_options,
            node,
        ) matches Node::Directory(_, children) && is_free_of(children, ORDER_FILE_NAME@),
{
    let name = name_of(node);
    let children = if maximum_depth == Some(1nat) {
        Seq::empty()
    } else {
        shown_tree(
            entries_inside(entries, name),
            match maximum_depth {
                Some(maximum) => Some((maximum - 1) as nat),
                None => None,
            },
            hidden,
        )
    };
    if maximum_depth != Some(1nat) {
        lemma_shown_tree_free(
            entries_inside(entries, name),
            match maximum_depth {
                Some(maximum) => Some((maximum - 1) as nat),
                None => None,
            },
            hidden,
        );
    }
    assert(is_free_of(children, ORDER_FILE_NAME@));
    if let Some(options) = order_options {
        lemma_ordered_free(
            entries,
            blobs,
            name,
            children,
            options.implicit_default_index,
            ORDER_FILE_NAME@,
        );
    }
}

/// No page of a listing has an order index among its files, at any depth,
/// whether hidden files are shown or not.
pub proof fn law_listing_has_no_index(
    tree: Seq<Entry>,
    blobs: Seq<StoredBlob>,
    history: Seq<Dated>,
    request: ListingRequest,
)
    ensures
        is_free_of(listing_page(tree, blobs, history, request), ORDER_FILE_NAME@),
{
    let entries = listing_root(tree, prefix_text(request));
    let depth = depth_model(request.maximum_depth);
    let hidden = request.include_hidden_files;
    let level = listing_level(tree, blobs, history, request);
    let nodes = page_of(level, request.page as nat, request.per_page as nat);
    let result = listing_page(tree, blobs, history, request);
    lemma_level_free(tree, blobs, history, request);
    assert forall|i: int| 0 <= i < result.len() implies match #[trigger] result[i] {
        Node::File(file) => file != ORDER_FILE_NAME@,
        Node::Directory(_, children) => is_free_of(children, ORDER_FILE_NAME@),
    } by {
        let offset = page_offset(
            level.len(),
            request.page as nat,
            request.per_page as nat,
        );
        assert(nodes[i] == level[offset + i]);
        if !is_selection(request) {
            assert(result[i] == filled(
                entries,
                blobs,
                depth,
                hidden,
                request.order_options,
                nodes[i],
            ));
            if nodes[i] is Directory {
                lemma_filled_free(entries, blobs, depth, hidden, request.order_options, nodes[i]);
            }
        }
    }
}

/// Whether two requests ask for the same listing, on whatever page.
pub open spec fn is_same_listing(left: ListingRequest, right: ListingRequest) -> bool {
    &&& left.path_prefix == right.path_prefix
    &&& left.maximum_depth == right.maximum_depth
    &&& left.include_hidden_files == right.include_hidden_files
    &&& left.file_name_starts_with == right.file_name_starts_with
    &&& left.date_filter == right.date_filter
    &&& left.order_options == right.order_options
}

/// The pages of a listing are the parts of the listing as a whole, which is
/// its first page where that is large enough; more follow until its end.
pub proof fn law_pages_are_of_the_whole(
    tree: Seq<Entry>,
    blobs: Seq<StoredBlob>,
    history: Seq<Dated>,
    request: ListingRequest,
    whole: ListingRequest,
)
    requires
        request.page >= 1,
        is_same_listing(request, whole),
        whole.page == 1,
        whole.per_page >= listing_level(tree, blobs, history, request).len(),
    ensures
        ({
            let all = listing_page(tree, blobs, history, whole);
            let start = (request.page - 1) * request.per_page;
            let end = request.page * request.per_page;
            let count = all.len() as int;
            &&& listing_page(tree, blobs, history, request) == all.subrange(
                if start < count {
                    start
                } else {
                    count
                },
                if end < count {
                    end
                } else {
                    count
                },
            )
            &&& more_after(
                listing_level(tree, blobs, history, request).len(),
                request.page as nat,
                request.per_page as nat,
            ) <==> count > end
        }),
{
    let level = listing_level(tree, blobs, history, request);
    let all = listing_page(tree, blobs, history, whole);
    let page = request.page as nat;
    let per_page = request.per_page as nat;
    assert(listing_level(tree, blobs, history, whole) == level);
    law_pages_follow_on(level, page, per_page);
    law_pages_follow_on(level, 1, whole.per_page as nat);
    assert(1 * (whole.per_page as int) == whole.per_page);
    assert(page_of(level, 1, whole.per_page as nat) =~= level);
    assert(page * per_page == (page - 1) * per_page + per_page) by (nonlinear_arith);
    assert((page - 1) * per_page >= 0) by (nonlinear_arith)
        requires
            1 <= page,
    ;
    let count = all.len() as int;
    assert(all.len() == level.len());
    let start = if (page - 1) * per_page < count {
        (page - 1) * per_page
    } else {
        count
    };
    let end = if page * per_page < count {
        (page * per_page) as int
    } else {
        count
    };
    assert(page_of(level, page, per_page) == level.subrange(start, end));
    assert(listing_page(tree, blobs, history, request) =~= all.subrange(start, end));
}

} // verus!
