//! The order in which things are shown, and the pages that they are cut into.
use vstd::prelude::*;
use crate::git::index::{lemma_name_position, name_position};
use crate::git::listing::{
    by_name, empty_directories, first_level, in_stored_order, is_root_entry, ordered, plain_files,
    selected, with_ordered_children,
};
use crate::git::model::{Entry, EntryKind, StoredBlob};
use crate::git::tree::{name_of, Node};
use crate::laws::ordering::{is_first_entry, lemma_lists_name, lists_name};
use crate::laws::paths::law_entry_names_without_slash;
use crate::sorting::{more_after, page_of, stable_sorted};
use crate::text::{lemma_less_irreflexive, lemma_less_total, lemma_less_transitive, text_less};

verus! {

/// A page holds its share of a list: as many items as it may, as far as there
/// are any, from where the pages before it end. More follows if the list goes
/// on after it.
pub proof fn law_page_holds_its_share<T>(items: Seq<T>, page: nat, per_page: nat)
    requires
        page >= 1,
    ensures
        ({
            let shown = page_of(items, page, per_page);
            let start = (page - 1) * per_page;
            &&& start >= items.len() ==> shown.len() == 0
            &&& start < items.len() && start + per_page <= items.len() ==> shown.len() == per_page
            &&& start < items.len() < start + per_page ==> shown.len() == items.len() - start
            &&& forall|k: int| 0 <= k < shown.len() ==> #[trigger] shown[k] == items[start + k]
            &&& start < items.len() ==> (more_after(items.len(), page, per_page) <==> items.len()
                > start + per_page)
            &&& start >= items.len() ==> !more_after(items.len(), page, per_page)
        }),
{
    assert((page - 1) * per_page >= 0) by (nonlinear_arith)
        requires
            page >= 1,
    ;
}

proof fn lemma_place(order: Seq<Seq<char>>, name: Seq<char>, place: int)
    requires
        !name.contains('/'),
        is_first_entry(order, name, place),
    ensures
        name_position(order, name) == place,
{
    let at = name_position(order, name);
    lemma_name_position(order, name);
    law_entry_names_without_slash(order[place], name);
    assert(at <= place) by {
        if place < at {
            assert(crate::order::bare_name(order[place]) != name);
        }
    }
    law_entry_names_without_slash(order[at], name);
}

proof fn lemma_same_nodes(left: Seq<Node>, right: Seq<Node>)
    requires
        left.to_multiset() == right.to_multiset(),
    ensures
        forall|node: Node| #[trigger] left.contains(node) <==> right.contains(node),
{
    left.to_multiset_ensures();
    right.to_multiset_ensures();
    assert forall|node: Node| #[trigger] left.contains(node) <==> right.contains(node) by {
        assert(left.contains(node) <==> left.to_multiset().count(node) > 0);
        assert(right.contains(node) <==> right.to_multiset().count(node) > 0);
    }
}

/// In a stored order those that it lists come as it lists them. Those that it
/// does not list come last, or else, with an index to stand in for a place,
/// after those at lower places and before the others.
pub proof fn law_stored_order_is_followed(
    order: Seq<Seq<char>>,
    nodes: Seq<Node>,
    implicit: Option<i64>,
    i: int,
    j: int,
    first: int,
    second: int,
)
    requires
        order.len() <= i64::MAX,
        0 <= i < j < nodes.len(),
        forall|k: int| 0 <= k < nodes.len() ==> !name_of(#[trigger] nodes[k]).contains('/'),
    ensures
        ({
            let shown = in_stored_order(Some(order), nodes, implicit);
            let left = name_of(shown[i]);
            let right = name_of(shown[j]);
            &&& shown.to_multiset() == nodes.to_multiset()
            &&& is_first_entry(order, left, first) && is_first_entry(order, right, second) ==> first <= second
            &&& !lists_name(order, left) && is_first_entry(order, right, second) ==> (
            implicit matches Some(index) && index <= second)
            &&& is_first_entry(order, left, first) && !lists_name(order, right) ==> (
            implicit matches Some(index) ==> first < index)
        }),
        in_stored_order(None, nodes, implicit) == nodes,
{
    let shown = in_stored_order(Some(order), nodes, implicit);
    crate::git::listing::law_order_is_applied(order, nodes, implicit);
    let left = name_of(shown[i]);
    let right = name_of(shown[j]);
    lemma_same_nodes(shown, nodes);
    assert(shown.contains(shown[i]) && shown.contains(shown[j]));
    lemma_lists_name(order, left);
    lemma_lists_name(order, right);
    lemma_name_position(order, left);
    lemma_name_position(order, right);
    crate::git::listing::law_ranks(order, implicit, right, left);
    crate::git::listing::law_ranks(order, implicit, left, right);
    assert(!crate::git::listing::order_before(order, implicit, shown[j], shown[i]));
    if is_first_entry(order, left, first) {
        lemma_place(order, left, first);
    }
    if is_first_entry(order, right, second) {
        lemma_place(order, right, second);
    }
}

/// Whatever order is stored below, a node stays where it is and what it is; a
/// folder has its own children, in the order that is stored for it.
pub proof fn law_orders_apply_below(
    tree: Seq<Entry>,
    blobs: Seq<StoredBlob>,
    directory: Seq<char>,
    nodes: Seq<Node>,
    implicit: Option<i64>,
    i: int,
)
    requires
        0 <= i < nodes.len(),
    ensures
        ({
            let shown = with_ordered_children(tree, blobs, directory, nodes, implicit);
            &&& shown.len() == nodes.len()
            &&& match nodes[i] {
                Node::File(_) => shown[i] == nodes[i],
                Node::Directory(name, children) => shown[i] == Node::Directory(
                    name,
                    ordered(
                        tree,
                        blobs,
                        if directory.len() == 0 {
                            name
                        } else {
                            directory + seq!['/'] + name
                        },
                        children,
                        implicit,
                    ),
                ),
            }
        }),
    decreases nodes.len(),
{
    let init = nodes.drop_last();
    if let Node::Directory(name, _) = nodes[i] {
        crate::laws::paths::law_child_is_joined(directory, name);
    }
    if i < init.len() {
        law_orders_apply_below(tree, blobs, directory, init, implicit, i);
    } else {
        lemma_as_many(tree, blobs, directory, init, implicit);
    }
}

proof fn lemma_as_many(
    tree: Seq<Entry>,
    blobs: Seq<StoredBlob>,
    directory: Seq<char>,
    nodes: Seq<Node>,
    implicit: Option<i64>,
)
    ensures
        with_ordered_children(tree, blobs, directory, nodes, implicit).len() == nodes.len(),
    decreases nodes.len(),
{
    if nodes.len() > 0 {
        lemma_as_many(tree, blobs, directory, nodes.drop_last(), implicit);
    }
}

/// The first level of a listing has its folders before its files, and both by
/// name.
pub proof fn law_folders_come_first(entries: Seq<Entry>, hidden: bool, i: int, j: int)
    requires
        0 <= i < j < first_level(entries, hidden).len(),
    ensures
        ({
            let left = first_level(entries, hidden)[i];
            let right = first_level(entries, hidden)[j];
            &&& left is File ==> right is File
            &&& left is File && right is File ==> !text_less(name_of(right), name_of(left))
            &&& left is Directory && right is Directory ==> !text_less(
                name_of(right),
                name_of(left),
            )
        }),
{
    let folders = empty_directories(
        selected(entries, |entry: Entry| is_root_entry(entry, EntryKind::Tree, hidden)),
    );
    let files = plain_files(
        selected(entries, |entry: Entry| is_root_entry(entry, EntryKind::Blob, hidden)),
    );
    lemma_by_name(folders);
    lemma_by_name(files);
    let count = by_name(folders).len();
    let shown = by_name(folders) + by_name(files);
    assert(shown == first_level(entries, hidden));
    assert forall|k: int| 0 <= k < count implies (#[trigger] shown[k]) is Directory by {
        assert(by_name(folders)[k] == shown[k]);
        assert(by_name(folders).contains(shown[k]));
        let n = choose|n: int| 0 <= n < folders.len() && folders[n] == shown[k];
        assert(folders[n] is Directory);
    }
    assert forall|k: int| count <= k < shown.len() implies (#[trigger] shown[k]) is File by {
        assert(by_name(files)[k - count] == shown[k]);
        assert(by_name(files).contains(shown[k]));
        let n = choose|n: int| 0 <= n < files.len() && files[n] == shown[k];
        assert(files[n] is File);
    }
    assert(shown[i] is Directory || shown[i] is File);
    if j < count {
        assert(by_name(folders)[i] == shown[i] && by_name(folders)[j] == shown[j]);
    }
    if i >= count {
        assert(by_name(files)[i - count] == shown[i] && by_name(files)[j - count] == shown[j]);
    }
}

proof fn lemma_by_name(nodes: Seq<Node>)
    ensures
        by_name(nodes).len() == nodes.len(),
        forall|node: Node| #[trigger] by_name(nodes).contains(node) <==> nodes.contains(node),
        forall|i: int, j: int|
            0 <= i < j < nodes.len() ==> !text_less(
                name_of(#[trigger] by_name(nodes)[j]),
                name_of(#[trigger] by_name(nodes)[i]),
            ),
{
    let before = |left: Node, right: Node| text_less(name_of(left), name_of(right));
    crate::sorting::lemma_sorted_keeps_items(nodes, before);
    assert(crate::sorting::is_ranking(before)) by {
        assert forall|a: Node, b: Node| #[trigger] before(a, b) implies !before(b, a) by {
            if before(b, a) {
                lemma_less_transitive(name_of(a), name_of(b), name_of(a));
            }
            lemma_less_irreflexive(name_of(a));
        }
        assert forall|a: Node, b: Node, c: Node|
            !#[trigger] before(a, b) && !#[trigger] before(b, c) implies !before(a, c) by {
            lemma_less_total(name_of(a), name_of(b));
            lemma_less_total(name_of(b), name_of(c));
            if before(a, c) {
                if name_of(a) != name_of(b) {
                    lemma_less_transitive(name_of(b), name_of(a), name_of(c));
                }
            }
        }
    }
    crate::sorting::lemma_sorted_is_sorted(nodes, before);
    let sorted = stable_sorted(nodes, before);
    assert(sorted == by_name(nodes));
    lemma_same_nodes(sorted, nodes);
    assert forall|i: int, j: int| 0 <= i < j < nodes.len() implies !text_less(
        name_of(#[trigger] by_name(nodes)[j]),
        name_of(#[trigger] by_name(nodes)[i]),
    ) by {
        assert(!before(sorted[j], sorted[i]));
    }
}

} // verus!
