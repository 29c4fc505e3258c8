//! Listings: which entries of a tree are shown, in which order, and a page of
//! them at a time.
use vstd::prelude::*;
use crate::git::dates::{retain_by_date, retained, Dated, DateFilter, DatedCommit};
use crate::git::files::{is_inside, GitFiles};
use crate::git::history::GitUtils;
use crate::git::index::{lemma_name_position, name_position};
use crate::git::model::{
    find_entry, lookup, stored_order, stored_order_in, Blob, Entry, EntryKind, StoredBlob, TreeEntry,
};
use crate::git::tree::{
    components, depth_model, lemma_node_models, name_of, node_models, split_path, tree_of, Node,
    TreeNode,
};
use crate::order::{child_path, entry_name, is_index_path, is_order_file, path_in};
use crate::sorting::{
    lemma_sorted_views, lemma_views_push, more_after, page_of, stable_sort, stable_sorted,
    take_page, views,
};
use crate::text::{
    characters, find_last, has_prefix, joined, last_position, lemma_last_position, lemma_texts_push,
    less, same, text_less, texts,
};

verus! {

/// How many files and directories a repository holds.
#[derive(Debug, Clone, Copy)]
pub struct FileCounts {
    pub files: usize,
    pub directories: usize,
}

/// How a listing applies the stored orders.
#[derive(Debug, Clone, Copy)]
pub struct OrderOptions {
    /// The index that an entry without a place of its own counts as; the
    /// greatest one if unset.
    pub implicit_default_index: Option<i64>,
}

/// A place in an order, and whether it was given.
pub type OrderRank = (i64, bool);

/// What a listing is to show.
#[derive(Debug)]
pub struct ListingRequest {
    pub path_prefix: Option<String>,
    pub maximum_depth: Option<usize>,
    pub include_hidden_files: bool,
    pub file_name_starts_with: Option<Vec<String>>,
    pub date_filter: Option<DateFilter>,
    pub order_options: Option<OrderOptions>,
    pub page: usize,
    pub per_page: usize,
}

/// The text that `str::to_lowercase` gives.
pub uninterp spec fn lowercase_of(text: Seq<char>) -> Seq<char>;

/// `str::to_lowercase`: the Unicode lowercase of a text, whatever the locale.
#[verifier::external_body]
fn lowercase(text: &str) -> (result: String)
    ensures
        result@ == lowercase_of(text@),
{
    text.to_lowercase()
}

/// Whether a name is hidden: it starts with a dot.
pub open spec fn is_hidden_name(name: Seq<char>) -> bool {
    name.len() > 0 && name[0] == '.'
}

/// Whether some part of a path is hidden.
pub open spec fn is_hidden(path: Seq<char>) -> bool {
    exists|i: int| 0 <= i < components(path).len() && is_hidden_name(#[trigger] components(path)[i])
}

/// How deep a listing goes at least: to its first level.
pub open spec fn depth_limit(maximum_depth: nat) -> nat {
    if maximum_depth == 0 {
        1
    } else {
        maximum_depth
    }
}

/// Whether a listing gets to a path: no part of it is hidden, unless hidden
/// entries are wanted, and it is not too deep.
pub open spec fn is_reached(path: Seq<char>, maximum_depth: Option<nat>, hidden: bool) -> bool {
    &&& hidden || !is_hidden(path)
    &&& maximum_depth matches Some(maximum) ==> components(path).len() <= depth_limit(maximum)
}

/// Whether a listing shows an entry as a file. The order indexes never are.
pub open spec fn shows_file(entry: Entry, maximum_depth: Option<nat>, hidden: bool) -> bool {
    &&& entry.kind == EntryKind::Blob
    &&& is_reached(entry.path, maximum_depth, hidden)
    &&& !is_index_path(entry.path)
}

/// Whether a listing ends at an entry: a directory at its greatest depth.
pub open spec fn ends_at(entry: Entry, maximum_depth: Option<nat>, hidden: bool) -> bool {
    &&& entry.kind == EntryKind::Tree
    &&& is_reached(entry.path, maximum_depth, hidden)
    &&& maximum_depth matches Some(maximum) && components(entry.path).len() == depth_limit(maximum)
}

/// The paths of the entries that `wanted` is true of.
pub open spec fn selected(entries: Seq<Entry>, wanted: spec_fn(Entry) -> bool) -> Seq<Seq<char>>
    decreases entries.len(),
{
    if entries.len() == 0 {
        Seq::empty()
    } else if wanted(entries.last()) {
        selected(entries.drop_last(), wanted).push(entries.last().path)
    } else {
        selected(entries.drop_last(), wanted)
    }
}

/// The paths of the entries that `wants` is true of.
fn select<F: Fn(&TreeEntry) -> bool>(
    entries: &[TreeEntry],
    wants: F,
    wanted: Ghost<spec_fn(Entry) -> bool>,
) -> (result: Vec<String>)
    requires
        forall|entry: &TreeEntry| #[trigger] call_requires(wants, (entry,)),
        forall|entry: &TreeEntry, r: bool|
            #[trigger] call_ensures(wants, (entry,), r) ==> r == wanted@(entry@),
    ensures
        texts(result@) == selected(views(entries@), wanted@),
{
    let ghost all = views(entries@);
    let mut result: Vec<String> = Vec::new();
    let mut i: usize = 0;
    assert(all.take(0) =~= Seq::empty());
    assert(texts(result@) =~= Seq::empty());
    while i < entries.len()
        invariant
            i <= entries.len(),
            all == views(entries@),
            texts(result@) == selected(all.take(i as int), wanted@),
            forall|entry: &TreeEntry| #[trigger] call_requires(wants, (entry,)),
            forall|entry: &TreeEntry, r: bool|
                #[trigger] call_ensures(wants, (entry,), r) ==> r == wanted@(entry@),
        decreases entries.len() - i,
    {
        proof {
            assert(all.take(i + 1).drop_last() =~= all.take(i as int));
            assert(all.take(i + 1).last() == entries@[i as int]@);
            lemma_texts_push(result@, entries@[i as int].path);
        }
        if wants(&entries[i]) {
            result.push(entries[i].path.clone());
        }
        i = i + 1;
    }
    assert(all.take(i as int) =~= all);
    result
}

/// Whether some part of a path is hidden.
fn has_hidden_part(parts: &Vec<String>) -> (result: bool)
    ensures
        result == exists|i: int|
            0 <= i < texts(parts@).len() && is_hidden_name(#[trigger] texts(parts@)[i]),
{
    let mut i: usize = 0;
    while i < parts.len()
        invariant
            i <= parts.len(),
            forall|j: int| 0 <= j < i ==> !is_hidden_name(#[trigger] texts(parts@)[j]),
        decreases parts.len() - i,
    {
        assert(texts(parts@)[i as int] == parts@[i as int]@);
        if starts_with_dot(parts[i].as_str()) {
            return true;
        }
        i = i + 1;
    }
    false
}

/// Whether a name starts with a dot.
fn starts_with_dot(name: &str) -> (result: bool)
    ensures
        result == is_hidden_name(name@),
{
    !name.is_empty() && name.get_char(0) == '.'
}

/// Whether a listing gets to a path with the given parts.
fn reaches(parts: &Vec<String>, maximum_depth: Option<usize>, hidden: bool) -> (result: bool)
    ensures
        forall|path: Seq<char>| #[trigger]
            components(path) == texts(parts@) ==> result == is_reached(
                path,
                depth_model(maximum_depth),
                hidden,
            ),
{
    if !hidden && has_hidden_part(parts) {
        return false;
    }
    match maximum_depth {
        Some(maximum) => if maximum == 0 {
            parts.len() <= 1
        } else {
            parts.len() <= maximum
        },
        None => true,
    }
}

/// Whether a listing shows an entry as a file.
fn is_shown_file(entry: &TreeEntry, maximum_depth: Option<usize>, hidden: bool) -> (result: bool)
    ensures
        result == shows_file(entry@, depth_model(maximum_depth), hidden),
{
    if entry.kind != EntryKind::Blob {
        return false;
    }
    let parts: Vec<String> = split_path(entry.path.as_str());
    reaches(&parts, maximum_depth, hidden) && !is_order_file(entry.path.as_str())
}

/// Whether the given number of parts is the greatest depth.
fn is_deepest(parts: &Vec<String>, maximum_depth: Option<usize>) -> (result: bool)
    ensures
        result == (maximum_depth matches Some(maximum) && parts.len() == depth_limit(
            maximum as nat,
        )),
{
    match maximum_depth {
        Some(maximum) => if maximum == 0 {
            parts.len() == 1
        } else {
            parts.len() == maximum
        },
        None => false,
    }
}

/// Whether a listing ends at an entry.
fn is_end(entry: &TreeEntry, maximum_depth: Option<usize>, hidden: bool) -> (result: bool)
    ensures
        result == ends_at(entry@, depth_model(maximum_depth), hidden),
{
    if entry.kind != EntryKind::Tree {
        return false;
    }
    let parts: Vec<String> = split_path(entry.path.as_str());
    assert(texts(parts@).len() == parts.len());
    reaches(&parts, maximum_depth, hidden) && is_deepest(&parts, maximum_depth)
}

/// The files that a listing shows.
pub open spec fn shown_files(
    entries: Seq<Entry>,
    maximum_depth: Option<nat>,
    hidden: bool,
) -> Seq<Seq<char>> {
    selected(entries, |entry: Entry| shows_file(entry, maximum_depth, hidden))
}

/// The directories that a listing ends at.
pub open spec fn end_directories(
    entries: Seq<Entry>,
    maximum_depth: Option<nat>,
    hidden: bool,
) -> Seq<Seq<char>> {
    selected(entries, |entry: Entry| ends_at(entry, maximum_depth, hidden))
}

/// The tree that a listing shows of a directory's entries.
pub open spec fn shown_tree(
    entries: Seq<Entry>,
    maximum_depth: Option<nat>,
    hidden: bool,
) -> Seq<Node> {
    tree_of(
        shown_files(entries, maximum_depth, hidden),
        end_directories(entries, maximum_depth, hidden),
        maximum_depth,
    )
}

/// The entries inside a directory, by their paths from there.
pub open spec fn entries_inside(tree: Seq<Entry>, directory: Seq<char>) -> Seq<Entry>
    decreases tree.len(),
{
    if tree.len() == 0 {
        Seq::empty()
    } else {
        let before = entries_inside(tree.drop_last(), directory);
        let last = tree.last();
        if is_inside(last.path, directory) {
            before.push(
                Entry {
                    path: last.path.skip(directory.len() as int + 1),
                    kind: last.kind,
                    oid: last.oid,
                },
            )
        } else {
            before
        }
    }
}

/// The entries inside a directory, by their paths from there.
fn descend(tree: &[TreeEntry], directory: &str) -> (result: Vec<TreeEntry>)
    ensures
        views(result@) == entries_inside(views(tree@), directory@),
{
    let ghost all = views(tree@);
    let prefix: String = joined(directory, "/");
    let base: usize = characters(directory).len();
    let mut result: Vec<TreeEntry> = Vec::new();
    let mut i: usize = 0;
    assert(all.take(0) =~= Seq::empty());
    assert(views(result@) =~= Seq::empty());
    while i < tree.len()
        invariant
            i <= tree.len(),
            all == views(tree@),
            prefix@ == directory@ + "/"@,
            base == directory@.len(),
            views(result@) == entries_inside(all.take(i as int), directory@),
        decreases tree.len() - i,
    {
        let path: &str = tree[i].path.as_str();
        proof {
            assert(all.take(i + 1).drop_last() =~= all.take(i as int));
            assert(all.take(i + 1).last() == tree@[i as int]@);
            reveal_strlit("/");
        }
        if has_prefix(path, prefix.as_str()) {
            let length: usize = characters(path).len();
            let relative: &str = path.substring_char(base + 1, length);
            assert(relative@ =~= path@.skip(directory@.len() as int + 1));
            let entry: TreeEntry = TreeEntry {
                path: relative.to_owned(),
                kind: tree[i].kind,
                oid: tree[i].oid.clone(),
            };
            proof {
                lemma_views_push(result@, entry);
            }
            result.push(entry);
        }
        i = i + 1;
    }
    assert(all.take(i as int) =~= all);
    result
}

/// The entries that a listing starts from: those of the repository, or those
/// of the directory it is rooted at; none where there is no such directory.
pub open spec fn listing_root(tree: Seq<Entry>, prefix: Seq<char>) -> Seq<Entry> {
    if prefix.len() == 0 {
        tree
    } else if lookup(tree, prefix) matches Some(entry) && entry.kind == EntryKind::Tree {
        entries_inside(tree, prefix)
    } else {
        Seq::empty()
    }
}

/// Copies tree entries.
fn copy_entries(tree: &[TreeEntry]) -> (result: Vec<TreeEntry>)
    ensures
        views(result@) == views(tree@),
{
    let mut result: Vec<TreeEntry> = Vec::new();
    let mut i: usize = 0;
    while i < tree.len()
        invariant
            i <= tree.len(),
            result.len() == i,
            forall|j: int| 0 <= j < i ==> (#[trigger] result@[j])@ == tree@[j]@,
        decreases tree.len() - i,
    {
        result.push(
            TreeEntry {
                path: tree[i].path.clone(),
                kind: tree[i].kind,
                oid: tree[i].oid.clone(),
            },
        );
        i = i + 1;
    }
    assert(views(result@) =~= views(tree@));
    result
}

/// The entries that a listing starts from.
fn root_entries(tree: &[TreeEntry], prefix: &str) -> (result: Vec<TreeEntry>)
    ensures
        views(result@) == listing_root(views(tree@), prefix@),
{
    if prefix.is_empty() {
        return copy_entries(tree);
    }
    let found: bool = match find_entry(tree, prefix) {
        Some(entry) => entry.kind == EntryKind::Tree,
        None => false,
    };
    if found {
        descend(tree, prefix)
    } else {
        let none: Vec<TreeEntry> = Vec::new();
        assert(views(none@) =~= Seq::empty());
        none
    }
}

/// Whether one of the needles begins a name, in lower case.
pub open spec fn name_matches(needles: Seq<Seq<char>>, name: Seq<char>) -> bool {
    exists|i: int|
        0 <= i < needles.len() && lowercase_of(#[trigger] needles[i]).is_prefix_of(
            lowercase_of(name),
        )
}

/// Whether one of the first `count` parts of a path matches.
pub open spec fn part_matches(needles: Seq<Seq<char>>, parts: Seq<Seq<char>>, count: int) -> bool {
    exists|i: int| 0 <= i < count && name_matches(needles, #[trigger] parts[i])
}

/// Whether a search finds a file: by its name, or by that of a directory that
/// it is in.
pub open spec fn finds_file(
    entry: Entry,
    needles: Seq<Seq<char>>,
    maximum_depth: Option<nat>,
    hidden: bool,
) -> bool {
    &&& shows_file(entry, maximum_depth, hidden)
    &&& part_matches(needles, components(entry.path), components(entry.path).len() as int)
}

/// Whether a search finds a directory: the first one on its path that
/// matches, or one at the greatest depth in or under a match.
pub open spec fn finds_directory(
    entry: Entry,
    needles: Seq<Seq<char>>,
    maximum_depth: Option<nat>,
    hidden: bool,
) -> bool {
    let parts = components(entry.path);
    &&& entry.kind == EntryKind::Tree
    &&& is_reached(entry.path, maximum_depth, hidden)
    &&& if maximum_depth matches Some(maximum) && parts.len() == depth_limit(maximum) {
        part_matches(needles, parts, parts.len() as int)
    } else {
        name_matches(needles, parts.last()) && !part_matches(needles, parts, parts.len() - 1)
    }
}

/// Whether one of the prefixes begins a name.
pub open spec fn begins_with_some(prefixes: Seq<Seq<char>>, name: Seq<char>) -> bool {
    exists|i: int| 0 <= i < prefixes.len() && (#[trigger] prefixes[i]).is_prefix_of(name)
}

/// Whether one of the prefixes begins a name.
pub fn begins_with_any(prefixes: &[String], name: &str) -> (result: bool)
    ensures
        result == begins_with_some(texts(prefixes@), name@),
{
    let mut i: usize = 0;
    while i < prefixes.len()
        invariant
            i <= prefixes.len(),
            forall|j: int| 0 <= j < i ==> !(#[trigger] texts(prefixes@)[j]).is_prefix_of(name@),
        decreases prefixes.len() - i,
    {
        assert(texts(prefixes@)[i as int] == prefixes@[i as int]@);
        if has_prefix(name, prefixes[i].as_str()) {
            return true;
        }
        i = i + 1;
    }
    false
}

/// Whether one of the needles begins a name, in lower case.
fn any_needle(needles: &[String], name: &str) -> (result: bool)
    ensures
        result == name_matches(texts(needles@), name@),
{
    let lower: String = lowercase(name);
    let mut lowered: Vec<String> = Vec::new();
    let mut i: usize = 0;
    while i < needles.len()
        invariant
            i <= needles.len(),
            lowered.len() == i,
            forall|j: int|
                0 <= j < i ==> (#[trigger] lowered@[j])@ == lowercase_of(needles@[j]@),
        decreases needles.len() - i,
    {
        lowered.push(lowercase(needles[i].as_str()));
        i = i + 1;
    }
    proof {
        let given = texts(needles@);
        let prefixes = texts(lowered@);
        assert(forall|j: int| 0 <= j < given.len() ==> #[trigger] prefixes[j] == lowercase_of(given[j]));
        if name_matches(given, name@) {
            let j = choose|j: int|
                0 <= j < given.len() && lowercase_of(#[trigger] given[j]).is_prefix_of(
                    lowercase_of(name@),
                );
            assert(prefixes[j].is_prefix_of(lower@));
        }
        if begins_with_some(prefixes, lower@) {
            let j = choose|j: int|
                0 <= j < prefixes.len() && (#[trigger] prefixes[j]).is_prefix_of(lower@);
            assert(lowercase_of(given[j]).is_prefix_of(lowercase_of(name@)));
        }
    }
    begins_with_any(lowered.as_slice(), lower.as_str())
}

/// Whether one of the first `count` parts of a path matches.
fn any_part(needles: &[String], parts: &Vec<String>, count: usize) -> (result: bool)
    requires
        count <= parts.len(),
    ensures
        result == part_matches(texts(needles@), texts(parts@), count as int),
{
    let mut i: usize = 0;
    while i < count
        invariant
            i <= count <= parts.len(),
            forall|j: int|
                0 <= j < i ==> !name_matches(texts(needles@), #[trigger] texts(parts@)[j]),
        decreases count - i,
    {
        assert(texts(parts@)[i as int] == parts@[i as int]@);
        if any_needle(needles, parts[i].as_str()) {
            return true;
        }
        i = i + 1;
    }
    false
}

/// Whether a search finds a file.
fn is_found_file(
    entry: &TreeEntry,
    needles: &[String],
    maximum_depth: Option<usize>,
    hidden: bool,
) -> (result: bool)
    ensures
        result == finds_file(entry@, texts(needles@), depth_model(maximum_depth), hidden),
{
    if !is_shown_file(entry, maximum_depth, hidden) {
        return false;
    }
    let parts: Vec<String> = split_path(entry.path.as_str());
    assert(texts(parts@).len() == parts.len());
    any_part(needles, &parts, parts.len())
}

/// Whether a search finds a directory.
fn is_found_directory(
    entry: &TreeEntry,
    needles: &[String],
    maximum_depth: Option<usize>,
    hidden: bool,
) -> (result: bool)
    ensures
        result == finds_directory(entry@, texts(needles@), depth_model(maximum_depth), hidden),
{
    if entry.kind != EntryKind::Tree {
        return false;
    }
    let parts: Vec<String> = split_path(entry.path.as_str());
    assert(texts(parts@).len() == parts.len());
    assert(components(entry.path@).len() > 0);
    if !reaches(&parts, maximum_depth, hidden) {
        return false;
    }
    if is_deepest(&parts, maximum_depth) {
        any_part(needles, &parts, parts.len())
    } else {
        assert(texts(parts@).last() == parts@[parts.len() - 1]@);
        any_needle(needles, parts[parts.len() - 1].as_str()) && !any_part(
            needles,
            &parts,
            parts.len() - 1,
        )
    }
}

/// The place of a name in an order, if it has one. An order is never longer
/// than the greatest place.
pub open spec fn listed_place(order: Seq<Seq<char>>, name: Seq<char>) -> Option<i64> {
    let position = name_position(order, name);
    if position < order.len() {
        Some(
            if position <= i64::MAX {
                position as i64
            } else {
                i64::MAX
            },
        )
    } else {
        None
    }
}

/// The place of a name among the places of an order.
pub open spec fn place_in(ranks: Seq<(String, i64)>, name: Seq<char>) -> Option<i64>
    decreases ranks.len(),
{
    if ranks.len() == 0 {
        None
    } else if ranks[0].0@ == name {
        Some(ranks[0].1)
    } else {
        place_in(ranks.skip(1), name)
    }
}

/// The rank of a name: its place, or the one that stands in for it.
pub open spec fn rank_for(place: Option<i64>, implicit: Option<i64>) -> OrderRank {
    match place {
        Some(position) => (position, true),
        None => (
            match implicit {
                Some(index) => index,
                None => i64::MAX,
            },
            false,
        ),
    }
}

/// Whether a rank comes before another: by its place, and at the same place
/// the one that was not given first.
pub open spec fn rank_before(left: OrderRank, right: OrderRank) -> bool {
    left.0 < right.0 || (left.0 == right.0 && !left.1 && right.1)
}

/// Whether a node comes before another in an order.
pub open spec fn order_before(order: Seq<Seq<char>>, implicit: Option<i64>, left: Node, right: Node) -> bool {
    rank_before(
        rank_for(listed_place(order, name_of(left)), implicit),
        rank_for(listed_place(order, name_of(right)), implicit),
    )
}

/// Nodes in the order stored for their directory, or as they are without one.
pub open spec fn in_stored_order(
    stored: Option<Seq<Seq<char>>>,
    nodes: Seq<Node>,
    implicit: Option<i64>,
) -> Seq<Node> {
    match stored {
        Some(order) => stable_sorted(
            nodes,
            |left: Node, right: Node| order_before(order, implicit, left, right),
        ),
        None => nodes,
    }
}

/// Nodes with the children of each directory in their stored order.
pub open spec fn with_ordered_children(
    tree: Seq<Entry>,
    blobs: Seq<StoredBlob>,
    directory: Seq<char>,
    nodes: Seq<Node>,
    implicit: Option<i64>,
) -> Seq<Node>
    decreases nodes, 0nat,
{
    if nodes.len() == 0 {
        Seq::empty()
    } else {
        let before = with_ordered_children(tree, blobs, directory, nodes.drop_last(), implicit);
        match nodes.last() {
            Node::File(name) => before.push(Node::File(name)),
            Node::Directory(name, children) => before.push(
                Node::Directory(
                    name,
                    ordered(tree, blobs, child_path(directory, name), children, implicit),
                ),
            ),
        }
    }
}

/// Nodes of a directory in their stored order, at every level.
pub open spec fn ordered(
    tree: Seq<Entry>,
    blobs: Seq<StoredBlob>,
    directory: Seq<char>,
    nodes: Seq<Node>,
    implicit: Option<i64>,
) -> Seq<Node>
    decreases nodes, 1nat,
{
    in_stored_order(
        stored_order_in(tree, blobs, directory),
        with_ordered_children(tree, blobs, directory, nodes, implicit),
        implicit,
    )
}

impl GitFiles {
    /// The places that an order gives to names; the first one counts.
    pub fn order_ranks(order: &[String]) -> (result: Vec<(String, i64)>)
        ensures
            forall|name: Seq<char>| #[trigger]
                place_in(result@, name) == listed_place(texts(order@), name),
    {
        let ghost all = texts(order@);
        let mut ranks: Vec<(String, i64)> = Vec::new();
        let mut i: usize = 0;
        while i < order.len()
            invariant
                i <= order.len(),
                all == texts(order@),
                ranks.len() == i,
                forall|j: int|
                    0 <= j < i ==> (#[trigger] ranks@[j]).0@ == crate::order::bare_name(all[j])
                        && ranks@[j].1 == (if j <= i64::MAX {
                        j
                    } else {
                        i64::MAX as int
                    }),
            decreases order.len() - i,
        {
            let place: i64 = if i as u64 <= i64::MAX as u64 {
                i as i64
            } else {
                i64::MAX
            };
            ranks.push((entry_name(order[i].as_str()).to_owned(), place));
            i = i + 1;
        }
        assert forall|name: Seq<char>| #[trigger] place_in(ranks@, name) == listed_place(
            all,
            name,
        ) by {
            assert(ranks@.skip(0) =~= ranks@);
            assert(all.skip(0) =~= all);
            lemma_places(ranks@, all, name, 0);
        }
        ranks
    }

    /// The rank of a name.
    pub fn order_rank(ranks: &[(String, i64)], name: &str, order_options: &OrderOptions) -> (result:
        OrderRank)
        ensures
            result == rank_for(
                place_in(ranks@, name@),
                order_options.implicit_default_index,
            ),
    {
        let mut i: usize = 0;
        assert(ranks@.skip(0) =~= ranks@);
        while i < ranks.len()
            invariant
                i <= ranks.len(),
                place_in(ranks@, name@) == place_in(ranks@.skip(i as int), name@),
            decreases ranks.len() - i,
        {
            if same(ranks[i].0.as_str(), name) {
                return (ranks[i].1, true);
            }
            assert(ranks@.skip(i as int).skip(1) =~= ranks@.skip(i + 1));
            i = i + 1;
        }
        match order_options.implicit_default_index {
            Some(index) => (index, false),
            None => (i64::MAX, false),
        }
    }

    /// Sorts nodes by the order stored for their directory.
    fn sort_stored(
        tree: &[TreeEntry],
        blobs: &[Blob],
        directory: &str,
        nodes: Vec<TreeNode>,
        order_options: &OrderOptions,
    ) -> (result: Vec<TreeNode>)
        ensures
            views(result@) == in_stored_order(
                stored_order_in(views(tree@), views(blobs@), directory@),
                views(nodes@),
                order_options.implicit_default_index,
            ),
    {
        let order: Vec<String> = match stored_order(tree, blobs, directory) {
            Some(order) => order,
            None => {
                return nodes;
            },
        };
        let ranks: Vec<(String, i64)> = Self::order_ranks(order.as_slice());
        let ghost listed = texts(order@);
        let ghost implicit = order_options.implicit_default_index;
        let precedes = |left: &TreeNode, right: &TreeNode| -> (r: bool)
            ensures
                r == order_before(
                    texts(order@),
                    order_options.implicit_default_index,
                    left@,
                    right@,
                ),
            {
                assert(place_in(ranks@, name_of(left@)) == listed_place(
                    texts(order@),
                    name_of(left@),
                ));
                assert(place_in(ranks@, name_of(right@)) == listed_place(
                    texts(order@),
                    name_of(right@),
                ));
                let a: OrderRank = Self::order_rank(ranks.as_slice(), left.name(), order_options);
                let b: OrderRank = Self::order_rank(ranks.as_slice(), right.name(), order_options);
                a.0 < b.0 || (a.0 == b.0 && !a.1 && b.1)
            };
        let ghost before = |left: TreeNode, right: TreeNode|
            order_before(listed, implicit, left@, right@);
        let ghost before_view = |left: Node, right: Node|
            order_before(listed, implicit, left, right);
        proof {
            lemma_sorted_views(nodes@, before, before_view);
        }
        stable_sort(nodes, precedes, Ghost(before))
    }

    /// Puts nodes of a directory in their stored order, at every level.
    pub fn apply_order(
        tree: &[TreeEntry],
        blobs: &[Blob],
        directory: &str,
        nodes: Vec<TreeNode>,
        order_options: &OrderOptions,
    ) -> (result: Vec<TreeNode>)
        ensures
            views(result@) == ordered(
                views(tree@),
                views(blobs@),
                directory@,
                views(nodes@),
                order_options.implicit_default_index,
            ),
        decreases nodes,
    {
        let ghost head = views(tree@);
        let ghost stored = views(blobs@);
        let ghost implicit = order_options.implicit_default_index;
        let ghost all = views(nodes@);
        let mut rest: Vec<TreeNode> = nodes;
        let mut reversed: Vec<TreeNode> = Vec::new();
        let ghost mut after: Seq<Node> = Seq::empty();
        assert(views(reversed@) =~= Seq::empty());
        assert(rest@ =~= nodes@.take(rest@.len() as int));
        assert(with_ordered_children(head, stored, directory@, all, implicit)
            =~= with_ordered_children(head, stored, directory@, views(rest@), implicit) + after);
        while rest.len() > 0
            invariant
                rest@.len() <= nodes@.len(),
                rest@ == nodes@.take(rest@.len() as int),
                head == views(tree@),
                stored == views(blobs@),
                implicit == order_options.implicit_default_index,
                all == views(nodes@),
                views(reversed@) == after.reverse(),
                with_ordered_children(head, stored, directory@, all, implicit)
                    == with_ordered_children(head, stored, directory@, views(rest@), implicit)
                    + after,
            decreases rest.len(),
        {
            let ghost models = views(rest@);
            match rest.pop() {
                None => {},
                Some(node) => {
                    proof {
                        assert(node == nodes@[rest@.len() as int]);
                        assert(decreases_to!(nodes => nodes@[rest@.len() as int]));
                        assert(models.drop_last() =~= views(rest@));
                        assert(models.last() == node@);
                        assert(rest@ =~= nodes@.take(rest@.len() as int));
                    }
                    let ghost done = with_ordered_children(
                        head,
                        stored,
                        directory@,
                        views(rest@),
                        implicit,
                    );
                    let next: TreeNode = match node {
                        TreeNode::File { name } => TreeNode::File { name },
                        TreeNode::Directory { name, children } => {
                            let child: String = path_in(directory, name.as_str());
                            let ghost kids = views(children@);
                            proof {
                                lemma_node_models(children@);
                            }
                            let sorted: Vec<TreeNode> = Self::apply_order(
                                tree,
                                blobs,
                                child.as_str(),
                                children,
                                order_options,
                            );
                            proof {
                                lemma_node_models(sorted@);
                            }
                            TreeNode::Directory { name, children: sorted }
                        },
                    };
                    proof {
                        assert(with_ordered_children(head, stored, directory@, models, implicit)
                            == done.push(next@));
                        let grown = seq![next@] + after;
                        assert(done.push(next@) + after =~= done + grown);
                        assert(grown.reverse() =~= after.reverse().push(next@));
                        lemma_views_push(reversed@, next);
                        after = grown;
                    }
                    reversed.push(next);
                },
            }
        }
        let mut result: Vec<TreeNode> = Vec::new();
        proof {
            assert(views(rest@) =~= Seq::empty());
            assert(with_ordered_children(head, stored, directory@, all, implicit) =~= after);
            assert(views(result@) + views(reversed@).reverse() =~= after);
        }
        while reversed.len() > 0
            invariant
                views(result@) + views(reversed@).reverse() == after,
            decreases reversed.len(),
        {
            let ghost before = views(reversed@);
            match reversed.pop() {
                None => {},
                Some(node) => {
                    proof {
                        lemma_views_push(result@, node);
                        assert(before =~= views(reversed@).push(node@));
                        assert(views(result@) + before.reverse() =~= views(result@).push(node@)
                            + views(reversed@).reverse());
                    }
                    result.push(node);
                },
            }
        }
        assert(views(reversed@).reverse() =~= Seq::empty());
        assert(views(result@) =~= after);
        Self::sort_stored(tree, blobs, directory, result, order_options)
    }
}

/// Whether an entry stands on the first level of a listing.
pub open spec fn is_root_entry(entry: Entry, kind: EntryKind, hidden: bool) -> bool {
    &&& entry.kind == kind
    &&& components(entry.path).len() == 1
    &&& hidden || !is_hidden(entry.path)
    &&& !(kind == EntryKind::Blob && is_index_path(entry.path))
}

/// The empty directories with the given names.
pub open spec fn empty_directories(names: Seq<Seq<char>>) -> Seq<Node> {
    Seq::new(names.len(), |i: int| Node::Directory(names[i], Seq::empty()))
}

/// The files with the given names.
pub open spec fn plain_files(names: Seq<Seq<char>>) -> Seq<Node> {
    Seq::new(names.len(), |i: int| Node::File(names[i]))
}

/// Nodes by name.
pub open spec fn by_name(nodes: Seq<Node>) -> Seq<Node> {
    stable_sorted(nodes, |left: Node, right: Node| text_less(name_of(left), name_of(right)))
}

/// The first level of a listing: directories before files, both by name, the
/// directories still empty.
pub open spec fn first_level(entries: Seq<Entry>, hidden: bool) -> Seq<Node> {
    by_name(
        empty_directories(
            selected(entries, |entry: Entry| is_root_entry(entry, EntryKind::Tree, hidden)),
        ),
    ) + by_name(
        plain_files(
            selected(entries, |entry: Entry| is_root_entry(entry, EntryKind::Blob, hidden)),
        ),
    )
}

/// A node of the first level with what a listing shows inside it.
pub open spec fn filled(
    entries: Seq<Entry>,
    blobs: Seq<StoredBlob>,
    maximum_depth: Option<nat>,
    hidden: bool,
    order_options: Option<OrderOptions>,
    node: Node,
) -> Node {
    match node {
        Node::File(name) => Node::File(name),
        Node::Directory(name, _) => {
            let children = if maximum_depth == Some(1nat) {
                Seq::empty()
            } else {
                shown_tree(
                    entries_inside(entries, name),
                    match maximum_depth {
                        Some(maximum) => Some((maximum - 1) as nat),
                        None => None,
                    },
                    hidden,
                )
            };
            Node::Directory(
                name,
                match order_options {
                    Some(options) => ordered(
                        entries,
                        blobs,
                        name,
                        children,
                        options.implicit_default_index,
                    ),
                    None => children,
                },
            )
        },
    }
}

/// Nodes in the stored order of a directory, where orders are applied.
pub open spec fn maybe_ordered(
    entries: Seq<Entry>,
    blobs: Seq<StoredBlob>,
    nodes: Seq<Node>,
    order_options: Option<OrderOptions>,
) -> Seq<Node> {
    match order_options {
        Some(options) => ordered(
            entries,
            blobs,
            Seq::empty(),
            nodes,
            options.implicit_default_index,
        ),
        None => nodes,
    }
}

/// The prefix of a listing; none is the repository root.
pub open spec fn prefix_text(request: ListingRequest) -> Seq<char> {
    match request.path_prefix {
        Some(prefix) => prefix@,
        None => Seq::empty(),
    }
}

/// The whole tree that a search or a date filter selects.
pub open spec fn selected_tree(
    entries: Seq<Entry>,
    history: Seq<Dated>,
    request: ListingRequest,
) -> Seq<Node> {
    let depth = depth_model(request.maximum_depth);
    let hidden = request.include_hidden_files;
    let flat = match request.file_name_starts_with {
        Some(needles) => selected(
            entries,
            |entry: Entry| finds_file(entry, texts(needles@), depth, hidden),
        ),
        None => shown_files(entries, depth, hidden),
    };
    match request.date_filter {
        Some(filter) => tree_of(
            retained(history, prefix_text(request), flat, filter),
            Seq::empty(),
            None,
        ),
        None => tree_of(
            flat,
            selected(
                entries,
                |entry: Entry|
                    finds_directory(
                        entry,
                        texts(request.file_name_starts_with->0@),
                        depth,
                        hidden,
                    ),
            ),
            None,
        ),
    }
}

/// Whether a listing is of a selection rather than of everything.
pub open spec fn is_selection(request: ListingRequest) -> bool {
    request.file_name_starts_with is Some || request.date_filter is Some
}

/// What a listing shows before it is cut into pages.
pub open spec fn listing_level(
    tree: Seq<Entry>,
    blobs: Seq<StoredBlob>,
    history: Seq<Dated>,
    request: ListingRequest,
) -> Seq<Node> {
    let entries = listing_root(tree, prefix_text(request));
    if is_selection(request) {
        maybe_ordered(
            entries,
            blobs,
            selected_tree(entries, history, request),
            request.order_options,
        )
    } else {
        let level = first_level(entries, request.include_hidden_files);
        match request.order_options {
            Some(options) => in_stored_order(
                stored_order_in(entries, blobs, Seq::empty()),
                level,
                options.implicit_default_index,
            ),
            None => level,
        }
    }
}

/// The page that a listing shows.
pub open spec fn listing_page(
    tree: Seq<Entry>,
    blobs: Seq<StoredBlob>,
    history: Seq<Dated>,
    request: ListingRequest,
) -> Seq<Node> {
    let entries = listing_root(tree, prefix_text(request));
    let nodes = page_of(
        listing_level(tree, blobs, history, request),
        request.page as nat,
        request.per_page as nat,
    );
    if is_selection(request) {
        nodes
    } else {
        Seq::new(
            nodes.len(),
            |i: int|
                filled(
                    entries,
                    blobs,
                    depth_model(request.maximum_depth),
                    request.include_hidden_files,
                    request.order_options,
                    nodes[i],
                ),
        )
    }
}

/// Whether an entry stands on the first level of a listing.
fn is_first_level(entry: &TreeEntry, kind: EntryKind, hidden: bool) -> (result: bool)
    ensures
        result == is_root_entry(entry@, kind, hidden),
{
    if entry.kind != kind {
        return false;
    }
    let parts: Vec<String> = split_path(entry.path.as_str());
    assert(texts(parts@).len() == parts.len());
    parts.len() == 1 && (hidden || !has_hidden_part(&parts)) && !(kind == EntryKind::Blob
        && is_order_file(entry.path.as_str()))
}

/// Sorts nodes by name.
fn sort_by_name(nodes: Vec<TreeNode>) -> (result: Vec<TreeNode>)
    ensures
        views(result@) == by_name(views(nodes@)),
{
    let precedes = |left: &TreeNode, right: &TreeNode| -> (r: bool)
        ensures
            r == text_less(name_of(left@), name_of(right@)),
        { less(left.name(), right.name()) };
    let ghost before = |left: TreeNode, right: TreeNode|
        text_less(name_of(left@), name_of(right@));
    let ghost before_view = |left: Node, right: Node| text_less(name_of(left), name_of(right));
    proof {
        lemma_sorted_views(nodes@, before, before_view);
    }
    stable_sort(nodes, precedes, Ghost(before))
}

/// The path of every file in a folder, relative to the repository.
pub open spec fn all_file_paths(tree: Seq<Entry>, prefix: Seq<char>, hidden: bool) -> Seq<
    Seq<char>,
> {
    let files = shown_files(listing_root(tree, prefix), None, hidden);
    Seq::new(files.len(), |i: int| child_path(prefix, files[i]))
}

impl GitFiles {
    /// The tree that a listing shows of a directory's entries.
    fn collect_subtree(
        entries: &[TreeEntry],
        max_depth: Option<usize>,
        include_hidden_files: bool,
    ) -> (result: Vec<TreeNode>)
        ensures
            views(result@) == shown_tree(
                views(entries@),
                depth_model(max_depth),
                include_hidden_files,
            ),
    {
        let flat: Vec<String> = Self::collect_flat_files(entries, max_depth, include_hidden_files);
        let wants = |entry: &TreeEntry| -> (r: bool)
            ensures
                r == ends_at(entry@, depth_model(max_depth), include_hidden_files),
            { is_end(entry, max_depth, include_hidden_files) };
        let ghost wanted = |entry: Entry|
            ends_at(entry, depth_model(max_depth), include_hidden_files);
        let stubs: Vec<String> = select(entries, wants, Ghost(wanted));
        GitUtils::build_tree(flat, stubs, max_depth)
    }

    /// The files that a listing shows.
    pub fn collect_flat_files(
        entries: &[TreeEntry],
        max_depth: Option<usize>,
        include_hidden_files: bool,
    ) -> (result: Vec<String>)
        ensures
            texts(result@) == shown_files(
                views(entries@),
                depth_model(max_depth),
                include_hidden_files,
            ),
    {
        let wants = |entry: &TreeEntry| -> (r: bool)
            ensures
                r == shows_file(entry@, depth_model(max_depth), include_hidden_files),
            { is_shown_file(entry, max_depth, include_hidden_files) };
        let ghost wanted = |entry: Entry|
            shows_file(entry, depth_model(max_depth), include_hidden_files);
        select(entries, wants, Ghost(wanted))
    }

    /// The path of every file in a folder, relative to the repository. A
    /// folder that is not there holds none.
    pub fn list_all_file_paths(
        tree: &[TreeEntry],
        path_prefix: Option<&str>,
        include_hidden_files: bool,
    ) -> (result: Vec<String>)
        ensures
            texts(result@) == all_file_paths(
                views(tree@),
                match path_prefix {
                    Some(prefix) => prefix@,
                    None => Seq::empty(),
                },
                include_hidden_files,
            ),
    {
        let prefix: &str = match path_prefix {
            Some(prefix) => prefix,
            None => "",
        };
        proof {
            reveal_strlit("");
            assert(""@ =~= Seq::<char>::empty());
        }
        let entries: Vec<TreeEntry> = root_entries(tree, prefix);
        let files: Vec<String> = Self::collect_flat_files(
            entries.as_slice(),
            None,
            include_hidden_files,
        );
        let mut paths: Vec<String> = Vec::new();
        let mut i: usize = 0;
        while i < files.len()
            invariant
                i <= files.len(),
                paths@.len() == i,
                forall|j: int|
                    0 <= j < i ==> (#[trigger] paths@[j])@ == child_path(prefix@, files@[j]@),
            decreases files.len() - i,
        {
            paths.push(path_in(prefix, files[i].as_str()));
            i = i + 1;
        }
        assert(texts(paths@) =~= all_file_paths(views(tree@), prefix@, include_hidden_files));
        paths
    }

    /// The first level of a listing.
    fn collect_first_level(entries: &[TreeEntry], include_hidden_files: bool) -> (result: Vec<
        TreeNode,
    >)
        ensures
            views(result@) == first_level(views(entries@), include_hidden_files),
    {
        let wants_tree = |entry: &TreeEntry| -> (r: bool)
            ensures
                r == is_root_entry(entry@, EntryKind::Tree, include_hidden_files),
            { is_first_level(entry, EntryKind::Tree, include_hidden_files) };
        let ghost wanted_tree = |entry: Entry|
            is_root_entry(entry, EntryKind::Tree, include_hidden_files);
        let directory_names: Vec<String> = select(entries, wants_tree, Ghost(wanted_tree));
        let wants_blob = |entry: &TreeEntry| -> (r: bool)
            ensures
                r == is_root_entry(entry@, EntryKind::Blob, include_hidden_files),
            { is_first_level(entry, EntryKind::Blob, include_hidden_files) };
        let ghost wanted_blob = |entry: Entry|
            is_root_entry(entry, EntryKind::Blob, include_hidden_files);
        let file_names: Vec<String> = select(entries, wants_blob, Ghost(wanted_blob));
        let mut directories: Vec<TreeNode> = Vec::new();
        let mut i: usize = 0;
        while i < directory_names.len()
            invariant
                i <= directory_names.len(),
                directories.len() == i,
                forall|j: int|
                    0 <= j < i ==> (#[trigger] directories@[j])@ == Node::Directory(
                        directory_names@[j]@,
                        Seq::empty(),
                    ),
            decreases directory_names.len() - i,
        {
            let children: Vec<TreeNode> = Vec::new();
            assert(node_models(children@) =~= Seq::empty());
            directories.push(TreeNode::Directory { name: directory_names[i].clone(), children });
            i = i + 1;
        }
        assert(views(directories@) =~= empty_directories(texts(directory_names@)));
        let mut files: Vec<TreeNode> = Vec::new();
        let mut j: usize = 0;
        while j < file_names.len()
            invariant
                j <= file_names.len(),
                files.len() == j,
                forall|k: int|
                    0 <= k < j ==> (#[trigger] files@[k])@ == Node::File(file_names@[k]@),
            decreases file_names.len() - j,
        {
            files.push(TreeNode::File { name: file_names[j].clone() });
            j = j + 1;
        }
        assert(views(files@) =~= plain_files(texts(file_names@)));
        let mut level: Vec<TreeNode> = sort_by_name(directories);
        let ghost sorted_directories = level@;
        let mut sorted_files: Vec<TreeNode> = sort_by_name(files);
        let ghost rest = sorted_files@;
        level.append(&mut sorted_files);
        assert(views(level@) =~= views(sorted_directories) + views(rest));
        level
    }

    /// A node of the first level with what a listing shows inside it.
    fn fill_node(
        entries: &[TreeEntry],
        blobs: &[Blob],
        request: &ListingRequest,
        node: TreeNode,
    ) -> (result: TreeNode)
        requires
            request.maximum_depth != Some(0usize),
        ensures
            result@ == filled(
                views(entries@),
                views(blobs@),
                depth_model(request.maximum_depth),
                request.include_hidden_files,
                request.order_options,
                node@,
            ),
    {
        match node {
            TreeNode::File { name } => TreeNode::File { name },
            TreeNode::Directory { name, children: _ } => {
                let is_stub: bool = match request.maximum_depth {
                    Some(maximum) => maximum == 1,
                    None => false,
                };
                let children: Vec<TreeNode> = if is_stub {
                    let none: Vec<TreeNode> = Vec::new();
                    assert(views(none@) =~= Seq::empty());
                    none
                } else {
                    let inside: Vec<TreeEntry> = descend(entries, name.as_str());
                    let below: Option<usize> = match request.maximum_depth {
                        Some(maximum) => Some(maximum - 1),
                        None => None,
                    };
                    Self::collect_subtree(inside.as_slice(), below, request.include_hidden_files)
                };
                let shown: Vec<TreeNode> = match &request.order_options {
                    Some(options) => Self::apply_order(
                        entries,
                        blobs,
                        name.as_str(),
                        children,
                        options,
                    ),
                    None => children,
                };
                proof {
                    lemma_node_models(shown@);
                }
                TreeNode::Directory { name, children: shown }
            },
        }
    }

    /// The whole tree that a search or a date filter selects.
    fn select_tree(
        entries: &[TreeEntry],
        history: &[DatedCommit],
        request: &ListingRequest,
    ) -> (result: Vec<TreeNode>)
        requires
            is_selection(*request),
        ensures
            views(result@) == selected_tree(views(entries@), views(history@), *request),
    {
        let depth: Option<usize> = request.maximum_depth;
        let hidden: bool = request.include_hidden_files;
        let flat: Vec<String> = match &request.file_name_starts_with {
            Some(needles) => {
                let wants = |entry: &TreeEntry| -> (r: bool)
                    ensures
                        r == finds_file(entry@, texts(needles@), depth_model(depth), hidden),
                    { is_found_file(entry, needles.as_slice(), depth, hidden) };
                let ghost wanted = |entry: Entry|
                    finds_file(entry, texts(needles@), depth_model(depth), hidden);
                select(entries, wants, Ghost(wanted))
            },
            None => Self::collect_flat_files(entries, depth, hidden),
        };
        let prefix: &str = match &request.path_prefix {
            Some(prefix) => prefix.as_str(),
            None => "",
        };
        proof {
            reveal_strlit("");
            assert(prefix@ =~= prefix_text(*request));
        }
        match request.date_filter {
            Some(filter) => {
                let kept: Vec<String> = retain_by_date(history, prefix, flat, filter);
                let none: Vec<String> = Vec::new();
                assert(texts(none@) =~= Seq::empty());
                GitUtils::build_tree(kept, none, None)
            },
            None => match &request.file_name_starts_with {
                Some(needles) => {
                    let wants = |entry: &TreeEntry| -> (r: bool)
                        ensures
                            r == finds_directory(
                                entry@,
                                texts(needles@),
                                depth_model(depth),
                                hidden,
                            ),
                        { is_found_directory(entry, needles.as_slice(), depth, hidden) };
                    let ghost wanted = |entry: Entry|
                        finds_directory(entry, texts(needles@), depth_model(depth), hidden);
                    let stubs: Vec<String> = select(entries, wants, Ghost(wanted));
                    GitUtils::build_tree(flat, stubs, None)
                },
                None => Vec::new(),
            },
        }
    }

    /// One page of a listing, and whether entries follow it. Pages are cut
    /// from the first level; each entry comes with what is inside it.
    pub fn list_files(
        tree: &[TreeEntry],
        blobs: &[Blob],
        history: &[DatedCommit],
        request: &ListingRequest,
    ) -> (result: (Vec<TreeNode>, bool))
        requires
            request.page >= 1,
            request.maximum_depth != Some(0usize),
        ensures
            views(result.0@) == listing_page(views(tree@), views(blobs@), views(history@), *request),
            result.1 == more_after(
                listing_level(views(tree@), views(blobs@), views(history@), *request).len(),
                request.page as nat,
                request.per_page as nat,
            ),
    {
        let prefix: &str = match &request.path_prefix {
            Some(prefix) => prefix.as_str(),
            None => "",
        };
        proof {
            reveal_strlit("");
            assert(prefix@ =~= prefix_text(*request));
        }
        let entries: Vec<TreeEntry> = root_entries(tree, prefix);
        let ghost from = listing_root(views(tree@), prefix_text(*request));
        let ghost level_model = listing_level(
            views(tree@),
            views(blobs@),
            views(history@),
            *request,
        );
        if request.file_name_starts_with.is_some() || request.date_filter.is_some() {
            let found: Vec<TreeNode> = Self::select_tree(entries.as_slice(), history, request);
            let level: Vec<TreeNode> = match &request.order_options {
                Some(options) => Self::apply_order(entries.as_slice(), blobs, "", found, options),
                None => found,
            };
            proof {
                assert(""@ =~= Seq::<char>::empty());
                assert(views(level@) == level_model);
                lemma_page_views(level@, request.page as nat, request.per_page as nat);
            }
            return take_page(level, request.page, request.per_page);
        }
        let first: Vec<TreeNode> = Self::collect_first_level(
            entries.as_slice(),
            request.include_hidden_files,
        );
        let level: Vec<TreeNode> = match &request.order_options {
            Some(options) => Self::sort_stored(entries.as_slice(), blobs, "", first, options),
            None => first,
        };
        proof {
            assert(""@ =~= Seq::<char>::empty());
            assert(views(level@) == level_model);
            lemma_page_views(level@, request.page as nat, request.per_page as nat);
        }
        let (page, has_more): (Vec<TreeNode>, bool) = take_page(
            level,
            request.page,
            request.per_page,
        );
        let ghost expected = listing_page(views(tree@), views(blobs@), views(history@), *request);
        let ghost cut = page@;
        let mut rest: Vec<TreeNode> = page;
        let mut reversed: Vec<TreeNode> = Vec::new();
        assert(rest@ =~= cut.take(rest@.len() as int));
        while rest.len() > 0
            invariant
                rest@.len() + reversed@.len() == cut.len(),
                rest@ == cut.take(rest@.len() as int),
                views(entries@) == from,
                request.maximum_depth != Some(0usize),
                expected.len() == cut.len(),
                forall|i: int|
                    0 <= i < cut.len() ==> #[trigger] expected[i] == filled(
                        from,
                        views(blobs@),
                        depth_model(request.maximum_depth),
                        request.include_hidden_files,
                        request.order_options,
                        cut[i]@,
                    ),
                forall|i: int|
                    0 <= i < reversed@.len() ==> (#[trigger] reversed@[i])@ == expected[cut.len()
                        - 1 - i],
            decreases rest.len(),
        {
            match rest.pop() {
                None => {},
                Some(node) => {
                    assert(node == cut[rest@.len() as int]);
                    assert(rest@ =~= cut.take(rest@.len() as int));
                    let full: TreeNode = Self::fill_node(
                        entries.as_slice(),
                        blobs,
                        request,
                        node,
                    );
                    assert(full@ == expected[rest@.len() as int]);
                    reversed.push(full);
                },
            }
        }
        let mut nodes: Vec<TreeNode> = Vec::new();
        while reversed.len() > 0
            invariant
                nodes@.len() + reversed@.len() == expected.len(),
                forall|i: int|
                    0 <= i < reversed@.len() ==> (#[trigger] reversed@[i])@
                        == expected[expected.len() - 1 - i],
                forall|i: int| 0 <= i < nodes@.len() ==> (#[trigger] nodes@[i])@ == expected[i],
            decreases reversed.len(),
        {
            match reversed.pop() {
                None => {},
                Some(node) => {
                    nodes.push(node);
                },
            }
        }
        assert(views(nodes@) =~= expected);
        (nodes, has_more)
    }
}

/// The extension of a file name: what follows its last dot, unless that dot
/// starts the name.
pub open spec fn extension_of(name: Seq<char>) -> Option<Seq<char>> {
    let dot = last_position(name, '.');
    if dot <= 0 || name == ".."@ {
        None
    } else {
        Some(name.skip(dot + 1))
    }
}

/// A character with an ASCII letter in lower case.
pub open spec fn ascii_lower(c: char) -> char {
    if 65 <= c as u32 <= 90 {
        ((c as u32 + 32) as u32) as char
    } else {
        c
    }
}

/// Whether two texts are equal but for the case of ASCII letters.
pub open spec fn same_but_case(left: Seq<char>, right: Seq<char>) -> bool {
    left.len() == right.len() && forall|i: int|
        0 <= i < left.len() ==> ascii_lower(#[trigger] left[i]) == ascii_lower(right[i])
}

/// Whether a name has one of the allowed extensions.
pub open spec fn extension_allowed(name: Seq<char>, allowed: Seq<Seq<char>>) -> bool {
    extension_of(name) matches Some(extension) && exists|i: int|
        0 <= i < allowed.len() && same_but_case(#[trigger] allowed[i], extension)
}

/// Whether a count includes an entry as a file.
pub open spec fn counts_file(
    entry: Entry,
    maximum_depth: Option<nat>,
    hidden: bool,
    extensions: Option<Seq<Seq<char>>>,
) -> bool {
    &&& shows_file(entry, maximum_depth, hidden)
    &&& extensions matches Some(allowed) ==> extension_allowed(
        crate::order::leaf_of(entry.path),
        allowed,
    )
}

/// Whether a count includes an entry as a directory.
pub open spec fn counts_directory(entry: Entry, maximum_depth: Option<nat>, hidden: bool) -> bool {
    entry.kind == EntryKind::Tree && is_reached(entry.path, maximum_depth, hidden)
}

/// A character with an ASCII letter in lower case.
fn to_ascii_lower(c: char) -> (result: char)
    ensures
        result == ascii_lower(c),
{
    let code: u32 = c as u32;
    if 65 <= code && code <= 90 {
        let lowered: u8 = (code + 32) as u8;
        lowered as char
    } else {
        c
    }
}

/// Whether two texts are equal but for the case of ASCII letters.
fn equal_but_case(left: &[char], right: &[char]) -> (result: bool)
    ensures
        result == same_but_case(left@, right@),
{
    if left.len() != right.len() {
        return false;
    }
    let mut i: usize = 0;
    while i < left.len()
        invariant
            i <= left.len(),
            left.len() == right.len(),
            forall|j: int|
                0 <= j < i ==> ascii_lower(#[trigger] left@[j]) == ascii_lower(right@[j]),
        decreases left.len() - i,
    {
        if to_ascii_lower(left[i]) != to_ascii_lower(right[i]) {
            assert(ascii_lower(left@[i as int]) != ascii_lower(right@[i as int]));
            return false;
        }
        i = i + 1;
    }
    true
}

/// Whether a name has one of the allowed extensions.
pub(crate) fn has_extension(name: &str, allowed: &[String]) -> (result: bool)
    ensures
        result == extension_allowed(name@, texts(allowed@)),
{
    let a: Vec<char> = characters(name);
    let length: usize = a.len();
    proof {
        lemma_last_position(name@, '.');
    }
    let dot: usize = match find_last(a.as_slice(), '.') {
        Some(dot) => dot,
        None => {
            return false;
        },
    };
    if dot == 0 || same(name, "..") {
        return false;
    }
    assert(dot < length);
    let extension: Vec<char> = crate::text::copy_range(a.as_slice(), dot + 1, length);
    assert(extension@ =~= name@.skip(dot + 1));
    let mut i: usize = 0;
    while i < allowed.len()
        invariant
            i <= allowed.len(),
            extension_of(name@) == Some(extension@),
            forall|j: int|
                0 <= j < i ==> !same_but_case(#[trigger] texts(allowed@)[j], extension@),
        decreases allowed.len() - i,
    {
        assert(texts(allowed@)[i as int] == allowed@[i as int]@);
        let candidate: Vec<char> = characters(allowed[i].as_str());
        if equal_but_case(candidate.as_slice(), extension.as_slice()) {
            return true;
        }
        i = i + 1;
    }
    false
}

/// A selection is never longer than what it is made from.
proof fn lemma_selected_len(entries: Seq<Entry>, wanted: spec_fn(Entry) -> bool)
    ensures
        selected(entries, wanted).len() <= entries.len(),
    decreases entries.len(),
{
    if entries.len() > 0 {
        lemma_selected_len(entries.drop_last(), wanted);
    }
}

impl GitFiles {
    /// Counts the files and directories that a listing with the same prefix,
    /// depth and hidden flag gets to; files only with an allowed extension.
    pub fn count_files(
        tree: &[TreeEntry],
        path_prefix: Option<&str>,
        maximum_depth: Option<usize>,
        include_hidden_files: bool,
        restrict_file_extensions: Option<&[String]>,
    ) -> (result: FileCounts)
        ensures
            ({
                let entries = listing_root(
                    views(tree@),
                    match path_prefix {
                        Some(prefix) => prefix@,
                        None => Seq::empty(),
                    },
                );
                let extensions = match restrict_file_extensions {
                    Some(allowed) => Some(texts(allowed@)),
                    None => None,
                };
                let depth = depth_model(maximum_depth);
                &&& result.files == selected(
                    entries,
                    |entry: Entry| counts_file(entry, depth, include_hidden_files, extensions),
                ).len()
                &&& result.directories == selected(
                    entries,
                    |entry: Entry| counts_directory(entry, depth, include_hidden_files),
                ).len()
            }),
    {
        let prefix: &str = match path_prefix {
            Some(prefix) => prefix,
            None => "",
        };
        proof {
            reveal_strlit("");
            assert(""@ =~= Seq::<char>::empty());
        }
        let entries: Vec<TreeEntry> = root_entries(tree, prefix);
        let ghost all = views(entries@);
        let ghost depth = depth_model(maximum_depth);
        let ghost extensions = match restrict_file_extensions {
            Some(allowed) => Some(texts(allowed@)),
            None => None,
        };
        let ghost is_file = |entry: Entry|
            counts_file(entry, depth, include_hidden_files, extensions);
        let ghost is_folder = |entry: Entry| counts_directory(entry, depth, include_hidden_files);
        let mut files: usize = 0;
        let mut directories: usize = 0;
        let mut i: usize = 0;
        assert(all.take(0) =~= Seq::empty());
        while i < entries.len()
            invariant
                i <= entries.len(),
                all == views(entries@),
                depth == depth_model(maximum_depth),
                extensions == (match restrict_file_extensions {
                    Some(allowed) => Some(texts(allowed@)),
                    None => None,
                }),
                is_file == (|entry: Entry|
                    counts_file(entry, depth, include_hidden_files, extensions)),
                is_folder == (|entry: Entry|
                    counts_directory(entry, depth, include_hidden_files)),
                files == selected(all.take(i as int), is_file).len(),
                directories == selected(all.take(i as int), is_folder).len(),
            decreases entries.len() - i,
        {
            let entry: &TreeEntry = &entries[i];
            proof {
                assert(all.take(i + 1).drop_last() =~= all.take(i as int));
                assert(all.take(i + 1).last() == entry@);
                lemma_selected_len(all.take(i as int), is_file);
                lemma_selected_len(all.take(i as int), is_folder);
            }
            if entry.kind == EntryKind::Tree {
                let parts: Vec<String> = split_path(entry.path.as_str());
                if reaches(&parts, maximum_depth, include_hidden_files) {
                    directories = directories + 1;
                }
            } else if is_shown_file(entry, maximum_depth, include_hidden_files) {
                let counted: bool = match restrict_file_extensions {
                    Some(allowed) => has_extension(
                        crate::order::split_parent(entry.path.as_str()).1,
                        allowed,
                    ),
                    None => true,
                };
                if counted {
                    files = files + 1;
                }
            }
            i = i + 1;
        }
        assert(all.take(i as int) =~= all);
        FileCounts { files, directories }
    }
}

/// What a selection holds: the paths of entries that it wants.
pub proof fn lemma_selected(entries: Seq<Entry>, wanted: spec_fn(Entry) -> bool, path: Seq<char>)
    ensures
        selected(entries, wanted).contains(path) <==> exists|i: int|
            0 <= i < entries.len() && wanted(#[trigger] entries[i]) && entries[i].path == path,
    decreases entries.len(),
{
    let result = selected(entries, wanted);
    if entries.len() > 0 {
        let init = entries.drop_last();
        let before = selected(init, wanted);
        lemma_selected(init, wanted, path);
        if result.contains(path) {
            let k = choose|k: int| 0 <= k < result.len() && result[k] == path;
            if k < before.len() {
                assert(before[k] == path);
                let i = choose|i: int|
                    0 <= i < init.len() && wanted(#[trigger] init[i]) && init[i].path == path;
                assert(entries[i] == init[i]);
            } else {
                assert(entries[entries.len() - 1] == entries.last());
            }
        }
        if exists|i: int|
            0 <= i < entries.len() && wanted(#[trigger] entries[i]) && entries[i].path == path {
            let i = choose|i: int|
                0 <= i < entries.len() && wanted(#[trigger] entries[i]) && entries[i].path == path;
            if i < init.len() {
                assert(init[i] == entries[i]);
                let k = choose|k: int| 0 <= k < before.len() && before[k] == path;
                assert(result[k] == path);
            } else {
                assert(result.last() == path);
            }
        }
    }
}

/// No listing shows an order index as a file, whatever it asks for; hidden
/// files only where they are asked for, and none below the greatest depth.
pub proof fn law_listing_keeps_out(
    entries: Seq<Entry>,
    maximum_depth: Option<nat>,
    hidden: bool,
    path: Seq<char>,
)
    requires
        shown_files(entries, maximum_depth, hidden).contains(path),
    ensures
        !is_index_path(path),
        is_hidden(path) ==> hidden,
        maximum_depth matches Some(maximum) ==> components(path).len() <= depth_limit(maximum),
{
    lemma_selected(entries, |entry: Entry| shows_file(entry, maximum_depth, hidden), path);
}

/// A search finds no file that the listing without it does not show.
pub proof fn law_search_narrows(
    entries: Seq<Entry>,
    needles: Seq<Seq<char>>,
    maximum_depth: Option<nat>,
    hidden: bool,
    path: Seq<char>,
)
    requires
        selected(
            entries,
            |entry: Entry| finds_file(entry, needles, maximum_depth, hidden),
        ).contains(path),
    ensures
        shown_files(entries, maximum_depth, hidden).contains(path),
{
    let finds = |entry: Entry| finds_file(entry, needles, maximum_depth, hidden);
    let shows = |entry: Entry| shows_file(entry, maximum_depth, hidden);
    lemma_selected(entries, finds, path);
    let i = choose|i: int|
        0 <= i < entries.len() && finds(#[trigger] entries[i]) && entries[i].path == path;
    assert(shows(entries[i]));
    lemma_selected(entries, shows, path);
}

/// How names rank: by their place, or by the index that stands in for one.
/// Two that an order lists rank as it lists them; one that it does not list
/// after all that it lists, or, with an index to stand in for a place, after
/// those at lower places and before the others; two that it does not list
/// alike.
pub proof fn law_ranks(
    order: Seq<Seq<char>>,
    implicit: Option<i64>,
    left: Seq<char>,
    right: Seq<char>,
)
    requires
        order.len() <= i64::MAX,
    ensures
        ({
            let at_left = name_position(order, left);
            let at_right = name_position(order, right);
            let rank_left = rank_for(listed_place(order, left), implicit);
            let rank_right = rank_for(listed_place(order, right), implicit);
            &&& at_left < order.len() ==> rank_left == (at_left as i64, true)
            &&& at_left == order.len() ==> rank_left == (
                match implicit {
                    Some(index) => index,
                    None => i64::MAX,
                },
                false,
            )
            &&& rank_before(rank_left, rank_right) <==> if at_left < order.len() && at_right
                < order.len() {
                at_left < at_right
            } else if at_left < order.len() {
                implicit matches Some(index) ==> at_left < index
            } else {
                at_right < order.len() && (implicit matches Some(index) && index <= at_right)
            }
        }),
{
    lemma_name_position(order, left);
    lemma_name_position(order, right);
}

/// Applying a stored order neither adds nor drops an entry, and leaves no
/// entry after one that its rank comes before.
pub proof fn law_order_is_applied(
    order: Seq<Seq<char>>,
    nodes: Seq<Node>,
    implicit: Option<i64>,
)
    ensures
        ({
            let result = in_stored_order(Some(order), nodes, implicit);
            &&& result.len() == nodes.len()
            &&& result.to_multiset() == nodes.to_multiset()
            &&& forall|i: int, j: int|
                0 <= i < j < result.len() ==> !order_before(
                    order,
                    implicit,
                    #[trigger] result[j],
                    #[trigger] result[i],
                )
        }),
{
    let before = |left: Node, right: Node| order_before(order, implicit, left, right);
    crate::sorting::lemma_sorted_keeps_items(nodes, before);
    assert(crate::sorting::is_ranking(before));
    crate::sorting::lemma_sorted_is_sorted(nodes, before);
    let result = in_stored_order(Some(order), nodes, implicit);
    assert forall|i: int, j: int| 0 <= i < j < result.len() implies !order_before(
        order,
        implicit,
        #[trigger] result[j],
        #[trigger] result[i],
    ) by {
        assert(!before(result[j], result[i]));
    }
}

proof fn lemma_page_views(nodes: Seq<TreeNode>, page: nat, per_page: nat)
    requires
        page >= 1,
    ensures
        views(page_of(nodes, page, per_page)) == page_of(views(nodes), page, per_page),
{
    assert((page - 1) * per_page >= 0) by (nonlinear_arith)
        requires
            page >= 1,
    ;
    assert(views(page_of(nodes, page, per_page)) =~= page_of(views(nodes), page, per_page));
}

proof fn lemma_places(ranks: Seq<(String, i64)>, order: Seq<Seq<char>>, name: Seq<char>, from: int)
    requires
        0 <= from <= order.len(),
        ranks.len() == order.len(),
        forall|j: int|
            0 <= j < ranks.len() ==> (#[trigger] ranks[j]).0@ == crate::order::bare_name(order[j])
                && ranks[j].1 == (if j <= i64::MAX {
                j
            } else {
                i64::MAX as int
            }),
    ensures
        ({
            let position = from + name_position(order.skip(from), name);
            if position < order.len() {
                place_in(ranks.skip(from), name) == Some(
                    if position <= i64::MAX {
                        position as i64
                    } else {
                        i64::MAX
                    },
                )
            } else {
                place_in(ranks.skip(from), name) is None
            }
        }),
    decreases order.len() - from,
{
    if from < order.len() {
        assert(ranks.skip(from)[0] == ranks[from]);
        assert(order.skip(from)[0] == order[from]);
        assert(ranks.skip(from).skip(1) =~= ranks.skip(from + 1));
        assert(order.skip(from).skip(1) =~= order.skip(from + 1));
        lemma_places(ranks, order, name, from + 1);
    }
}

} // verus!
