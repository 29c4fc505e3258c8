//! Which directories a file tree has.
use vstd::prelude::*;
use crate::git::tree::{
    arranged, arranges_to, components, goes_beyond, has_name, holds_file, is_blocked, is_made,
    is_prefix_free, lemma_arranged_contains, lemma_blocked_below, lemma_files_tree_sorted,
    lemma_goes_beyond_below, lemma_holds_by_slot, lemma_name_slot, lemma_only_listed_files,
    lemma_put, lemma_stubs_keep_files, lemma_unique_name, level_sorted, name_of, name_slot, put,
    tree_of, tree_sorted, with_file, with_files, with_stub, with_stubs, Node,
};

verus! {

/// Whether a tree has a directory at a path.
pub open spec fn holds_directory(nodes: Seq<Node>, path: Seq<Seq<char>>) -> bool
    decreases path.len(), 1nat,
{
    path.len() > 0 && exists|node: Node| #[trigger]
        nodes.contains(node) && name_of(node) == path[0] && leads_to_directory(node, path)
}

/// Whether a node, the first of a path, leads to a directory at its end.
pub open spec fn leads_to_directory(node: Node, path: Seq<Seq<char>>) -> bool
    decreases path.len(), 0nat,
    when path.len() > 0
{
    match node {
        Node::File(_) => false,
        Node::Directory(_, children) => path.len() == 1 || holds_directory(children, path.skip(1)),
    }
}

proof fn lemma_directory_by_slot(nodes: Seq<Node>, path: Seq<Seq<char>>)
    requires
        level_sorted(nodes),
        path.len() > 0,
    ensures
        holds_directory(nodes, path) <==> has_name(nodes, path[0]) && leads_to_directory(
            nodes[name_slot(nodes, path[0])],
            path,
        ),
{
    let slot = name_slot(nodes, path[0]);
    lemma_name_slot(nodes, path[0]);
    if holds_directory(nodes, path) {
        let node = choose|node: Node| #[trigger]
            nodes.contains(node) && name_of(node) == path[0] && leads_to_directory(node, path);
        let at = choose|at: int| 0 <= at < nodes.len() && nodes[at] == node;
        lemma_unique_name(nodes, path[0], at);
    }
    if has_name(nodes, path[0]) {
        assert(nodes.contains(nodes[slot]));
    }
}

proof fn lemma_directory_after_put(nodes: Seq<Node>, node: Node, path: Seq<Seq<char>>)
    requires
        level_sorted(nodes),
        path.len() > 0,
    ensures
        holds_directory(put(nodes, node), path) <==> if name_of(node) == path[0] {
            leads_to_directory(node, path)
        } else {
            holds_directory(nodes, path)
        },
{
    lemma_put(nodes, node);
    let result = put(nodes, node);
    assert(result.contains(node));
    if holds_directory(result, path) {
        let x = choose|x: Node| #[trigger]
            result.contains(x) && name_of(x) == path[0] && leads_to_directory(x, path);
        assert(x == node || nodes.contains(x));
    }
    if name_of(node) != path[0] && holds_directory(nodes, path) {
        let x = choose|x: Node| #[trigger]
            nodes.contains(x) && name_of(x) == path[0] && leads_to_directory(x, path);
        assert(result.contains(x));
    }
}

/// Putting a file into a tree adds the directories on its way, as far down as
/// they are made, and no others.
proof fn lemma_directories_after_file(
    nodes: Seq<Node>,
    path: Seq<Seq<char>>,
    max_depth: Option<nat>,
    depth: nat,
    other: Seq<Seq<char>>,
)
    requires
        tree_sorted(nodes),
        path.len() > 0,
        other.len() > 0,
        !is_blocked(nodes, path),
        !holds_directory(nodes, path),
    ensures
        holds_directory(with_file(nodes, path, max_depth, depth), other) <==> holds_directory(
            nodes,
            other,
        ) || (goes_beyond(path, other) && is_made(other.len(), max_depth, depth)),
    decreases path.len(),
{
    let slot = name_slot(nodes, path[0]);
    let first = path.take(1);
    lemma_name_slot(nodes, path[0]);
    lemma_directory_by_slot(nodes, other);
    lemma_directory_by_slot(nodes, path);
    if other.len() == 1 && other[0] == path[0] {
        assert(other =~= first);
    }
    if goes_beyond(path, other) {
        assert(path[0] == path.take(other.len() as int)[0]);
    }
    if other.len() > 1 {
        lemma_goes_beyond_below(path, other);
    }
    if path.len() == 1 {
        lemma_directory_after_put(nodes, Node::File(path[0]), other);
    } else {
        lemma_blocked_below(nodes, path);
        assert(!holds_directory(Seq::<Node>::empty(), other.skip(1)));
        assert(!holds_directory(Seq::<Node>::empty(), path.skip(1)));
        assert(!is_blocked(Seq::<Node>::empty(), path.skip(1)));
        assert(tree_sorted(Seq::<Node>::empty()));
        if max_depth is Some && depth >= max_depth->0 {
            lemma_directory_after_put(nodes, Node::Directory(path[0], Seq::empty()), other);
        } else if !has_name(nodes, path[0]) {
            let fresh = Node::Directory(
                path[0],
                with_file(Seq::empty(), path.skip(1), max_depth, depth + 1),
            );
            lemma_directory_after_put(nodes, fresh, other);
            if other.len() > 1 {
                lemma_directories_after_file(
                    Seq::empty(),
                    path.skip(1),
                    max_depth,
                    depth + 1,
                    other.skip(1),
                );
            }
        } else if let Node::Directory(name, children) = nodes[slot] {
            let grown = Node::Directory(
                name,
                with_file(children, path.skip(1), max_depth, depth + 1),
            );
            assert(with_file(nodes, path, max_depth, depth) == put(nodes, grown));
            lemma_directory_after_put(nodes, grown, other);
            if other.len() > 1 {
                lemma_directories_after_file(
                    children,
                    path.skip(1),
                    max_depth,
                    depth + 1,
                    other.skip(1),
                );
            }
        }
    }
}

/// Whether a path is a directory on the way to a file of a list, and made.
pub open spec fn leads_to_listed(
    paths: Seq<Seq<char>>,
    max_depth: Option<nat>,
    path: Seq<Seq<char>>,
) -> bool {
    is_made(path.len(), max_depth, 1) && exists|i: int|
        0 <= i < paths.len() && goes_beyond(components(#[trigger] paths[i]), path)
}

proof fn lemma_files_lead(paths: Seq<Seq<char>>, max_depth: Option<nat>, path: Seq<Seq<char>>)
    requires
        is_prefix_free(paths),
        path.len() > 0,
    ensures
        holds_directory(with_files(paths, max_depth), path) <==> leads_to_listed(
            paths,
            max_depth,
            path,
        ),
    decreases paths.len(),
{
    if paths.len() == 0 {
        assert(!holds_directory(Seq::<Node>::empty(), path));
    } else {
        let init = paths.drop_last();
        let last = components(paths.last());
        let before = with_files(init, max_depth);
        assert(paths[paths.len() - 1] == paths.last());
        assert(is_prefix_free(init)) by {
            assert forall|i: int, j: int|
                0 <= i < init.len() && 0 <= j < init.len() implies !goes_beyond(
                components(#[trigger] init[i]),
                components(#[trigger] init[j]),
            ) by {
                assert(!goes_beyond(components(paths[i]), components(paths[j])));
            }
        }
        lemma_files_lead(init, max_depth, path);
        lemma_files_lead(init, max_depth, last);
        if holds_directory(before, last) {
            let i = choose|i: int|
                0 <= i < init.len() && goes_beyond(components(#[trigger] init[i]), last);
            assert(!goes_beyond(components(paths[i]), components(paths[paths.len() - 1])));
        }
        if is_blocked(before, last) {
            let length = choose|length: int|
                0 < length < last.len() && #[trigger] holds_file(before, last.take(length));
            lemma_only_listed_files(init, max_depth, last.take(length));
            let i = choose|i: int|
                0 <= i < init.len() && components(#[trigger] init[i]) == last.take(length);
            assert(goes_beyond(components(paths[paths.len() - 1]), components(paths[i])));
        }
        lemma_files_tree_sorted(init, max_depth);
        lemma_directories_after_file(before, last, max_depth, 1, path);
        if leads_to_listed(init, max_depth, path) {
            let i = choose|i: int|
                0 <= i < init.len() && goes_beyond(components(#[trigger] init[i]), path);
            assert(goes_beyond(components(paths[i]), path));
        }
        if leads_to_listed(paths, max_depth, path) {
            let i = choose|i: int|
                0 <= i < paths.len() && goes_beyond(components(#[trigger] paths[i]), path);
            if i < init.len() {
                assert(goes_beyond(components(init[i]), path));
            }
        }
    }
}

/// Putting a directory into a tree adds it and those on its way, and no
/// others.
proof fn lemma_directories_after_stub(
    nodes: Seq<Node>,
    path: Seq<Seq<char>>,
    other: Seq<Seq<char>>,
)
    requires
        tree_sorted(nodes),
        path.len() > 0,
        other.len() > 0,
        !is_blocked(nodes, path),
        !holds_file(nodes, path),
    ensures
        holds_directory(with_stub(nodes, path), other) <==> holds_directory(nodes, other) || other
            == path || goes_beyond(path, other),
    decreases path.len(),
{
    let slot = name_slot(nodes, path[0]);
    lemma_name_slot(nodes, path[0]);
    lemma_directory_by_slot(nodes, other);
    lemma_holds_by_slot(nodes, path);
    assert(!holds_directory(Seq::<Node>::empty(), other.skip(1)));
    if goes_beyond(path, other) {
        assert(path[0] == path.take(other.len() as int)[0]);
    }
    if other.len() > 1 {
        lemma_goes_beyond_below(path, other);
    } else if other[0] == path[0] {
        assert(other =~= path.take(1));
        if path.len() == 1 {
            assert(other =~= path);
        }
    }
    if path.len() == 1 {
        lemma_directory_after_put(nodes, Node::Directory(path[0], Seq::empty()), other);
    } else {
        lemma_blocked_below(nodes, path);
        assert(!is_blocked(Seq::<Node>::empty(), path.skip(1)));
        assert(!holds_file(Seq::<Node>::empty(), path.skip(1)));
        assert(tree_sorted(Seq::<Node>::empty()));
        if !has_name(nodes, path[0]) {
            let fresh = Node::Directory(path[0], with_stub(Seq::empty(), path.skip(1)));
            lemma_directory_after_put(nodes, fresh, other);
            if other.len() > 1 {
                lemma_directories_after_stub(Seq::empty(), path.skip(1), other.skip(1));
            }
        } else if let Node::Directory(name, children) = nodes[slot] {
            let grown = Node::Directory(name, with_stub(children, path.skip(1)));
            assert(with_stub(nodes, path) == put(nodes, grown));
            lemma_directory_after_put(nodes, grown, other);
            if other.len() > 1 {
                lemma_directories_after_stub(children, path.skip(1), other.skip(1));
            }
        }
    }
}

/// Whether a path is a directory of a list, or on the way to one.
pub open spec fn leads_to_stub(stubs: Seq<Seq<char>>, path: Seq<Seq<char>>) -> bool {
    exists|i: int|
        0 <= i < stubs.len() && (components(#[trigger] stubs[i]) == path || goes_beyond(
            components(stubs[i]),
            path,
        ))
}

/// Whether no directory of a list is, or lies below, a file of another.
pub open spec fn are_clear_of_files(stubs: Seq<Seq<char>>, paths: Seq<Seq<char>>) -> bool {
    forall|i: int, j: int|
        0 <= i < stubs.len() && 0 <= j < paths.len() ==> components(#[trigger] stubs[i])
            != components(#[trigger] paths[j]) && !goes_beyond(
            components(stubs[i]),
            components(paths[j]),
        )
}

proof fn lemma_stubs_lead(
    paths: Seq<Seq<char>>,
    stubs: Seq<Seq<char>>,
    max_depth: Option<nat>,
    path: Seq<Seq<char>>,
)
    requires
        is_prefix_free(paths),
        are_clear_of_files(stubs, paths),
        path.len() > 0,
    ensures
        holds_directory(with_stubs(with_files(paths, max_depth), stubs), path) <==> leads_to_listed(
            paths,
            max_depth,
            path,
        ) || leads_to_stub(stubs, path),
    decreases stubs.len(),
{
    let files = with_files(paths, max_depth);
    lemma_files_lead(paths, max_depth, path);
    if stubs.len() > 0 {
        let init = stubs.drop_last();
        let last = components(stubs.last());
        let before = with_stubs(files, init);
        assert(stubs[stubs.len() - 1] == stubs.last());
        assert(are_clear_of_files(init, paths)) by {
            assert forall|i: int, j: int|
                0 <= i < init.len() && 0 <= j < paths.len() implies components(#[trigger] init[i])
                != components(#[trigger] paths[j]) && !goes_beyond(
                components(init[i]),
                components(paths[j]),
            ) by {
                assert(init[i] == stubs[i]);
            }
        }
        lemma_stubs_lead(paths, init, max_depth, path);
        lemma_files_tree_sorted(paths, max_depth);
        lemma_stubs_keep_files(files, init, last);
        if holds_file(before, last) {
            lemma_only_listed_files(paths, max_depth, last);
            let j = choose|j: int| 0 <= j < paths.len() && components(#[trigger] paths[j]) == last;
            assert(components(stubs[stubs.len() - 1]) != components(paths[j]));
        }
        if is_blocked(before, last) {
            let length = choose|length: int|
                0 < length < last.len() && #[trigger] holds_file(before, last.take(length));
            lemma_stubs_keep_files(files, init, last.take(length));
            lemma_only_listed_files(paths, max_depth, last.take(length));
            let j = choose|j: int|
                0 <= j < paths.len() && components(#[trigger] paths[j]) == last.take(length);
            assert(!goes_beyond(components(stubs[stubs.len() - 1]), components(paths[j])));
        }
        lemma_directories_after_stub(before, last, path);
        if leads_to_stub(init, path) {
            let i = choose|i: int|
                0 <= i < init.len() && (components(#[trigger] init[i]) == path || goes_beyond(
                    components(init[i]),
                    path,
                ));
            assert(init[i] == stubs[i]);
        }
        if leads_to_stub(stubs, path) {
            let i = choose|i: int|
                0 <= i < stubs.len() && (components(#[trigger] stubs[i]) == path || goes_beyond(
                    components(stubs[i]),
                    path,
                ));
            if i < init.len() {
                assert(init[i] == stubs[i]);
            }
        }
    }
}

proof fn lemma_arranged_directories_held(nodes: Seq<Node>, path: Seq<Seq<char>>)
    ensures
        holds_directory(arranged(nodes), path) <==> holds_directory(nodes, path),
    decreases path.len(),
{
    if path.len() > 0 {
        if holds_directory(arranged(nodes), path) {
            let node = choose|node: Node| #[trigger]
                arranged(nodes).contains(node) && name_of(node) == path[0] && leads_to_directory(
                    node,
                    path,
                );
            lemma_arranged_contains(nodes, node);
            let x = choose|x: Node| #[trigger] nodes.contains(x) && arranges_to(x, node);
            if let Node::Directory(_, children) = x {
                lemma_arranged_directories_held(children, path.skip(1));
                assert(leads_to_directory(x, path));
            }
        }
        if holds_directory(nodes, path) {
            let x = choose|x: Node| #[trigger]
                nodes.contains(x) && name_of(x) == path[0] && leads_to_directory(x, path);
            if let Node::Directory(name, children) = x {
                let node = Node::Directory(name, arranged(children));
                assert(arranges_to(x, node));
                lemma_arranged_contains(nodes, node);
                lemma_arranged_directories_held(children, path.skip(1));
                assert(leads_to_directory(node, path));
            }
        }
    }
}

/// A tree shows exactly the directories on the way to the files it was built
/// from, down to the greatest depth, and the directories it was given with
/// those on their way; as long as no file is a directory of another or of
/// what it was given.
pub proof fn law_tree_shows_its_directories(
    flat: Seq<Seq<char>>,
    stubs: Seq<Seq<char>>,
    max_depth: Option<nat>,
    path: Seq<Seq<char>>,
)
    requires
        is_prefix_free(flat),
        are_clear_of_files(stubs, flat),
        path.len() > 0,
    ensures
        holds_directory(tree_of(flat, stubs, max_depth), path) <==> leads_to_listed(
            flat,
            max_depth,
            path,
        ) || leads_to_stub(stubs, path),
{
    lemma_stubs_lead(flat, stubs, max_depth, path);
    lemma_arranged_directories_held(with_stubs(with_files(flat, max_depth), stubs), path);
}

} // verus!
