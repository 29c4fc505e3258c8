//! File trees: building one out of flat paths, directories first and by name.
use vstd::prelude::*;
use crate::git::history::GitUtils;
use crate::sorting::views;
use crate::text::{
    characters, copy_range, find_first, first_position, from_characters, lemma_first_position, less,
    same, text_less, texts,
};

verus! {

/// One node of a file tree.
#[derive(Debug)]
pub enum TreeNode {
    File { name: String },
    Directory { name: String, children: Vec<TreeNode> },
}

/// A tree node over characters.
pub enum Node {
    File(Seq<char>),
    Directory(Seq<char>, Seq<Node>),
}

/// The model of a tree node.
pub open spec fn node_model(node: TreeNode) -> Node
    decreases node,
{
    match node {
        TreeNode::File { name } => Node::File(name@),
        TreeNode::Directory { name, children } => Node::Directory(name@, node_models(children@)),
    }
}

/// The models of a list of tree nodes.
pub open spec fn node_models(nodes: Seq<TreeNode>) -> Seq<Node>
    decreases nodes,
{
    if nodes.len() == 0 {
        Seq::empty()
    } else {
        node_models(nodes.drop_last()).push(node_model(nodes.last()))
    }
}

impl View for TreeNode {
    type V = Node;

    open spec fn view(&self) -> Node {
        node_model(*self)
    }
}

/// The models of a list are the models of its nodes.
pub proof fn lemma_node_models(nodes: Seq<TreeNode>)
    ensures
        node_models(nodes) == views(nodes),
    decreases nodes.len(),
{
    if nodes.len() == 0 {
        assert(node_models(nodes) =~= views(nodes));
    } else {
        lemma_node_models(nodes.drop_last());
        assert(node_models(nodes) =~= views(nodes));
    }
}

/// The model of a directory, over the views of its children.
proof fn lemma_directory_model(node: TreeNode)
    ensures
        node matches TreeNode::Directory { name, children } ==> node@ == Node::Directory(
            name@,
            views(children@),
        ),
{
    if let TreeNode::Directory { name, children } = node {
        lemma_node_models(children@);
    }
}

/// The name of a node.
pub open spec fn name_of(node: Node) -> Seq<char> {
    match node {
        Node::File(name) => name,
        Node::Directory(name, _) => name,
    }
}

impl TreeNode {
    /// The leaf name of the node.
    pub fn name(&self) -> (result: &str)
        ensures
            result@ == name_of(self@),
    {
        match self {
            TreeNode::File { name } => name.as_str(),
            TreeNode::Directory { name, .. } => name.as_str(),
        }
    }
}

/// The parts of a path between its slashes.
pub open spec fn components(path: Seq<char>) -> Seq<Seq<char>>
    decreases path.len(),
{
    let slash = first_position(path, '/');
    if slash >= path.len() || slash < 0 {
        seq![path]
    } else {
        seq![path.take(slash)] + components(path.skip(slash + 1))
    }
}

/// Where `name` is, or belongs, in a list of nodes sorted by name.
pub open spec fn name_slot(nodes: Seq<Node>, name: Seq<char>) -> int
    decreases nodes.len(),
{
    if nodes.len() == 0 || !text_less(name_of(nodes[0]), name) {
        0
    } else {
        1 + name_slot(nodes.skip(1), name)
    }
}

/// The slot of a name lies in the list, or at its end.
pub proof fn lemma_name_slot(nodes: Seq<Node>, name: Seq<char>)
    ensures
        0 <= name_slot(nodes, name) <= nodes.len(),
        forall|i: int|
            0 <= i < name_slot(nodes, name) ==> text_less(name_of(#[trigger] nodes[i]), name),
        name_slot(nodes, name) < nodes.len() ==> !text_less(
            name_of(nodes[name_slot(nodes, name)]),
            name,
        ),
    decreases nodes.len(),
{
    if nodes.len() > 0 && text_less(name_of(nodes[0]), name) {
        lemma_name_slot(nodes.skip(1), name);
        assert forall|i: int| 0 <= i < name_slot(nodes, name) implies text_less(
            name_of(#[trigger] nodes[i]),
            name,
        ) by {
            if i > 0 {
                assert(nodes[i] == nodes.skip(1)[i - 1]);
            }
        }
    }
}

/// Whether a sorted list has a node with the given name.
pub open spec fn has_name(nodes: Seq<Node>, name: Seq<char>) -> bool {
    let slot = name_slot(nodes, name);
    slot < nodes.len() && name_of(nodes[slot]) == name
}

/// A sorted list with `node` under its name, in place of any other.
pub open spec fn put(nodes: Seq<Node>, node: Node) -> Seq<Node> {
    let slot = name_slot(nodes, name_of(node));
    if has_name(nodes, name_of(node)) {
        nodes.update(slot, node)
    } else {
        nodes.insert(slot, node)
    }
}

/// A sorted list with an empty directory under `name`, unless something has
/// that name.
pub open spec fn with_directory(nodes: Seq<Node>, name: Seq<char>) -> Seq<Node> {
    if has_name(nodes, name) {
        nodes
    } else {
        put(nodes, Node::Directory(name, Seq::empty()))
    }
}

/// A sorted tree with a file at the given path. Directories are made on the
/// way, down to the greatest depth; a file on the way blocks it.
pub open spec fn with_file(
    nodes: Seq<Node>,
    path: Seq<Seq<char>>,
    max_depth: Option<nat>,
    depth: nat,
) -> Seq<Node>
    decreases path.len(),
{
    if path.len() == 0 {
        nodes
    } else if path.len() == 1 {
        put(nodes, Node::File(path[0]))
    } else if max_depth is Some && depth >= max_depth->0 {
        with_directory(nodes, path[0])
    } else if !has_name(nodes, path[0]) {
        put(
            nodes,
            Node::Directory(
                path[0],
                with_file(Seq::empty(), path.skip(1), max_depth, depth + 1),
            ),
        )
    } else {
        let slot = name_slot(nodes, path[0]);
        match nodes[slot] {
            Node::File(_) => nodes,
            Node::Directory(name, children) => nodes.update(
                slot,
                Node::Directory(name, with_file(children, path.skip(1), max_depth, depth + 1)),
            ),
        }
    }
}

/// A sorted tree with a directory at the given path, empty unless it is there.
pub open spec fn with_stub(nodes: Seq<Node>, path: Seq<Seq<char>>) -> Seq<Node>
    decreases path.len(),
{
    if path.len() == 0 {
        nodes
    } else if path.len() == 1 {
        with_directory(nodes, path[0])
    } else if !has_name(nodes, path[0]) {
        put(nodes, Node::Directory(path[0], with_stub(Seq::empty(), path.skip(1))))
    } else {
        let slot = name_slot(nodes, path[0]);
        match nodes[slot] {
            Node::File(_) => nodes,
            Node::Directory(name, children) => nodes.update(
                slot,
                Node::Directory(name, with_stub(children, path.skip(1))),
            ),
        }
    }
}

/// A sorted tree with files at all the given paths.
pub open spec fn with_files(paths: Seq<Seq<char>>, max_depth: Option<nat>) -> Seq<Node>
    decreases paths.len(),
{
    if paths.len() == 0 {
        Seq::empty()
    } else {
        with_file(
            with_files(paths.drop_last(), max_depth),
            components(paths.last()),
            max_depth,
            1,
        )
    }
}

/// A sorted tree with directories at all the given paths.
pub open spec fn with_stubs(nodes: Seq<Node>, stubs: Seq<Seq<char>>) -> Seq<Node>
    decreases stubs.len(),
{
    if stubs.len() == 0 {
        nodes
    } else {
        with_stub(with_stubs(nodes, stubs.drop_last()), components(stubs.last()))
    }
}

/// The directories of a list, with their children arranged.
pub open spec fn arranged_directories(nodes: Seq<Node>) -> Seq<Node>
    decreases nodes, 0nat,
{
    if nodes.len() == 0 {
        Seq::empty()
    } else {
        match nodes.last() {
            Node::File(_) => arranged_directories(nodes.drop_last()),
            Node::Directory(name, children) => arranged_directories(nodes.drop_last()).push(
                Node::Directory(name, arranged(children)),
            ),
        }
    }
}

/// The files of a list.
pub open spec fn only_files(nodes: Seq<Node>) -> Seq<Node> {
    nodes.filter(|node: Node| node is File)
}

/// A tree with directories before files at every level.
pub open spec fn arranged(nodes: Seq<Node>) -> Seq<Node>
    decreases nodes, 1nat,
{
    arranged_directories(nodes) + only_files(nodes)
}

/// The tree of the given files and directories: directories before files at
/// every level, and both by name.
pub open spec fn tree_of(
    flat: Seq<Seq<char>>,
    stubs: Seq<Seq<char>>,
    max_depth: Option<nat>,
) -> Seq<Node> {
    arranged(with_stubs(with_files(flat, max_depth), stubs))
}

/// The parts of a path between its slashes.
pub fn split_path(path: &str) -> (result: Vec<String>)
    ensures
        texts(result@) == components(path@),
{
    let a: Vec<char> = characters(path);
    let mut parts: Vec<String> = Vec::new();
    let mut rest: Vec<char> = a;
    let ghost mut done: Seq<Seq<char>> = Seq::empty();
    assert(texts(parts@) =~= done);
    assert(done + components(rest@) =~= components(path@));
    loop
        invariant_except_break
            texts(parts@) == done,
            done + components(rest@) == components(path@),
        ensures
            texts(parts@) == components(path@),
        decreases rest.len(),
    {
        proof {
            lemma_first_position(rest@, '/');
        }
        let slash: usize = find_first(rest.as_slice(), '/');
        if slash >= rest.len() {
            let part: String = from_characters(rest.as_slice());
            proof {
                crate::text::lemma_texts_push(parts@, part);
                assert(done + seq![rest@] =~= done.push(rest@));
            }
            parts.push(part);
            break;
        }
        let head: Vec<char> = copy_range(rest.as_slice(), 0, slash);
        let tail: Vec<char> = copy_range(rest.as_slice(), slash + 1, rest.len());
        let part: String = from_characters(head.as_slice());
        proof {
            assert(head@ =~= rest@.take(slash as int));
            assert(tail@ =~= rest@.skip(slash + 1));
            crate::text::lemma_texts_push(parts@, part);
            assert(done + (seq![head@] + components(tail@)) =~= done.push(head@) + components(
                tail@,
            ));
            done = done.push(head@);
        }
        parts.push(part);
        rest = tail;
    }
    parts
}

/// Finds where `name` is, or belongs.
fn find_slot(nodes: &Vec<TreeNode>, name: &str) -> (result: usize)
    ensures
        result == name_slot(views(nodes@), name@),
        result <= nodes.len(),
{
    let ghost all = views(nodes@);
    let mut i: usize = 0;
    assert(all.skip(0) =~= all);
    while i < nodes.len()
        invariant
            i <= nodes.len(),
            all == views(nodes@),
            name_slot(all, name@) == i + name_slot(all.skip(i as int), name@),
        decreases nodes.len() - i,
    {
        assert(all.skip(i as int)[0] == nodes@[i as int]@);
        if !less(nodes[i].name(), name) {
            return i;
        }
        assert(all.skip(i as int).skip(1) =~= all.skip(i + 1));
        i = i + 1;
    }
    i
}

/// Whether the node at `slot` has the given name.
fn is_named(nodes: &Vec<TreeNode>, slot: usize, name: &str) -> (result: bool)
    requires
        slot == name_slot(views(nodes@), name@),
        slot <= nodes.len(),
    ensures
        result == has_name(views(nodes@), name@),
{
    if slot < nodes.len() {
        same(nodes[slot].name(), name)
    } else {
        false
    }
}

/// Puts a node under its name.
fn put_node(nodes: Vec<TreeNode>, node: TreeNode) -> (result: Vec<TreeNode>)
    ensures
        views(result@) == put(views(nodes@), node@),
{
    let mut all: Vec<TreeNode> = nodes;
    let slot: usize = find_slot(&all, node.name());
    if is_named(&all, slot, node.name()) {
        all.set(slot, node);
        assert(views(all@) =~= put(views(nodes@), node@));
    } else {
        all.insert(slot, node);
        assert(views(all@) =~= put(views(nodes@), node@));
    }
    all
}

/// Puts an empty directory under `name`, unless something has that name.
fn put_directory(nodes: Vec<TreeNode>, name: &str) -> (result: Vec<TreeNode>)
    ensures
        views(result@) == with_directory(views(nodes@), name@),
{
    let slot: usize = find_slot(&nodes, name);
    if is_named(&nodes, slot, name) {
        nodes
    } else {
        let children: Vec<TreeNode> = Vec::new();
        let node: TreeNode = TreeNode::Directory { name: name.to_owned(), children };
        assert(node_models(children@) =~= Seq::empty());
        put_node(nodes, node)
    }
}

/// The model of a greatest depth.
pub open spec fn depth_model(max_depth: Option<usize>) -> Option<nat> {
    match max_depth {
        Some(depth) => Some(depth as nat),
        None => None,
    }
}

/// Puts a file at the path that starts at component `from`.
fn insert_file(
    nodes: Vec<TreeNode>,
    path: &Vec<String>,
    from: usize,
    max_depth: Option<usize>,
    depth: usize,
) -> (result: Vec<TreeNode>)
    requires
        from <= path.len(),
        depth == from + 1,
    ensures
        views(result@) == with_file(
            views(nodes@),
            texts(path@).skip(from as int),
            depth_model(max_depth),
            depth as nat,
        ),
    decreases path.len() - from,
{
    let ghost rest = texts(path@).skip(from as int);
    assert(rest.len() == path.len() - from);
    if from == path.len() {
        return nodes;
    }
    assert(rest.skip(1) =~= texts(path@).skip(from + 1));
    let name: &str = path[from].as_str();
    assert(rest[0] == name@);
    if path.len() - from == 1 {
        return put_node(nodes, TreeNode::File { name: name.to_owned() });
    }
    if let Some(greatest) = max_depth {
        if depth >= greatest {
            return put_directory(nodes, name);
        }
    }
    let slot: usize = find_slot(&nodes, name);
    if !is_named(&nodes, slot, name) {
        let none: Vec<TreeNode> = Vec::new();
        assert(views(none@) =~= Seq::empty());
        let children: Vec<TreeNode> = insert_file(none, path, from + 1, max_depth, depth + 1);
        let node: TreeNode = TreeNode::Directory { name: name.to_owned(), children };
        proof {
            lemma_directory_model(node);
        }
        return put_node(nodes, node);
    }
    let mut all: Vec<TreeNode> = nodes;
    let ghost before = all@;
    let node: TreeNode = all.remove(slot);
    assert(views(before)[slot as int] == node@);
    proof {
        lemma_directory_model(node);
    }
    match node {
        TreeNode::File { name } => {
            all.insert(slot, TreeNode::File { name });
            assert(all@ =~= before);
        },
        TreeNode::Directory { name, children } => {
            let grown: Vec<TreeNode> = insert_file(children, path, from + 1, max_depth, depth + 1);
            let put_back: TreeNode = TreeNode::Directory { name, children: grown };
            let ghost model = put_back@;
            proof {
                lemma_directory_model(put_back);
            }
            all.insert(slot, put_back);
            assert(views(all@) =~= views(before).update(slot as int, model));
        },
    }
    all
}

/// Puts a directory at the path that starts at component `from`.
fn insert_stub(nodes: Vec<TreeNode>, path: &Vec<String>, from: usize) -> (result: Vec<TreeNode>)
    requires
        from <= path.len(),
    ensures
        views(result@) == with_stub(views(nodes@), texts(path@).skip(from as int)),
    decreases path.len() - from,
{
    let ghost rest = texts(path@).skip(from as int);
    assert(rest.len() == path.len() - from);
    if from == path.len() {
        return nodes;
    }
    assert(rest.skip(1) =~= texts(path@).skip(from + 1));
    let name: &str = path[from].as_str();
    assert(rest[0] == name@);
    if path.len() - from == 1 {
        return put_directory(nodes, name);
    }
    let slot: usize = find_slot(&nodes, name);
    if !is_named(&nodes, slot, name) {
        let none: Vec<TreeNode> = Vec::new();
        assert(views(none@) =~= Seq::empty());
        let children: Vec<TreeNode> = insert_stub(none, path, from + 1);
        let node: TreeNode = TreeNode::Directory { name: name.to_owned(), children };
        proof {
            lemma_directory_model(node);
        }
        return put_node(nodes, node);
    }
    let mut all: Vec<TreeNode> = nodes;
    let ghost before = all@;
    let node: TreeNode = all.remove(slot);
    assert(views(before)[slot as int] == node@);
    proof {
        lemma_directory_model(node);
    }
    match node {
        TreeNode::File { name } => {
            all.insert(slot, TreeNode::File { name });
            assert(all@ =~= before);
        },
        TreeNode::Directory { name, children } => {
            let grown: Vec<TreeNode> = insert_stub(children, path, from + 1);
            let put_back: TreeNode = TreeNode::Directory { name, children: grown };
            let ghost model = put_back@;
            proof {
                lemma_directory_model(put_back);
            }
            all.insert(slot, put_back);
            assert(views(all@) =~= views(before).update(slot as int, model));
        },
    }
    all
}

/// Puts directories before files at every level.
fn arrange(nodes: Vec<TreeNode>) -> (result: Vec<TreeNode>)
    ensures
        views(result@) == arranged(views(nodes@)),
    decreases nodes,
{
    let ghost all = views(nodes@);
    let ghost is_file = |node: Node| node is File;
    let mut rest: Vec<TreeNode> = nodes;
    let mut directories: Vec<TreeNode> = Vec::new();
    let mut files: Vec<TreeNode> = Vec::new();
    let ghost mut directories_after: Seq<Node> = Seq::empty();
    let ghost mut files_after: Seq<Node> = Seq::empty();
    assert(views(directories@) =~= Seq::empty());
    assert(views(files@) =~= Seq::empty());
    assert(all =~= views(rest@));
    assert(arranged_directories(all) =~= arranged_directories(views(rest@)) + directories_after);
    assert(only_files(all) =~= only_files(views(rest@)) + files_after);
    // The lists are gathered from the end, in reverse.
    while rest.len() > 0
        invariant
            rest@.len() <= nodes@.len(),
            rest@ == nodes@.take(rest@.len() as int),
            is_file == (|node: Node| node is File),
            all == views(nodes@),
            views(directories@) == directories_after.reverse(),
            views(files@) == files_after.reverse(),
            arranged_directories(all) == arranged_directories(views(rest@)) + directories_after,
            all.filter(is_file) == views(rest@).filter(is_file) + files_after,
        decreases rest.len(),
    {
            let ghost before = rest@;
        let ghost models = views(rest@);
        let popped: Option<TreeNode> = rest.pop();
        match popped {
            None => {},
            Some(node) => {
                proof {
                    assert(node == nodes@[rest@.len() as int]);
                    assert(decreases_to!(nodes => nodes@[rest@.len() as int]));
                    assert(models.drop_last() =~= views(rest@));
                    assert(models =~= views(rest@).push(node@));
                    views(rest@).lemma_filter_push(node@, is_file);
                    assert(rest@ =~= nodes@.take(rest@.len() as int));
                    lemma_directory_model(node);
                }
                match node {
                    TreeNode::File { name } => {
                        let file: TreeNode = TreeNode::File { name };
                        proof {
                            let grown = seq![file@] + files_after;
                            assert(views(rest@).filter(is_file).push(file@) + files_after
                                =~= views(rest@).filter(is_file) + grown);
                            assert(grown.reverse() =~= files_after.reverse().push(file@));
                            crate::sorting::lemma_views_push(files@, file);
                            files_after = grown;
                        }
                        files.push(file);
                    },
                    TreeNode::Directory { name, children } => {
                        let ghost kids = views(children@);
                        let arranged_children: Vec<TreeNode> = arrange(children);
                        let directory: TreeNode = TreeNode::Directory {
                            name,
                            children: arranged_children,
                        };
                        proof {
                            lemma_directory_model(directory);
                            let grown = seq![directory@] + directories_after;
                            assert(arranged_directories(views(rest@)).push(directory@)
                                + directories_after =~= arranged_directories(views(rest@)) + grown);
                            assert(grown.reverse() =~= directories_after.reverse().push(
                                directory@,
                            ));
                            crate::sorting::lemma_views_push(directories@, directory);
                            directories_after = grown;
                        }
                        directories.push(directory);
                    },
                }
            },
        }
    }
    let mut result: Vec<TreeNode> = Vec::new();
    proof {
        assert(views(rest@) =~= Seq::empty());
        assert(arranged_directories(views(rest@)) =~= Seq::empty());
        assert(views(rest@).filter(is_file) =~= Seq::empty());
        assert(arranged_directories(all) =~= directories_after);
        assert(only_files(all) =~= files_after);
        assert(views(result@) + views(directories@).reverse() =~= directories_after);
    }
    while directories.len() > 0
        invariant
            views(result@) + views(directories@).reverse() == directories_after,
        decreases directories.len(),
    {
        let ghost before = views(directories@);
        match directories.pop() {
            None => {},
            Some(node) => {
                proof {
                    crate::sorting::lemma_views_push(result@, node);
                    assert(before =~= views(directories@).push(node@));
                    assert(views(result@) + before.reverse() =~= views(result@).push(node@)
                        + views(directories@).reverse());
                }
                result.push(node);
            },
        }
    }
    assert(views(directories@).reverse() =~= Seq::empty());
    assert(views(result@) =~= directories_after);
    assert(views(result@) + views(files@).reverse() =~= directories_after + files_after);
    while files.len() > 0
        invariant
            views(result@) + views(files@).reverse() == directories_after + files_after,
        decreases files.len(),
    {
        let ghost before = views(files@);
        match files.pop() {
            None => {},
            Some(node) => {
                proof {
                    crate::sorting::lemma_views_push(result@, node);
                    assert(before =~= views(files@).push(node@));
                    assert(views(result@) + before.reverse() =~= views(result@).push(node@)
                        + views(files@).reverse());
                }
                result.push(node);
            },
        }
    }
    assert(views(files@).reverse() =~= Seq::empty());
    assert(views(result@) =~= directories_after + files_after);
    result
}

impl GitUtils {
    /// Builds the tree of the given files, and of the directories that are to
    /// be there even if empty.
    pub fn build_tree(flat: Vec<String>, stubs: Vec<String>, max_depth: Option<usize>) -> (result:
        Vec<TreeNode>)
        ensures
            views(result@) == tree_of(texts(flat@), texts(stubs@), depth_model(max_depth)),
    {
        let ghost depth = depth_model(max_depth);
        let mut root: Vec<TreeNode> = Vec::new();
        let mut i: usize = 0;
        assert(texts(flat@).take(0) =~= Seq::empty());
        assert(views(root@) =~= Seq::empty());
        while i < flat.len()
            invariant
                i <= flat.len(),
                depth == depth_model(max_depth),
                views(root@) == with_files(texts(flat@).take(i as int), depth),
            decreases flat.len() - i,
        {
            let path: Vec<String> = split_path(flat[i].as_str());
            proof {
                assert(texts(flat@).take(i + 1).drop_last() =~= texts(flat@).take(i as int));
                assert(texts(flat@).take(i + 1).last() == flat@[i as int]@);
                assert(texts(path@).skip(0) =~= texts(path@));
            }
            root = insert_file(root, &path, 0, max_depth, 1);
            i = i + 1;
        }
        assert(texts(flat@).take(i as int) =~= texts(flat@));
        let ghost files = views(root@);
        let mut j: usize = 0;
        assert(texts(stubs@).take(0) =~= Seq::empty());
        while j < stubs.len()
            invariant
                j <= stubs.len(),
                views(root@) == with_stubs(files, texts(stubs@).take(j as int)),
            decreases stubs.len() - j,
        {
            let path: Vec<String> = split_path(stubs[j].as_str());
            proof {
                assert(texts(stubs@).take(j + 1).drop_last() =~= texts(stubs@).take(j as int));
                assert(texts(stubs@).take(j + 1).last() == stubs@[j as int]@);
                assert(texts(path@).skip(0) =~= texts(path@));
            }
            root = insert_stub(root, &path, 0);
            j = j + 1;
        }
        assert(texts(stubs@).take(j as int) =~= texts(stubs@));
        arrange(root)
    }
}

/// Whether the names of a level increase strictly.
pub open spec fn level_sorted(nodes: Seq<Node>) -> bool {
    forall|i: int, j: int|
        0 <= i < j < nodes.len() ==> text_less(
            name_of(#[trigger] nodes[i]),
            name_of(#[trigger] nodes[j]),
        )
}

/// Whether the names increase strictly at every level.
pub open spec fn tree_sorted(nodes: Seq<Node>) -> bool
    decreases nodes,
{
    &&& level_sorted(nodes)
    &&& forall|i: int|
        0 <= i < nodes.len() ==> match #[trigger] nodes[i] {
            Node::File(_) => true,
            Node::Directory(_, children) => tree_sorted(children),
        }
}

/// Whether a tree has a file at a path.
pub open spec fn holds_file(nodes: Seq<Node>, path: Seq<Seq<char>>) -> bool
    decreases path.len(), 1nat,
{
    path.len() > 0 && exists|node: Node| #[trigger]
        nodes.contains(node) && name_of(node) == path[0] && leads_to_file(node, path)
}

/// Whether a node, the first of a path, leads to a file at its end.
pub open spec fn leads_to_file(node: Node, path: Seq<Seq<char>>) -> bool
    decreases path.len(), 0nat,
    when path.len() > 0
{
    if path.len() == 1 {
        node is File
    } else {
        match node {
            Node::File(_) => false,
            Node::Directory(_, children) => holds_file(children, path.skip(1)),
        }
    }
}

/// Whether a tree is made so far down, from a depth on: its first level
/// always, the others down to the greatest depth.
pub open spec fn is_made(length: nat, max_depth: Option<nat>, depth: nat) -> bool {
    length == 1 || (max_depth matches Some(maximum) ==> depth + length <= maximum + 1)
}

/// Whether one path goes on where the other ends.
pub open spec fn goes_beyond(longer: Seq<Seq<char>>, shorter: Seq<Seq<char>>) -> bool {
    shorter.len() < longer.len() && shorter == longer.take(shorter.len() as int)
}

/// Whether a file of the tree stands in the way of a path.
pub open spec fn is_blocked(nodes: Seq<Node>, path: Seq<Seq<char>>) -> bool {
    exists|length: int|
        0 < length < path.len() && #[trigger] holds_file(nodes, path.take(length))
}

/// The node of a name is at the slot of the name.
pub proof fn lemma_unique_name(nodes: Seq<Node>, name: Seq<char>, at: int)
    requires
        level_sorted(nodes),
        0 <= at < nodes.len(),
        name_of(nodes[at]) == name,
    ensures
        has_name(nodes, name),
        name_slot(nodes, name) == at,
{
    lemma_name_slot(nodes, name);
    crate::text::lemma_less_irreflexive(name);
    let slot = name_slot(nodes, name);
    if at > slot {
        assert(text_less(name_of(nodes[slot]), name_of(nodes[at])));
    }
}

/// What a sorted level has once a node is put into it.
pub proof fn lemma_put(nodes: Seq<Node>, node: Node)
    requires
        level_sorted(nodes),
    ensures
        level_sorted(put(nodes, node)),
        forall|x: Node| #[trigger]
            put(nodes, node).contains(x) <==> x == node || (nodes.contains(x) && name_of(x)
                != name_of(node)),
{
    let name = name_of(node);
    let slot = name_slot(nodes, name);
    let result = put(nodes, node);
    lemma_name_slot(nodes, name);
    if has_name(nodes, name) {
        assert forall|x: Node| #[trigger] result.contains(x) <==> x == node || (nodes.contains(x)
            && name_of(x) != name) by {
            if result.contains(x) {
                let i = choose|i: int| 0 <= i < result.len() && result[i] == x;
                if i != slot {
                    assert(nodes[i] == x);
                    if name_of(x) == name {
                        lemma_unique_name(nodes, name, i);
                    }
                }
            }
            if nodes.contains(x) && name_of(x) != name {
                let i = choose|i: int| 0 <= i < nodes.len() && nodes[i] == x;
                assert(result[i] == x);
            }
            assert(result[slot] == node);
        }
    } else {
        assert forall|i: int, j: int| 0 <= i < j < result.len() implies text_less(
            name_of(#[trigger] result[i]),
            name_of(#[trigger] result[j]),
        ) by {
            if j == slot {
                assert(result[i] == nodes[i]);
            } else if i == slot {
                assert(result[j] == nodes[j - 1]);
                crate::text::lemma_less_total(name_of(nodes[slot]), name);
                if j - 1 > slot {
                    crate::text::lemma_less_transitive(
                        name,
                        name_of(nodes[slot]),
                        name_of(nodes[j - 1]),
                    );
                }
            } else {
                let a = if i < slot { i } else { i - 1 };
                let b = if j < slot { j } else { j - 1 };
                assert(result[i] == nodes[a] && result[j] == nodes[b] && a < b);
            }
        }
        assert forall|x: Node| #[trigger] result.contains(x) <==> x == node || (nodes.contains(x)
            && name_of(x) != name) by {
            if result.contains(x) {
                let i = choose|i: int| 0 <= i < result.len() && result[i] == x;
                if i != slot {
                    let a = if i < slot { i } else { i - 1 };
                    assert(nodes[a] == x);
                    if name_of(x) == name {
                        lemma_unique_name(nodes, name, a);
                    }
                }
            }
            if nodes.contains(x) && name_of(x) != name {
                let a = choose|a: int| 0 <= a < nodes.len() && nodes[a] == x;
                let i = if a < slot { a } else { a + 1 };
                assert(result[i] == x);
            }
            assert(result[slot] == node);
        }
    }
}

proof fn lemma_put_keeps_sorted(nodes: Seq<Node>, node: Node)
    requires
        tree_sorted(nodes),
        node matches Node::Directory(_, children) ==> tree_sorted(children),
    ensures
        tree_sorted(put(nodes, node)),
{
    lemma_put(nodes, node);
    let result = put(nodes, node);
    assert forall|i: int| 0 <= i < result.len() implies match #[trigger] result[i] {
        Node::File(_) => true,
        Node::Directory(_, children) => tree_sorted(children),
    } by {
        assert(result.contains(result[i]));
        if result[i] != node {
            let a = choose|a: int| 0 <= a < nodes.len() && nodes[a] == result[i];
            assert(nodes[a] == result[i]);
        }
    }
}

/// What putting a file does, in one step: nothing, or one node of the first
/// level.
proof fn lemma_with_file_step(
    nodes: Seq<Node>,
    path: Seq<Seq<char>>,
    max_depth: Option<nat>,
    depth: nat,
)
    requires
        path.len() > 1,
        max_depth matches Some(maximum) ==> depth < maximum,
    ensures
        ({
            let result = with_file(nodes, path, max_depth, depth);
            let slot = name_slot(nodes, path[0]);
            if !has_name(nodes, path[0]) {
                result == put(
                    nodes,
                    Node::Directory(
                        path[0],
                        with_file(Seq::empty(), path.skip(1), max_depth, depth + 1),
                    ),
                )
            } else {
                match nodes[slot] {
                    Node::File(_) => result == nodes,
                    Node::Directory(_, children) => result == put(
                        nodes,
                        Node::Directory(
                            path[0],
                            with_file(children, path.skip(1), max_depth, depth + 1),
                        ),
                    ),
                }
            }
        }),
{
}

/// A tree that a file is put into stays sorted.
pub proof fn lemma_with_file_sorted(
    nodes: Seq<Node>,
    path: Seq<Seq<char>>,
    max_depth: Option<nat>,
    depth: nat,
)
    requires
        tree_sorted(nodes),
    ensures
        tree_sorted(with_file(nodes, path, max_depth, depth)),
    decreases path.len(),
{
    assert(tree_sorted(Seq::<Node>::empty()));
    if path.len() == 1 {
        lemma_put_keeps_sorted(nodes, Node::File(path[0]));
    } else if path.len() > 1 {
        lemma_name_slot(nodes, path[0]);
        let slot = name_slot(nodes, path[0]);
        if max_depth is Some && depth >= max_depth->0 {
            lemma_put_keeps_sorted(nodes, Node::Directory(path[0], Seq::empty()));
        } else if !has_name(nodes, path[0]) {
            let below = with_file(Seq::empty(), path.skip(1), max_depth, depth + 1);
            lemma_with_file_sorted(Seq::empty(), path.skip(1), max_depth, depth + 1);
            lemma_put_keeps_sorted(nodes, Node::Directory(path[0], below));
        } else {
            match nodes[slot] {
                Node::File(_) => {},
                Node::Directory(name, children) => {
                    lemma_with_file_sorted(children, path.skip(1), max_depth, depth + 1);
                    let node = Node::Directory(
                        name,
                        with_file(children, path.skip(1), max_depth, depth + 1),
                    );
                    assert(with_file(nodes, path, max_depth, depth) == put(nodes, node));
                    lemma_put_keeps_sorted(nodes, node);
                },
            }
        }
    }
}

/// A tree that a directory is put into stays sorted.
pub proof fn lemma_with_stub_sorted(nodes: Seq<Node>, path: Seq<Seq<char>>)
    requires
        tree_sorted(nodes),
    ensures
        tree_sorted(with_stub(nodes, path)),
    decreases path.len(),
{
    assert(tree_sorted(Seq::<Node>::empty()));
    if path.len() == 1 {
        lemma_put_keeps_sorted(nodes, Node::Directory(path[0], Seq::empty()));
    } else if path.len() > 1 {
        lemma_name_slot(nodes, path[0]);
        if !has_name(nodes, path[0]) {
            lemma_with_stub_sorted(Seq::empty(), path.skip(1));
            lemma_put_keeps_sorted(
                nodes,
                Node::Directory(path[0], with_stub(Seq::empty(), path.skip(1))),
            );
        } else {
            let slot = name_slot(nodes, path[0]);
            match nodes[slot] {
                Node::File(_) => {},
                Node::Directory(name, children) => {
                    lemma_with_stub_sorted(children, path.skip(1));
                    let node = Node::Directory(name, with_stub(children, path.skip(1)));
                    assert(with_stub(nodes, path) == put(nodes, node));
                    lemma_put_keeps_sorted(nodes, node);
                },
            }
        }
    }
}

/// Which files a sorted tree has, by its node of the path's first name.
pub proof fn lemma_holds_by_slot(nodes: Seq<Node>, path: Seq<Seq<char>>)
    requires
        level_sorted(nodes),
        path.len() > 0,
    ensures
        holds_file(nodes, path) <==> has_name(nodes, path[0]) && leads_to_file(
            nodes[name_slot(nodes, path[0])],
            path,
        ),
{
    let slot = name_slot(nodes, path[0]);
    lemma_name_slot(nodes, path[0]);
    if holds_file(nodes, path) {
        let node = choose|node: Node| #[trigger]
            nodes.contains(node) && name_of(node) == path[0] && leads_to_file(node, path);
        let at = choose|at: int| 0 <= at < nodes.len() && nodes[at] == node;
        lemma_unique_name(nodes, path[0], at);
    }
    if has_name(nodes, path[0]) {
        assert(nodes.contains(nodes[slot]));
    }
}

/// Which files a sorted tree has once a node is put into it.
proof fn lemma_holds_after_put(nodes: Seq<Node>, node: Node, path: Seq<Seq<char>>)
    requires
        level_sorted(nodes),
        path.len() > 0,
    ensures
        holds_file(put(nodes, node), path) <==> if name_of(node) == path[0] {
            leads_to_file(node, path)
        } else {
            holds_file(nodes, path)
        },
{
    lemma_put(nodes, node);
    let result = put(nodes, node);
    assert(result.contains(node));
    if holds_file(result, path) {
        let x = choose|x: Node| #[trigger]
            result.contains(x) && name_of(x) == path[0] && leads_to_file(x, path);
        assert(x == node || nodes.contains(x));
    }
    if name_of(node) != path[0] && holds_file(nodes, path) {
        let x = choose|x: Node| #[trigger]
            nodes.contains(x) && name_of(x) == path[0] && leads_to_file(x, path);
        assert(result.contains(x));
    }
}

/// What blocks a path blocks it at its first name or below.
pub proof fn lemma_blocked_below(nodes: Seq<Node>, path: Seq<Seq<char>>)
    requires
        level_sorted(nodes),
        path.len() > 1,
    ensures
        is_blocked(nodes, path) <==> has_name(nodes, path[0]) && match nodes[name_slot(
            nodes,
            path[0],
        )] {
            Node::File(_) => true,
            Node::Directory(_, children) => is_blocked(children, path.skip(1)),
        },
{
    let slot = name_slot(nodes, path[0]);
    if is_blocked(nodes, path) {
        let length = choose|length: int|
            0 < length < path.len() && #[trigger] holds_file(nodes, path.take(length));
        let prefix = path.take(length);
        lemma_holds_by_slot(nodes, prefix);
        if length > 1 {
            assert(prefix.skip(1) =~= path.skip(1).take(length - 1));
            if let Node::Directory(_, children) = nodes[slot] {
                assert(holds_file(children, path.skip(1).take(length - 1)));
            }
        }
    }
    if has_name(nodes, path[0]) {
        match nodes[slot] {
            Node::File(_) => {
                lemma_holds_by_slot(nodes, path.take(1));
                assert(holds_file(nodes, path.take(1)));
            },
            Node::Directory(_, children) => {
                if is_blocked(children, path.skip(1)) {
                    let length = choose|length: int|
                        0 < length < path.skip(1).len() && #[trigger] holds_file(
                            children,
                            path.skip(1).take(length),
                        );
                    lemma_holds_by_slot(nodes, path.take(length + 1));
                    assert(path.take(length + 1).skip(1) =~= path.skip(1).take(length));
                    assert(holds_file(nodes, path.take(length + 1)));
                }
            },
        }
    }
}

/// A file that is put into a tree is there unless another stands in its way or
/// it is too far down; the other files stay, but for those that went on where
/// it ends.
proof fn lemma_holds_after_file(
    nodes: Seq<Node>,
    path: Seq<Seq<char>>,
    max_depth: Option<nat>,
    depth: nat,
    other: Seq<Seq<char>>,
)
    requires
        tree_sorted(nodes),
        path.len() > 0,
        !goes_beyond(other, path),
    ensures
        holds_file(with_file(nodes, path, max_depth, depth), other) <==> holds_file(nodes, other)
            || (other == path && !is_blocked(nodes, path) && is_made(path.len(), max_depth, depth)),
    decreases path.len(),
{
    let result = with_file(nodes, path, max_depth, depth);
    lemma_name_slot(nodes, path[0]);
    if other.len() == 0 {
    } else if path.len() == 1 {
        lemma_holds_after_put(nodes, Node::File(path[0]), other);
        assert(!is_blocked(nodes, path));
        if other[0] == path[0] {
            if other.len() > 1 {
                assert(other.take(1) =~= path);
            } else {
                assert(other =~= path);
            }
        }
    } else if max_depth is Some && depth >= max_depth->0 {
        lemma_holds_by_slot(nodes, other);
        lemma_holds_after_put(nodes, Node::Directory(path[0], Seq::empty()), other);
        if other.len() > 1 {
            assert(!holds_file(Seq::<Node>::empty(), other.skip(1)));
        }
    } else {
        lemma_with_file_step(nodes, path, max_depth, depth);
        lemma_holds_by_slot(nodes, other);
        lemma_blocked_below(nodes, path);
        let slot = name_slot(nodes, path[0]);
        if other[0] == path[0] && other.len() > 1 {
            if goes_beyond(other.skip(1), path.skip(1)) {
                assert(other.take(path.len() as int) =~= path) by {
                    assert forall|i: int| 0 <= i < path.len() implies other[i] == path[i] by {
                        if i > 0 {
                            assert(other.skip(1).take(path.len() - 1)[i - 1] == path.skip(
                                1,
                            )[i - 1]);
                        }
                    }
                }
            }
            assert(other.skip(1) == path.skip(1) ==> other =~= path) by {
                if other.skip(1) == path.skip(1) {
                    assert forall|i: int| 0 <= i < path.len() implies other[i] == path[i] by {
                        if i > 0 {
                            assert(other.skip(1)[i - 1] == path.skip(1)[i - 1]);
                        }
                    }
                    assert(other.len() == path.len());
                }
            }
        }
        if !has_name(nodes, path[0]) {
            let fresh = Node::Directory(
                path[0],
                with_file(Seq::empty(), path.skip(1), max_depth, depth + 1),
            );
            lemma_holds_after_put(nodes, fresh, other);
            if other[0] == path[0] && other.len() > 1 {
                assert(tree_sorted(Seq::<Node>::empty()));
                lemma_holds_after_file(
                    Seq::empty(),
                    path.skip(1),
                    max_depth,
                    depth + 1,
                    other.skip(1),
                );
                assert(!holds_file(Seq::<Node>::empty(), other.skip(1)));
                assert(!is_blocked(Seq::<Node>::empty(), path.skip(1)));
            }
        } else {
            match nodes[slot] {
                Node::File(_) => {
                    if other == path {
                        assert(!leads_to_file(nodes[slot], other));
                    }
                },
                Node::Directory(name, children) => {
                    let grown = Node::Directory(
                        path[0],
                        with_file(children, path.skip(1), max_depth, depth + 1),
                    );
                    lemma_holds_after_put(nodes, grown, other);
                    if other[0] == path[0] && other.len() > 1 {
                        lemma_holds_after_file(
                            children,
                            path.skip(1),
                            max_depth,
                            depth + 1,
                            other.skip(1),
                        );
                    }
                },
            }
        }
    }
}

/// Putting a directory into a tree keeps its files.
proof fn lemma_holds_after_stub(nodes: Seq<Node>, path: Seq<Seq<char>>, other: Seq<Seq<char>>)
    requires
        tree_sorted(nodes),
    ensures
        holds_file(with_stub(nodes, path), other) <==> holds_file(nodes, other),
    decreases path.len(),
{
    assert(tree_sorted(Seq::<Node>::empty()));
    if path.len() > 0 && other.len() > 0 {
        lemma_name_slot(nodes, path[0]);
        lemma_holds_by_slot(nodes, other);
        let slot = name_slot(nodes, path[0]);
        if !has_name(nodes, path[0]) {
            let below = if path.len() == 1 {
                Seq::<Node>::empty()
            } else {
                with_stub(Seq::empty(), path.skip(1))
            };
            lemma_holds_after_put(nodes, Node::Directory(path[0], below), other);
            if other.len() > 1 {
                if path.len() > 1 {
                    lemma_holds_after_stub(Seq::empty(), path.skip(1), other.skip(1));
                }
                assert(!holds_file(Seq::<Node>::empty(), other.skip(1)));
            }
        } else if path.len() > 1 {
            match nodes[slot] {
                Node::File(_) => {},
                Node::Directory(name, children) => {
                    let grown = Node::Directory(name, with_stub(children, path.skip(1)));
                    assert(with_stub(nodes, path) == put(nodes, grown));
                    lemma_holds_after_put(nodes, grown, other);
                    if other[0] == path[0] && other.len() > 1 {
                        lemma_holds_after_stub(children, path.skip(1), other.skip(1));
                    }
                },
            }
        }
    }
}

/// Whether arranging a directory gives `node`.
pub open spec fn arranges_to(directory: Node, node: Node) -> bool {
    directory matches Node::Directory(name, children) && node == Node::Directory(
        name,
        arranged(children),
    )
}

proof fn lemma_arranged_directories(nodes: Seq<Node>, node: Node)
    ensures
        arranged_directories(nodes).contains(node) <==> exists|x: Node| #[trigger]
            nodes.contains(x) && arranges_to(x, node),
    decreases nodes.len(),
{
    let result = arranged_directories(nodes);
    if nodes.len() > 0 {
        let init = nodes.drop_last();
        let last = nodes.last();
        let before = arranged_directories(init);
        lemma_arranged_directories(init, node);
        assert(nodes[nodes.len() - 1] == last);
        assert(nodes.contains(last));
        if result.contains(node) {
            let i = choose|i: int| 0 <= i < result.len() && result[i] == node;
            if i < before.len() {
                assert(before[i] == node);
                assert(before.contains(node));
                let x = choose|x: Node| #[trigger] init.contains(x) && arranges_to(x, node);
                let k = choose|k: int| 0 <= k < init.len() && init[k] == x;
                assert(nodes[k] == x);
                assert(nodes.contains(x));
            } else {
                assert(arranges_to(last, node));
            }
        }
        if exists|x: Node| #[trigger] nodes.contains(x) && arranges_to(x, node) {
            let x = choose|x: Node| #[trigger] nodes.contains(x) && arranges_to(x, node);
            let i = choose|i: int| 0 <= i < nodes.len() && nodes[i] == x;
            if i < init.len() {
                assert(init[i] == x);
                assert(init.contains(x));
                let k = choose|k: int| 0 <= k < before.len() && before[k] == node;
                assert(result[k] == node);
            } else {
                assert(result[before.len() as int] == node);
            }
        }
    }
}

/// What an arranged level has: the files of the level, and its directories
/// with their children arranged.
pub proof fn lemma_arranged_contains(nodes: Seq<Node>, node: Node)
    ensures
        arranged(nodes).contains(node) <==> match node {
            Node::File(_) => nodes.contains(node),
            Node::Directory(_, _) => exists|x: Node| #[trigger]
                nodes.contains(x) && arranges_to(x, node),
        },
{
    lemma_arranged_directories(nodes, node);
    let is_file = |x: Node| x is File;
    let directories = arranged_directories(nodes);
    let files = only_files(nodes);
    if files.contains(node) {
        let i = choose|i: int| 0 <= i < files.len() && files[i] == node;
        nodes.lemma_filter_pred(is_file, i);
        nodes.lemma_filter_contains_rev(is_file, node);
    }
    if nodes.contains(node) && node is File {
        let i = choose|i: int| 0 <= i < nodes.len() && nodes[i] == node;
        nodes.lemma_filter_contains(is_file, i);
    }
    if arranged(nodes).contains(node) {
        let i = choose|i: int| 0 <= i < arranged(nodes).len() && arranged(nodes)[i] == node;
        if i < directories.len() {
            assert(directories[i] == node);
        } else {
            assert(files[i - directories.len()] == node);
        }
    }
    if directories.contains(node) {
        let i = choose|i: int| 0 <= i < directories.len() && directories[i] == node;
        assert(arranged(nodes)[i] == node);
    }
    if files.contains(node) {
        let i = choose|i: int| 0 <= i < files.len() && files[i] == node;
        assert(arranged(nodes)[directories.len() + i] == node);
    }
}

proof fn lemma_arranged_holds(nodes: Seq<Node>, path: Seq<Seq<char>>)
    ensures
        holds_file(arranged(nodes), path) <==> holds_file(nodes, path),
    decreases path.len(),
{
    if path.len() > 0 {
        if holds_file(arranged(nodes), path) {
            let node = choose|node: Node| #[trigger]
                arranged(nodes).contains(node) && name_of(node) == path[0] && leads_to_file(
                    node,
                    path,
                );
            lemma_arranged_contains(nodes, node);
            if let Node::Directory(_, _) = node {
                let x = choose|x: Node| #[trigger]
                    nodes.contains(x) && arranges_to(x, node);
                if let Node::Directory(_, children) = x {
                    lemma_arranged_holds(children, path.skip(1));
                    assert(leads_to_file(x, path));
                }
            }
        }
        if holds_file(nodes, path) {
            let x = choose|x: Node| #[trigger]
                nodes.contains(x) && name_of(x) == path[0] && leads_to_file(x, path);
            match x {
                Node::File(_) => {
                    lemma_arranged_contains(nodes, x);
                },
                Node::Directory(name, children) => {
                    let node = Node::Directory(name, arranged(children));
                    lemma_arranged_contains(nodes, node);
                    lemma_arranged_holds(children, path.skip(1));
                    assert(leads_to_file(node, path));
                },
            }
        }
    }
}

/// Whether no path of a list goes on where another one ends.
pub open spec fn is_prefix_free(paths: Seq<Seq<char>>) -> bool {
    forall|i: int, j: int|
        0 <= i < paths.len() && 0 <= j < paths.len() ==> !goes_beyond(
            components(#[trigger] paths[i]),
            components(#[trigger] paths[j]),
        )
}

/// Whether a list has a path with the given components.
pub open spec fn lists_path(paths: Seq<Seq<char>>, path: Seq<Seq<char>>) -> bool {
    exists|i: int| 0 <= i < paths.len() && components(#[trigger] paths[i]) == path
}

proof fn lemma_components_nonempty(path: Seq<char>)
    ensures
        components(path).len() > 0,
{
}

proof fn lemma_files_held(paths: Seq<Seq<char>>, max_depth: Option<nat>, path: Seq<Seq<char>>)
    requires
        is_prefix_free(paths),
        forall|i: int|
            0 <= i < paths.len() ==> !goes_beyond(path, components(#[trigger] paths[i])),
    ensures
        tree_sorted(with_files(paths, max_depth)),
        holds_file(with_files(paths, max_depth), path) <==> lists_path(paths, path) && is_made(
            path.len(),
            max_depth,
            1,
        ),
    decreases paths.len(),
{
    if paths.len() == 0 {
        assert(tree_sorted(Seq::<Node>::empty()));
        assert(!holds_file(Seq::<Node>::empty(), path));
    } else {
        let init = paths.drop_last();
        let last = components(paths.last());
        let before = with_files(init, max_depth);
        lemma_components_nonempty(paths.last());
        assert(is_prefix_free(init)) by {
            assert forall|i: int, j: int|
                0 <= i < init.len() && 0 <= j < init.len() implies !goes_beyond(
                components(#[trigger] init[i]),
                components(#[trigger] init[j]),
            ) by {
                assert(!goes_beyond(components(paths[i]), components(paths[j])));
            }
        }
        assert forall|i: int| 0 <= i < init.len() implies !goes_beyond(
            path,
            components(#[trigger] init[i]),
        ) by {
            assert(init[i] == paths[i]);
        }
        lemma_files_held(init, max_depth, path);
        lemma_with_file_sorted(before, last, max_depth, 1);
        assert(!goes_beyond(path, components(paths[paths.len() - 1])));
        lemma_holds_after_file(before, last, max_depth, 1, path);
        if is_blocked(before, last) {
            let length = choose|length: int|
                0 < length < last.len() && #[trigger] holds_file(before, last.take(length));
            let prefix = last.take(length);
            assert forall|i: int| 0 <= i < init.len() implies !goes_beyond(
                prefix,
                components(#[trigger] init[i]),
            ) by {
                let c = components(init[i]);
                assert(!goes_beyond(components(paths[paths.len() - 1]), components(paths[i])));
                if goes_beyond(prefix, c) {
                    assert(prefix.take(c.len() as int) =~= last.take(c.len() as int));
                }
            }
            lemma_files_held(init, max_depth, prefix);
            let i = choose|i: int| 0 <= i < init.len() && components(#[trigger] init[i]) == prefix;
            assert(goes_beyond(components(paths[paths.len() - 1]), components(paths[i])));
        }
        if lists_path(init, path) {
            let i = choose|i: int| 0 <= i < init.len() && components(#[trigger] init[i]) == path;
            assert(components(paths[i]) == path);
        }
        if lists_path(paths, path) {
            let i = choose|i: int| 0 <= i < paths.len() && components(#[trigger] paths[i]) == path;
            if i < init.len() {
                assert(components(init[i]) == path);
            }
        }
        if path == last {
            assert(components(paths[paths.len() - 1]) == path);
        }
    }
}

/// Putting directories into a tree keeps its files, and keeps it sorted.
pub proof fn lemma_stubs_keep_files(
    nodes: Seq<Node>,
    stubs: Seq<Seq<char>>,
    path: Seq<Seq<char>>,
)
    requires
        tree_sorted(nodes),
    ensures
        tree_sorted(with_stubs(nodes, stubs)),
        holds_file(with_stubs(nodes, stubs), path) <==> holds_file(nodes, path),
    decreases stubs.len(),
{
    if stubs.len() > 0 {
        lemma_stubs_keep_files(nodes, stubs.drop_last(), path);
        let before = with_stubs(nodes, stubs.drop_last());
        lemma_with_stub_sorted(before, components(stubs.last()));
        lemma_holds_after_stub(before, components(stubs.last()), path);
    }
}

/// A path goes on where another ends if both begin alike and the rest does.
pub proof fn lemma_goes_beyond_below(longer: Seq<Seq<char>>, shorter: Seq<Seq<char>>)
    requires
        longer.len() > 0,
        shorter.len() > 1,
    ensures
        goes_beyond(longer, shorter) <==> longer[0] == shorter[0] && goes_beyond(
            longer.skip(1),
            shorter.skip(1),
        ),
        longer == shorter <==> longer[0] == shorter[0] && longer.skip(1) == shorter.skip(1),
{
    let n = shorter.len() as int;
    if goes_beyond(longer, shorter) {
        assert(longer[0] == longer.take(n)[0]);
        assert(shorter.skip(1) =~= longer.skip(1).take(n - 1));
    }
    if longer[0] == shorter[0] && goes_beyond(longer.skip(1), shorter.skip(1)) {
        assert forall|i: int| 0 <= i < n implies shorter[i] == longer.take(n)[i] by {
            if i > 0 {
                assert(shorter.skip(1)[i - 1] == longer.skip(1).take(n - 1)[i - 1]);
            }
        }
        assert(shorter =~= longer.take(n));
    }
    if longer[0] == shorter[0] && longer.skip(1) == shorter.skip(1) {
        assert(longer.skip(1).len() == shorter.skip(1).len());
        assert forall|i: int| 0 <= i < n implies shorter[i] == longer[i] by {
            if i > 0 {
                assert(shorter.skip(1)[i - 1] == longer.skip(1)[i - 1]);
            }
        }
        assert(longer =~= shorter);
    }
}

/// Putting a file into a tree adds no other file.
proof fn lemma_file_adds_itself(
    nodes: Seq<Node>,
    path: Seq<Seq<char>>,
    max_depth: Option<nat>,
    depth: nat,
    other: Seq<Seq<char>>,
)
    requires
        tree_sorted(nodes),
        holds_file(with_file(nodes, path, max_depth, depth), other),
        other != path,
    ensures
        holds_file(nodes, other),
    decreases path.len(),
{
    if path.len() > 0 {
        let slot = name_slot(nodes, path[0]);
        lemma_name_slot(nodes, path[0]);
        lemma_holds_by_slot(nodes, other);
        if other.len() > 1 {
            lemma_goes_beyond_below(path, other);
        }
        if path.len() == 1 {
            lemma_holds_after_put(nodes, Node::File(path[0]), other);
            if other.len() == 1 && other[0] == path[0] {
                assert(other =~= path);
            }
        } else {
            assert(!holds_file(Seq::<Node>::empty(), other.skip(1)));
            assert(tree_sorted(Seq::<Node>::empty()));
            if max_depth is Some && depth >= max_depth->0 {
                lemma_holds_after_put(nodes, Node::Directory(path[0], Seq::empty()), other);
            } else if !has_name(nodes, path[0]) {
                let fresh = Node::Directory(
                    path[0],
                    with_file(Seq::empty(), path.skip(1), max_depth, depth + 1),
                );
                lemma_holds_after_put(nodes, fresh, other);
                if other.len() > 1 && other[0] == path[0] {
                    lemma_file_adds_itself(
                        Seq::empty(),
                        path.skip(1),
                        max_depth,
                        depth + 1,
                        other.skip(1),
                    );
                }
            } else if let Node::Directory(name, children) = nodes[slot] {
                let grown = Node::Directory(
                    name,
                    with_file(children, path.skip(1), max_depth, depth + 1),
                );
                assert(with_file(nodes, path, max_depth, depth) == put(nodes, grown));
                lemma_holds_after_put(nodes, grown, other);
                if other.len() > 1 && other[0] == path[0] {
                    lemma_file_adds_itself(
                        children,
                        path.skip(1),
                        max_depth,
                        depth + 1,
                        other.skip(1),
                    );
                }
            }
        }
    }
}

/// A tree that is built of files has no others.
pub proof fn lemma_only_listed_files(
    paths: Seq<Seq<char>>,
    max_depth: Option<nat>,
    path: Seq<Seq<char>>,
)
    requires
        holds_file(with_files(paths, max_depth), path),
    ensures
        lists_path(paths, path),
    decreases paths.len(),
{
    if paths.len() == 0 {
        assert(!holds_file(Seq::<Node>::empty(), path));
    } else {
        let init = paths.drop_last();
        let last = components(paths.last());
        if path == last {
            assert(components(paths[paths.len() - 1]) == path);
        } else {
            lemma_files_tree_sorted(init, max_depth);
            lemma_file_adds_itself(with_files(init, max_depth), last, max_depth, 1, path);
            lemma_only_listed_files(init, max_depth, path);
            let i = choose|i: int| 0 <= i < init.len() && components(#[trigger] init[i]) == path;
            assert(components(paths[i]) == path);
        }
    }
}

/// A tree shows exactly the files it was built from, down to the greatest
/// depth, as long as none of them is a directory of another.
pub proof fn law_tree_shows_its_files(
    flat: Seq<Seq<char>>,
    stubs: Seq<Seq<char>>,
    max_depth: Option<nat>,
    path: Seq<Seq<char>>,
)
    requires
        is_prefix_free(flat),
    ensures
        holds_file(tree_of(flat, stubs, max_depth), path) <==> lists_path(flat, path) && is_made(
            path.len(),
            max_depth,
            1,
        ),
{
    let files = with_files(flat, max_depth);
    assert(tree_sorted(files)) by {
        lemma_files_held(flat, max_depth, Seq::empty());
    }
    lemma_stubs_keep_files(files, stubs, path);
    lemma_arranged_holds(with_stubs(files, stubs), path);
    if forall|i: int| 0 <= i < flat.len() ==> !goes_beyond(path, components(#[trigger] flat[i])) {
        lemma_files_held(flat, max_depth, path);
    } else {
        let k = choose|k: int|
            0 <= k < flat.len() && goes_beyond(path, components(#[trigger] flat[k]));
        if lists_path(flat, path) {
            let i = choose|i: int| 0 <= i < flat.len() && components(#[trigger] flat[i]) == path;
            assert(!goes_beyond(components(flat[i]), components(flat[k])));
        }
        if holds_file(files, path) {
            lemma_only_listed_files(flat, max_depth, path);
        }
    }
}

/// Whether, at every level, directories come before files and the names of
/// both increase strictly.
pub open spec fn is_arranged(nodes: Seq<Node>) -> bool
    decreases nodes,
{
    &&& forall|i: int, j: int|
        0 <= i < j < nodes.len() ==> {
            &&& #[trigger] nodes[i] is File ==> #[trigger] nodes[j] is File
            &&& (nodes[i] is File <==> nodes[j] is File) ==> text_less(
                name_of(nodes[i]),
                name_of(nodes[j]),
            )
        }
    &&& forall|i: int|
        0 <= i < nodes.len() ==> match #[trigger] nodes[i] {
            Node::File(_) => true,
            Node::Directory(_, children) => is_arranged(children),
        }
}

proof fn lemma_directories_arranged(nodes: Seq<Node>)
    requires
        tree_sorted(nodes),
    ensures
        level_sorted(arranged_directories(nodes)),
        forall|i: int|
            0 <= i < arranged_directories(nodes).len() ==> (#[trigger] arranged_directories(
                nodes,
            )[i] matches Node::Directory(_, children) && is_arranged(children)),
    decreases nodes, 0nat,
{
    if nodes.len() > 0 {
        let init = nodes.drop_last();
        let last = nodes.last();
        assert(tree_sorted(init)) by {
            assert forall|i: int, j: int| 0 <= i < j < init.len() implies text_less(
                name_of(#[trigger] init[i]),
                name_of(#[trigger] init[j]),
            ) by {
                assert(init[i] == nodes[i] && init[j] == nodes[j]);
            }
            assert forall|i: int| 0 <= i < init.len() implies match #[trigger] init[i] {
                Node::File(_) => true,
                Node::Directory(_, children) => tree_sorted(children),
            } by {
                assert(init[i] == nodes[i]);
            }
        }
        lemma_directories_arranged(init);
        let before = arranged_directories(init);
        assert(nodes[nodes.len() - 1] == last);
        if let Node::Directory(name, children) = last {
            lemma_arranged(children);
            let result = arranged_directories(nodes);
            assert forall|i: int, j: int| 0 <= i < j < result.len() implies text_less(
                name_of(#[trigger] result[i]),
                name_of(#[trigger] result[j]),
            ) by {
                assert(result[i] == before[i]);
                if j < before.len() {
                    assert(result[j] == before[j]);
                } else {
                    assert(before.contains(before[i]));
                    lemma_arranged_directories(init, before[i]);
                    let x = choose|x: Node| #[trigger]
                        init.contains(x) && arranges_to(x, before[i]);
                    let k = choose|k: int| 0 <= k < init.len() && init[k] == x;
                    assert(nodes[k] == x);
                }
            }
            assert forall|i: int| 0 <= i < result.len() implies (#[trigger] result[i] matches
                Node::Directory(_, kids) && is_arranged(kids)) by {
                if i < before.len() {
                    assert(result[i] == before[i]);
                }
            }
        }
    }
}

proof fn lemma_files_sorted(nodes: Seq<Node>)
    requires
        level_sorted(nodes),
    ensures
        level_sorted(only_files(nodes)),
        forall|i: int| 0 <= i < only_files(nodes).len() ==> #[trigger] only_files(nodes)[i] is File,
    decreases nodes.len(),
{
    let is_file = |node: Node| node is File;
    if nodes.len() > 0 {
        let init = nodes.drop_last();
        let last = nodes.last();
        assert forall|i: int, j: int| 0 <= i < j < init.len() implies text_less(
            name_of(#[trigger] init[i]),
            name_of(#[trigger] init[j]),
        ) by {
            assert(init[i] == nodes[i] && init[j] == nodes[j]);
        }
        lemma_files_sorted(init);
        assert(nodes =~= init.push(last));
        init.lemma_filter_push(last, is_file);
        let before = only_files(init);
        let result = only_files(nodes);
        assert forall|i: int, j: int| 0 <= i < j < result.len() implies text_less(
            name_of(#[trigger] result[i]),
            name_of(#[trigger] result[j]),
        ) by {
            assert(result[i] == before[i]);
            if j < before.len() {
                assert(result[j] == before[j]);
            } else {
                assert(before.contains(before[i]));
                init.lemma_filter_contains_rev(is_file, before[i]);
                let k = choose|k: int| 0 <= k < init.len() && init[k] == before[i];
                assert(nodes[k] == before[i]);
                assert(nodes[nodes.len() - 1] == last);
            }
        }
        assert forall|i: int| 0 <= i < result.len() implies #[trigger] result[i] is File by {
            nodes.lemma_filter_pred(is_file, i);
        }
    } else {
        assert(only_files(nodes) =~= Seq::empty());
    }
}

proof fn lemma_arranged(nodes: Seq<Node>)
    requires
        tree_sorted(nodes),
    ensures
        is_arranged(arranged(nodes)),
    decreases nodes, 1nat,
{
    lemma_directories_arranged(nodes);
    lemma_files_sorted(nodes);
    let directories = arranged_directories(nodes);
    let files = only_files(nodes);
    let result = arranged(nodes);
    assert forall|i: int, j: int| 0 <= i < j < result.len() implies {
        &&& #[trigger] result[i] is File ==> #[trigger] result[j] is File
        &&& (result[i] is File <==> result[j] is File) ==> text_less(
            name_of(result[i]),
            name_of(result[j]),
        )
    } by {
        if j < directories.len() {
            assert(result[i] == directories[i] && result[j] == directories[j]);
        } else {
            assert(result[j] == files[j - directories.len()]);
            if i < directories.len() {
                assert(result[i] == directories[i]);
            } else {
                assert(result[i] == files[i - directories.len()]);
            }
        }
    }
    assert forall|i: int| 0 <= i < result.len() implies match #[trigger] result[i] {
        Node::File(_) => true,
        Node::Directory(_, children) => is_arranged(children),
    } by {
        if i < directories.len() {
            assert(result[i] == directories[i]);
        } else {
            assert(result[i] == files[i - directories.len()]);
        }
    }
}

/// A tree has directories before files at every level, and both by name.
pub proof fn law_tree_is_arranged(
    flat: Seq<Seq<char>>,
    stubs: Seq<Seq<char>>,
    max_depth: Option<nat>,
)
    ensures
        is_arranged(tree_of(flat, stubs, max_depth)),
{
    lemma_files_tree_sorted(flat, max_depth);
    lemma_stubs_keep_files(with_files(flat, max_depth), stubs, Seq::empty());
    lemma_arranged(with_stubs(with_files(flat, max_depth), stubs));
}

/// A tree that is built of files is sorted.
pub proof fn lemma_files_tree_sorted(paths: Seq<Seq<char>>, max_depth: Option<nat>)
    ensures
        tree_sorted(with_files(paths, max_depth)),
    decreases paths.len(),
{
    if paths.len() == 0 {
        assert(tree_sorted(Seq::<Node>::empty()));
    } else {
        lemma_files_tree_sorted(paths.drop_last(), max_depth);
        lemma_with_file_sorted(
            with_files(paths.drop_last(), max_depth),
            components(paths.last()),
            max_depth,
            1,
        );
    }
}

} // verus!
