use githttp_fs::git::dates::{DateFilter, DateKind, DatedCommit, Timestamp};
use githttp_fs::git::files::GitFiles;
use githttp_fs::git::history::{DeltaRecord, DeltaStatus, GitUtils};
use githttp_fs::git::listing::{begins_with_any, ListingRequest, OrderOptions};
use githttp_fs::git::model::{Blob, EntryKind, TreeEntry};
use githttp_fs::git::tree::TreeNode;
use githttp_fs::order::serialize;

fn strings(list: &[&str]) -> Vec<String> {
    list.iter().map(|text| text.to_string()).collect()
}

fn sample() -> Vec<TreeEntry> {
    let mut tree = Vec::new();
    for path in ["docs", "docs/deep", ".cfg", "void"] {
        tree.push(TreeEntry {
            path: path.to_string(),
            kind: EntryKind::Tree,
            oid: String::new(),
        });
    }
    for path in
        ["docs/Intro.md", "docs/deep/x.TXT", "a.md", "b.md", ".cfg/y.md", "docs/.order.json"]
    {
        tree.push(TreeEntry {
            path: path.to_string(),
            kind: EntryKind::Blob,
            oid: format!("o:{}", path),
        });
    }
    tree
}

fn everything() -> ListingRequest {
    ListingRequest {
        path_prefix: None,
        maximum_depth: None,
        include_hidden_files: false,
        file_name_starts_with: None,
        date_filter: None,
        order_options: None,
        page: 1,
        per_page: 100,
    }
}

fn shape(nodes: &[TreeNode]) -> String {
    let parts: Vec<String> = nodes
        .iter()
        .map(|node| match node {
            TreeNode::File { name } => name.clone(),
            TreeNode::Directory { name, children } => format!("{}({})", name, shape(children)),
        })
        .collect();
    parts.join(" ")
}

fn listed(request: &ListingRequest) -> String {
    shape(&GitFiles::list_files(&sample(), &[], &[], request).0)
}

#[test]
fn files_make_a_tree() {
    let tree = GitUtils::build_tree(
        strings(&["b.md", "docs/z.md", "docs/deep/x", "a.md"]),
        strings(&["void", "docs/bare"]),
        None,
    );
    assert_eq!(shape(&tree), "docs(bare() deep(x) z.md) void() a.md b.md");
    assert_eq!(tree[0].name(), "docs");
    assert_eq!(tree[3].name(), "b.md");
}

#[test]
fn hidden_entries_and_indexes_are_kept_out() {
    assert_eq!(listed(&everything()), "docs(deep(x.TXT) Intro.md) void() a.md b.md");
    let mut hidden = everything();
    hidden.include_hidden_files = true;
    assert_eq!(listed(&hidden), ".cfg(y.md) docs(deep(x.TXT) Intro.md) void() a.md b.md");
}

#[test]
fn depth_is_limited() {
    let mut shallow = everything();
    shallow.maximum_depth = Some(1);
    assert_eq!(listed(&shallow), "docs() void() a.md b.md");
    shallow.maximum_depth = Some(2);
    assert_eq!(listed(&shallow), "docs(deep() Intro.md) void() a.md b.md");
}

#[test]
fn a_folder_is_listed_from_its_root() {
    let mut inside = everything();
    inside.path_prefix = Some("docs".to_string());
    assert_eq!(listed(&inside), "deep(x.TXT) Intro.md");
    inside.path_prefix = Some("nothing".to_string());
    assert_eq!(listed(&inside), "");
    inside.path_prefix = Some("a.md".to_string());
    assert_eq!(listed(&inside), "");
}

#[test]
fn names_are_searched_without_regard_to_case() {
    let mut search = everything();
    search.file_name_starts_with = Some(strings(&["INTRO", "x."]));
    assert_eq!(listed(&search), "docs(deep(x.TXT) Intro.md)");
    search.file_name_starts_with = Some(strings(&["deep"]));
    assert_eq!(listed(&search), "docs(deep(x.TXT))");
    search.file_name_starts_with = Some(strings(&["nothing"]));
    assert_eq!(listed(&search), "");
    assert!(begins_with_any(&strings(&["b", "in"]), "intro"));
    assert!(!begins_with_any(&strings(&["IN"]), "intro"));
    assert!(!begins_with_any(&[], "intro"));
}

#[test]
fn pages_follow_on() {
    let page = |page: usize, per_page: usize| {
        let mut request = everything();
        request.page = page;
        request.per_page = per_page;
        let (nodes, more) = GitFiles::list_files(&sample(), &[], &[], &request);
        (shape(&nodes), more)
    };
    assert_eq!(page(1, 2), ("docs(deep(x.TXT) Intro.md) void()".to_string(), true));
    assert_eq!(page(2, 2), ("a.md b.md".to_string(), false));
    assert_eq!(page(3, 2), (String::new(), false));
}

#[test]
fn dates_narrow_a_listing() {
    let history = vec![DatedCommit {
        committed_at: 50,
        deltas: vec![DeltaRecord {
            status: DeltaStatus::Added,
            old_oid: String::new(),
            new_oid: "1".to_string(),
            old_path: None,
            new_path: Some("docs/Intro.md".to_string()),
        }],
    }];
    let mut request = everything();
    let at = |seconds: i64| Some(Timestamp { seconds, nanos: 0 });
    request.date_filter = Some(DateFilter { from: at(50), to: None, kind: DateKind::Created });
    let (nodes, _) = GitFiles::list_files(&sample(), &[], &history, &request);
    assert_eq!(shape(&nodes), "docs(Intro.md)");
    request.path_prefix = Some("docs".to_string());
    let (inside, _) = GitFiles::list_files(&sample(), &[], &history, &request);
    assert_eq!(shape(&inside), "Intro.md");
}

#[test]
fn stored_orders_are_applied() {
    let blobs = vec![Blob {
        oid: "o:docs/.order.json".to_string(),
        content: serialize(&strings(&["Intro.md"])).into_bytes(),
    }];
    let shown = |implicit_default_index: Option<i64>| {
        let mut request = everything();
        request.order_options = Some(OrderOptions { implicit_default_index });
        shape(&GitFiles::list_files(&sample(), &blobs, &[], &request).0)
    };
    assert_eq!(shown(None), "docs(Intro.md deep(x.TXT)) void() a.md b.md");
    assert_eq!(shown(Some(0)), "docs(deep(x.TXT) Intro.md) void() a.md b.md");
}

#[test]
fn order_ranks() {
    let ranks = GitFiles::order_ranks(&strings(&["b", "a/"]));
    assert_eq!(ranks, vec![("b".to_string(), 0), ("a".to_string(), 1)]);
    let last = OrderOptions { implicit_default_index: None };
    assert_eq!(GitFiles::order_rank(&ranks, "a", &last), (1, true));
    assert_eq!(GitFiles::order_rank(&ranks, "z", &last), (i64::MAX, false));
    let first = OrderOptions { implicit_default_index: Some(-3) };
    assert_eq!(GitFiles::order_rank(&ranks, "z", &first), (-3, false));
}

#[test]
fn counts() {
    let count = |prefix: Option<&str>, depth: Option<usize>, hidden: bool, only: Option<&[String]>| {
        let counts = GitFiles::count_files(&sample(), prefix, depth, hidden, only);
        (counts.files, counts.directories)
    };
    assert_eq!(count(None, None, false, None), (4, 3));
    assert_eq!(count(None, None, true, None), (5, 4));
    assert_eq!(count(None, Some(1), false, None), (2, 2));
    assert_eq!(count(Some("docs"), None, false, None), (2, 1));
    assert_eq!(count(None, None, false, Some(&strings(&["txt"]))), (1, 3));
    assert_eq!(count(None, None, false, Some(&strings(&["MD", "txt"]))), (4, 3));
}

#[test]
fn every_path_of_a_folder() {
    let all = |prefix: Option<&str>, hidden: bool| {
        let mut paths = GitFiles::list_all_file_paths(&sample(), prefix, hidden);
        paths.sort();
        paths
    };
    assert_eq!(all(Some("docs"), true), strings(&["docs/Intro.md", "docs/deep/x.TXT"]));
    assert_eq!(all(None, false), strings(&["a.md", "b.md", "docs/Intro.md", "docs/deep/x.TXT"]));
    assert_eq!(all(Some(""), true).len(), 5);
    assert!(all(None, true).contains(&".cfg/y.md".to_string()));
    assert!(all(Some("nowhere"), true).is_empty());
}

#[test]
fn unlisted_names_stand_at_their_index() {
    let ranks = GitFiles::order_ranks(&strings(&["b", "a", "c"]));
    let rank = |name: &str, implicit_default_index: Option<i64>| {
        GitFiles::order_rank(&ranks, name, &OrderOptions { implicit_default_index })
    };
    for name in ["b", "a", "c"] {
        assert!(rank(name, None) < rank("z", None));
        assert!(rank("z", Some(0)) < rank(name, Some(0)));
        assert!(rank(name, Some(3)) < rank("z", Some(3)));
    }
    assert!(rank("b", Some(1)) < rank("z", Some(1)));
    assert!(rank("z", Some(1)) < rank("a", Some(1)));
    assert_eq!(rank("y", Some(1)), rank("z", Some(1)));
}

#[test]
fn trees_have_the_folders_of_their_files() {
    let files = || strings(&["a/b/c/d.md", "a/e.md", "f.md"]);
    assert_eq!(
        shape(&GitUtils::build_tree(files(), strings(&["g/h"]), None)),
        "a(b(c(d.md)) e.md) g(h()) f.md"
    );
    assert_eq!(shape(&GitUtils::build_tree(files(), vec![], Some(2))), "a(b() e.md) f.md");
    assert_eq!(shape(&GitUtils::build_tree(files(), vec![], Some(1))), "a() f.md");
    assert_eq!(shape(&GitUtils::build_tree(files(), vec![], Some(0))), "a() f.md");
}

#[test]
fn no_listing_has_an_index() {
    let mut request = everything();
    for depth in [None, Some(1), Some(2)] {
        for search in [None, Some(strings(&[".order", "docs"]))] {
            for order_options in [None, Some(OrderOptions { implicit_default_index: None })] {
                request.include_hidden_files = true;
                request.maximum_depth = depth;
                request.file_name_starts_with = search.clone();
                request.order_options = order_options;
                assert!(!listed(&request).contains(".order.json"));
            }
        }
    }
}
