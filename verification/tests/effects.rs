use githttp_fs::git::files::{GitFiles, PathKind};
use githttp_fs::git::index::GitOrder;
use githttp_fs::git::model::{
    Blob, CommitPlan, CommitRequest, EntryKind, TreeEdit, TreeEntry,
};
use githttp_fs::seek::SeekFilter;

/// A repository in memory.
struct Memory {
    tree: Vec<TreeEntry>,
    blobs: Vec<Blob>,
}

fn request() -> CommitRequest {
    CommitRequest {
        message: None,
        author_name: "Ann".to_string(),
        author_email: "ann@example.com".to_string(),
    }
}

fn place(tree: &mut Vec<TreeEntry>, path: &str, kind: EntryKind, oid: String) {
    tree.retain(|entry| entry.path != path);
    tree.push(TreeEntry { path: path.to_string(), kind, oid });
}

impl Memory {
    fn new() -> Self {
        Self { tree: Vec::new(), blobs: Vec::new() }
    }

    fn folder(&mut self, path: &str) {
        place(&mut self.tree, path, EntryKind::Tree, String::new());
    }

    fn commit(&mut self, plan: Option<CommitPlan>) -> bool {
        let Some(plan) = plan else {
            return false;
        };
        for edit in plan.edits {
            match edit {
                TreeEdit::Remove { path } => {
                    let inside = format!("{}/", path);
                    self.tree
                        .retain(|entry| entry.path != path && !entry.path.starts_with(&inside));
                }
                TreeEdit::Link { path, oid } => {
                    place(&mut self.tree, &path, EntryKind::Blob, oid)
                }
                TreeEdit::Write { path, content } => {
                    let hashed =
                        git2::Oid::hash_object(git2::ObjectType::Blob, content.as_bytes());
                    let oid = hashed.expect("hashed").to_string();
                    self.blobs.push(Blob { oid: oid.clone(), content: content.into_bytes() });
                    place(&mut self.tree, &path, EntryKind::Blob, oid);
                }
            }
        }
        true
    }

    fn write(&mut self, path: &str, content: &str) -> bool {
        let plan = GitFiles::write_file(&self.tree, path, content, &request());
        self.commit(plan.ok().expect("written"))
    }

    fn read(&self, path: &str) -> Option<String> {
        GitFiles::read_file(&self.tree, &self.blobs, path, &SeekFilter::all()).ok()
    }

    fn order(&mut self, directory: &str, entries: &[&str]) {
        let entries: Vec<String> = entries.iter().map(|entry| entry.to_string()).collect();
        let plan = GitOrder::write_order(&self.tree, directory, &entries, &request());
        self.commit(plan.ok().expect("ordered"));
    }

    fn listed(&self, directory: &str) -> Vec<String> {
        GitOrder::read_order(&self.tree, &self.blobs, directory).unwrap_or_default()
    }
}

fn sample() -> Memory {
    let mut memory = Memory::new();
    memory.folder("docs");
    memory.folder("docs/deep");
    assert!(memory.write("a.md", "a"));
    assert!(memory.write("docs/b.md", "b"));
    assert!(memory.write("docs/c.md", "c"));
    assert!(memory.write("docs/deep/d.md", "d"));
    memory.order("docs", &["c.md", "b.md"]);
    memory.order("", &["docs/", "a.md"]);
    memory
}

#[test]
fn written_files_read_back() {
    let mut memory = sample();
    assert_eq!(memory.read("docs/b.md"), Some("b".to_string()));
    assert!(memory.write("docs/b.md", "caf\u{e9}\n"));
    assert_eq!(memory.read("docs/b.md"), Some("caf\u{e9}\n".to_string()));
    assert_eq!(memory.read("docs/c.md"), Some("c".to_string()));
    assert!(!memory.write("docs/b.md", "caf\u{e9}\n"));
}

#[test]
fn stored_orders_read_back() {
    let mut memory = sample();
    assert_eq!(memory.listed("docs"), vec!["c.md", "b.md"]);
    let plan =
        GitOrder::reorder_entry(&memory.tree, &memory.blobs, "docs/b.md", 0, false, &request());
    assert!(memory.commit(plan.ok().expect("reordered")));
    assert_eq!(memory.listed("docs"), vec!["b.md", "c.md"]);
}

#[test]
fn removed_files_are_not_listed() {
    let mut memory = sample();
    for (path, left) in [("docs/c.md", vec!["b.md"]), ("docs/b.md", vec![])] {
        let plan = GitFiles::delete_file(&memory.tree, &memory.blobs, path, &request());
        assert!(memory.commit(plan.ok().expect("deleted")));
        assert_eq!(memory.read(path), None);
        assert_eq!(memory.listed("docs"), left);
    }
    assert_eq!(memory.read("docs/deep/d.md"), Some("d".to_string()));
    assert!(GitOrder::read_order(&memory.tree, &memory.blobs, "docs").is_err());
}

#[test]
fn removed_folders_are_empty() {
    let mut memory = sample();
    let plan = GitFiles::delete_directory(&memory.tree, &memory.blobs, "docs", &request());
    assert!(memory.commit(plan.ok().expect("deleted")));
    for path in ["docs/b.md", "docs/c.md", "docs/deep/d.md"] {
        assert_eq!(memory.read(path), None);
    }
    assert!(memory.tree.iter().all(|entry| !entry.path.starts_with("docs/")));
    assert_eq!(memory.listed(""), vec!["a.md"]);
}

#[test]
fn moved_files_keep_their_content() {
    let mut memory = sample();
    let plan =
        GitFiles::move_file(&memory.tree, &memory.blobs, "docs/c.md", "z.md", &request());
    assert!(memory.commit(plan.ok().expect("moved")));
    assert_eq!((memory.read("docs/c.md"), memory.read("z.md")), (None, Some("c".to_string())));
    assert_eq!(memory.listed("docs"), vec!["b.md"]);
    assert_eq!(memory.listed(""), vec!["docs/", "a.md", "z.md"]);
}

#[test]
fn moved_folders_keep_their_files() {
    let mut memory = sample();
    let plan =
        GitFiles::move_directory(&memory.tree, &memory.blobs, "docs", "guide", &request());
    assert!(memory.commit(plan.ok().expect("moved")));
    for (from, to, content) in [
        ("docs/b.md", "guide/b.md", "b"),
        ("docs/c.md", "guide/c.md", "c"),
        ("docs/deep/d.md", "guide/deep/d.md", "d"),
    ] {
        assert_eq!((memory.read(from), memory.read(to)), (None, Some(content.to_string())));
    }
    assert_eq!(GitFiles::path_kind(&memory.tree, "docs/b.md"), PathKind::Missing);
    assert_eq!(memory.listed("guide"), vec!["c.md", "b.md"]);
    assert_eq!(memory.listed(""), vec!["guide/", "a.md"]);
}

#[test]
fn renamed_entries_keep_their_place() {
    let mut memory = sample();
    let plan =
        GitFiles::move_file(&memory.tree, &memory.blobs, "docs/c.md", "docs/z.md", &request());
    assert!(memory.commit(plan.ok().expect("moved")));
    assert_eq!(memory.listed("docs"), vec!["z.md", "b.md"]);
    let plan = GitFiles::move_directory(&memory.tree, &memory.blobs, "docs", "guide", &request());
    assert!(memory.commit(plan.ok().expect("moved")));
    assert_eq!(memory.listed(""), vec!["guide/", "a.md"]);
    memory.folder("guide/deep");
    let plan =
        GitFiles::move_directory(&memory.tree, &memory.blobs, "guide/deep", "deep", &request());
    assert!(memory.commit(plan.ok().expect("moved")));
    assert_eq!(memory.listed(""), vec!["guide/", "a.md", "deep/"]);
}

#[test]
fn a_file_moves_below_its_own_name() {
    let mut memory = sample();
    let plan = GitFiles::move_file(&memory.tree, &memory.blobs, "a.md", "a.md/index", &request());
    assert!(memory.commit(plan.ok().expect("moved")));
    assert_eq!((memory.read("a.md"), memory.read("a.md/index")), (None, Some("a".to_string())));
    assert_eq!(memory.read("docs/b.md"), Some("b".to_string()));
}

#[test]
fn other_files_stay() {
    for step in 0..4 {
        let mut memory = sample();
        let plan = match step {
            0 => GitFiles::move_file(&memory.tree, &memory.blobs, "docs/b.md", "z.md", &request()),
            1 => GitFiles::delete_file(&memory.tree, &memory.blobs, "docs/b.md", &request()),
            2 => GitFiles::delete_directory(&memory.tree, &memory.blobs, "docs", &request()),
            _ => {
                GitFiles::move_directory(&memory.tree, &memory.blobs, "docs", "guide", &request())
            }
        };
        assert!(memory.commit(plan.ok().expect("planned")));
        assert_eq!(memory.read("a.md"), Some("a".to_string()));
        if step < 2 {
            assert_eq!(memory.read("docs/c.md"), Some("c".to_string()));
            assert_eq!(memory.read("docs/deep/d.md"), Some("d".to_string()));
        }
    }
}
