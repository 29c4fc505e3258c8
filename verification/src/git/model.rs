//! Repository contents as plain values: tree entries, blobs, edits to a tree
//! and the changes that a commit makes.
use vstd::prelude::*;
use vstd::utf8::*;
use crate::error::{invalid_operation, AppError, Fault};
use crate::order::{child_path, order_file_path, order_in, parse, ORDER_FILE_NAME};
use crate::seek::text_of_bytes;
use crate::sorting::views;
use crate::text::{blank, is_blank, joined, same, texts};

verus! {

/// What a tree entry is.
#[derive(Debug, Clone, Copy, PartialEq, Eq, Structural)]
pub enum EntryKind {
    Blob,
    Tree,
    Other,
}

/// One entry of a commit's tree, at any depth, by its path from the root.
#[derive(Debug)]
pub struct TreeEntry {
    pub path: String,
    pub kind: EntryKind,
    pub oid: String,
}

/// A tree entry over characters.
pub struct Entry {
    pub path: Seq<char>,
    pub kind: EntryKind,
    pub oid: Seq<char>,
}

impl View for TreeEntry {
    type V = Entry;

    open spec fn view(&self) -> Entry {
        Entry { path: self.path@, kind: self.kind, oid: self.oid@ }
    }
}

/// A blob that was read from the object database.
#[derive(Debug)]
pub struct Blob {
    pub oid: String,
    pub content: Vec<u8>,
}

/// A blob's id and bytes.
pub struct StoredBlob {
    pub oid: Seq<char>,
    pub content: Seq<u8>,
}

impl View for Blob {
    type V = StoredBlob;

    open spec fn view(&self) -> StoredBlob {
        StoredBlob { oid: self.oid@, content: self.content@ }
    }
}

/// One file-level change of a commit.
#[derive(Debug)]
pub enum FileChange {
    Created { path: String, content: String },
    Updated { path: String, content: String },
    Deleted { path: String },
    Moved { from_path: String, to_path: String, content: String },
}

/// A file-level change over characters.
pub enum Change {
    Created(Seq<char>, Seq<char>),
    Updated(Seq<char>, Seq<char>),
    Deleted(Seq<char>),
    Moved(Seq<char>, Seq<char>, Seq<char>),
}

impl View for FileChange {
    type V = Change;

    open spec fn view(&self) -> Change {
        match *self {
            FileChange::Created { path, content } => Change::Created(path@, content@),
            FileChange::Updated { path, content } => Change::Updated(path@, content@),
            FileChange::Deleted { path } => Change::Deleted(path@),
            FileChange::Moved { from_path, to_path, content } => Change::Moved(
                from_path@,
                to_path@,
                content@,
            ),
        }
    }
}

/// One edit to a tree.
#[derive(Debug)]
pub enum TreeEdit {
    /// Drops the file or directory at `path`.
    Remove { path: String },
    /// Puts the stored blob `oid` at `path`.
    Link { path: String, oid: String },
    /// Puts a blob with the given content at `path`.
    Write { path: String, content: String },
}

/// A tree edit over characters.
pub enum Edit {
    Remove(Seq<char>),
    Link(Seq<char>, Seq<char>),
    Write(Seq<char>, Seq<char>),
}

impl View for TreeEdit {
    type V = Edit;

    open spec fn view(&self) -> Edit {
        match *self {
            TreeEdit::Remove { path } => Edit::Remove(path@),
            TreeEdit::Link { path, oid } => Edit::Link(path@, oid@),
            TreeEdit::Write { path, content } => Edit::Write(path@, content@),
        }
    }
}

/// A commit to make: how its tree differs from its parent's, what it changes,
/// and its message.
#[derive(Debug)]
pub struct CommitPlan {
    pub edits: Vec<TreeEdit>,
    pub changes: Vec<FileChange>,
    pub message: String,
}

/// A commit plan over characters.
pub struct Plan {
    pub edits: Seq<Edit>,
    pub changes: Seq<Change>,
    pub message: Seq<char>,
}

impl View for CommitPlan {
    type V = Plan;

    open spec fn view(&self) -> Plan {
        Plan { edits: views(self.edits@), changes: views(self.changes@), message: self.message@ }
    }
}

/// Who a commit is by, and the message it was asked to carry, if any.
#[derive(Debug)]
pub struct CommitRequest {
    pub message: Option<String>,
    pub author_name: String,
    pub author_email: String,
}

/// A commit request over characters.
pub struct Request {
    pub message: Option<Seq<char>>,
    pub author_name: Seq<char>,
    pub author_email: Seq<char>,
}

impl View for CommitRequest {
    type V = Request;

    open spec fn view(&self) -> Request {
        Request {
            message: crate::text::optional_text(self.message),
            author_name: self.author_name@,
            author_email: self.author_email@,
        }
    }
}

/// The outcome of planning, over the views.
pub open spec fn plan_outcome(result: Result<Option<CommitPlan>, AppError>) -> Result<
    Option<Plan>,
    Fault,
> {
    match result {
        Ok(Some(plan)) => Ok(Some(plan@)),
        Ok(None) => Ok(None),
        Err(error) => Err(error@),
    }
}

/// The entry of a tree at `path`, if there is one.
pub open spec fn lookup(tree: Seq<Entry>, path: Seq<char>) -> Option<Entry>
    decreases tree.len(),
{
    if tree.len() == 0 {
        None
    } else if tree[0].path == path {
        Some(tree[0])
    } else {
        lookup(tree.skip(1), path)
    }
}

/// The blob that a tree holds at `path`, if there is one.
pub open spec fn blob_at(tree: Seq<Entry>, path: Seq<char>) -> Option<Seq<char>> {
    match lookup(tree, path) {
        Some(entry) => if entry.kind == EntryKind::Blob {
            Some(entry.oid)
        } else {
            None
        },
        None => None,
    }
}

/// The bytes of a blob, if it was read.
pub open spec fn content_of(blobs: Seq<StoredBlob>, oid: Seq<char>) -> Option<Seq<u8>>
    decreases blobs.len(),
{
    if blobs.len() == 0 {
        None
    } else if blobs[0].oid == oid {
        Some(blobs[0].content)
    } else {
        content_of(blobs.skip(1), oid)
    }
}

/// Finds the entry of a tree at `path`.
pub fn find_entry<'a>(tree: &'a [TreeEntry], path: &str) -> (result: Option<&'a TreeEntry>)
    ensures
        match result {
            Some(entry) => lookup(views(tree@), path@) == Some(entry@),
            None => lookup(views(tree@), path@) is None,
        },
{
    let ghost all = views(tree@);
    let mut i: usize = 0;
    assert(all.skip(0) =~= all);
    while i < tree.len()
        invariant
            i <= tree.len(),
            all == views(tree@),
            lookup(all, path@) == lookup(all.skip(i as int), path@),
        decreases tree.len() - i,
    {
        assert(all.skip(i as int)[0] == tree@[i as int]@);
        if same(tree[i].path.as_str(), path) {
            return Some(&tree[i]);
        }
        assert(all.skip(i as int).skip(1) =~= all.skip(i + 1));
        i = i + 1;
    }
    None
}

/// Finds the blob of a tree at `path`.
pub fn blob_oid_in_tree<'a>(tree: &'a [TreeEntry], path: &str) -> (result: Option<&'a str>)
    ensures
        match result {
            Some(oid) => blob_at(views(tree@), path@) == Some(oid@),
            None => blob_at(views(tree@), path@) is None,
        },
{
    match find_entry(tree, path) {
        Some(entry) => if entry.kind == EntryKind::Blob {
            Some(entry.oid.as_str())
        } else {
            None
        },
        None => None,
    }
}

/// Finds the bytes of a blob.
pub fn find_blob<'a>(blobs: &'a [Blob], oid: &str) -> (result: Option<&'a Vec<u8>>)
    ensures
        match result {
            Some(content) => content_of(views(blobs@), oid@) == Some(content@),
            None => content_of(views(blobs@), oid@) is None,
        },
{
    let ghost all = views(blobs@);
    let mut i: usize = 0;
    assert(all.skip(0) =~= all);
    while i < blobs.len()
        invariant
            i <= blobs.len(),
            all == views(blobs@),
            content_of(all, oid@) == content_of(all.skip(i as int), oid@),
        decreases blobs.len() - i,
    {
        assert(all.skip(i as int)[0] == blobs@[i as int]@);
        if same(blobs[i].oid.as_str(), oid) {
            return Some(&blobs[i].content);
        }
        assert(all.skip(i as int).skip(1) =~= all.skip(i + 1));
        i = i + 1;
    }
    None
}

/// Copies bytes.
pub fn copy_bytes(bytes: &[u8]) -> (result: Vec<u8>)
    ensures
        result@ == bytes@,
{
    let mut result: Vec<u8> = Vec::new();
    let mut i: usize = 0;
    while i < bytes.len()
        invariant
            i <= bytes.len(),
            result@ == bytes@.take(i as int),
        decreases bytes.len() - i,
    {
        result.push(bytes[i]);
        i = i + 1;
        assert(bytes@.take(i as int) =~= bytes@.take(i - 1).push(bytes@[i - 1]));
    }
    assert(bytes@.take(i as int) =~= bytes@);
    result
}

/// The text of the file that a tree holds at `path`, or why there is none.
pub open spec fn file_text(tree: Seq<Entry>, blobs: Seq<StoredBlob>, path: Seq<char>) -> Result<
    Seq<char>,
    Fault,
> {
    match lookup(tree, path) {
        None => Err(Fault::FileNotFound(path)),
        Some(entry) => match content_of(blobs, entry.oid) {
            None => Err(Fault::Git("object not found: "@ + entry.oid)),
            Some(bytes) => if valid_utf8(bytes) {
                Ok(decode_utf8(bytes))
            } else {
                Err(Fault::InvalidUtf8(path))
            },
        },
    }
}

/// Reads the text of the file that a tree holds at `path`.
pub fn blob_content_from_tree(tree: &[TreeEntry], blobs: &[Blob], path: &str) -> (result: Result<
    String,
    AppError,
>)
    ensures
        match result {
            Ok(text) => file_text(views(tree@), views(blobs@), path@) == Ok::<_, Fault>(text@),
            Err(error) => file_text(views(tree@), views(blobs@), path@) == Err::<Seq<char>, _>(
                error@,
            ),
        },
{
    match find_entry(tree, path) {
        None => Err(AppError::FileNotFound { path: path.to_owned() }),
        Some(entry) => match find_blob(blobs, entry.oid.as_str()) {
            None => Err(AppError::Git(joined("object not found: ", entry.oid.as_str()))),
            Some(content) => match text_of_bytes(copy_bytes(content.as_slice())) {
                Some(text) => Ok(text),
                None => Err(AppError::InvalidUtf8 { path: path.to_owned() }),
            },
        },
    }
}

/// The order stored for a directory of a tree. One that is absent, unread or
/// malformed counts as none.
pub open spec fn stored_order_in(
    tree: Seq<Entry>,
    blobs: Seq<StoredBlob>,
    directory: Seq<char>,
) -> Option<Seq<Seq<char>>> {
    match blob_at(tree, child_path(directory, ORDER_FILE_NAME@)) {
        None => None,
        Some(oid) => match content_of(blobs, oid) {
            None => None,
            Some(bytes) => if valid_utf8(bytes) {
                order_in(decode_utf8(bytes))
            } else {
                None
            },
        },
    }
}

/// Reads the order stored for a directory of a tree.
pub fn stored_order(tree: &[TreeEntry], blobs: &[Blob], directory: &str) -> (result: Option<
    Vec<String>,
>)
    ensures
        match result {
            Some(order) => stored_order_in(views(tree@), views(blobs@), directory@) == Some(
                texts(order@),
            ),
            None => stored_order_in(views(tree@), views(blobs@), directory@) is None,
        },
{
    let path: String = order_file_path(directory);
    match blob_oid_in_tree(tree, path.as_str()) {
        None => None,
        Some(oid) => match find_blob(blobs, oid) {
            None => None,
            Some(content) => match text_of_bytes(copy_bytes(content.as_slice())) {
                None => None,
                Some(text) => parse(text.as_str()),
            },
        },
    }
}

/// Why a commit's author is refused, if it is.
pub open spec fn author_fault(name: Seq<char>, email: Seq<char>) -> Option<Fault> {
    if is_blank(name) {
        Some(Fault::InvalidOperation("author.name must not be empty"@))
    } else if is_blank(email) {
        Some(Fault::InvalidOperation("author.email must not be empty"@))
    } else {
        None
    }
}

/// Checks a commit's author.
pub fn check_author(name: &str, email: &str) -> (result: Result<(), AppError>)
    ensures
        match result {
            Ok(()) => author_fault(name@, email@) is None,
            Err(error) => author_fault(name@, email@) == Some(error@),
        },
{
    if blank(name) {
        return Err(invalid_operation("author.name must not be empty"));
    }
    if blank(email) {
        return Err(invalid_operation("author.email must not be empty"));
    }
    Ok(())
}

/// The message of a commit: the one asked for, else the given one.
pub open spec fn message_for(request: Request, auto: Seq<char>) -> Seq<char> {
    match request.message {
        Some(message) => message,
        None => auto,
    }
}

/// A plan as its author may commit it: refused where the author is.
pub open spec fn planned(
    edits: Seq<Edit>,
    changes: Seq<Change>,
    request: Request,
    auto: Seq<char>,
) -> Result<Option<Plan>, Fault> {
    match author_fault(request.author_name, request.author_email) {
        Some(fault) => Err(fault),
        None => Ok(Some(Plan { edits, changes, message: message_for(request, auto) })),
    }
}

/// Completes a plan with its message, once its author is accepted.
pub(crate) fn finish_plan(
    edits: Vec<TreeEdit>,
    changes: Vec<FileChange>,
    request: &CommitRequest,
    auto: String,
) -> (result: Result<Option<CommitPlan>, AppError>)
    ensures
        plan_outcome(result) == planned(views(edits@), views(changes@), request@, auto@),
{
    match check_author(request.author_name.as_str(), request.author_email.as_str()) {
        Ok(()) => {},
        Err(error) => {
            return Err(error);
        },
    }
    let message: String = match &request.message {
        Some(message) => message.clone(),
        None => auto,
    };
    Ok(Some(CommitPlan { edits, changes, message }))
}

/// The blob that `path` holds once the edits are made, in turn, to a tree.
pub open spec fn blob_after(tree: Seq<Entry>, edits: Seq<Edit>, path: Seq<char>) -> Option<
    Seq<char>,
>
    decreases edits.len(),
{
    if edits.len() == 0 {
        blob_at(tree, path)
    } else {
        let before = blob_after(tree, edits.drop_last(), path);
        match edits.last() {
            Edit::Remove(dropped) => if path == dropped || (dropped + "/"@).is_prefix_of(path) {
                None
            } else {
                before
            },
            Edit::Link(linked, oid) => if path == linked {
                Some(oid)
            } else {
                before
            },
            Edit::Write(written, content) => if path == written {
                match blob_id(encode_utf8(content)) {
                    Ok(oid) => Some(oid),
                    Err(_) => None,
                }
            } else {
                before
            },
        }
    }
}

/// The id that `git2::Oid::hash_object` gives a blob with these bytes, or the
/// message of its error.
pub uninterp spec fn blob_id(content: Seq<u8>) -> Result<Seq<char>, Seq<char>>;

/// `git2::Oid::hash_object` for a blob, spelled in hexadecimal.
///
/// Claims that the outcome depends on the bytes alone.
#[verifier::external_body]
pub(crate) fn hash_blob(content: &[u8]) -> (result: Result<String, String>)
    ensures
        match result {
            Ok(oid) => blob_id(content@) == Ok::<Seq<char>, Seq<char>>(oid@),
            Err(message) => blob_id(content@) == Err::<Seq<char>, Seq<char>>(message@),
        },
{
    match git2::Oid::hash_object(git2::ObjectType::Blob, content) {
        Ok(oid) => Ok(oid.to_string()),
        Err(error) => Err(error.to_string()),
    }
}

} // verus!
