//! Reading history: one commit in detail, pages of commits, and the commits
//! that touched one file under its successive names.
use vstd::prelude::*;
use vstd::utf8::*;
use crate::error::{AppError, Fault};
use crate::git::history::{Delta, DeltaRecord, DeltaStatus, GitCommits, GitUtils};
use crate::git::model::{
    blob_content_from_tree, copy_bytes, file_text, Blob, Entry, StoredBlob, TreeEntry,
};
use crate::seek::text_of_bytes;
use crate::sorting::{lemma_views_push, more_after, page_of, take_page, views};
use crate::text::{optional_text, same};

verus! {

/// Who made a commit.
#[derive(Debug)]
pub struct CommitAuthor {
    pub name: String,
    pub email: String,
}

/// How much a commit changed.
#[derive(Debug, Clone, Copy)]
pub struct CommitStatistics {
    pub insertions: usize,
    pub deletions: usize,
    pub files_changed: usize,
}

/// A commit without its files.
#[derive(Debug)]
pub struct CommitSummary {
    pub sha: String,
    pub message: String,
    pub author: CommitAuthor,
    /// Seconds since the Unix epoch.
    pub committed_at: i64,
    pub statistics: Option<CommitStatistics>,
}

/// A commit with its files.
#[derive(Debug)]
pub struct CommitDetail {
    pub sha: String,
    pub message: String,
    pub author: CommitAuthor,
    /// Seconds since the Unix epoch.
    pub committed_at: i64,
    pub files: Vec<CommitFileDetail>,
    pub statistics: CommitStatistics,
}

/// One file of a commit.
#[derive(Debug)]
pub struct CommitFileDetail {
    pub path: String,
    pub change: String,
    pub from_path: Option<String>,
    pub content: String,
    pub diff: String,
}

/// One file of a commit over characters.
pub struct FileDetail {
    pub path: Seq<char>,
    pub change: Seq<char>,
    pub from_path: Option<Seq<char>>,
    pub content: Seq<char>,
    pub diff: Seq<char>,
}

impl View for CommitFileDetail {
    type V = FileDetail;

    open spec fn view(&self) -> FileDetail {
        FileDetail {
            path: self.path@,
            change: self.change@,
            from_path: optional_text(self.from_path),
            content: self.content@,
            diff: self.diff@,
        }
    }
}

/// What a commit says of itself, and how much it changed.
#[derive(Debug)]
pub struct CommitHeader {
    pub sha: String,
    pub message: String,
    pub author: CommitAuthor,
    pub committed_at: i64,
    pub statistics: CommitStatistics,
}

/// One line of a commit's patch, with the paths and the blobs of the
/// difference that it belongs to.
#[derive(Debug)]
pub struct DiffLine {
    pub old_oid: String,
    pub new_oid: String,
    pub old_path: Option<String>,
    pub new_path: Option<String>,
    pub origin: char,
    pub content: Vec<u8>,
}

/// A patch line over characters and bytes.
pub struct PatchLine {
    pub old_oid: Seq<char>,
    pub new_oid: Seq<char>,
    pub old_path: Option<Seq<char>>,
    pub new_path: Option<Seq<char>>,
    pub origin: char,
    pub content: Seq<u8>,
}

impl View for DiffLine {
    type V = PatchLine;

    open spec fn view(&self) -> PatchLine {
        PatchLine {
            old_oid: self.old_oid@,
            new_oid: self.new_oid@,
            old_path: optional_text(self.old_path),
            new_path: optional_text(self.new_path),
            origin: self.origin,
            content: self.content@,
        }
    }
}

/// The word for a kind of change.
pub open spec fn change_word(status: DeltaStatus) -> Seq<char> {
    match status {
        DeltaStatus::Added => "created"@,
        DeltaStatus::Deleted => "deleted"@,
        DeltaStatus::Renamed => "moved"@,
        DeltaStatus::Modified | DeltaStatus::Other => "updated"@,
    }
}

/// A path that may be missing, as text.
pub open spec fn path_text(path: Option<Seq<char>>) -> Seq<char> {
    match path {
        Some(text) => text,
        None => Seq::empty(),
    }
}

/// The path that a difference is listed under: the old one only where the
/// file went away.
pub open spec fn listed_path(delta: Delta) -> Seq<char> {
    if delta.status == DeltaStatus::Deleted {
        path_text(delta.old_path)
    } else {
        path_text(delta.new_path)
    }
}

/// Whether a patch line is one of a difference: both are about the same paths
/// and the same blobs.
pub open spec fn is_line_of(delta: Delta, line: PatchLine) -> bool {
    &&& delta.old_path == line.old_path
    &&& delta.new_path == line.new_path
    &&& delta.old_oid == line.old_oid
    &&& delta.new_oid == line.new_oid
}

/// Position of the difference that a patch line is one of, or the number of
/// differences.
pub open spec fn line_owner(deltas: Seq<Delta>, line: PatchLine) -> int
    decreases deltas.len(),
{
    if deltas.len() == 0 || is_line_of(deltas[0], line) {
        0
    } else {
        1 + line_owner(deltas.skip(1), line)
    }
}

/// The text of a patch line: its content, after its mark where it is a line
/// of a file. Content that is not UTF-8 is left out.
pub open spec fn line_text(line: PatchLine) -> Seq<char> {
    let body = if valid_utf8(line.content) {
        decode_utf8(line.content)
    } else {
        Seq::empty()
    };
    if line.origin == '+' || line.origin == '-' || line.origin == ' ' || line.origin == '\\' {
        seq![line.origin] + body
    } else {
        body
    }
}

/// The text of some patch lines, one after the other.
pub open spec fn lines_text(lines: Seq<PatchLine>) -> Seq<char>
    decreases lines.len(),
{
    if lines.len() == 0 {
        Seq::empty()
    } else {
        lines_text(lines.drop_last()) + line_text(lines.last())
    }
}

/// The patch of one difference: its lines, in order.
pub open spec fn file_patch(deltas: Seq<Delta>, lines: Seq<PatchLine>, index: int) -> Seq<char>
    decreases lines.len(),
{
    if lines.len() == 0 {
        Seq::empty()
    } else {
        let before = file_patch(deltas, lines.drop_last(), index);
        if line_owner(deltas, lines.last()) == index {
            before + line_text(lines.last())
        } else {
            before
        }
    }
}

/// One file of a commit, or why its content cannot be shown.
pub open spec fn file_detail(
    tree: Seq<Entry>,
    blobs: Seq<StoredBlob>,
    delta: Delta,
    diff: Seq<char>,
) -> Result<FileDetail, Fault> {
    let path = listed_path(delta);
    let content = if delta.status == DeltaStatus::Deleted {
        Ok(Seq::empty())
    } else {
        file_text(tree, blobs, path)
    };
    match content {
        Err(fault) => Err(fault),
        Ok(text) => Ok(
            FileDetail {
                path,
                change: change_word(delta.status),
                from_path: if delta.status == DeltaStatus::Renamed {
                    delta.old_path
                } else {
                    None
                },
                content: text,
                diff,
            },
        ),
    }
}

/// The first `count` files of a commit, or the first fault.
pub open spec fn file_details(
    tree: Seq<Entry>,
    blobs: Seq<StoredBlob>,
    deltas: Seq<Delta>,
    lines: Seq<PatchLine>,
    count: int,
) -> Result<Seq<FileDetail>, Fault>
    decreases count,
{
    if count <= 0 {
        Ok(Seq::empty())
    } else {
        match file_details(tree, blobs, deltas, lines, count - 1) {
            Err(fault) => Err(fault),
            Ok(before) => match file_detail(
                tree,
                blobs,
                deltas[count - 1],
                file_patch(deltas, lines, count - 1),
            ) {
                Err(fault) => Err(fault),
                Ok(detail) => Ok(before.push(detail)),
            },
        }
    }
}

proof fn lemma_detail_fault(
    tree: Seq<Entry>,
    blobs: Seq<StoredBlob>,
    deltas: Seq<Delta>,
    lines: Seq<PatchLine>,
    faulty: int,
    count: int,
)
    requires
        0 <= faulty <= count,
        file_details(tree, blobs, deltas, lines, faulty) is Err,
    ensures
        file_details(tree, blobs, deltas, lines, count) == file_details(
            tree,
            blobs,
            deltas,
            lines,
            faulty,
        ),
    decreases count,
{
    if faulty < count {
        lemma_detail_fault(tree, blobs, deltas, lines, faulty, count - 1);
    }
}

impl GitUtils {
    /// A path that may be missing, as text.
    pub fn path_string(path: Option<&str>) -> (result: String)
        ensures
            result@ == path_text(
                match path {
                    Some(text) => Some(text@),
                    None => None,
                },
            ),
    {
        match path {
            Some(text) => text.to_owned(),
            None => String::new(),
        }
    }
}

/// Whether two optional texts are the same.
fn same_optional(left: &Option<String>, right: &Option<String>) -> (result: bool)
    ensures
        result == (optional_text(*left) == optional_text(*right)),
{
    match (left, right) {
        (Some(one), Some(other)) => same(one.as_str(), other.as_str()),
        (None, None) => true,
        _ => false,
    }
}

/// Finds the difference that a patch line belongs to.
fn find_owner(records: &[DeltaRecord], line: &DiffLine) -> (result: usize)
    ensures
        result == line_owner(views(records@), line@),
        result <= records.len(),
{
    let ghost all = views(records@);
    let mut i: usize = 0;
    assert(all.skip(0) =~= all);
    while i < records.len()
        invariant
            i <= records.len(),
            all == views(records@),
            line_owner(all, line@) == i + line_owner(all.skip(i as int), line@),
        decreases records.len() - i,
    {
        assert(all.skip(i as int)[0] == records@[i as int]@);
        if same_optional(&records[i].old_path, &line.old_path) && same_optional(
            &records[i].new_path,
            &line.new_path,
        ) && same(records[i].old_oid.as_str(), line.old_oid.as_str()) && same(
            records[i].new_oid.as_str(),
            line.new_oid.as_str(),
        ) {
            return i;
        }
        assert(all.skip(i as int).skip(1) =~= all.skip(i + 1));
        i = i + 1;
    }
    i
}

/// The text of a patch line.
fn text_of_line(line: &DiffLine) -> (result: String)
    ensures
        result@ == line_text(line@),
{
    let body: String = match text_of_bytes(copy_bytes(line.content.as_slice())) {
        Some(text) => text,
        None => String::new(),
    };
    if line.origin == '+' || line.origin == '-' || line.origin == ' ' || line.origin == '\\' {
        let mut marked: String = String::new();
        marked.push(line.origin);
        marked.append(body.as_str());
        assert(marked@ =~= line_text(line@));
        marked
    } else {
        body
    }
}

/// Sorts the lines of a patch by the difference they belong to.
fn sort_patch(records: &[DeltaRecord], lines: &[DiffLine]) -> (result: Vec<String>)
    ensures
        result.len() == records.len(),
        forall|k: int|
            0 <= k < records.len() ==> (#[trigger] result@[k])@ == file_patch(
                views(records@),
                views(lines@),
                k,
            ),
{
    let ghost deltas = views(records@);
    let ghost all = views(lines@);
    let mut diffs: Vec<String> = Vec::new();
    let mut i: usize = 0;
    assert(all.take(0) =~= Seq::empty());
    while i < records.len()
        invariant
            i <= records.len(),
            diffs.len() == i,
            forall|k: int| 0 <= k < i ==> (#[trigger] diffs@[k])@ == Seq::<char>::empty(),
        decreases records.len() - i,
    {
        diffs.push(String::new());
        i = i + 1;
    }
    let mut j: usize = 0;
    while j < lines.len()
        invariant
            j <= lines.len(),
            deltas == views(records@),
            all == views(lines@),
            diffs.len() == records.len(),
            forall|k: int|
                0 <= k < diffs.len() ==> (#[trigger] diffs@[k])@ == file_patch(
                    deltas,
                    all.take(j as int),
                    k,
                ),
        decreases lines.len() - j,
    {
        let owner: usize = find_owner(records, &lines[j]);
        assert(all.take(j + 1).drop_last() =~= all.take(j as int));
        assert(all.take(j + 1).last() == lines@[j as int]@);
        let ghost before = diffs@;
        if owner < diffs.len() {
            let mut bucket: String = diffs[owner].clone();
            bucket.append(text_of_line(&lines[j]).as_str());
            diffs.set(owner, bucket);
        }
        assert forall|k: int| 0 <= k < diffs.len() implies (#[trigger] diffs@[k])@ == file_patch(
            deltas,
            all.take(j + 1),
            k,
        ) by {
            assert(before[k]@ == file_patch(deltas, all.take(j as int), k));
        }
        j = j + 1;
    }
    assert(all.take(j as int) =~= all);
    diffs
}

/// The word for a kind of change.
fn change_label(status: DeltaStatus) -> (result: &'static str)
    ensures
        result@ == change_word(status),
{
    match status {
        DeltaStatus::Added => "created",
        DeltaStatus::Deleted => "deleted",
        DeltaStatus::Renamed => "moved",
        DeltaStatus::Modified | DeltaStatus::Other => "updated",
    }
}

/// An optional string as a string slice.
fn as_slice(text: &Option<String>) -> (result: Option<&str>)
    ensures
        match result {
            Some(slice) => optional_text(*text) == Some(slice@),
            None => *text is None,
        },
{
    match text {
        Some(string) => Some(string.as_str()),
        None => None,
    }
}

impl GitCommits {
    /// The detail of a commit: one entry for each difference from its parent,
    /// with the file's content at that commit and its patch.
    pub fn get_commit(
        sha: &str,
        header: Option<CommitHeader>,
        tree: &[TreeEntry],
        blobs: &[Blob],
        records: &[DeltaRecord],
        lines: &[DiffLine],
    ) -> (result: Result<CommitDetail, AppError>)
        ensures
            match result {
                Ok(detail) => {
                    &&& header matches Some(commit) && detail.sha == commit.sha && detail.message
                        == commit.message && detail.author == commit.author && detail.committed_at
                        == commit.committed_at && detail.statistics == commit.statistics
                    &&& file_details(
                        views(tree@),
                        views(blobs@),
                        views(records@),
                        views(lines@),
                        records.len() as int,
                    ) == Ok::<_, Fault>(views(detail.files@))
                },
                Err(error) => match header {
                    None => error@ == Fault::CommitNotFound(sha@),
                    Some(_) => file_details(
                        views(tree@),
                        views(blobs@),
                        views(records@),
                        views(lines@),
                        records.len() as int,
                    ) == Err::<Seq<FileDetail>, _>(error@),
                },
            },
    {
        let commit: CommitHeader = match header {
            Some(commit) => commit,
            None => {
                return Err(AppError::CommitNotFound { sha: sha.to_owned() });
            },
        };
        let ghost current = views(tree@);
        let ghost stored = views(blobs@);
        let ghost deltas = views(records@);
        let ghost patch = views(lines@);
        let diffs: Vec<String> = sort_patch(records, lines);
        let mut files: Vec<CommitFileDetail> = Vec::new();
        let mut i: usize = 0;
        assert(views(files@) =~= Seq::empty());
        while i < records.len()
            invariant
                i <= records.len(),
                header is Some,
                current == views(tree@),
                stored == views(blobs@),
                deltas == views(records@),
                patch == views(lines@),
                diffs.len() == records.len(),
                forall|k: int|
                    0 <= k < records.len() ==> (#[trigger] diffs@[k])@ == file_patch(
                        deltas,
                        patch,
                        k,
                    ),
                file_details(current, stored, deltas, patch, i as int) == Ok::<_, Fault>(
                    views(files@),
                ),
            decreases records.len() - i,
        {
            let record: &DeltaRecord = &records[i];
            assert(deltas[i as int] == record@);
            let path: String = if record.status == DeltaStatus::Deleted {
                Self::shown_path(&record.old_path)
            } else {
                Self::shown_path(&record.new_path)
            };
            let content: String = if record.status == DeltaStatus::Deleted {
                String::new()
            } else {
                match blob_content_from_tree(tree, blobs, path.as_str()) {
                    Ok(content) => content,
                    Err(error) => {
                        proof {
                            lemma_detail_fault(
                                current,
                                stored,
                                deltas,
                                patch,
                                i + 1,
                                records.len() as int,
                            );
                        }
                        return Err(error);
                    },
                }
            };
            let from_path: Option<String> = if record.status == DeltaStatus::Renamed {
                match &record.old_path {
                    Some(old) => Some(old.clone()),
                    None => None,
                }
            } else {
                None
            };
            let detail: CommitFileDetail = CommitFileDetail {
                path,
                change: change_label(record.status).to_owned(),
                from_path,
                content,
                diff: diffs[i].clone(),
            };
            proof {
                lemma_views_push(files@, detail);
            }
            files.push(detail);
            i = i + 1;
        }
        Ok(
            CommitDetail {
                sha: commit.sha,
                message: commit.message,
                author: commit.author,
                committed_at: commit.committed_at,
                files,
                statistics: commit.statistics,
            },
        )
    }

    /// A path that may be missing, as text.
    fn shown_path(path: &Option<String>) -> (result: String)
        ensures
            result@ == path_text(optional_text(*path)),
    {
        GitUtils::path_string(as_slice(path))
    }

    /// One page of the history, newest first, and whether commits follow it.
    pub fn list_commits(history: Vec<CommitSummary>, page: usize, per_page: usize) -> (result: (
        Vec<CommitSummary>,
        bool,
    ))
        ensures
            result.0@ == page_of(
                history@,
                if page == 0 {
                    1
                } else {
                    page as nat
                },
                per_page as nat,
            ),
            result.1 == more_after(
                history@.len(),
                if page == 0 {
                    1
                } else {
                    page as nat
                },
                per_page as nat,
            ),
    {
        take_page(
            history,
            if page == 0 {
                1
            } else {
                page
            },
            per_page,
        )
    }

    /// The path that a file had before the commit that renamed it to
    /// `current_path`, if the commit did.
    pub fn rename_source(records: &[DeltaRecord], current_path: &str) -> (result: Option<String>)
        ensures
            optional_text(result) == former_path(views(records@), current_path@),
    {
        let ghost all = views(records@);
        let mut i: usize = 0;
        assert(all.skip(0) =~= all);
        while i < records.len()
            invariant
                i <= records.len(),
                all == views(records@),
                former_path(all, current_path@) == former_path(all.skip(i as int), current_path@),
            decreases records.len() - i,
        {
            let record: &DeltaRecord = &records[i];
            assert(all.skip(i as int)[0] == record@);
            if record.status == DeltaStatus::Renamed {
                if let Some(new_path) = &record.new_path {
                    if same(new_path.as_str(), current_path) {
                        return match &record.old_path {
                            Some(old_path) => Some(old_path.clone()),
                            None => None,
                        };
                    }
                }
            }
            assert(all.skip(i as int).skip(1) =~= all.skip(i + 1));
            i = i + 1;
        }
        None
    }
}

/// The path that the first rename to `path` came from.
pub open spec fn former_path(deltas: Seq<Delta>, path: Seq<char>) -> Option<Seq<char>>
    decreases deltas.len(),
{
    if deltas.len() == 0 {
        None
    } else if deltas[0].status == DeltaStatus::Renamed && deltas[0].new_path == Some(path) {
        deltas[0].old_path
    } else {
        former_path(deltas.skip(1), path)
    }
}

/// What a tree holds at a path: a blob or tree id, and its mode.
#[derive(Debug)]
pub struct TreeSpot {
    pub oid: String,
    pub filemode: i32,
}

/// What one commit of the walk shows of the file that is followed.
#[derive(Debug)]
pub enum Sighting {
    /// A commit without parent: whether its tree holds the path.
    Root { exists: bool },
    /// Any other commit: what it and its first parent hold at the path, and
    /// where the path came from if the commit renamed it.
    Child { in_commit: Option<TreeSpot>, in_parent: Option<TreeSpot>, renamed_from: Option<String> },
}

/// Whether a commit touched the file that is followed.
pub open spec fn is_touched(sighting: Sighting) -> bool {
    match sighting {
        Sighting::Root { exists } => exists,
        Sighting::Child { in_commit, in_parent, .. } => match (in_commit, in_parent) {
            (Some(here), Some(there)) => !(here.oid@ == there.oid@ && here.filemode
                == there.filemode),
            (None, None) => false,
            _ => true,
        },
    }
}

/// The path to follow before a commit: the file's former one where the commit
/// brought it in under a new name.
pub open spec fn path_before(sighting: Sighting, path: Seq<char>) -> Seq<char> {
    match sighting {
        Sighting::Root { .. } => path,
        Sighting::Child { in_commit, in_parent, renamed_from } => if in_commit is Some
            && in_parent is None && renamed_from is Some {
            renamed_from->0@
        } else {
            path
        },
    }
}

/// The commits that touched one file, gathered newest first while its names
/// are followed back.
pub struct FileHistory {
    current_path: String,
    matching: Vec<CommitSummary>,
    page: usize,
    per_page: usize,
}

impl FileHistory {
    /// The path that the file has in the commits to come.
    pub closed spec fn path(&self) -> Seq<char> {
        self.current_path@
    }

    /// The commits gathered so far.
    pub closed spec fn commits(&self) -> Seq<CommitSummary> {
        self.matching@
    }

    /// The page asked for, from 1.
    pub closed spec fn wanted(&self) -> (nat, nat) {
        (self.page as nat, self.per_page as nat)
    }

    /// Whether the page asked for is one.
    pub closed spec fn is_valid(&self) -> bool {
        self.page >= 1
    }

    /// Starts to follow a file from its current path.
    pub fn new(file_path: &str, page: usize, per_page: usize) -> (result: FileHistory)
        ensures
            result.is_valid(),
            result.path() == file_path@,
            result.commits() == Seq::<CommitSummary>::empty(),
            result.wanted() == (
                if page == 0 {
                    1nat
                } else {
                    page as nat
                },
                per_page as nat,
            ),
    {
        FileHistory {
            current_path: file_path.to_owned(),
            matching: Vec::new(),
            page: if page == 0 {
                1
            } else {
                page
            },
            per_page,
        }
    }

    /// The path to look up in the next commit.
    pub fn current_path(&self) -> (result: &str)
        ensures
            result@ == self.path(),
    {
        self.current_path.as_str()
    }

    /// Whether enough commits are gathered for the page and for knowing
    /// whether more follow.
    pub fn is_complete(&self) -> (result: bool)
        requires
            self.is_valid(),
        ensures
            result == more_after(self.commits().len(), self.wanted().0, self.wanted().1),
    {
        let total: usize = self.matching.len();
        assert((self.page - 1) * self.per_page >= 0) by (nonlinear_arith)
            requires
                self.page >= 1,
        ;
        match (self.page - 1).checked_mul(self.per_page) {
            Some(start) => start < total && total - start > self.per_page,
            None => false,
        }
    }

    /// Takes one commit of the walk into account.
    pub fn observe(&mut self, summary: CommitSummary, sighting: Sighting)
        requires
            old(self).is_valid(),
        ensures
            final(self).is_valid(),
            final(self).wanted() == old(self).wanted(),
            final(self).commits() == if is_touched(sighting) {
                old(self).commits().push(summary)
            } else {
                old(self).commits()
            },
            final(self).path() == path_before(sighting, old(self).path()),
    {
        match sighting {
            Sighting::Root { exists } => {
                if exists {
                    self.matching.push(summary);
                }
            },
            Sighting::Child { in_commit, in_parent, renamed_from } => match (in_commit, in_parent) {
                (Some(here), Some(there)) => {
                    if !(same(here.oid.as_str(), there.oid.as_str()) && here.filemode
                        == there.filemode) {
                        self.matching.push(summary);
                    }
                },
                (None, Some(_)) => {
                    self.matching.push(summary);
                },
                (None, None) => {},
                (Some(_), None) => {
                    self.matching.push(summary);
                    if let Some(former) = renamed_from {
                        self.current_path = former;
                    }
                },
            },
        }
    }

    /// The page asked for, and whether commits follow it.
    pub fn into_page(self) -> (result: (Vec<CommitSummary>, bool))
        requires
            self.is_valid(),
        ensures
            result.0@ == page_of(self.commits(), self.wanted().0, self.wanted().1),
            result.1 == more_after(self.commits().len(), self.wanted().0, self.wanted().1),
    {
        take_page(self.matching, self.page, self.per_page)
    }
}

/// What the owner of a patch line is: the first difference that the line is
/// one of.
proof fn lemma_line_owner(deltas: Seq<Delta>, line: PatchLine)
    ensures
        0 <= line_owner(deltas, line) <= deltas.len(),
        line_owner(deltas, line) < deltas.len() ==> is_line_of(
            deltas[line_owner(deltas, line)],
            line,
        ),
        forall|i: int|
            0 <= i < line_owner(deltas, line) ==> !is_line_of(#[trigger] deltas[i], line),
    decreases deltas.len(),
{
    if deltas.len() > 0 && !is_line_of(deltas[0], line) {
        lemma_line_owner(deltas.skip(1), line);
        assert forall|i: int| 0 <= i < line_owner(deltas, line) implies !is_line_of(
            #[trigger] deltas[i],
            line,
        ) by {
            if i > 0 {
                assert(!is_line_of(deltas.skip(1)[i - 1], line));
            }
        }
    }
}

/// A patch line is shown with the difference that it is one of, and with no
/// other: no two differences of a commit are about the same paths and blobs,
/// even where two files have the same content.
pub proof fn law_line_stays_with_its_file(deltas: Seq<Delta>, line: PatchLine, index: int)
    requires
        0 <= index < deltas.len(),
        forall|i: int, j: int|
            0 <= i < j < deltas.len() ==> !(#[trigger] deltas[i]).is_same_file(
                #[trigger] deltas[j],
            ),
    ensures
        line_owner(deltas, line) == index <==> is_line_of(deltas[index], line),
{
    lemma_line_owner(deltas, line);
    let owner = line_owner(deltas, line);
    if is_line_of(deltas[index], line) && owner < index {
        assert(deltas[owner].is_same_file(deltas[index]));
    }
}

/// The patch of a difference is made of its own lines, all of them, in order.
pub proof fn law_patch_is_of_its_file(deltas: Seq<Delta>, lines: Seq<PatchLine>, index: int)
    requires
        0 <= index < deltas.len(),
        forall|i: int, j: int|
            0 <= i < j < deltas.len() ==> !(#[trigger] deltas[i]).is_same_file(
                #[trigger] deltas[j],
            ),
    ensures
        file_patch(deltas, lines, index) == lines_text(
            lines.filter(|line: PatchLine| is_line_of(deltas[index], line)),
        ),
    decreases lines.len(),
{
    reveal(Seq::filter);
    let mine = |line: PatchLine| is_line_of(deltas[index], line);
    if lines.len() > 0 {
        law_patch_is_of_its_file(deltas, lines.drop_last(), index);
        law_line_stays_with_its_file(deltas, lines.last(), index);
        let before = lines.drop_last().filter(mine);
        assert(before.push(lines.last()).drop_last() =~= before);
    }
}

/// A walk that stops once it is complete shows the same page as one that goes
/// on to the first commit.
pub proof fn law_early_stop_is_enough<T>(all: Seq<T>, gathered: nat, page: nat, per_page: nat)
    requires
        page >= 1,
        gathered <= all.len(),
        more_after(gathered, page, per_page),
    ensures
        page_of(all.take(gathered as int), page, per_page) == page_of(all, page, per_page),
        more_after(all.len(), page, per_page),
{
    assert((page - 1) * per_page >= 0) by (nonlinear_arith)
        requires
            page >= 1,
    ;
    assert(page_of(all.take(gathered as int), page, per_page) =~= page_of(all, page, per_page));
}

} // verus!
