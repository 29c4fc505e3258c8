//! Requests about files.
use vstd::prelude::*;
use crate::error::{invalid_operation, AppError, Fault};
use crate::git::dates::{is_earlier, DateFilter, DateKind, Timestamp};
use crate::git::files::{
    delete_directory_plan, delete_plan, kind_at, move_directory_plan, move_plan, reads_view,
    GitFiles, PathKind,
};
use crate::git::listing::ListingRequest;
use crate::git::model::{
    plan_outcome, Blob, CommitPlan, CommitRequest, Entry, Plan, Request, StoredBlob, TreeEntry,
};
use crate::json::{decode_array, decoded_array};
use crate::rfc3339::{instant_in, read_instant};
use crate::routes::{page_number, page_size, page_window, AuthorRequest};
use crate::seek::{body_window, some_empty, SeekBody, SeekFilter, Window};
use crate::sorting::views;
use crate::text::{
    begins_after_space, copy_range, decimal, from_characters, has_suffix, joined, optional_str,
    optional_text, optional_texts, same, spell, strip_leading, texts, trimmed_start,
    without_leading, characters,
};
use crate::validate::{
    allowed_texts, extension_fault, file_extension, file_or_folder_path, file_or_folder_path_of,
    file_path, file_path_of, folder_path, folder_path_of, path_outcome,
};

verus! {

/// The parameters of a listing.
#[derive(Debug, Clone)]
pub struct ListFilesQuery {
    /// The folder to list.
    pub prefix_path: Option<String>,
    /// How many levels are shown.
    pub maximum_depth: Option<u32>,
    pub include_hidden_files: Option<bool>,
    /// What names begin with: one prefix, or a JSON array of them.
    pub file_name_starts_with: Option<String>,
    pub include_date_from: Option<String>,
    pub include_date_to: Option<String>,
    /// Which date the range is about: `updated` or `created`.
    pub include_date_type: Option<String>,
    pub page: Option<usize>,
    pub per_page: Option<usize>,
}

/// The parameters of a count.
#[derive(Debug, Clone)]
pub struct CountFilesQuery {
    pub prefix_path: Option<String>,
    pub maximum_depth: Option<u32>,
    pub include_hidden_files: Option<bool>,
    /// A JSON array of the extensions of the files that count.
    pub restrict_file_extensions: Option<String>,
}

/// The body of a batch read. The window is that of every file without its own.
#[derive(Debug, Clone)]
pub struct BatchReadFilesRequest {
    pub files: Vec<BatchReadFileRequest>,
    pub seek: Option<SeekBody>,
}

/// One file of a batch read.
#[derive(Debug, Clone)]
pub enum BatchReadFileRequest {
    Path(String),
    Options { path: String, seek: Option<SeekBody> },
}

/// The parameters of an existence check.
#[derive(Debug, Clone)]
pub struct FileExistsQuery {
    /// Whether a folder counts too.
    pub check_prefix_path: Option<bool>,
}

/// The body of a write.
#[derive(Debug, Clone)]
pub struct WriteFileRequest {
    pub author: AuthorRequest,
    pub content: String,
    pub message: Option<String>,
}

/// The body of a removal.
#[derive(Debug, Clone)]
pub struct DeleteFileRequest {
    pub author: AuthorRequest,
    pub message: Option<String>,
    /// Whether a folder may be removed with everything in it.
    pub allow_prefix_path_recurse: Option<bool>,
}

/// The body of a move.
#[derive(Debug, Clone)]
pub struct MoveFileRequest {
    pub author: AuthorRequest,
    pub destination: String,
    pub message: Option<String>,
    /// Whether a folder may be moved with everything in it.
    pub allow_prefix_path_recurse: Option<bool>,
}

impl BatchReadFileRequest {
    /// The path of an entry, in either spelling.
    pub open spec fn path_text(self) -> Seq<char> {
        match self {
            BatchReadFileRequest::Path(path) => path@,
            BatchReadFileRequest::Options { path, .. } => path@,
        }
    }

    /// The window of an entry, if it has one of its own.
    pub open spec fn own_seek(self) -> Option<SeekBody> {
        match self {
            BatchReadFileRequest::Path(_) => None,
            BatchReadFileRequest::Options { seek, .. } => seek,
        }
    }

    /// The path and the window of an entry, in either spelling.
    pub fn parts(&self) -> (result: (&str, Option<&SeekBody>))
        ensures
            result.0@ == self.path_text(),
            match (result.1, self.own_seek()) {
                (Some(given), Some(seek)) => *given == seek,
                (None, None) => true,
                _ => false,
            },
    {
        match self {
            BatchReadFileRequest::Path(path) => (path.as_str(), None),
            BatchReadFileRequest::Options { path, seek } => match seek {
                Some(body) => (path.as_str(), Some(body)),
                None => (path.as_str(), None),
            },
        }
    }
}

/// The outcome of reading a list parameter, over characters.
pub open spec fn list_outcome(result: Result<Vec<String>, AppError>) -> Result<
    Seq<Seq<char>>,
    Fault,
> {
    match result {
        Ok(list) => Ok(texts(list@)),
        Err(error) => Err(error@),
    }
}

/// A list of name prefixes, or why it is refused.
pub open spec fn judged_prefixes(prefixes: Seq<Seq<char>>) -> Result<Seq<Seq<char>>, Fault> {
    if prefixes.len() == 0 {
        Err(
            Fault::InvalidOperation(
                "file_name_starts_with must contain at least one prefix"@,
            ),
        )
    } else if some_empty(prefixes) {
        Err(Fault::InvalidOperation("file_name_starts_with must not be empty"@))
    } else {
        Ok(prefixes)
    }
}

/// What `file_name_starts_with` means: a JSON array where it looks like one,
/// or else one prefix.
pub open spec fn name_prefixes(raw: Seq<char>) -> Result<Seq<Seq<char>>, Fault> {
    if trimmed_start(raw).len() > 0 && trimmed_start(raw)[0] == '[' {
        match decoded_array(raw) {
            Some(prefixes) => judged_prefixes(prefixes),
            None => Err(
                Fault::InvalidOperation(
                    "file_name_starts_with must be a string or a JSON array of strings, e.g. [\"intro\", \"readme\"]"@,
                ),
            ),
        }
    } else {
        judged_prefixes(seq![raw])
    }
}

/// Whether some string of a list is empty.
fn holds_empty(list: &[String]) -> (result: bool)
    ensures
        result == some_empty(texts(list@)),
{
    let mut i: usize = 0;
    while i < list.len()
        invariant
            i <= list.len(),
            forall|j: int| 0 <= j < i ==> (#[trigger] texts(list@)[j]).len() > 0,
        decreases list.len() - i,
    {
        if list[i].as_str().is_empty() {
            assert(texts(list@)[i as int].len() == 0);
            return true;
        }
        i = i + 1;
    }
    false
}

/// Judges a list of name prefixes.
pub fn judge_prefixes(prefixes: Vec<String>) -> (result: Result<Vec<String>, AppError>)
    ensures
        list_outcome(result) == judged_prefixes(texts(prefixes@)),
{
    if prefixes.len() == 0 {
        return Err(invalid_operation("file_name_starts_with must contain at least one prefix"));
    }
    if holds_empty(prefixes.as_slice()) {
        return Err(invalid_operation("file_name_starts_with must not be empty"));
    }
    Ok(prefixes)
}

/// Reads `file_name_starts_with`.
pub fn parse_file_name_prefixes(raw: &str) -> (result: Result<Vec<String>, AppError>)
    ensures
        list_outcome(result) == name_prefixes(raw@),
{
    if begins_after_space(raw, '[') {
        match decode_array(raw) {
            Some(prefixes) => judge_prefixes(prefixes),
            None => Err(
                invalid_operation(
                    "file_name_starts_with must be a string or a JSON array of strings, e.g. [\"intro\", \"readme\"]",
                ),
            ),
        }
    } else {
        let mut prefixes: Vec<String> = Vec::new();
        prefixes.push(raw.to_owned());
        assert(texts(prefixes@) =~= seq![raw@]);
        judge_prefixes(prefixes)
    }
}

/// Why a date-time parameter is refused.
pub open spec fn date_fault(parameter: Seq<char>) -> Fault {
    Fault::InvalidOperation(
        parameter + " must be an RFC 3339 date-time, e.g. 2026-06-16T10:00:00Z"@,
    )
}

/// Reads a date-time parameter.
pub fn parse_rfc3339(raw: &str, parameter: &str) -> (result: Result<Timestamp, AppError>)
    ensures
        match (instant_in(raw@), result) {
            (Some(at), Ok(instant)) => instant == at,
            (None, Err(error)) => error@ == date_fault(parameter@),
            _ => false,
        },
{
    match read_instant(raw) {
        Some(at) => Ok(at),
        None => Err(
            AppError::InvalidOperation {
                reason: joined(
                    parameter,
                    " must be an RFC 3339 date-time, e.g. 2026-06-16T10:00:00Z",
                ),
            },
        ),
    }
}

/// The date that `include_date_type` names, or why it is refused.
pub open spec fn date_kind(word: Option<Seq<char>>) -> Result<DateKind, Fault> {
    match word {
        None => Ok(DateKind::Updated),
        Some(name) => if name == "updated"@ {
            Ok(DateKind::Updated)
        } else if name == "created"@ {
            Ok(DateKind::Created)
        } else {
            Err(
                Fault::InvalidOperation(
                    "include_date_type must be 'updated' or 'created': "@ + name,
                ),
            )
        },
    }
}

/// A date bound, or why it is refused.
pub open spec fn date_bound(raw: Option<Seq<char>>, parameter: Seq<char>) -> Result<
    Option<Timestamp>,
    Fault,
> {
    match raw {
        None => Ok(None),
        Some(text) => match instant_in(text) {
            Some(at) => Ok(Some(at)),
            None => Err(date_fault(parameter)),
        },
    }
}

/// The filter for a range, or why it is refused: none without bounds, and the
/// start has to come before the end.
pub open spec fn judged_range(
    from: Option<Timestamp>,
    to: Option<Timestamp>,
    kind: DateKind,
) -> Result<Option<DateFilter>, Fault> {
    if from is None && to is None {
        Ok(None)
    } else if from is Some && to is Some && !is_earlier(from->0, to->0) {
        Err(
            Fault::InvalidOperation(
                "include_date_from must be strictly before include_date_to"@,
            ),
        )
    } else {
        Ok(Some(DateFilter { from, to, kind }))
    }
}

/// What the three date parameters mean.
pub open spec fn date_filter_of(
    from: Option<Seq<char>>,
    to: Option<Seq<char>>,
    date_type: Option<Seq<char>>,
) -> Result<Option<DateFilter>, Fault> {
    match date_kind(date_type) {
        Err(fault) => Err(fault),
        Ok(kind) => match date_bound(from, "include_date_from"@) {
            Err(fault) => Err(fault),
            Ok(start) => match date_bound(to, "include_date_to"@) {
                Err(fault) => Err(fault),
                Ok(end) => judged_range(start, end, kind),
            },
        },
    }
}

/// The outcome of reading a date filter, over its error's view.
pub open spec fn date_outcome(result: Result<Option<DateFilter>, AppError>) -> Result<
    Option<DateFilter>,
    Fault,
> {
    match result {
        Ok(filter) => Ok(filter),
        Err(error) => Err(error@),
    }
}

/// Reads an optional date bound.
fn parse_bound(raw: Option<&str>, parameter: &str) -> (result: Result<Option<Timestamp>, AppError>)
    ensures
        match result {
            Ok(bound) => date_bound(optional_str(raw), parameter@) == Ok::<_, Fault>(bound),
            Err(error) => date_bound(optional_str(raw), parameter@) == Err::<Option<Timestamp>, _>(
                error@,
            ),
        },
{
    match raw {
        None => Ok(None),
        Some(text) => match parse_rfc3339(text, parameter) {
            Ok(at) => Ok(Some(at)),
            Err(error) => Err(error),
        },
    }
}

/// Judges a date range.
pub fn judge_range(from: Option<Timestamp>, to: Option<Timestamp>, kind: DateKind) -> (result: Result<
    Option<DateFilter>,
    AppError,
>)
    ensures
        date_outcome(result) == judged_range(from, to, kind),
{
    if from.is_none() && to.is_none() {
        return Ok(None);
    }
    if let Some(start) = from {
        if let Some(end) = to {
            if !start.is_before(&end) {
                return Err(
                    invalid_operation("include_date_from must be strictly before include_date_to"),
                );
            }
        }
    }
    Ok(Some(DateFilter { from, to, kind }))
}

/// Reads the three date parameters. Without bounds there is no filter, but the
/// type is judged all the same.
pub fn parse_date_filter(from: Option<&str>, to: Option<&str>, date_type: Option<&str>) -> (result:
    Result<Option<DateFilter>, AppError>)
    ensures
        date_outcome(result) == date_filter_of(
            optional_str(from),
            optional_str(to),
            optional_str(date_type),
        ),
{
    let kind: DateKind = match date_type {
        None => DateKind::Updated,
        Some(name) => if same(name, "updated") {
            DateKind::Updated
        } else if same(name, "created") {
            DateKind::Created
        } else {
            return Err(
                AppError::InvalidOperation {
                    reason: joined("include_date_type must be 'updated' or 'created': ", name),
                },
            );
        },
    };
    let start: Option<Timestamp> = match parse_bound(from, "include_date_from") {
        Ok(bound) => bound,
        Err(error) => {
            return Err(error);
        },
    };
    let end: Option<Timestamp> = match parse_bound(to, "include_date_to") {
        Ok(bound) => bound,
        Err(error) => {
            return Err(error);
        },
    };
    judge_range(start, end, kind)
}

/// Extensions without their leading dots.
pub open spec fn bare_extensions(extensions: Seq<Seq<char>>) -> Seq<Seq<char>> {
    Seq::new(extensions.len(), |i: int| without_leading(extensions[i], '.'))
}

/// A list of extensions, or why it is refused.
pub open spec fn judged_extensions(extensions: Seq<Seq<char>>) -> Result<Seq<Seq<char>>, Fault> {
    if extensions.len() == 0 {
        Err(
            Fault::InvalidOperation(
                "restrict_file_extensions must contain at least one extension"@,
            ),
        )
    } else if some_empty(bare_extensions(extensions)) {
        Err(
            Fault::InvalidOperation("restrict_file_extensions extensions must not be empty"@),
        )
    } else {
        Ok(bare_extensions(extensions))
    }
}

/// What `restrict_file_extensions` means.
pub open spec fn restricted_extensions(raw: Seq<char>) -> Result<Seq<Seq<char>>, Fault> {
    match decoded_array(raw) {
        Some(extensions) => judged_extensions(extensions),
        None => Err(
            Fault::InvalidOperation(
                "restrict_file_extensions must be a JSON array of strings, e.g. [\"md\", \"mdx\"]"@,
            ),
        ),
    }
}

/// Judges a list of extensions.
pub fn judge_extensions(extensions: &[String]) -> (result: Result<Vec<String>, AppError>)
    ensures
        list_outcome(result) == judged_extensions(texts(extensions@)),
{
    if extensions.len() == 0 {
        return Err(
            invalid_operation("restrict_file_extensions must contain at least one extension"),
        );
    }
    let mut normalized: Vec<String> = Vec::new();
    let mut i: usize = 0;
    while i < extensions.len()
        invariant
            i <= extensions.len(),
            normalized.len() == i,
            forall|j: int|
                0 <= j < i ==> (#[trigger] normalized@[j])@ == without_leading(
                    extensions@[j]@,
                    '.',
                ),
        decreases extensions.len() - i,
    {
        normalized.push(strip_leading(extensions[i].as_str(), '.'));
        i = i + 1;
    }
    assert(texts(normalized@) =~= bare_extensions(texts(extensions@)));
    if holds_empty(normalized.as_slice()) {
        return Err(invalid_operation("restrict_file_extensions extensions must not be empty"));
    }
    Ok(normalized)
}

/// Reads `restrict_file_extensions`.
pub fn parse_restrict_file_extensions(raw: &str) -> (result: Result<Vec<String>, AppError>)
    ensures
        list_outcome(result) == restricted_extensions(raw@),
{
    match decode_array(raw) {
        Some(extensions) => judge_extensions(extensions.as_slice()),
        None => Err(
            invalid_operation(
                "restrict_file_extensions must be a JSON array of strings, e.g. [\"md\", \"mdx\"]",
            ),
        ),
    }
}

/// The folder that a request is about, none for the root, or why it is
/// refused.
pub open spec fn prefix_of(raw: Option<String>) -> Result<Option<Seq<char>>, Fault> {
    match raw {
        Some(text) => match folder_path_of(text@) {
            Ok(path) => Ok(
                if path.len() == 0 {
                    None
                } else {
                    Some(path)
                },
            ),
            Err(fault) => Err(fault),
        },
        None => Ok(None),
    }
}

/// Reads the folder that a request is about.
fn parse_prefix(raw: &Option<String>) -> (result: Result<Option<String>, AppError>)
    ensures
        match result {
            Ok(folder) => prefix_of(*raw) == Ok::<_, Fault>(optional_text(folder)),
            Err(error) => prefix_of(*raw) == Err::<Option<Seq<char>>, _>(error@),
        },
{
    match raw {
        Some(text) => match folder_path(text.as_str()) {
            Ok(path) => if path.as_str().is_empty() {
                Ok(None)
            } else {
                Ok(Some(path))
            },
            Err(error) => Err(error),
        },
        None => Ok(None),
    }
}

/// Why a depth is refused.
pub open spec fn depth_fault() -> Fault {
    Fault::InvalidOperation("maximum_depth must be at least 1"@)
}

/// A depth as a count of levels.
pub open spec fn levels(depth: Option<u32>) -> Option<usize> {
    match depth {
        Some(count) => Some(count as usize),
        None => None,
    }
}

/// Reads the depth.
fn parse_depth(depth: Option<u32>) -> (result: Result<Option<usize>, AppError>)
    ensures
        match result {
            Ok(count) => depth != Some(0u32) && count == levels(depth) && count != Some(0usize),
            Err(error) => depth == Some(0u32) && error@ == depth_fault(),
        },
{
    match depth {
        Some(count) => if count == 0 {
            Err(invalid_operation("maximum_depth must be at least 1"))
        } else {
            Ok(Some(count as usize))
        },
        None => Ok(None),
    }
}

/// What `file_name_starts_with` means, if it is there.
pub open spec fn optional_prefixes(raw: Option<Seq<char>>) -> Result<
    Option<Seq<Seq<char>>>,
    Fault,
> {
    match raw {
        None => Ok(None),
        Some(text) => match name_prefixes(text) {
            Ok(list) => Ok(Some(list)),
            Err(fault) => Err(fault),
        },
    }
}

/// What `restrict_file_extensions` means, if it is there.
pub open spec fn optional_extensions(raw: Option<Seq<char>>) -> Result<
    Option<Seq<Seq<char>>>,
    Fault,
> {
    match raw {
        None => Ok(None),
        Some(text) => match restricted_extensions(text) {
            Ok(list) => Ok(Some(list)),
            Err(fault) => Err(fault),
        },
    }
}

/// Why a listing is refused, if it is: the first reason, in the order in which
/// its parameters are judged.
pub open spec fn listing_fault(query: ListFilesQuery) -> Option<Fault> {
    if prefix_of(query.prefix_path) is Err {
        Some(prefix_of(query.prefix_path)->Err_0)
    } else if query.maximum_depth == Some(0u32) {
        Some(depth_fault())
    } else if optional_prefixes(optional_text(query.file_name_starts_with)) is Err {
        Some(optional_prefixes(optional_text(query.file_name_starts_with))->Err_0)
    } else {
        match date_filter_of(
            optional_text(query.include_date_from),
            optional_text(query.include_date_to),
            optional_text(query.include_date_type),
        ) {
            Ok(_) => None,
            Err(fault) => Some(fault),
        }
    }
}

/// Whether a request is what a listing's parameters ask for.
pub open spec fn asks_listing(request: ListingRequest, query: ListFilesQuery) -> bool {
    &&& Ok::<_, Fault>(optional_text(request.path_prefix)) == prefix_of(query.prefix_path)
    &&& request.maximum_depth == levels(query.maximum_depth)
    &&& request.include_hidden_files == (query.include_hidden_files == Some(true))
    &&& Ok::<_, Fault>(optional_texts(request.file_name_starts_with)) == optional_prefixes(
        optional_text(query.file_name_starts_with),
    )
    &&& Ok::<_, Fault>(request.date_filter) == date_filter_of(
        optional_text(query.include_date_from),
        optional_text(query.include_date_to),
        optional_text(query.include_date_type),
    )
    &&& request.order_options is None
    &&& request.page == page_number(query.page)
    &&& request.per_page == page_size(query.per_page)
}

/// The text of an optional parameter.
fn parameter(value: &Option<String>) -> (result: Option<&str>)
    ensures
        optional_str(result) == optional_text(*value),
{
    match value {
        Some(text) => Some(text.as_str()),
        None => None,
    }
}

impl ListFilesQuery {
    /// What is asked for.
    pub fn request(&self) -> (result: Result<ListingRequest, AppError>)
        ensures
            match result {
                Ok(request) => {
                    &&& listing_fault(*self) is None
                    &&& asks_listing(request, *self)
                    &&& request.page >= 1
                    &&& request.maximum_depth != Some(0usize)
                },
                Err(error) => listing_fault(*self) == Some(error@),
            },
    {
        let path_prefix: Option<String> = match parse_prefix(&self.prefix_path) {
            Ok(folder) => folder,
            Err(error) => {
                return Err(error);
            },
        };
        let maximum_depth: Option<usize> = match parse_depth(self.maximum_depth) {
            Ok(depth) => depth,
            Err(error) => {
                return Err(error);
            },
        };
        let file_name_starts_with: Option<Vec<String>> = match &self.file_name_starts_with {
            None => None,
            Some(raw) => match parse_file_name_prefixes(raw.as_str()) {
                Ok(prefixes) => Some(prefixes),
                Err(error) => {
                    return Err(error);
                },
            },
        };
        let date_filter: Option<DateFilter> = match parse_date_filter(
            parameter(&self.include_date_from),
            parameter(&self.include_date_to),
            parameter(&self.include_date_type),
        ) {
            Ok(filter) => filter,
            Err(error) => {
                return Err(error);
            },
        };
        let (page, per_page): (usize, usize) = page_window(self.page, self.per_page);
        Ok(
            ListingRequest {
                path_prefix,
                maximum_depth,
                include_hidden_files: match self.include_hidden_files {
                    Some(wanted) => wanted,
                    None => false,
                },
                file_name_starts_with,
                date_filter,
                order_options: None,
                page,
                per_page,
            },
        )
    }
}

/// What a count is to cover.
#[derive(Debug)]
pub struct CountRequest {
    pub path_prefix: Option<String>,
    pub maximum_depth: Option<usize>,
    pub include_hidden_files: bool,
    pub restrict_file_extensions: Option<Vec<String>>,
}

/// Why a count is refused, if it is.
pub open spec fn count_fault(query: CountFilesQuery) -> Option<Fault> {
    if prefix_of(query.prefix_path) is Err {
        Some(prefix_of(query.prefix_path)->Err_0)
    } else if query.maximum_depth == Some(0u32) {
        Some(depth_fault())
    } else {
        match optional_extensions(optional_text(query.restrict_file_extensions)) {
            Ok(_) => None,
            Err(fault) => Some(fault),
        }
    }
}

impl CountFilesQuery {
    /// What is asked for.
    pub fn request(&self) -> (result: Result<CountRequest, AppError>)
        ensures
            match result {
                Ok(request) => {
                    &&& count_fault(*self) is None
                    &&& Ok::<_, Fault>(optional_text(request.path_prefix)) == prefix_of(
                        self.prefix_path,
                    )
                    &&& request.maximum_depth == levels(self.maximum_depth)
                    &&& request.include_hidden_files == (self.include_hidden_files == Some(true))
                    &&& Ok::<_, Fault>(optional_texts(request.restrict_file_extensions))
                        == optional_extensions(optional_text(self.restrict_file_extensions))
                },
                Err(error) => count_fault(*self) == Some(error@),
            },
    {
        let path_prefix: Option<String> = match parse_prefix(&self.prefix_path) {
            Ok(folder) => folder,
            Err(error) => {
                return Err(error);
            },
        };
        let maximum_depth: Option<usize> = match parse_depth(self.maximum_depth) {
            Ok(depth) => depth,
            Err(error) => {
                return Err(error);
            },
        };
        let restrict_file_extensions: Option<Vec<String>> = match &self.restrict_file_extensions {
            None => None,
            Some(raw) => match parse_restrict_file_extensions(raw.as_str()) {
                Ok(extensions) => Some(extensions),
                Err(error) => {
                    return Err(error);
                },
            },
        };
        Ok(
            CountRequest {
                path_prefix,
                maximum_depth,
                include_hidden_files: match self.include_hidden_files {
                    Some(wanted) => wanted,
                    None => false,
                },
                restrict_file_extensions,
            },
        )
    }
}

/// The window of a batch read for files without their own.
pub open spec fn shared_window(seek: Option<SeekBody>) -> Result<Window, Fault> {
    match seek {
        Some(body) => body_window(body),
        None => Ok(Window { from: None, to: None, maximum: None }),
    }
}

/// The fault of an entry's own window, which names the entry.
pub open spec fn entry_fault(index: nat, fault: Fault) -> Fault {
    match fault {
        Fault::InvalidOperation(reason) => Fault::InvalidOperation(
            "files["@ + decimal(index) + "]: "@ + reason,
        ),
        other => other,
    }
}

/// The window of one entry.
pub open spec fn entry_window(entry: BatchReadFileRequest, index: nat, shared: Window) -> Result<
    Window,
    Fault,
> {
    match entry.own_seek() {
        None => Ok(shared),
        Some(body) => match body_window(body) {
            Ok(window) => Ok(window),
            Err(fault) => Err(entry_fault(index, fault)),
        },
    }
}

/// Whether a path is among those of the given reads.
pub open spec fn is_read(reads: Seq<(Seq<char>, Window)>, path: Seq<char>) -> bool {
    exists|i: int| 0 <= i < reads.len() && (#[trigger] reads[i]).0 == path
}

/// The reads of the first entries of a batch, or why it is refused: the first
/// reason, entry by entry.
pub open spec fn entry_reads(
    files: Seq<BatchReadFileRequest>,
    shared: Window,
    count: int,
) -> Result<Seq<(Seq<char>, Window)>, Fault>
    decreases count,
{
    if count <= 0 {
        Ok(Seq::empty())
    } else {
        match entry_reads(files, shared, count - 1) {
            Err(fault) => Err(fault),
            Ok(reads) => match file_path_of(files[count - 1].path_text()) {
                Err(fault) => Err(fault),
                Ok(path) => if is_read(reads, path) {
                    Err(
                        Fault::InvalidOperation(
                            "files must be unique: '"@ + path + "' is requested twice"@,
                        ),
                    )
                } else {
                    match entry_window(files[count - 1], (count - 1) as nat, shared) {
                        Err(fault) => Err(fault),
                        Ok(window) => Ok(reads.push((path, window))),
                    }
                },
            },
        }
    }
}

/// The reads of a batch, in the order of its entries, or why it is refused.
pub open spec fn batch_reads_of(
    body: BatchReadFilesRequest,
    maximum_files: usize,
) -> Result<Seq<(Seq<char>, Window)>, Fault> {
    if body.files@.len() == 0 {
        Err(Fault::InvalidOperation("files must contain at least one path"@))
    } else if body.files@.len() > maximum_files {
        Err(
            Fault::InvalidOperation(
                "files must not contain more than "@ + decimal(maximum_files as nat) + " paths ("@
                    + decimal(body.files@.len()) + " requested)"@,
            ),
        )
    } else {
        match shared_window(body.seek) {
            Err(fault) => Err(fault),
            Ok(shared) => entry_reads(body.files@, shared, body.files@.len() as int),
        }
    }
}

/// Whether a path is among those of the given reads.
fn reads_path(reads: &[(String, SeekFilter)], path: &str) -> (result: bool)
    ensures
        result == is_read(reads_view(reads@), path@),
{
    let mut i: usize = 0;
    while i < reads.len()
        invariant
            i <= reads.len(),
            forall|j: int| 0 <= j < i ==> (#[trigger] reads_view(reads@)[j]).0 != path@,
        decreases reads.len() - i,
    {
        if same(reads[i].0.as_str(), path) {
            assert(reads_view(reads@)[i as int].0 == path@);
            return true;
        }
        i = i + 1;
    }
    false
}

impl BatchReadFilesRequest {
    /// The window for files without their own.
    fn shared_seek(&self) -> (result: Result<SeekFilter, AppError>)
        ensures
            crate::seek::filter_outcome(result) == shared_window(self.seek),
    {
        match &self.seek {
            Some(body) => body.parse(),
            None => Ok(SeekFilter::all()),
        }
    }

    /// The window of an entry. What is wrong with its own one names the entry.
    fn entry_seek(&self, index: usize, shared: &SeekFilter) -> (result: Result<SeekFilter, AppError>)
        requires
            index < self.files@.len(),
        ensures
            crate::seek::filter_outcome(result) == entry_window(
                self.files@[index as int],
                index as nat,
                shared@,
            ),
    {
        match self.files[index].parts().1 {
            None => Ok(shared.copy()),
            Some(body) => match body.parse() {
                Ok(window) => Ok(window),
                Err(AppError::InvalidOperation { reason }) => {
                    let mut message: String = joined("files[", spell(index as u64).as_str());
                    message.append("]: ");
                    message.append(reason.as_str());
                    Err(AppError::InvalidOperation { reason: message })
                },
                Err(other) => Err(other),
            },
        }
    }

    /// The files to read, each with its window. The whole batch is refused for
    /// any entry that is.
    pub fn reads(&self, maximum_files: usize) -> (result: Result<
        Vec<(String, SeekFilter)>,
        AppError,
    >)
        ensures
            match result {
                Ok(reads) => batch_reads_of(*self, maximum_files) == Ok::<_, Fault>(
                    reads_view(reads@),
                ),
                Err(error) => batch_reads_of(*self, maximum_files) == Err::<
                    Seq<(Seq<char>, Window)>,
                    _,
                >(error@),
            },
    {
        if self.files.len() == 0 {
            return Err(invalid_operation("files must contain at least one path"));
        }
        if self.files.len() > maximum_files {
            let mut message: String = joined(
                "files must not contain more than ",
                spell(maximum_files as u64).as_str(),
            );
            message.append(" paths (");
            message.append(spell(self.files.len() as u64).as_str());
            message.append(" requested)");
            return Err(AppError::InvalidOperation { reason: message });
        }
        let shared: SeekFilter = match self.shared_seek() {
            Ok(window) => window,
            Err(error) => {
                return Err(error);
            },
        };
        let mut reads: Vec<(String, SeekFilter)> = Vec::new();
        let mut i: usize = 0;
        assert(reads_view(reads@) =~= Seq::empty());
        while i < self.files.len()
            invariant
                i <= self.files@.len(),
                self.files@.len() <= maximum_files,
                self.files@.len() > 0,
                shared_window(self.seek) == Ok::<_, Fault>(shared@),
                entry_reads(self.files@, shared@, i as int) == Ok::<_, Fault>(
                    reads_view(reads@),
                ),
            decreases self.files@.len() - i,
        {
            let path: String = match file_path(self.files[i].parts().0) {
                Ok(path) => path,
                Err(error) => {
                    proof {
                        lemma_fault_stays(self.files@, shared@, i + 1);
                    }
                    return Err(error);
                },
            };
            if reads_path(reads.as_slice(), path.as_str()) {
                let mut message: String = joined("files must be unique: '", path.as_str());
                message.append("' is requested twice");
                proof {
                    lemma_fault_stays(self.files@, shared@, i + 1);
                }
                return Err(AppError::InvalidOperation { reason: message });
            }
            let window: SeekFilter = match self.entry_seek(i, &shared) {
                Ok(window) => window,
                Err(error) => {
                    proof {
                        lemma_fault_stays(self.files@, shared@, i + 1);
                    }
                    return Err(error);
                },
            };
            let ghost before = reads@;
            let ghost added = (path@, window@);
            reads.push((path, window));
            assert(reads_view(reads@) =~= reads_view(before).push(added));
            i = i + 1;
        }
        Ok(reads)
    }
}

/// Once a batch is refused for an entry, nothing after it matters.
proof fn lemma_fault_stays(
    files: Seq<BatchReadFileRequest>,
    shared: Window,
    count: int,
)
    requires
        0 < count <= files.len(),
        entry_reads(files, shared, count) is Err,
    ensures
        entry_reads(files, shared, files.len() as int) == entry_reads(
            files,
            shared,
            count,
        ),
    decreases files.len() - count,
{
    if count < files.len() {
        lemma_fault_stays(files, shared, count + 1);
    }
}

/// Answers an existence check. A folder counts only if asked for.
pub fn file_exists(kind: PathKind, check_prefix_path: Option<bool>, path: &str) -> (result: Result<
    (),
    AppError,
>)
    ensures
        result is Ok <==> kind == PathKind::File || (kind == PathKind::Directory
            && check_prefix_path == Some(true)),
        result matches Err(error) ==> error@ == Fault::FileNotFound(path@),
{
    let folders: bool = match check_prefix_path {
        Some(wanted) => wanted,
        None => false,
    };
    let exists: bool = match kind {
        PathKind::File => true,
        PathKind::Directory => folders,
        PathKind::Missing => false,
    };
    if exists {
        Ok(())
    } else {
        Err(AppError::FileNotFound { path: path.to_owned() })
    }
}

/// The path that a request is about. Only where the request may be about a
/// folder does the path end as it likes.
pub fn target_path(raw: &str, folders: Option<bool>) -> (result: Result<String, AppError>)
    ensures
        path_outcome(result) == target_of(raw@, folders),
{
    match folders {
        Some(true) => file_or_folder_path(raw),
        _ => file_path(raw),
    }
}

/// The path that a request is about, or why it is refused.
pub open spec fn target_of(raw: Seq<char>, folders: Option<bool>) -> Result<Seq<char>, Fault> {
    if folders == Some(true) {
        file_or_folder_path_of(raw)
    } else {
        file_path_of(raw)
    }
}

/// The path that a write is about, or why it is refused.
pub open spec fn written_path(raw: Seq<char>, allowed: Option<Seq<Seq<char>>>) -> Result<
    Seq<char>,
    Fault,
> {
    match file_path_of(raw) {
        Err(fault) => Err(fault),
        Ok(path) => match extension_fault(path, allowed) {
            Some(fault) => Err(fault),
            None => Ok(path),
        },
    }
}

/// The path that a write is about. `allowed_extensions` are those that writes
/// are limited to, if they are.
pub fn write_target(raw: &str, allowed_extensions: Option<&[String]>) -> (result: Result<
    String,
    AppError,
>)
    ensures
        path_outcome(result) == written_path(raw@, allowed_texts(allowed_extensions)),
{
    let path: String = match file_path(raw) {
        Ok(path) => path,
        Err(error) => {
            return Err(error);
        },
    };
    match file_extension(path.as_str(), allowed_extensions) {
        Ok(()) => Ok(path),
        Err(error) => Err(error),
    }
}

/// The two paths that a move is about, or why it is refused. The extension of
/// a destination that can only be a file is judged before anything is read.
pub open spec fn moved_paths(
    body: MoveFileRequest,
    raw: Seq<char>,
    allowed: Option<Seq<Seq<char>>>,
) -> Result<(Seq<char>, Seq<char>), Fault> {
    match target_of(raw, body.allow_prefix_path_recurse) {
        Err(fault) => Err(fault),
        Ok(from) => match target_of(body.destination@, body.allow_prefix_path_recurse) {
            Err(fault) => Err(fault),
            Ok(to) => if body.allow_prefix_path_recurse != Some(true) && extension_fault(to, allowed)
                is Some {
                Err(extension_fault(to, allowed)->0)
            } else {
                Ok((from, to))
            },
        },
    }
}

impl MoveFileRequest {
    /// The two paths that the move is about.
    pub fn paths(&self, raw: &str, allowed_extensions: Option<&[String]>) -> (result: Result<
        (String, String),
        AppError,
    >)
        ensures
            match result {
                Ok((from, to)) => moved_paths(*self, raw@, allowed_texts(allowed_extensions))
                    == Ok::<_, Fault>((from@, to@)),
                Err(error) => moved_paths(*self, raw@, allowed_texts(allowed_extensions)) == Err::<
                    (Seq<char>, Seq<char>),
                    _,
                >(error@),
            },
    {
        let from: String = match target_path(raw, self.allow_prefix_path_recurse) {
            Ok(path) => path,
            Err(error) => {
                return Err(error);
            },
        };
        let to: String = match target_path(
            self.destination.as_str(),
            self.allow_prefix_path_recurse,
        ) {
            Ok(path) => path,
            Err(error) => {
                return Err(error);
            },
        };
        let folders: bool = match self.allow_prefix_path_recurse {
            Some(allowed) => allowed,
            None => false,
        };
        if !folders {
            if let Err(error) = file_extension(to.as_str(), allowed_extensions) {
                return Err(error);
            }
        }
        Ok((from, to))
    }
}

/// Whether a removal or a move is of a whole folder: only where the path is
/// one and the request allows it.
pub fn recurses(allow_prefix_path_recurse: Option<bool>, kind: PathKind) -> (result: bool)
    ensures
        result == (allow_prefix_path_recurse == Some(true) && kind == PathKind::Directory),
{
    match (allow_prefix_path_recurse, kind) {
        (Some(true), PathKind::Directory) => true,
        _ => false,
    }
}

/// What removing a path comes to: a folder with everything in it where the
/// request allows that, or else a file.
pub open spec fn removal_of(
    tree: Seq<Entry>,
    blobs: Seq<StoredBlob>,
    path: Seq<char>,
    allow: Option<bool>,
    request: Request,
) -> Result<Option<Plan>, Fault> {
    if allow == Some(true) && kind_at(tree, path) == PathKind::Directory {
        delete_directory_plan(tree, blobs, path, request)
    } else {
        delete_plan(tree, blobs, path, request)
    }
}

/// Plans a removal.
pub fn delete_file(
    tree: &[TreeEntry],
    blobs: &[Blob],
    path: &str,
    allow_prefix_path_recurse: Option<bool>,
    request: &CommitRequest,
) -> (result: Result<Option<CommitPlan>, AppError>)
    ensures
        plan_outcome(result) == removal_of(
            views(tree@),
            views(blobs@),
            path@,
            allow_prefix_path_recurse,
            request@,
        ),
{
    if recurses(allow_prefix_path_recurse, GitFiles::path_kind(tree, path)) {
        GitFiles::delete_directory(tree, blobs, path, request)
    } else {
        GitFiles::delete_file(tree, blobs, path, request)
    }
}

/// What a move comes to: of a folder with everything in it where the request
/// allows that, or else of a file. The extension of the destination counts for
/// a file alone.
pub open spec fn move_of(
    tree: Seq<Entry>,
    blobs: Seq<StoredBlob>,
    from: Seq<char>,
    to: Seq<char>,
    allow: Option<bool>,
    allowed: Option<Seq<Seq<char>>>,
    request: Request,
) -> Result<Option<Plan>, Fault> {
    if allow == Some(true) && kind_at(tree, from) == PathKind::Directory {
        move_directory_plan(tree, blobs, from, to, request)
    } else {
        match extension_fault(to, allowed) {
            Some(fault) => Err(fault),
            None => move_plan(tree, blobs, from, to, request),
        }
    }
}

/// Plans a move. `allowed_extensions` are those that writes are limited to, if
/// they are.
pub fn move_file(
    tree: &[TreeEntry],
    blobs: &[Blob],
    from_path: &str,
    to_path: &str,
    allow_prefix_path_recurse: Option<bool>,
    allowed_extensions: Option<&[String]>,
    request: &CommitRequest,
) -> (result: Result<Option<CommitPlan>, AppError>)
    ensures
        plan_outcome(result) == move_of(
            views(tree@),
            views(blobs@),
            from_path@,
            to_path@,
            allow_prefix_path_recurse,
            allowed_texts(allowed_extensions),
            request@,
        ),
{
    if recurses(allow_prefix_path_recurse, GitFiles::path_kind(tree, from_path)) {
        return GitFiles::move_directory(tree, blobs, from_path, to_path, request);
    }
    match file_extension(to_path, allowed_extensions) {
        Ok(()) => GitFiles::move_file(tree, blobs, from_path, to_path, request),
        Err(error) => Err(error),
    }
}

/// A folder is not removed unless the request allows it: it is no file.
pub proof fn law_folder_removal_needs_consent(
    tree: Seq<Entry>,
    blobs: Seq<StoredBlob>,
    path: Seq<char>,
    allow: Option<bool>,
    request: Request,
)
    requires
        kind_at(tree, path) == PathKind::Directory,
        allow != Some(true),
    ensures
        removal_of(tree, blobs, path, allow, request) == Err::<Option<Plan>, Fault>(
            Fault::FileNotFound(path),
        ),
{
}

/// A folder is not moved unless the request allows it.
pub proof fn law_folder_move_needs_consent(
    tree: Seq<Entry>,
    blobs: Seq<StoredBlob>,
    from: Seq<char>,
    to: Seq<char>,
    allow: Option<bool>,
    allowed: Option<Seq<Seq<char>>>,
    request: Request,
)
    requires
        kind_at(tree, from) == PathKind::Directory,
        allow != Some(true),
    ensures
        move_of(tree, blobs, from, to, allow, allowed, request) is Err,
{
}

/// The path that a move is from: what stands before `/move`.
pub fn move_source(raw_path: &str) -> (result: Result<String, AppError>)
    ensures
        match result {
            Ok(path) => path@ + "/move"@ == raw_path@,
            Err(error) => !"/move"@.is_suffix_of(raw_path@) && error@ == Fault::InvalidPath(
                "POST on a file path must end with /move"@,
            ),
        },
{
    if !has_suffix(raw_path, "/move") {
        return Err(
            AppError::InvalidPath { reason: "POST on a file path must end with /move".to_owned() },
        );
    }
    let a: Vec<char> = characters(raw_path);
    let suffix_length: usize = "/move".unicode_len();
    let kept: Vec<char> = copy_range(a.as_slice(), 0, a.len() - suffix_length);
    assert(kept@ + "/move"@ =~= raw_path@);
    Ok(from_characters(kept.as_slice()))
}

/// What a `POST` on a file path asks for, by the end of the path.
#[derive(Debug)]
pub enum PostTarget {
    /// The file is to be moved.
    Move { path: String },
    /// The file is to get another place in its directory's order.
    Reorder { path: String },
}

/// What a `POST` on a file path asks for.
pub fn post_target(raw_path: &str) -> (result: Result<PostTarget, AppError>)
    ensures
        match result {
            Ok(PostTarget::Reorder { path }) => path@ + "/reorder"@ == raw_path@,
            Ok(PostTarget::Move { path }) => path@ + "/move"@ == raw_path@,
            Err(error) => !"/move"@.is_suffix_of(raw_path@) && !"/reorder"@.is_suffix_of(raw_path@)
                && error@ == Fault::InvalidPath("POST on a file path must end with /move"@),
        },
{
    if has_suffix(raw_path, "/reorder") {
        let a: Vec<char> = characters(raw_path);
        let suffix_length: usize = "/reorder".unicode_len();
        let kept: Vec<char> = copy_range(a.as_slice(), 0, a.len() - suffix_length);
        assert(kept@ + "/reorder"@ =~= raw_path@);
        return Ok(PostTarget::Reorder { path: from_characters(kept.as_slice()) });
    }
    match move_source(raw_path) {
        Ok(path) => Ok(PostTarget::Move { path }),
        Err(error) => Err(error),
    }
}

/// The reads of a batch are as many as its entries, under the checked paths,
/// and no two are of one path.
pub proof fn law_batch_is_aligned(
    files: Seq<BatchReadFileRequest>,
    shared: Window,
    count: int,
)
    requires
        0 <= count <= files.len(),
        entry_reads(files, shared, count) is Ok,
    ensures
        ({
            let reads = entry_reads(files, shared, count)->Ok_0;
            &&& reads.len() == count
            &&& forall|i: int|
                0 <= i < count ==> file_path_of(files[i].path_text()) == Ok::<_, Fault>(
                    (#[trigger] reads[i]).0,
                )
            &&& forall|i: int, j: int|
                0 <= i < j < count ==> (#[trigger] reads[i]).0 != (#[trigger] reads[j]).0
        }),
    decreases count,
{
    if count > 0 {
        law_batch_is_aligned(files, shared, count - 1);
        let before = entry_reads(files, shared, count - 1)->Ok_0;
        let reads = entry_reads(files, shared, count)->Ok_0;
        assert forall|i: int| 0 <= i < count implies file_path_of(files[i].path_text()) == Ok::<
            _,
            Fault,
        >((#[trigger] reads[i]).0) by {
            if i < count - 1 {
                assert(reads[i] == before[i]);
            }
        }
        assert forall|i: int, j: int| 0 <= i < j < count implies (#[trigger] reads[i]).0 != (
        #[trigger] reads[j]).0 by {
            assert(reads[i] == before[i]);
            if j < count - 1 {
                assert(reads[j] == before[j]);
            }
        }
    }
}

/// A listing never asks for an empty page, nor for one without limit.
pub proof fn law_listing_is_bounded(request: ListingRequest, query: ListFilesQuery)
    requires
        asks_listing(request, query),
    ensures
        request.page >= 1,
        1 <= request.per_page <= 500,
{
}

} // verus!
