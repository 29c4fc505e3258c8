//! The per-directory order index: its reserved path, its stored format, and
//! the structural validation of an order.
//!
//! A directory's presentation order is stored beside its entries, as one
//! document that lists leaf names. An index may be sparse, and an entry that
//! names nothing is ignored on read.
use vstd::prelude::*;
use crate::error::{invalid_operation, AppError, Fault};
use crate::json::{
    decode_element, decode_list, decoded_element, decoded_list, encode_list, encoded_list,
};
use crate::text::{
    characters, contains_character, find_last, joined, last_position, lemma_last_position,
    lemma_last_position_is, same, texts,
};

verus! {

/// Reserved leaf name of the order index.
pub const ORDER_FILE_NAME: &'static str = ".order.json";

/// The member of the stored document that holds the order.
pub const ORDER_KEY: &'static str = "order";

/// The directory part of a path: what precedes its last slash, or nothing.
pub open spec fn parent_of(path: Seq<char>) -> Seq<char> {
    let slash = last_position(path, '/');
    if slash < 0 {
        Seq::empty()
    } else {
        path.take(slash)
    }
}

/// The leaf name of a path: what follows its last slash.
pub open spec fn leaf_of(path: Seq<char>) -> Seq<char> {
    path.skip(last_position(path, '/') + 1)
}

/// `directory/name`, or the bare name at the repository root.
pub open spec fn child_path(directory: Seq<char>, name: Seq<char>) -> Seq<char> {
    if directory.len() == 0 {
        name
    } else {
        directory + "/"@ + name
    }
}

/// Whether a path names an order index.
pub open spec fn is_index_path(path: Seq<char>) -> bool {
    leaf_of(path) == ORDER_FILE_NAME@
}

/// An index entry without the slash that may mark a directory.
pub open spec fn bare_name(entry: Seq<char>) -> Seq<char> {
    if entry.len() > 0 && entry.last() == '/' {
        entry.drop_last()
    } else {
        entry
    }
}

/// How a directory is shown: the repository root as `/`.
pub open spec fn shown_directory(directory: Seq<char>) -> Seq<char> {
    if directory.len() == 0 {
        "/"@
    } else {
        directory
    }
}

/// Repo-root-relative path of the index that orders `directory` (empty for
/// the repository root).
pub fn order_file_path(directory: &str) -> (result: String)
    ensures
        result@ == child_path(directory@, ORDER_FILE_NAME@),
{
    path_in(directory, ORDER_FILE_NAME)
}

/// `directory/name`, or the bare name at the repository root.
pub fn path_in(directory: &str, name: &str) -> (result: String)
    ensures
        result@ == child_path(directory@, name@),
{
    if directory.is_empty() {
        name.to_owned()
    } else {
        let mut path: String = joined(directory, "/");
        path.append(name);
        path
    }
}

/// Whether `path` names an order index, at any depth.
pub fn is_order_file(path: &str) -> (result: bool)
    ensures
        result == is_index_path(path@),
{
    same(split_parent(path).1, ORDER_FILE_NAME)
}

/// The directory that an order index orders, or `None` when `path` is no index.
pub fn directory_of_order_file(path: &str) -> (result: Option<&str>)
    ensures
        match result {
            Some(directory) => is_index_path(path@) && directory@ == parent_of(path@),
            None => !is_index_path(path@),
        },
{
    let (parent, leaf) = split_parent(path);
    if same(leaf, ORDER_FILE_NAME) {
        Some(parent)
    } else {
        None
    }
}

/// Splits a path into its parent directory and its leaf name.
pub fn split_parent(path: &str) -> (result: (&str, &str))
    ensures
        result.0@ == parent_of(path@),
        result.1@ == leaf_of(path@),
{
    let a: Vec<char> = characters(path);
    let length: usize = a.len();
    proof {
        lemma_last_position(path@, '/');
    }
    match find_last(&a, '/') {
        Some(slash) => {
            assert(slash < length);
            let parent: &str = path.substring_char(0, slash);
            let leaf: &str = path.substring_char(slash + 1, length);
            assert(path@.take(slash as int) =~= parent@);
            assert(path@.skip(slash + 1) =~= leaf@);
            (parent, leaf)
        },
        None => {
            let parent: &str = path.substring_char(0, 0);
            assert(parent@ =~= Seq::empty());
            assert(path@.skip(0) =~= path@);
            (parent, path)
        },
    }
}

/// The name an index entry refers to, without a trailing slash.
pub fn entry_name(entry: &str) -> (result: &str)
    ensures
        result@ == bare_name(entry@),
{
    let a: Vec<char> = characters(entry);
    if a.len() > 0 && a[a.len() - 1] == '/' {
        let name: &str = entry.substring_char(0, a.len() - 1);
        assert(name@ =~= entry@.drop_last());
        name
    } else {
        entry
    }
}

/// The index spelling of a directory: its name with a trailing slash.
pub fn directory_entry(name: &str) -> (result: String)
    ensures
        result@ == name@ + "/"@,
{
    joined(name, "/")
}

/// How a directory is named in messages.
pub fn display_directory(directory: &str) -> (result: &str)
    ensures
        result@ == shown_directory(directory@),
{
    if directory.is_empty() {
        "/"
    } else {
        directory
    }
}

/// The stored document of an order.
pub open spec fn document_of(order: Seq<Seq<char>>) -> Seq<char> {
    encoded_list(ORDER_KEY@, order).push('\n')
}

/// The order that a stored document holds, if it can be read as one: an
/// object with the order under its key, or an array with nothing but the
/// order.
pub open spec fn order_in(content: Seq<char>) -> Option<Seq<Seq<char>>> {
    match decoded_list(content, ORDER_KEY@) {
        Some(order) => Some(order),
        None => decoded_element(content),
    }
}

/// Spells an order as the stored document, with a final newline. The document
/// reads back as the order it was made of.
pub fn serialize(order: &[String]) -> (result: String)
    ensures
        result@ == document_of(texts(order@)),
        order_in(result@) == Some(texts(order@)),
{
    let mut document: String = match encode_list(ORDER_KEY, order) {
        Some(text) => text,
        None => "{\n  \"order\": []\n}".to_owned(),
    };
    document.push('\n');
    document
}

/// Reads a stored document, or `None` when it is not one.
pub fn parse(content: &str) -> (result: Option<Vec<String>>)
    ensures
        match result {
            Some(order) => order_in(content@) == Some(texts(order@)),
            None => order_in(content@) is None,
        },
{
    match decode_list(content, ORDER_KEY) {
        Some(order) => Some(order),
        None => decode_element(content),
    }
}

/// Why an order's entry is refused on its own, if it is.
pub open spec fn entry_fault(entry: Seq<char>) -> Option<Seq<char>> {
    let name = bare_name(entry);
    if name.len() == 0 {
        Some("order entries must not be empty"@)
    } else if name.contains('/') {
        Some("order entries must be leaf names, not paths: "@ + entry)
    } else if name == "."@ || name == ".."@ {
        Some("order entry must not be a relative reference: "@ + entry)
    } else if name == ".git"@ {
        Some("order entry must not reference .git"@)
    } else if name == ORDER_FILE_NAME@ {
        Some("order entry must not reference the index itself: "@ + entry)
    } else {
        None
    }
}

/// Whether an entry of `order` before position `end` has the given name.
pub open spec fn named_before(order: Seq<Seq<char>>, end: int, name: Seq<char>) -> bool {
    exists|i: int| 0 <= i < end && bare_name(#[trigger] order[i]) == name
}

/// Why an order is refused at its first faulty entry from position `start`
/// on, if it is.
pub open spec fn order_fault_from(order: Seq<Seq<char>>, start: int) -> Option<Seq<char>>
    decreases order.len() - start,
{
    if start >= order.len() {
        None
    } else if entry_fault(order[start]) is Some {
        entry_fault(order[start])
    } else if named_before(order, start, bare_name(order[start])) {
        Some("order entries must be unique: '"@ + bare_name(order[start]) + "' is listed twice"@)
    } else {
        order_fault_from(order, start + 1)
    }
}

/// Why an order is refused, if it is.
pub open spec fn order_fault(order: Seq<Seq<char>>) -> Option<Seq<char>> {
    if order.len() == 0 {
        Some(
            "order must contain at least one entry; delete the index instead of writing an empty order"@,
        )
    } else {
        order_fault_from(order, 0)
    }
}

/// Checks one entry of an order for what its name alone decides.
fn check_entry(entry: &str) -> (result: Result<(), AppError>)
    ensures
        match result {
            Ok(()) => entry_fault(entry@) is None,
            Err(error) => entry_fault(entry@) matches Some(reason) && error@
                == Fault::InvalidOperation(reason),
        },
{
    let name: &str = entry_name(entry);
    if name.is_empty() {
        return Err(invalid_operation("order entries must not be empty"));
    }
    if contains_character(name, '/') {
        return Err(
            invalid_operation(
                joined("order entries must be leaf names, not paths: ", entry).as_str(),
            ),
        );
    }
    if same(name, ".") || same(name, "..") {
        return Err(
            invalid_operation(
                joined("order entry must not be a relative reference: ", entry).as_str(),
            ),
        );
    }
    if same(name, ".git") {
        return Err(invalid_operation("order entry must not reference .git"));
    }
    if same(name, ORDER_FILE_NAME) {
        return Err(
            invalid_operation(
                joined("order entry must not reference the index itself: ", entry).as_str(),
            ),
        );
    }
    Ok(())
}

/// Structural validation of an order: at least one entry, leaf names only,
/// none of them reserved, none listed twice.
pub fn validate_order(order: &[String]) -> (result: Result<(), AppError>)
    ensures
        match result {
            Ok(()) => order_fault(texts(order@)) is None,
            Err(error) => order_fault(texts(order@)) matches Some(reason) && error@
                == Fault::InvalidOperation(reason),
        },
{
    if order.len() == 0 {
        return Err(
            invalid_operation(
                "order must contain at least one entry; delete the index instead of writing an empty order",
            ),
        );
    }
    let ghost entries = texts(order@);
    let mut seen: Vec<&str> = Vec::new();
    let mut i: usize = 0;
    while i < order.len()
        invariant
            i <= order.len(),
            entries == texts(order@),
            seen.len() == i,
            forall|j: int| 0 <= j < i ==> (#[trigger] seen@[j])@ == bare_name(entries[j]),
            order_fault(entries) == order_fault_from(entries, i as int),
        decreases order.len() - i,
    {
        let entry: &str = order[i].as_str();
        match check_entry(entry) {
            Ok(()) => {},
            Err(error) => {
                return Err(error);
            },
        }
        let name: &str = entry_name(entry);
        let mut j: usize = 0;
        while j < i
            invariant
                j <= i,
                i < order.len(),
                seen.len() == i,
                entries == texts(order@),
                name@ == bare_name(entries[i as int]),
                entry_fault(entries[i as int]) is None,
                order_fault(entries) == order_fault_from(entries, i as int),
                forall|k: int| 0 <= k < i ==> (#[trigger] seen@[k])@ == bare_name(entries[k]),
                forall|k: int| 0 <= k < j ==> bare_name(#[trigger] entries[k]) != name@,
            decreases i - j,
        {
            if same(seen[j], name) {
                assert(bare_name(entries[j as int]) == name@);
                let mut reason: String = joined("order entries must be unique: '", name);
                reason.append("' is listed twice");
                return Err(invalid_operation(reason.as_str()));
            }
            assert(bare_name(entries[j as int]) != name@);
            j = j + 1;
        }
        assert(!named_before(entries, i as int, name@));
        seen.push(name);
        i = i + 1;
    }
    Ok(())
}

/// The index path of a directory is an index path, and names that directory.
pub proof fn law_index_path_round_trip(directory: Seq<char>)
    ensures
        is_index_path(child_path(directory, ORDER_FILE_NAME@)),
        parent_of(child_path(directory, ORDER_FILE_NAME@)) == directory,
{
    let path = child_path(directory, ORDER_FILE_NAME@);
    reveal_strlit(".order.json");
    reveal_strlit("/");
    if directory.len() == 0 {
        lemma_last_position(path, '/');
        assert(last_position(path, '/') == -1);
        assert(path.skip(0) =~= path);
        assert(parent_of(path) =~= directory);
    } else {
        lemma_last_position_is(path, '/', directory.len() as int);
        assert(path.skip(directory.len() as int + 1) =~= ORDER_FILE_NAME@);
        assert(path.take(directory.len() as int) =~= directory);
    }
}

/// The parent and the leaf of a path make up the path again, unless the path
/// starts with its only slash.
pub proof fn law_split_parent_rejoins(path: Seq<char>)
    requires
        last_position(path, '/') != 0,
    ensures
        child_path(parent_of(path), leaf_of(path)) == path,
{
    lemma_last_position(path, '/');
    reveal_strlit("/");
    let slash = last_position(path, '/');
    if slash < 0 {
        assert(path.skip(0) =~= path);
    } else {
        assert(parent_of(path) + "/"@ + leaf_of(path) =~= path);
    }
}

/// An accepted order lists at least one entry, and no name twice, whatever
/// the spelling; none of its names is empty, holds a slash, is a relative
/// reference or is reserved.
pub proof fn law_accepted_order(order: Seq<Seq<char>>)
    requires
        order_fault(order) is None,
    ensures
        order.len() > 0,
        forall|i: int, j: int|
            0 <= i < j < order.len() ==> bare_name(#[trigger] order[i]) != bare_name(
                #[trigger] order[j],
            ),
        forall|i: int|
            0 <= i < order.len() ==> {
                let name = bare_name(#[trigger] order[i]);
                &&& name.len() > 0
                &&& !name.contains('/')
                &&& name != "."@
                &&& name != ".."@
                &&& name != ".git"@
                &&& name != ORDER_FILE_NAME@
            },
{
    lemma_accepted_from(order, 0);
}

proof fn lemma_accepted_from(order: Seq<Seq<char>>, start: int)
    requires
        0 <= start <= order.len(),
        order_fault_from(order, start) is None,
    ensures
        forall|i: int| start <= i < order.len() ==> entry_fault(#[trigger] order[i]) is None,
        forall|i: int|
            start <= i < order.len() ==> !named_before(order, i, bare_name(#[trigger] order[i])),
    decreases order.len() - start,
{
    if start < order.len() {
        lemma_accepted_from(order, start + 1);
    }
}

} // verus!
