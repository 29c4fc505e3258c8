//! The form of identifiers and paths. Each of them ends up as a path on disk
//! or as a name in a repository, so none may lead anywhere else.
use vstd::prelude::*;
use crate::error::{AppError, Fault};
use crate::git::listing::{extension_allowed, has_extension};
use crate::git::tree::{components, split_path};
use crate::git::upkeep::is_hex_digit;
use crate::order::{leaf_of, split_parent};
use crate::text::{
    characters, joined, same, strip_leading, strip_trailing, texts, without_leading,
    without_trailing,
};

verus! {

/// The most characters of an identifier.
pub const MAXIMUM_IDENTIFIER_LENGTH: usize = 128;

/// Digits of a whole commit id.
pub const COMMIT_SHA_LENGTH: usize = 40;

/// Digits of the identity of a data set.
pub const IDENTITY_LENGTH: usize = 64;

/// Whether a character may stand in an identifier.
pub open spec fn is_plain(c: char) -> bool {
    ||| 48 <= c as u32 <= 57
    ||| 65 <= c as u32 <= 90
    ||| 97 <= c as u32 <= 122
    ||| c == '-'
    ||| c == '_'
    ||| c == '.'
}

/// Whether every character of a text may stand in an identifier.
pub open spec fn all_plain(text: Seq<char>) -> bool {
    forall|i: int| 0 <= i < text.len() ==> is_plain(#[trigger] text[i])
}

/// What is wrong with an identifier, if anything.
pub open spec fn identifier_fault(id: Seq<char>) -> Option<Seq<char>> {
    if id.len() == 0 {
        Some("must not be empty"@)
    } else if id.len() > MAXIMUM_IDENTIFIER_LENGTH {
        Some("is too long"@)
    } else if id[0] == '.' {
        Some("must not start with a dot"@)
    } else if !all_plain(id) {
        Some("must hold letters, digits, dots, dashes and underscores only"@)
    } else {
        None
    }
}

/// Whether a character may stand in an identifier.
fn plain(c: char) -> (result: bool)
    ensures
        result == is_plain(c),
{
    let code: u32 = c as u32;
    (48 <= code && code <= 57) || (65 <= code && code <= 90) || (97 <= code && code <= 122) || c
        == '-' || c == '_' || c == '.'
}

/// What is wrong with an identifier, if anything.
pub fn check_identifier(id: &str) -> (result: Option<&'static str>)
    ensures
        match result {
            Some(reason) => identifier_fault(id@) == Some(reason@),
            None => identifier_fault(id@) is None,
        },
{
    let a: Vec<char> = characters(id);
    if a.len() == 0 {
        return Some("must not be empty");
    }
    if a.len() > MAXIMUM_IDENTIFIER_LENGTH {
        return Some("is too long");
    }
    if a[0] == '.' {
        return Some("must not start with a dot");
    }
    let mut i: usize = 0;
    while i < a.len()
        invariant
            i <= a.len(),
            a@ == id@,
            0 < a.len() <= MAXIMUM_IDENTIFIER_LENGTH,
            a@[0] != '.',
            forall|j: int| 0 <= j < i ==> is_plain(#[trigger] a@[j]),
        decreases a.len() - i,
    {
        if !plain(a[i]) {
            assert(!is_plain(id@[i as int]));
            return Some("must hold letters, digits, dots, dashes and underscores only");
        }
        i = i + 1;
    }
    None
}

/// Why the id of a collection is refused, if it is.
pub open spec fn collection_fault(id: Seq<char>) -> Option<Fault> {
    match identifier_fault(id) {
        Some(reason) => Some(Fault::InvalidOperation("collection id "@ + reason)),
        None => None,
    }
}

/// Why the id of a tenant is refused, if it is.
pub open spec fn tenant_fault(id: Seq<char>) -> Option<Fault> {
    match identifier_fault(id) {
        Some(_) => Some(Fault::InvalidTenant(id)),
        None => None,
    }
}

/// Checks the id of a collection.
pub fn collection_id(id: &str) -> (result: Result<(), AppError>)
    ensures
        match result {
            Ok(()) => collection_fault(id@) is None,
            Err(error) => collection_fault(id@) == Some(error@),
        },
{
    match check_identifier(id) {
        Some(reason) => Err(
            AppError::InvalidOperation { reason: joined("collection id ", reason) },
        ),
        None => Ok(()),
    }
}

/// Checks the id of a tenant.
pub fn tenant_id(id: &str) -> (result: Result<(), AppError>)
    ensures
        match result {
            Ok(()) => tenant_fault(id@) is None,
            Err(error) => tenant_fault(id@) == Some(error@),
        },
{
    match check_identifier(id) {
        Some(_) => Err(AppError::InvalidTenant { tenant_id: id.to_owned() }),
        None => Ok(()),
    }
}

/// Checks the id of a node, and the other words that a peer sends.
pub fn node_id(id: &str) -> (result: Result<(), String>)
    ensures
        match result {
            Ok(()) => identifier_fault(id@) is None,
            Err(reason) => identifier_fault(id@) == Some(reason@),
        },
{
    match check_identifier(id) {
        Some(reason) => Err(reason.to_owned()),
        None => Ok(()),
    }
}

/// Whether a text is made of hexadecimal digits.
pub open spec fn is_hexadecimal(text: Seq<char>) -> bool {
    forall|i: int| 0 <= i < text.len() ==> is_hex_digit(#[trigger] text[i])
}

/// Whether a text is made of hexadecimal digits.
fn hexadecimal(text: &[char]) -> (result: bool)
    ensures
        result == is_hexadecimal(text@),
{
    let mut i: usize = 0;
    while i < text.len()
        invariant
            i <= text.len(),
            forall|j: int| 0 <= j < i ==> is_hex_digit(#[trigger] text@[j]),
        decreases text.len() - i,
    {
        let code: u32 = text[i] as u32;
        if !((48 <= code && code <= 57) || (65 <= code && code <= 70) || (97 <= code && code
            <= 102)) {
            assert(!is_hex_digit(text@[i as int]));
            return false;
        }
        i = i + 1;
    }
    true
}

/// Whether a text can be a commit id, whole or abbreviated.
pub open spec fn is_commit_sha(sha: Seq<char>) -> bool {
    0 < sha.len() <= COMMIT_SHA_LENGTH && is_hexadecimal(sha)
}

/// Why a commit id is refused, if it is.
pub open spec fn commit_fault(sha: Seq<char>) -> Option<Fault> {
    if is_commit_sha(sha) {
        None
    } else {
        Some(Fault::InvalidOperation("commit sha must be hexadecimal: "@ + sha))
    }
}

/// Checks the form of a commit id. Nothing else ever reaches a lookup.
pub fn commit_sha(sha: &str) -> (result: Result<(), AppError>)
    ensures
        match result {
            Ok(()) => commit_fault(sha@) is None,
            Err(error) => commit_fault(sha@) == Some(error@),
        },
{
    let a: Vec<char> = characters(sha);
    if a.len() > 0 && a.len() <= COMMIT_SHA_LENGTH && hexadecimal(a.as_slice()) {
        Ok(())
    } else {
        Err(
            AppError::InvalidOperation { reason: joined("commit sha must be hexadecimal: ", sha) },
        )
    }
}

/// What is wrong with the form of an identity, if anything.
pub open spec fn identity_fault(identity: Seq<char>) -> Option<Seq<char>> {
    if identity.len() == IDENTITY_LENGTH && is_hexadecimal(identity) {
        None
    } else {
        Some("identity must be 64 hexadecimal digits"@)
    }
}

/// Checks the form of the identity of a data set.
pub fn replication_identity(identity: &str) -> (result: Result<(), String>)
    ensures
        match result {
            Ok(()) => identity_fault(identity@) is None,
            Err(reason) => identity_fault(identity@) == Some(reason@),
        },
{
    let a: Vec<char> = characters(identity);
    if a.len() == IDENTITY_LENGTH && hexadecimal(a.as_slice()) {
        Ok(())
    } else {
        Err("identity must be 64 hexadecimal digits".to_owned())
    }
}

/// Whether a part of a path names an entry of the directory that it is in,
/// and not the repository's own data.
pub open spec fn is_entry_name(part: Seq<char>) -> bool {
    &&& part.len() > 0
    &&& part != "."@
    &&& part != ".."@
    &&& part != ".git"@
    &&& !part.contains('\0')
}

/// Whether every part of a path names an entry.
pub open spec fn is_inner_path(path: Seq<char>) -> bool {
    forall|i: int| 0 <= i < components(path).len() ==> is_entry_name(#[trigger] components(path)[i])
}

/// Whether a part of a path names an entry.
fn entry_part(part: &str) -> (result: bool)
    ensures
        result == is_entry_name(part@),
{
    !part.is_empty() && !same(part, ".") && !same(part, "..") && !same(part, ".git")
        && !crate::text::contains_character(part, '\0')
}

/// Whether every part of a path names an entry.
fn inner_path(path: &str) -> (result: bool)
    ensures
        result == is_inner_path(path@),
{
    let parts: Vec<String> = split_path(path);
    let ghost all = components(path@);
    assert(all.len() == parts.len());
    let mut i: usize = 0;
    while i < parts.len()
        invariant
            i <= parts.len(),
            all == components(path@),
            all == texts(parts@),
            forall|j: int| 0 <= j < i ==> is_entry_name(#[trigger] all[j]),
        decreases parts.len() - i,
    {
        if !entry_part(parts[i].as_str()) {
            assert(!is_entry_name(all[i as int]));
            return false;
        }
        i = i + 1;
    }
    true
}

/// Why a path is refused.
pub open spec fn path_fault(raw: Seq<char>) -> Fault {
    Fault::InvalidPath("not a path inside the repository: "@ + raw)
}

/// The error for a path that is refused.
fn refuse(raw: &str) -> (result: AppError)
    ensures
        result@ == path_fault(raw@),
{
    AppError::InvalidPath { reason: joined("not a path inside the repository: ", raw) }
}

/// A path without the slashes around it.
pub open spec fn bare_path(raw: Seq<char>) -> Seq<char> {
    without_trailing(without_leading(raw, '/'), '/')
}

/// The path of a file that a text gives, or why it gives none.
pub open spec fn file_path_of(raw: Seq<char>) -> Result<Seq<char>, Fault> {
    if is_inner_path(without_leading(raw, '/')) {
        Ok(without_leading(raw, '/'))
    } else {
        Err(path_fault(raw))
    }
}

/// The path of a file or a folder that a text gives, or why it gives none.
pub open spec fn file_or_folder_path_of(raw: Seq<char>) -> Result<Seq<char>, Fault> {
    if is_inner_path(bare_path(raw)) {
        Ok(bare_path(raw))
    } else {
        Err(path_fault(raw))
    }
}

/// The path of a folder that a text gives, or why it gives none.
pub open spec fn folder_path_of(raw: Seq<char>) -> Result<Seq<char>, Fault> {
    if bare_path(raw).len() == 0 || is_inner_path(bare_path(raw)) {
        Ok(bare_path(raw))
    } else {
        Err(path_fault(raw))
    }
}

/// What came of reading a path.
pub open spec fn path_outcome(outcome: Result<String, AppError>) -> Result<Seq<char>, Fault> {
    match outcome {
        Ok(path) => Ok(path@),
        Err(error) => Err(error@),
    }
}

/// The path of a file, relative to the repository.
pub fn file_path(raw: &str) -> (result: Result<String, AppError>)
    ensures
        path_outcome(result) == file_path_of(raw@),
{
    let path: String = strip_leading(raw, '/');
    if inner_path(path.as_str()) {
        Ok(path)
    } else {
        Err(refuse(raw))
    }
}

/// The path of a file or a folder, relative to the repository.
pub fn file_or_folder_path(raw: &str) -> (result: Result<String, AppError>)
    ensures
        path_outcome(result) == file_or_folder_path_of(raw@),
{
    let path: String = strip_trailing(strip_leading(raw, '/').as_str(), '/');
    if inner_path(path.as_str()) {
        Ok(path)
    } else {
        Err(refuse(raw))
    }
}

/// The path of a folder, relative to the repository; empty for its root.
pub fn folder_path(raw: &str) -> (result: Result<String, AppError>)
    ensures
        path_outcome(result) == folder_path_of(raw@),
{
    let path: String = strip_trailing(strip_leading(raw, '/').as_str(), '/');
    if path.as_str().is_empty() || inner_path(path.as_str()) {
        Ok(path)
    } else {
        Err(refuse(raw))
    }
}

/// Why a path is refused for its extension, if it is. `allowed` are the
/// extensions that writes are limited to, if they are.
pub open spec fn extension_fault(path: Seq<char>, allowed: Option<Seq<Seq<char>>>) -> Option<
    Fault,
> {
    match allowed {
        Some(list) => if extension_allowed(leaf_of(path), list) {
            None
        } else {
            Some(Fault::InvalidPath("file extension is not allowed: "@ + path))
        },
        None => None,
    }
}

/// The extensions of a list, if there is one.
pub open spec fn allowed_texts(allowed: Option<&[String]>) -> Option<Seq<Seq<char>>> {
    match allowed {
        Some(list) => Some(texts(list@)),
        None => None,
    }
}

/// Checks the extension of a path against those that writes are limited to,
/// if they are.
pub fn file_extension(path: &str, allowed: Option<&[String]>) -> (result: Result<(), AppError>)
    ensures
        match result {
            Ok(()) => extension_fault(path@, allowed_texts(allowed)) is None,
            Err(error) => extension_fault(path@, allowed_texts(allowed)) == Some(error@),
        },
{
    match allowed {
        None => Ok(()),
        Some(list) => if has_extension(split_parent(path).1, list) {
            Ok(())
        } else {
            Err(AppError::InvalidPath { reason: joined("file extension is not allowed: ", path) })
        },
    }
}

/// A path that was accepted is not empty, and begins with no slash.
proof fn lemma_inner_path_is_bare(path: Seq<char>)
    requires
        is_inner_path(path),
    ensures
        path.len() > 0,
        path[0] != '/',
{
    let parts = components(path);
    crate::text::lemma_first_position(path, '/');
    let slash = crate::text::first_position(path, '/');
    assert(is_entry_name(parts[0]));
    if slash >= path.len() {
        assert(parts[0] == path);
    } else {
        assert(parts[0] == path.take(slash));
        assert(parts[0].len() == slash);
    }
}

/// The path of a file that was accepted is accepted again, as it is.
pub proof fn law_accepted_path_stays(raw: Seq<char>)
    requires
        file_path_of(raw) is Ok,
    ensures
        file_path_of(file_path_of(raw)->Ok_0) == file_path_of(raw),
{
    lemma_inner_path_is_bare(without_leading(raw, '/'));
}

/// Two spellings of a file's path, with and without a slash in front, are one.
pub proof fn law_leading_slash_is_no_difference(path: Seq<char>)
    requires
        file_path_of(path) is Ok,
    ensures
        file_path_of(seq!['/'] + path) == file_path_of(path),
{
    assert((seq!['/'] + path).skip(1) =~= path);
}

/// An identifier that was accepted is one part of a path, and names an entry.
pub proof fn law_identifier_is_an_entry_name(id: Seq<char>)
    requires
        identifier_fault(id) is None,
    ensures
        is_entry_name(id),
        components(id) == seq![id],
{
    reveal_strlit(".");
    reveal_strlit("..");
    reveal_strlit(".git");
    crate::text::lemma_first_position(id, '/');
    let slash = crate::text::first_position(id, '/');
    if slash < id.len() {
        assert(is_plain(id[slash]));
    }
    if id.contains('\0') {
        let i = choose|i: int| 0 <= i < id.len() && id[i] == '\0';
        assert(is_plain(id[i]));
    }
}

} // verus!
