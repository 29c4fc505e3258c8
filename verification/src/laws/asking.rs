//! What requests mean: the names, paths, lists and ranges that they give.
use vstd::prelude::*;
use crate::error::Fault;
use crate::git::dates::DateKind;
use crate::git::tree::components;
use crate::order::leaf_of;
use crate::routes::{page_number, page_size};
use crate::routes::files::{
    batch_reads_of, date_filter_of, entry_reads, name_prefixes, restricted_extensions,
    shared_window, target_of, written_path, BatchReadFileRequest, BatchReadFilesRequest,
};
use crate::routes::replay::{lies_under, replayed, sanitized, sanitized_paths, ReplayDirection};
use crate::seek::{body_window, Window};
use crate::text::{first_position, lemma_first_position, without_leading, without_trailing};
use crate::validate::{
    bare_path, collection_fault, commit_fault, file_path_of, folder_path_of, identity_fault,
    is_entry_name, is_inner_path, tenant_fault,
};

verus! {

/// Whether a character is a letter or a digit.
pub open spec fn is_letter_or_digit(c: char) -> bool {
    ||| 'a' as u32 <= c as u32 <= 'z' as u32
    ||| 'A' as u32 <= c as u32 <= 'Z' as u32
    ||| '0' as u32 <= c as u32 <= '9' as u32
}

/// Whether a text can name a collection or a tenant.
pub open spec fn is_name(id: Seq<char>) -> bool {
    &&& 1 <= id.len() <= 128
    &&& id[0] != '.'
    &&& forall|i: int|
        0 <= i < id.len() ==> is_letter_or_digit(#[trigger] id[i]) || id[i] == '-' || id[i] == '_'
            || id[i] == '.'
}

/// A name of up to 128 letters, digits, dashes, underscores and dots that does
/// not begin with a dot is accepted, for a collection as for a tenant, and no
/// other is.
pub proof fn law_names_are_plain(id: Seq<char>)
    ensures
        collection_fault(id) is None <==> is_name(id),
        tenant_fault(id) == if is_name(id) {
            None
        } else {
            Some(Fault::InvalidTenant(id))
        },
        collection_fault(id) is Some ==> collection_fault(id)->0 is InvalidOperation,
{
    assert forall|i: int| 0 <= i < id.len() implies #[trigger] crate::validate::is_plain(id[i]) == (
    is_letter_or_digit(id[i]) || id[i] == '-' || id[i] == '_' || id[i] == '.') by {}
    if is_name(id) {
        assert(crate::validate::all_plain(id));
    }
    if crate::validate::all_plain(id) {
        assert forall|i: int| 0 <= i < id.len() implies is_letter_or_digit(#[trigger] id[i])
            || id[i] == '-' || id[i] == '_' || id[i] == '.' by {
            assert(crate::validate::is_plain(id[i]));
        }
    }
}

/// Whether a character is a hexadecimal digit.
pub open spec fn is_digit(c: char) -> bool {
    ||| '0' as u32 <= c as u32 <= '9' as u32
    ||| 'a' as u32 <= c as u32 <= 'f' as u32
    ||| 'A' as u32 <= c as u32 <= 'F' as u32
}

/// Whether a text is made of hexadecimal digits.
pub open spec fn is_made_of_digits(text: Seq<char>) -> bool {
    forall|i: int| 0 <= i < text.len() ==> is_digit(#[trigger] text[i])
}

/// A commit id has up to 40 hexadecimal digits, and an identity has 64.
pub proof fn law_ids_are_hexadecimal(text: Seq<char>)
    ensures
        commit_fault(text) is None <==> 1 <= text.len() <= 40 && is_made_of_digits(text),
        identity_fault(text) is None <==> text.len() == 64 && is_made_of_digits(text),
{
    if crate::validate::is_hexadecimal(text) {
        assert forall|i: int| 0 <= i < text.len() implies is_digit(#[trigger] text[i]) by {
            assert(crate::git::upkeep::is_hex_digit(text[i]));
        }
    }
    if is_made_of_digits(text) {
        assert forall|i: int| 0 <= i < text.len() implies crate::git::upkeep::is_hex_digit(
            #[trigger] text[i],
        ) by {}
    }
}

/// Whether a path has a part from `i` to `j`: it begins and ends at a slash or
/// at an end of the path, and there is no slash in between.
pub open spec fn is_part(path: Seq<char>, i: int, j: int) -> bool {
    &&& 0 <= i <= j <= path.len()
    &&& i == 0 || path[i - 1] == '/'
    &&& j == path.len() || path[j] == '/'
    &&& forall|k: int| i <= k < j ==> #[trigger] path[k] != '/'
}

/// Whether a part of a path names something in a directory that is not git's.
pub open spec fn names_entry(part: Seq<char>) -> bool {
    part.len() > 0 && part != "."@ && part != ".."@ && part != ".git"@ && !part.contains('\0')
}

/// Whether each part of a path names something.
pub open spec fn leads_inside(path: Seq<char>) -> bool {
    forall|i: int, j: int| #[trigger] is_part(path, i, j) ==> names_entry(path.subrange(i, j))
}

proof fn lemma_part_is_component(path: Seq<char>, i: int, j: int)
    requires
        is_part(path, i, j),
    ensures
        components(path).contains(path.subrange(i, j)),
    decreases path.len(),
{
    let slash = first_position(path, '/');
    lemma_first_position(path, '/');
    if slash >= path.len() {
        if i > 0 {
            assert(path[i - 1] == '/');
        }
        if j < path.len() {
            assert(path[j] == '/');
        }
        assert(path.subrange(i, j) =~= path);
        assert(components(path)[0] == path);
    } else if i == 0 {
        assert(path[slash] == '/');
        if j < slash {
            assert(path[j] == '/');
        }
        assert(j == slash);
        assert(path.subrange(0, slash) =~= path.take(slash));
        assert(components(path)[0] == path.take(slash));
    } else {
        let rest = path.skip(slash + 1);
        assert(path[i - 1] == '/');
        assert(i - 1 >= slash);
        let a = i - slash - 1;
        let b = j - slash - 1;
        if a > 0 {
            assert(rest[a - 1] == path[i - 1]);
        }
        if b < rest.len() {
            assert(rest[b] == path[j]);
        }
        assert forall|k: int| a <= k < b implies #[trigger] rest[k] != '/' by {
            assert(rest[k] == path[k + slash + 1]);
        }
        assert(is_part(rest, a, b));
        lemma_part_is_component(rest, a, b);
        assert(rest.subrange(a, b) =~= path.subrange(i, j));
        let k = choose|k: int|
            0 <= k < components(rest).len() && #[trigger] components(rest)[k] == rest.subrange(
                a,
                b,
            );
        assert(components(path)[k + 1] == components(rest)[k]);
    }
}

proof fn lemma_component_is_part(path: Seq<char>, k: int) -> (place: (int, int))
    requires
        0 <= k < components(path).len(),
    ensures
        is_part(path, place.0, place.1),
        path.subrange(place.0, place.1) == components(path)[k],
    decreases path.len(),
{
    let slash = first_position(path, '/');
    lemma_first_position(path, '/');
    if slash >= path.len() {
        assert(path.subrange(0, path.len() as int) =~= path);
        (0, path.len() as int)
    } else if k == 0 {
        assert(path[slash] == '/');
        assert(path.subrange(0, slash) =~= path.take(slash));
        (0, slash)
    } else {
        let rest = path.skip(slash + 1);
        assert(components(path)[k] == components(rest)[k - 1]);
        let (a, b) = lemma_component_is_part(rest, k - 1);
        let i = a + slash + 1;
        let j = b + slash + 1;
        assert(path[slash] == '/');
        if a > 0 {
            assert(rest[a - 1] == path[i - 1]);
        }
        if b < rest.len() {
            assert(rest[b] == path[j]);
        }
        assert forall|n: int| i <= n < j implies #[trigger] path[n] != '/' by {
            assert(rest[n - slash - 1] == path[n]);
        }
        assert(rest.subrange(a, b) =~= path.subrange(i, j));
        (i, j)
    }
}

proof fn lemma_leads_inside(path: Seq<char>)
    ensures
        is_inner_path(path) <==> leads_inside(path),
{
    if is_inner_path(path) {
        assert forall|i: int, j: int| #[trigger] is_part(path, i, j) implies names_entry(
            path.subrange(i, j),
        ) by {
            lemma_part_is_component(path, i, j);
            let k = choose|k: int|
                0 <= k < components(path).len() && #[trigger] components(path)[k] == path.subrange(
                    i,
                    j,
                );
            assert(is_entry_name(components(path)[k]));
        }
    }
    if leads_inside(path) {
        assert forall|k: int| 0 <= k < components(path).len() implies is_entry_name(
            #[trigger] components(path)[k],
        ) by {
            let (i, j) = lemma_component_is_part(path, k);
            assert(names_entry(path.subrange(i, j)));
        }
    }
}

/// So many of one character.
pub open spec fn run_of(c: char, count: nat) -> Seq<char> {
    Seq::new(count, |i: int| c)
}

pub proof fn lemma_leading(c: char, count: nat, text: Seq<char>)
    requires
        text.len() > 0 ==> text[0] != c,
    ensures
        without_leading(run_of(c, count) + text, c) == text,
    decreases count,
{
    let whole = run_of(c, count) + text;
    if count == 0 {
        assert(whole =~= text);
    } else {
        assert(whole[0] == c);
        assert(whole.skip(1) =~= run_of(c, (count - 1) as nat) + text);
        lemma_leading(c, (count - 1) as nat, text);
    }
}

pub proof fn lemma_trailing(c: char, count: nat, text: Seq<char>)
    requires
        text.len() > 0 ==> text.last() != c,
    ensures
        without_trailing(text + run_of(c, count), c) == text,
    decreases count,
{
    let whole = text + run_of(c, count);
    if count == 0 {
        assert(whole =~= text);
    } else {
        assert(whole.last() == c);
        assert(whole.drop_last() =~= text + run_of(c, (count - 1) as nat));
        lemma_trailing(c, (count - 1) as nat, text);
    }
}

/// The path of a file is what follows the slashes that a text begins with, if
/// each of its parts names something. Where writes are limited to some
/// extensions, it has to end with one of them.
pub proof fn law_file_path_follows_slashes(count: nat, path: Seq<char>)
    requires
        path.len() > 0 ==> path[0] != '/',
    ensures
        file_path_of(run_of('/', count) + path) is Ok <==> leads_inside(path),
        leads_inside(path) ==> file_path_of(run_of('/', count) + path) == Ok::<_, Fault>(path),
        !leads_inside(path) ==> file_path_of(run_of('/', count) + path)->Err_0 is InvalidPath,
        written_path(run_of('/', count) + path, None) == file_path_of(run_of('/', count) + path),
        forall|allowed: Seq<Seq<char>>| #[trigger]
            written_path(run_of('/', count) + path, Some(allowed)) is Ok <==> leads_inside(path)
                && crate::laws::telling::ends_as_allowed(leaf_of(path), allowed),
        forall|allowed: Option<Seq<Seq<char>>>| #[trigger]
            written_path(run_of('/', count) + path, allowed) matches Ok(written) ==> written
                == path,
{
    lemma_leading('/', count, path);
    lemma_leads_inside(path);
    assert forall|allowed: Seq<Seq<char>>| #[trigger]
        written_path(run_of('/', count) + path, Some(allowed)) is Ok <==> leads_inside(path)
            && crate::laws::telling::ends_as_allowed(leaf_of(path), allowed) by {
        crate::laws::telling::lemma_extension(leaf_of(path), allowed);
    }
}

/// The path of a folder is what is between the slashes around it, if each of
/// its parts names something; the root has none. Where folders are not allowed
/// for, only the slashes before a path are left out.
pub proof fn law_folder_path_is_between_slashes(before: nat, path: Seq<char>, after: nat)
    requires
        path.len() > 0 ==> path[0] != '/' && path.last() != '/',
    ensures
        ({
            let raw = run_of('/', before) + (path + run_of('/', after));
            &&& folder_path_of(raw) is Ok <==> path.len() == 0 || leads_inside(path)
            &&& folder_path_of(raw) matches Ok(found) ==> found == path
            &&& target_of(raw, Some(true)) is Ok <==> leads_inside(path)
            &&& target_of(raw, Some(true)) matches Ok(found) ==> found == path
            &&& target_of(raw, Some(false)) == file_path_of(raw)
            &&& target_of(raw, None) == file_path_of(raw)
        }),
{
    let raw = run_of('/', before) + (path + run_of('/', after));
    lemma_leads_inside(path);
    lemma_trailing('/', after, path);
    if path.len() > 0 {
        assert((path + run_of('/', after))[0] == path[0]);
        lemma_leading('/', before, path + run_of('/', after));
    } else {
        assert(raw =~= run_of('/', before + after) + Seq::<char>::empty());
        lemma_leading('/', before + after, Seq::<char>::empty());
        assert(bare_path(raw) =~= path);
    }
}

/// A page is counted from one, and holds 100 entries unless the request says
/// otherwise, but never none and never more than 500.
pub proof fn law_pages_are_bounded(number: usize, size: usize)
    ensures
        page_number(None) == 1,
        number >= 1 ==> page_number(Some(number)) == number,
        page_number(Some(0)) == 1,
        page_size(None) == 100,
        1 <= size <= 500 ==> page_size(Some(size)) == size,
        page_size(Some(0)) == 1,
        size > 500 ==> page_size(Some(size)) == 500,
{
}

/// A range of dates keeps what its bounds are read as; without bounds there is
/// none. It is refused if both bounds are there and the first is not before
/// the second, if a bound is no date, and if the kind is none of the two.
pub proof fn law_range_of_dates_is_judged(
    from: Option<Seq<char>>,
    to: Option<Seq<char>>,
    kind: Option<Seq<char>>,
)
    ensures
        ({
            let start = match from {
                Some(text) => crate::rfc3339::instant_in(text),
                None => None,
            };
            let end = match to {
                Some(text) => crate::rfc3339::instant_in(text),
                None => None,
            };
            let is_read = (from is Some ==> start is Some) && (to is Some ==> end is Some);
            let is_known = kind is None || kind == Some("updated"@) || kind == Some("created"@);
            let is_backward = start matches Some(a) && end matches Some(b) && !(a.seconds
                < b.seconds || (a.seconds == b.seconds && a.nanos < b.nanos));
            &&& date_filter_of(from, to, kind) is Ok <==> is_read && is_known && !is_backward
            &&& date_filter_of(from, to, kind) matches Ok(filter) ==> (filter is None <==> from
                is None && to is None)
            &&& date_filter_of(from, to, kind) matches Ok(Some(filter)) ==> filter.from == start
                && filter.to == end && (filter.kind == DateKind::Created <==> kind == Some(
                "created"@,
            ))
        }),
{
    reveal_strlit("updated");
    reveal_strlit("created");
    assert("updated"@[0] != "created"@[0]);
}

/// What `file_name_starts_with` gives is one prefix, as it is, unless it looks
/// like an array; an empty one is refused.
pub proof fn law_plain_prefix_is_itself(raw: Seq<char>)
    requires
        raw.len() > 0 ==> !crate::text::is_white_space(raw[0]) && raw[0] != '[',
    ensures
        raw.len() > 0 ==> name_prefixes(raw) == Ok::<_, Fault>(seq![raw]),
        raw.len() == 0 ==> name_prefixes(raw) is Err,
{
    if raw.len() == 0 {
        assert(seq![raw][0].len() == 0);
    }
}

/// An array of prefixes is kept as it is, and one of extensions without the
/// dots that they begin with; neither may be empty or hold an empty text.
pub proof fn law_arrays_are_kept(raw: Seq<char>, dots: Seq<nat>, names: Seq<Seq<char>>)
    requires
        dots.len() == names.len(),
        forall|i: int|
            0 <= i < names.len() ==> ((#[trigger] names[i]).len() > 0 ==> names[i][0] != '.'),
        crate::json::decoded_array(raw) == Some(
            Seq::new(names.len(), |i: int| run_of('.', dots[i]) + names[i]),
        ),
    ensures
        ({
            let is_full = names.len() > 0 && forall|i: int|
                0 <= i < names.len() ==> (#[trigger] names[i]).len() > 0;
            &&& restricted_extensions(raw) is Ok <==> is_full
            &&& restricted_extensions(raw) matches Ok(list) ==> list == names
            &&& raw.len() > 0 && raw[0] == '[' ==> (name_prefixes(raw) matches Ok(list) ==> Some(
                list,
            ) == crate::json::decoded_array(raw))
            &&& raw.len() > 0 && raw[0] == '[' && is_full ==> name_prefixes(raw) is Ok
        }),
{
    let given = crate::json::decoded_array(raw)->0;
    let bare = crate::routes::files::bare_extensions(given);
    assert forall|i: int| 0 <= i < names.len() implies #[trigger] bare[i] == names[i] by {
        assert(given[i] == run_of('.', dots[i]) + names[i]);
        lemma_leading('.', dots[i], names[i]);
    }
    assert(bare =~= names);
}

/// Whether each of the first entries of a batch gives a path and, if it has
/// its own window, an accepted one, and no two give one path.
pub open spec fn are_accepted(files: Seq<BatchReadFileRequest>, count: int) -> bool {
    &&& forall|i: int|
        #![trigger files[i]]
        0 <= i < count ==> file_path_of(files[i].path_text()) is Ok && (
        files[i].own_seek() matches Some(body) ==> body_window(body) is Ok)
    &&& forall|i: int, j: int|
        #![trigger files[i], files[j]]
        0 <= i < j < count ==> file_path_of(files[i].path_text()) != file_path_of(
            files[j].path_text(),
        )
}

proof fn lemma_reads(files: Seq<BatchReadFileRequest>, shared: Window, count: int)
    requires
        0 <= count <= files.len(),
    ensures
        entry_reads(files, shared, count) is Ok <==> are_accepted(files, count),
        entry_reads(files, shared, count) matches Ok(reads) ==> reads.len() == count && forall|
            i: int,
        |
            #![trigger reads[i]]
            0 <= i < count ==> Ok::<_, Fault>(reads[i].0) == file_path_of(files[i].path_text())
                && match files[i].own_seek() {
                Some(body) => body_window(body) == Ok::<_, Fault>(reads[i].1),
                None => reads[i].1 == shared,
            },
    decreases count,
{
    if count > 0 {
        lemma_reads(files, shared, count - 1);
        let last = files[count - 1];
        if entry_reads(files, shared, count - 1) is Ok {
            let reads = entry_reads(files, shared, count - 1)->Ok_0;
            let path = file_path_of(last.path_text());
            if path is Ok {
                if crate::routes::files::is_read(reads, path->Ok_0) {
                    let i = choose|i: int|
                        0 <= i < reads.len() && (#[trigger] reads[i]).0 == path->Ok_0;
                    assert(file_path_of(files[i].path_text()) == path);
                    assert(!are_accepted(files, count));
                } else {
                    assert forall|i: int| #![trigger files[i]] 0 <= i < count - 1 implies
                        file_path_of(files[i].path_text()) != path by {
                        assert(reads[i].0 != path->Ok_0);
                    }
                }
            }
        }
    }
}

/// A batch is accepted if it has at least one entry and no more than the
/// limit, its shared window is accepted, and its entries are. It reads each
/// entry in turn, in the entry's own window, or else in the shared one, or
/// else whole.
pub proof fn law_batch_reads_its_entries(body: BatchReadFilesRequest, limit: usize)
    ensures
        ({
            let shared = match body.seek {
                Some(seek) => body_window(seek),
                None => Ok(Window { from: None, to: None, maximum: None }),
            };
            let files = body.files@;
            &&& batch_reads_of(body, limit) is Ok <==> 1 <= files.len() <= limit && shared is Ok
                && are_accepted(files, files.len() as int)
            &&& batch_reads_of(body, limit) matches Ok(reads) ==> reads.len() == files.len()
                && forall|i: int|
                #![trigger reads[i]]
                0 <= i < files.len() ==> Ok::<_, Fault>(reads[i].0) == file_path_of(
                    files[i].path_text(),
                ) && Ok::<_, Fault>(reads[i].1) == match files[i].own_seek() {
                    Some(seek) => body_window(seek),
                    None => shared,
                }
        }),
{
    if let Ok(shared) = shared_window(body.seek) {
        lemma_reads(body.files@, shared, body.files@.len() as int);
    }
}

/// Whether each of the first paths of a replay leads to a file that is not an
/// index and is below the folder, and no two lead to one file.
pub open spec fn are_replayable(
    raw: Seq<Seq<char>>,
    folder: Option<Seq<char>>,
    count: int,
) -> bool {
    &&& forall|i: int|
        #![trigger raw[i]]
        0 <= i < count ==> file_path_of(raw[i]) is Ok && !crate::order::is_index_path(
            file_path_of(raw[i])->Ok_0,
        ) && is_below(file_path_of(raw[i])->Ok_0, folder)
    &&& forall|i: int, j: int|
        #![trigger raw[i], raw[j]]
        0 <= i < j < count ==> file_path_of(raw[i]) != file_path_of(raw[j])
}

/// Whether a path is that of something below a folder, at any depth.
pub open spec fn is_below(path: Seq<char>, folder: Option<Seq<char>>) -> bool {
    match folder {
        None => true,
        Some(directory) => directory.len() == 0 || exists|rest: Seq<char>|
            rest.len() > 0 && path == #[trigger] (directory + seq!['/'] + rest),
    }
}

proof fn lemma_below(path: Seq<char>, folder: Option<Seq<char>>)
    ensures
        lies_under(path, folder) <==> is_below(path, folder),
{
    reveal_strlit("/");
    assert("/"@ =~= seq!['/']);
    if let Some(directory) = folder {
        let start = directory + seq!['/'];
        if start.is_prefix_of(path) {
            assert(path =~= start + path.skip(start.len() as int));
        }
        if directory.len() > 0 && is_below(path, folder) {
            let rest = choose|rest: Seq<char>|
                rest.len() > 0 && path == #[trigger] (directory + seq!['/'] + rest);
            assert(path.subrange(0, start.len() as int) =~= start);
        }
    }
}

proof fn lemma_sanitized(raw: Seq<Seq<char>>, folder: Option<Seq<char>>, count: int)
    requires
        0 <= count <= raw.len(),
    ensures
        sanitized_paths(raw, folder, count) is Ok <==> are_replayable(raw, folder, count),
        sanitized_paths(raw, folder, count) matches Ok(paths) ==> paths.len() == count && forall|
            i: int,
        |
            #![trigger paths[i]]
            0 <= i < count ==> Ok::<_, Fault>(paths[i]) == file_path_of(raw[i]),
    decreases count,
{
    if count > 0 {
        lemma_sanitized(raw, folder, count - 1);
        let last = raw[count - 1];
        let path = file_path_of(last);
        if path is Ok {
            lemma_below(path->Ok_0, folder);
            if sanitized_paths(raw, folder, count - 1) is Ok {
                let paths = sanitized_paths(raw, folder, count - 1)->Ok_0;
                if paths.contains(path->Ok_0) {
                    let i = choose|i: int| 0 <= i < paths.len() && #[trigger] paths[i] == path->Ok_0;
                    assert(file_path_of(raw[i]) == path);
                    assert(!are_replayable(raw, folder, count));
                } else {
                    assert forall|i: int| #![trigger raw[i]] 0 <= i < count - 1 implies file_path_of(
                        raw[i],
                    ) != path by {
                        assert(paths[i] != path->Ok_0);
                    }
                }
            }
        }
    }
}

/// A list of files to replay is accepted if it is not empty, its paths lead to
/// different files below the folder, and none is an index. Its files are those
/// that the paths lead to, in their order.
pub proof fn law_replay_takes_its_files(raw: Seq<Seq<char>>, folder: Option<Seq<char>>)
    ensures
        sanitized(raw, folder) is Ok <==> raw.len() > 0 && are_replayable(
            raw,
            folder,
            raw.len() as int,
        ),
        sanitized(raw, folder) matches Ok(paths) ==> paths.len() == raw.len() && forall|i: int|
            #![trigger paths[i]]
            0 <= i < paths.len() ==> Ok::<_, Fault>(paths[i]) == file_path_of(raw[i]),
{
    lemma_sanitized(raw, folder, raw.len() as int);
}

/// Creations are replayed of the files that are there, and deletions of those
/// that are not, one after the other.
pub proof fn law_replay_goes_by_presence(
    first: Seq<Seq<char>>,
    path: Seq<char>,
    present: Seq<Seq<char>>,
)
    ensures
        ({
            let created = replayed(ReplayDirection::Create, first.push(path), present);
            let deleted = replayed(ReplayDirection::Delete, first.push(path), present);
            let before = replayed(ReplayDirection::Create, first, present);
            let gone = replayed(ReplayDirection::Delete, first, present);
            &&& present.contains(path) ==> created == before.push(path) && deleted == gone
            &&& !present.contains(path) ==> created == before && deleted == gone.push(path)
        }),
        replayed(ReplayDirection::Create, Seq::empty(), present) == Seq::<Seq<char>>::empty(),
        replayed(ReplayDirection::Delete, Seq::empty(), present) == Seq::<Seq<char>>::empty(),
{
    reveal(Seq::filter);
    assert(first.push(path).drop_last() =~= first);
}

} // verus!
