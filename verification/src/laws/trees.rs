//! What a tree holds at a path.
use vstd::prelude::*;
use vstd::utf8::*;
use crate::error::Fault;
use crate::git::model::{
    blob_after, blob_at, blob_id, content_of, file_text, lookup, planned, Change, Edit, Entry,
    EntryKind, Request, StoredBlob,
};
use crate::text::is_blank;

verus! {

/// Whether the entry at a position is the first one of a tree with a path.
pub open spec fn is_first_at(tree: Seq<Entry>, path: Seq<char>, i: int) -> bool {
    &&& 0 <= i < tree.len()
    &&& tree[i].path == path
    &&& forall|j: int| 0 <= j < i ==> (#[trigger] tree[j]).path != path
}

/// Whether no entry of a tree has a path.
pub open spec fn is_absent(tree: Seq<Entry>, path: Seq<char>) -> bool {
    forall|j: int| 0 <= j < tree.len() ==> (#[trigger] tree[j]).path != path
}

/// Whether the blob at a position is the first one that was read for an id.
pub open spec fn is_read_at(blobs: Seq<StoredBlob>, oid: Seq<char>, k: int) -> bool {
    &&& 0 <= k < blobs.len()
    &&& blobs[k].oid == oid
    &&& forall|j: int| 0 <= j < k ==> (#[trigger] blobs[j]).oid != oid
}

/// Whether no blob was read for an id.
pub open spec fn is_unread(blobs: Seq<StoredBlob>, oid: Seq<char>) -> bool {
    forall|j: int| 0 <= j < blobs.len() ==> (#[trigger] blobs[j]).oid != oid
}

/// Whether a tree has a file at a path whose bytes were read and spell a text.
pub open spec fn reads_as(
    tree: Seq<Entry>,
    blobs: Seq<StoredBlob>,
    path: Seq<char>,
    text: Seq<char>,
) -> bool {
    exists|i: int, k: int| #[trigger]
        is_first_at(tree, path, i) && #[trigger] is_read_at(blobs, tree[i].oid, k)
            && blobs[k].content == encode_utf8(text)
}

/// The entry of a path is the first one that has it.
pub proof fn law_entry_is_the_first(tree: Seq<Entry>, path: Seq<char>, i: int)
    ensures
        is_first_at(tree, path, i) ==> lookup(tree, path) == Some(tree[i]) && blob_at(tree, path)
            == if tree[i].kind == EntryKind::Blob {
            Some(tree[i].oid)
        } else {
            None
        },
        is_absent(tree, path) ==> lookup(tree, path) is None && blob_at(tree, path) is None,
        lookup(tree, path) matches Some(entry) ==> exists|j: int|
            is_first_at(tree, path, j) && tree[j] == entry,
        lookup(tree, path) is None ==> is_absent(tree, path),
    decreases tree.len(),
{
    if tree.len() > 0 && tree[0].path != path {
        let rest = tree.skip(1);
        law_entry_is_the_first(rest, path, i - 1);
        if is_first_at(tree, path, i) {
            assert(rest[i - 1] == tree[i]);
            assert forall|j: int| 0 <= j < i - 1 implies (#[trigger] rest[j]).path != path by {
                assert(rest[j] == tree[j + 1]);
            }
            assert(is_first_at(rest, path, i - 1));
        }
        if is_absent(tree, path) {
            assert forall|j: int| 0 <= j < rest.len() implies (#[trigger] rest[j]).path != path by {
                assert(rest[j] == tree[j + 1]);
            }
        }
        if let Some(entry) = lookup(tree, path) {
            let j = choose|j: int| is_first_at(rest, path, j) && rest[j] == entry;
            assert forall|m: int| 0 <= m < j + 1 implies (#[trigger] tree[m]).path != path by {
                if m > 0 {
                    assert(rest[m - 1] == tree[m]);
                }
            }
            assert(is_first_at(tree, path, j + 1) && tree[j + 1] == entry);
        } else {
            assert forall|m: int| 0 <= m < tree.len() implies (#[trigger] tree[m]).path != path by {
                if m > 0 {
                    assert(rest[m - 1] == tree[m]);
                }
            }
        }
    } else if tree.len() > 0 {
        assert(is_first_at(tree, path, 0));
        if is_first_at(tree, path, i) && i > 0 {
            assert(tree[0].path != path);
        }
    }
}

/// The bytes of an id are those of the first blob that was read for it.
pub proof fn law_bytes_are_the_first(blobs: Seq<StoredBlob>, oid: Seq<char>, k: int)
    ensures
        is_read_at(blobs, oid, k) ==> content_of(blobs, oid) == Some(blobs[k].content),
        is_unread(blobs, oid) ==> content_of(blobs, oid) is None,
        content_of(blobs, oid) matches Some(bytes) ==> exists|j: int|
            is_read_at(blobs, oid, j) && blobs[j].content == bytes,
        content_of(blobs, oid) is None ==> is_unread(blobs, oid),
    decreases blobs.len(),
{
    if blobs.len() > 0 && blobs[0].oid != oid {
        let rest = blobs.skip(1);
        law_bytes_are_the_first(rest, oid, k - 1);
        if is_read_at(blobs, oid, k) {
            assert(rest[k - 1] == blobs[k]);
            assert forall|j: int| 0 <= j < k - 1 implies (#[trigger] rest[j]).oid != oid by {
                assert(rest[j] == blobs[j + 1]);
            }
            assert(is_read_at(rest, oid, k - 1));
        }
        if is_unread(blobs, oid) {
            assert forall|j: int| 0 <= j < rest.len() implies (#[trigger] rest[j]).oid != oid by {
                assert(rest[j] == blobs[j + 1]);
            }
        }
        if let Some(bytes) = content_of(blobs, oid) {
            let j = choose|j: int| is_read_at(rest, oid, j) && rest[j].content == bytes;
            assert forall|m: int| 0 <= m < j + 1 implies (#[trigger] blobs[m]).oid != oid by {
                if m > 0 {
                    assert(rest[m - 1] == blobs[m]);
                }
            }
            assert(is_read_at(blobs, oid, j + 1) && blobs[j + 1].content == bytes);
        } else {
            assert forall|m: int| 0 <= m < blobs.len() implies (#[trigger] blobs[m]).oid != oid by {
                if m > 0 {
                    assert(rest[m - 1] == blobs[m]);
                }
            }
        }
    } else if blobs.len() > 0 {
        assert(is_read_at(blobs, oid, 0));
        if is_read_at(blobs, oid, k) && k > 0 {
            assert(blobs[0].oid != oid);
        }
    }
}

/// The text of a file is what its bytes spell: read exactly if the tree has it,
/// its bytes were read and they are UTF-8; else the reason says which fails.
pub proof fn law_text_is_what_bytes_spell(
    tree: Seq<Entry>,
    blobs: Seq<StoredBlob>,
    path: Seq<char>,
    text: Seq<char>,
)
    ensures
        reads_as(tree, blobs, path, text) <==> file_text(tree, blobs, path) == Ok::<
            Seq<char>,
            Fault,
        >(text),
        is_absent(tree, path) <==> file_text(tree, blobs, path) == Err::<Seq<char>, Fault>(
            Fault::FileNotFound(path),
        ),
{
    law_entry_is_the_first(tree, path, 0);
    match lookup(tree, path) {
        None => {},
        Some(entry) => {
            let i = choose|i: int| is_first_at(tree, path, i) && tree[i] == entry;
            law_bytes_are_the_first(blobs, entry.oid, 0);
            if let Some(bytes) = content_of(blobs, entry.oid) {
                let k = choose|k: int|
                    is_read_at(blobs, entry.oid, k) && blobs[k].content == bytes;
                if valid_utf8(bytes) {
                    decode_utf8_encode_utf8(bytes);
                    if decode_utf8(bytes) == text {
                        assert(is_first_at(tree, path, i) && is_read_at(blobs, tree[i].oid, k));
                    }
                }
            }
            if reads_as(tree, blobs, path, text) {
                let (a, b) = choose|a: int, b: int| #[trigger]
                    is_first_at(tree, path, a) && #[trigger] is_read_at(blobs, tree[a].oid, b)
                        && blobs[b].content == encode_utf8(text);
                law_entry_is_the_first(tree, path, a);
                law_bytes_are_the_first(blobs, tree[a].oid, b);
                encode_utf8_valid_utf8(text);
                encode_utf8_decode_utf8(text);
            }
        },
    }
}

/// What a path holds after one more edit: nothing once it or a folder that it
/// is in is removed, the blob that is put there, else what it held.
pub proof fn law_edits_act_in_turn(
    tree: Seq<Entry>,
    edits: Seq<Edit>,
    at: Seq<char>,
    oid: Seq<char>,
    content: Seq<char>,
    path: Seq<char>,
)
    ensures
        blob_after(tree, Seq::empty(), path) == blob_at(tree, path),
        blob_after(tree, edits.push(Edit::Remove(at)), at) is None,
        (at + "/"@).is_prefix_of(path) ==> blob_after(tree, edits.push(Edit::Remove(at)), path)
            is None,
        path != at && !(at + "/"@).is_prefix_of(path) ==> blob_after(
            tree,
            edits.push(Edit::Remove(at)),
            path,
        ) == blob_after(tree, edits, path),
        blob_after(tree, edits.push(Edit::Link(at, oid)), at) == Some(oid),
        blob_id(encode_utf8(content)) matches Ok(written) ==> blob_after(
            tree,
            edits.push(Edit::Write(at, content)),
            at,
        ) == Some(written),
        path != at ==> {
            &&& blob_after(tree, edits.push(Edit::Link(at, oid)), path) == blob_after(
                tree,
                edits,
                path,
            )
            &&& blob_after(tree, edits.push(Edit::Write(at, content)), path) == blob_after(
                tree,
                edits,
                path,
            )
        },
{
    assert(edits.push(Edit::Remove(at)).drop_last() =~= edits);
    assert(edits.push(Edit::Link(at, oid)).drop_last() =~= edits);
    assert(edits.push(Edit::Write(at, content)).drop_last() =~= edits);
}

/// A plan is carried out as it stands, under the message that was asked for or
/// the one that goes without saying, by an author with a name and an address;
/// no other plan is refused.
pub proof fn law_plan_is_kept(
    edits: Seq<Edit>,
    changes: Seq<Change>,
    request: Request,
    auto: Seq<char>,
)
    ensures
        match planned(edits, changes, request, auto) {
            Ok(plan) => {
                &&& !is_blank(request.author_name) && !is_blank(request.author_email)
                &&& plan matches Some(made) && made.edits == edits && made.changes == changes
                    && made.message == match request.message {
                    Some(asked) => asked,
                    None => auto,
                }
            },
            Err(fault) => (is_blank(request.author_name) || is_blank(request.author_email))
                && fault == Fault::InvalidOperation(
                if is_blank(request.author_name) {
                    "author.name must not be empty"@
                } else {
                    "author.email must not be empty"@
                },
            ),
        },
{
}

} // verus!
