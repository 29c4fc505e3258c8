//! What paths and names are made of.
use vstd::prelude::*;
use crate::git::tree::components;
use crate::order::{bare_name, child_path, is_index_path, leaf_of, parent_of, shown_directory};
use crate::text::{
    decimal, first_position, last_position, lemma_first_position, lemma_last_position,
    lemma_last_position_is,
};

verus! {

/// A path is its directory, a slash and its leaf name, which holds no slash; or
/// the leaf name alone, at the root.
pub proof fn law_path_is_directory_and_leaf(path: Seq<char>)
    ensures
        !leaf_of(path).contains('/'),
        path.contains('/') ==> path == parent_of(path) + seq!['/'] + leaf_of(path),
        !path.contains('/') ==> parent_of(path).len() == 0 && leaf_of(path) == path,
{
    lemma_last_position(path, '/');
    let slash = last_position(path, '/');
    assert forall|i: int| 0 <= i < leaf_of(path).len() implies leaf_of(path)[i] != '/' by {
        assert(leaf_of(path)[i] == path[slash + 1 + i]);
    }
    if slash >= 0 {
        assert(path =~= parent_of(path) + seq!['/'] + leaf_of(path));
    } else {
        assert(leaf_of(path) =~= path);
        if path.contains('/') {
            let i = choose|i: int| 0 <= i < path.len() && path[i] == '/';
            assert(path[i] != '/');
        }
    }
}

/// A name in a directory is the directory, a slash and the name; at the root it
/// is the name alone.
pub proof fn law_child_is_joined(directory: Seq<char>, name: Seq<char>)
    ensures
        directory.len() == 0 ==> child_path(directory, name) == name,
        directory.len() > 0 ==> child_path(directory, name) == directory + seq!['/'] + name,
        directory.len() == 0 ==> shown_directory(directory) == seq!['/'],
        directory.len() > 0 ==> shown_directory(directory) == directory,
{
    reveal_strlit("/");
    assert("/"@ =~= seq!['/']);
}

/// An order index is a file with one name, whatever its directory.
pub proof fn law_index_has_one_name(path: Seq<char>)
    ensures
        is_index_path(path) <==> leaf_of(path) == ".order.json"@,
{
}

/// An entry of an order names what it spells, without one slash at its end.
pub proof fn law_entry_names_without_slash(entry: Seq<char>, name: Seq<char>)
    requires
        !name.contains('/'),
    ensures
        bare_name(entry) == name <==> entry == name || entry == name + seq!['/'],
        bare_name(name) == name,
        bare_name(name + seq!['/']) == name,
{
    assert(!(name.len() > 0 && name.last() == '/')) by {
        if name.len() > 0 && name.last() == '/' {
            assert(name[name.len() - 1] == '/');
        }
    }
    assert((name + seq!['/']).drop_last() =~= name);
    if bare_name(entry) == name && entry != name {
        assert(entry =~= name + seq!['/']);
    }
}

/// The parts of a path hold no slash, and with slashes between them they are
/// the path.
pub proof fn law_parts_make_the_path(path: Seq<char>)
    ensures
        components(path).len() >= 1,
        forall|i: int|
            0 <= i < components(path).len() ==> !(#[trigger] components(path)[i]).contains('/'),
        !path.contains('/') ==> components(path) == seq![path],
        path.contains('/') ==> exists|rest: Seq<char>| #[trigger]
            (components(path)[0] + seq!['/'] + rest) == path && components(path) == seq![
                components(path)[0],
            ] + components(rest),
        components(path).last() == leaf_of(path),
    decreases path.len(),
{
    let slash = first_position(path, '/');
    lemma_first_position(path, '/');
    lemma_last_position(path, '/');
    if slash < path.len() {
        let head = path.take(slash);
        let rest = path.skip(slash + 1);
        law_parts_make_the_path(rest);
        assert(path[slash] == '/');
        assert(head + seq!['/'] + rest =~= path);
        assert(components(path)[0] == head);
        assert forall|i: int| 0 <= i < components(path).len() implies !(#[trigger] components(
            path,
        )[i]).contains('/') by {
            if i > 0 {
                assert(components(path)[i] == components(rest)[i - 1]);
            }
        }
        lemma_last_position(rest, '/');
        let within = last_position(rest, '/');
        let position = slash + 1 + within;
        assert forall|i: int| position < i < path.len() implies path[i] != '/' by {
            assert(path[i] == rest[i - slash - 1]);
        }
        if within >= 0 {
            assert(path[position] == rest[within]);
        }
        lemma_last_position_is(path, '/', position);
        assert(leaf_of(path) =~= leaf_of(rest));
    } else {
        if path.contains('/') {
            let i = choose|i: int| 0 <= i < path.len() && path[i] == '/';
            assert(path[i] != '/');
        }
        if last_position(path, '/') >= 0 {
            assert(path[last_position(path, '/')] == '/');
        }
        assert(leaf_of(path) =~= path);
    }
}

/// A number is spelled by its digits, the last one behind the others.
pub proof fn law_decimal_digits(number: nat, digit: nat)
    requires
        digit < 10,
    ensures
        decimal(digit) == seq![(('0' as u8) + digit) as char],
        number > 0 ==> decimal(10 * number + digit) == decimal(number).push(
            (('0' as u8) + digit) as char,
        ),
{
}

} // verus!
