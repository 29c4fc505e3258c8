//! The JSON texts that the service stores and decodes.
use vstd::prelude::*;
use crate::sorting::views;
use crate::text::{characters, same, texts};

verus! {

/// The JSON value that a text begins with, after whitespace, as it stands
/// there, and the text that follows it, as a stream of
/// `serde_json::Deserializer` tells them apart, if it does.
pub uninterp spec fn leading_value(text: Seq<char>) -> Option<(Seq<char>, Seq<char>)>;

/// The string that the JSON text `raw` spells, as `serde_json::from_str`
/// decodes it, if it does.
pub uninterp spec fn decoded_string(raw: Seq<char>) -> Option<Seq<char>>;

/// The strings of the JSON array `raw`, as `serde_json::from_str` decodes it.
pub uninterp spec fn decoded_array(raw: Seq<char>) -> Option<Seq<Seq<char>>>;

/// The list that the JSON array `content` has as its only element, as
/// `serde_json::from_str` decodes it, if it does.
pub uninterp spec fn decoded_element(content: Seq<char>) -> Option<Seq<Seq<char>>>;

/// The text that `serde_json::to_string_pretty` gives for an object whose
/// only member is `list`, under `key`.
pub uninterp spec fn encoded_list(key: Seq<char>, list: Seq<Seq<char>>) -> Seq<char>;

/// A member of an object: its name, and its value as it is spelled.
pub struct Member {
    pub name: Seq<char>,
    pub value: Seq<char>,
}

/// A member that was read.
struct RawMember {
    name: String,
    value: String,
}

impl View for RawMember {
    type V = Member;

    closed spec fn view(&self) -> Member {
        Member { name: self.name@, value: self.value@ }
    }
}

/// Whether a character is whitespace between the parts of a JSON text.
pub open spec fn is_space(c: char) -> bool {
    c == ' ' || c == '\n' || c == '\t' || c == '\r'
}

/// A text without the whitespace that it begins with.
pub open spec fn without_space(text: Seq<char>) -> Seq<char>
    decreases text.len(),
{
    if text.len() > 0 && is_space(text[0]) {
        without_space(text.skip(1))
    } else {
        text
    }
}

/// What follows a mark, if it is what a text begins with, after whitespace.
pub open spec fn after_mark(text: Seq<char>, mark: char) -> Option<Seq<char>> {
    let rest = without_space(text);
    if rest.len() > 0 && rest[0] == mark {
        Some(rest.skip(1))
    } else {
        None
    }
}

/// The member that a text begins with, and what follows it.
pub open spec fn leading_member(text: Seq<char>) -> Option<(Member, Seq<char>)> {
    match leading_value(text) {
        None => None,
        Some((raw, follows)) => match (decoded_string(raw), after_mark(follows, ':')) {
            (Some(name), Some(rest)) => match leading_value(rest) {
                None => None,
                Some((value, end)) => Some((Member { name, value }, end)),
            },
            _ => None,
        },
    }
}

/// The members of an object from the start of one on, where nothing but
/// whitespace follows the object. What follows a member is always shorter than
/// the text that begins with it, since its values take up some of that.
pub open spec fn members_from(text: Seq<char>) -> Option<Seq<Member>>
    decreases text.len(),
{
    match leading_member(text) {
        None => None,
        Some((member, rest)) => match after_mark(rest, '}') {
            Some(end) => if without_space(end).len() == 0 {
                Some(seq![member])
            } else {
                None
            },
            None => match after_mark(rest, ',') {
                Some(more) => if more.len() < text.len() {
                    with_member(member, members_from(more))
                } else {
                    None
                },
                None => None,
            },
        },
    }
}

/// Members with one before them, if they could be read.
pub open spec fn with_member(member: Member, members: Option<Seq<Member>>) -> Option<Seq<Member>> {
    match members {
        Some(list) => Some(seq![member] + list),
        None => None,
    }
}

/// The members of the JSON object `content`, those with one name too, if it is
/// an object.
pub open spec fn members_in(content: Seq<char>) -> Option<Seq<Member>> {
    match after_mark(content, '{') {
        None => None,
        Some(text) => match after_mark(text, '}') {
            Some(end) => if without_space(end).len() == 0 {
                Some(Seq::empty())
            } else {
                None
            },
            None => members_from(text),
        },
    }
}

/// The value of the only member with a name, if there is exactly one.
pub open spec fn only_value(members: Seq<Member>, name: Seq<char>) -> Option<Seq<char>> {
    let named = members.filter(|member: Member| member.name == name);
    if named.len() == 1 {
        Some(named[0].value)
    } else {
        None
    }
}

/// The list of strings that the JSON object `content` holds under `key`, if
/// it holds one and nothing else under it. Other members may hold anything.
pub open spec fn decoded_list(content: Seq<char>, key: Seq<char>) -> Option<Seq<Seq<char>>> {
    match members_in(content) {
        Some(members) => match only_value(members, key) {
            Some(raw) => decoded_array(raw),
            None => None,
        },
        None => None,
    }
}

/// The first item of a stream of raw values that `serde_json::Deserializer`
/// reads from a text, and what follows it.
///
/// Claims that the outcome depends on the text alone, and that a value takes
/// up some of the text.
#[verifier::external_body]
fn split_value(text: &str) -> (result: Option<(String, &str)>)
    ensures
        match result {
            Some((value, rest)) => {
                &&& leading_value(text@) == Some((value@, rest@))
                &&& rest@.len() < text@.len()
            },
            None => leading_value(text@) is None,
        },
{
    let mut values =
        serde_json::Deserializer::from_str(text).into_iter::<Box<serde_json::value::RawValue>>();
    let value = values.next()?.ok()?;
    Some((value.get().to_owned(), text.get(values.byte_offset()..)?))
}

/// `serde_json::from_str` into a string.
///
/// Claims that the outcome depends on the text alone.
#[verifier::external_body]
fn decode_string(raw: &str) -> (result: Option<String>)
    ensures
        match result {
            Some(text) => decoded_string(raw@) == Some(text@),
            None => decoded_string(raw@) is None,
        },
{
    serde_json::from_str(raw).ok()
}

/// `serde_json::from_str` into an array of strings.
///
/// Claims that the outcome depends on the text alone.
#[verifier::external_body]
pub(crate) fn decode_array(raw: &str) -> (result: Option<Vec<String>>)
    ensures
        match result {
            Some(list) => decoded_array(raw@) == Some(texts(list@)),
            None => decoded_array(raw@) is None,
        },
{
    serde_json::from_str(raw).ok()
}

/// `serde_json::from_str` into an array of one array of strings.
///
/// Claims that the outcome depends on the text alone.
#[verifier::external_body]
pub(crate) fn decode_element(content: &str) -> (result: Option<Vec<String>>)
    ensures
        match result {
            Some(list) => decoded_element(content@) == Some(texts(list@)),
            None => decoded_element(content@) is None,
        },
{
    let (list,): (Vec<String>,) = serde_json::from_str(content).ok()?;
    Some(list)
}

/// `serde_json::to_string_pretty` of the object `{ key: list }`.
///
/// Claims that encoding strings under a string key never fails, that the text
/// depends on the key and the list alone, and that decoding the text, with
/// the newline that ends a stored document, gives the list back.
#[verifier::external_body]
pub(crate) fn encode_list(key: &str, list: &[String]) -> (result: Option<String>)
    ensures
        match result {
            Some(text) => {
                &&& text@ == encoded_list(key@, texts(list@))
                &&& decoded_list(text@.push('\n'), key@) == Some(texts(list@))
            },
            None => false,
        },
{
    let mut object: std::collections::BTreeMap<&str, &[String]> = std::collections::BTreeMap::new();
    object.insert(key, list);
    serde_json::to_string_pretty(&object).ok()
}

/// Drops the whitespace that a text begins with.
fn drop_space(text: &str) -> (result: &str)
    ensures
        result@ == without_space(text@),
        result@.len() <= text@.len(),
{
    let a: Vec<char> = characters(text);
    let length: usize = a.len();
    let mut i: usize = 0;
    assert(text@.skip(0) =~= text@);
    while i < length && (a[i] == ' ' || a[i] == '\n' || a[i] == '\t' || a[i] == '\r')
        invariant
            i <= length,
            length == a@.len(),
            a@ == text@,
            without_space(text@) == without_space(text@.skip(i as int)),
        decreases length - i,
    {
        assert(text@.skip(i as int).skip(1) =~= text@.skip(i + 1));
        i = i + 1;
    }
    let rest: &str = text.substring_char(i, length);
    assert(rest@ =~= text@.skip(i as int));
    rest
}

/// Reads a mark, after whitespace, and gives what follows it.
fn read_mark(text: &str, mark: char) -> (result: Option<&str>)
    ensures
        match result {
            Some(rest) => after_mark(text@, mark) == Some(rest@) && rest@.len() < text@.len(),
            None => after_mark(text@, mark) is None,
        },
{
    let rest: &str = drop_space(text);
    let a: Vec<char> = characters(rest);
    let length: usize = a.len();
    if length > 0 && a[0] == mark {
        let follows: &str = rest.substring_char(1, length);
        assert(follows@ =~= rest@.skip(1));
        Some(follows)
    } else {
        None
    }
}

/// Whether a text is whitespace alone.
fn is_blank(text: &str) -> (result: bool)
    ensures
        result == (without_space(text@).len() == 0),
{
    let rest: &str = drop_space(text);
    characters(rest).len() == 0
}

/// Reads the member that a text begins with.
fn read_member(text: &str) -> (result: Option<(RawMember, &str)>)
    ensures
        match result {
            Some((member, rest)) => {
                &&& leading_member(text@) == Some((member@, rest@))
                &&& rest@.len() < text@.len()
            },
            None => leading_member(text@) is None,
        },
{
    let (raw, follows) = match split_value(text) {
        Some(split) => split,
        None => {
            return None;
        },
    };
    match (decode_string(raw.as_str()), read_mark(follows, ':')) {
        (Some(name), Some(rest)) => match split_value(rest) {
            Some((value, end)) => Some((RawMember { name, value }, end)),
            None => None,
        },
        _ => None,
    }
}

/// Members after others, if they could be read.
spec fn following(done: Seq<Member>, members: Option<Seq<Member>>) -> Option<Seq<Member>> {
    match members {
        Some(list) => Some(done + list),
        None => None,
    }
}

/// Reads the members of an object.
fn read_members(content: &str) -> (result: Option<Vec<RawMember>>)
    ensures
        match result {
            Some(members) => members_in(content@) == Some(views(members@)),
            None => members_in(content@) is None,
        },
{
    let mut members: Vec<RawMember> = Vec::new();
    let mut text: &str = match read_mark(content, '{') {
        Some(text) => text,
        None => {
            return None;
        },
    };
    assert(views(members@) =~= Seq::<Member>::empty());
    if let Some(end) = read_mark(text, '}') {
        return if is_blank(end) {
            Some(members)
        } else {
            None
        };
    }
    assert(following(views(members@), members_from(text@)) == members_from(text@)) by {
        if let Some(list) = members_from(text@) {
            assert(Seq::<Member>::empty() + list =~= list);
        }
    }
    loop
        invariant
            members_in(content@) == following(views(members@), members_from(text@)),
        decreases text@.len(),
    {
        let (member, rest) = match read_member(text) {
            Some(read) => read,
            None => {
                return None;
            },
        };
        let ghost done = views(members@);
        members.push(member);
        assert(views(members@) =~= done.push(member@));
        if let Some(end) = read_mark(rest, '}') {
            assert(done + seq![member@] =~= views(members@));
            return if is_blank(end) {
                Some(members)
            } else {
                None
            };
        }
        match read_mark(rest, ',') {
            Some(more) => {
                assert(following(done, with_member(member@, members_from(more@))) == following(
                    views(members@),
                    members_from(more@),
                )) by {
                    if let Some(list) = members_from(more@) {
                        assert(done + (seq![member@] + list) =~= views(members@) + list);
                    }
                }
                text = more;
            },
            None => {
                return None;
            },
        }
    }
}

/// Finds the only member with a name.
fn find_only(members: &Vec<RawMember>, name: &str) -> (result: Option<usize>)
    ensures
        match result {
            Some(at) => at < members.len() && only_value(views(members@), name@) == Some(
                members@[at as int]@.value,
            ),
            None => only_value(views(members@), name@) is None,
        },
{
    let ghost all = views(members@);
    let ghost is_named = |member: Member| member.name == name@;
    let mut found: Option<usize> = None;
    let mut count: usize = 0;
    let mut i: usize = 0;
    assert(all.take(0) =~= Seq::<Member>::empty());
    reveal(Seq::filter);
    while i < members.len()
        invariant
            i <= members.len(),
            all == views(members@),
            is_named == (|member: Member| member.name == name@),
            count == all.take(i as int).filter(is_named).len(),
            count <= i,
            count > 0 ==> (found matches Some(at) && at < members.len() && all.take(
                i as int,
            ).filter(is_named).last() == members@[at as int]@),
        decreases members.len() - i,
    {
        proof {
            reveal(Seq::filter);
            assert(all.take(i + 1).drop_last() =~= all.take(i as int));
            assert(all.take(i + 1).last() == members@[i as int]@);
        }
        if same(members[i].name.as_str(), name) {
            found = Some(i);
            count = count + 1;
        }
        i = i + 1;
    }
    assert(all.take(i as int) =~= all);
    if count == 1 {
        found
    } else {
        None
    }
}

/// Reads the list of strings that a JSON object holds under a key.
pub(crate) fn decode_list(content: &str, key: &str) -> (result: Option<Vec<String>>)
    ensures
        match result {
            Some(list) => decoded_list(content@, key@) == Some(texts(list@)),
            None => decoded_list(content@, key@) is None,
        },
{
    match read_members(content) {
        Some(members) => match find_only(&members, key) {
            Some(at) => decode_array(members[at].value.as_str()),
            None => None,
        },
        None => None,
    }
}

/// A name that an object has twice has no value there.
pub proof fn law_repeated_member_has_no_value(
    members: Seq<Member>,
    name: Seq<char>,
    first: int,
    second: int,
)
    requires
        0 <= first < second < members.len(),
        members[first].name == name,
        members[second].name == name,
    ensures
        only_value(members, name) is None,
{
    lemma_both_are_named(members, name, first, second);
}

proof fn lemma_both_are_named(members: Seq<Member>, name: Seq<char>, first: int, second: int)
    requires
        0 <= first < second < members.len(),
        members[first].name == name,
        members[second].name == name,
    ensures
        members.filter(|member: Member| member.name == name).len() >= 2,
    decreases members.len(),
{
    reveal(Seq::filter);
    let is_named = |member: Member| member.name == name;
    let init = members.drop_last();
    if second < init.len() {
        lemma_both_are_named(init, name, first, second);
    } else {
        init.lemma_filter_contains(is_named, first);
        assert(members.last() == members[second]);
    }
}

} // verus!
