//! How the members of a JSON object are told apart.
use vstd::prelude::*;
use crate::json::{
    after_mark, decoded_array, decoded_list, decoded_string, leading_member, leading_value,
    members_from, members_in, only_value, without_space, Member,
};

verus! {

/// Whether a text is only what may stand between the parts of a JSON text.
pub open spec fn is_gap(text: Seq<char>) -> bool {
    forall|i: int|
        0 <= i < text.len() ==> #[trigger] text[i] == ' ' || text[i] == '\n' || text[i] == '\t'
            || text[i] == '\r'
}

/// Whether a text begins with none of what may stand between the parts.
pub open spec fn begins_at_once(text: Seq<char>) -> bool {
    text.len() > 0 ==> text[0] != ' ' && text[0] != '\n' && text[0] != '\t' && text[0] != '\r'
}

proof fn lemma_gap(gap: Seq<char>, text: Seq<char>)
    requires
        is_gap(gap),
        begins_at_once(text),
    ensures
        without_space(gap + text) == text,
        without_space(gap).len() == 0,
    decreases gap.len(),
{
    if gap.len() > 0 {
        let rest = gap.skip(1);
        assert(gap[0] == gap[0]);
        assert forall|i: int| 0 <= i < rest.len() implies #[trigger] rest[i] == ' ' || rest[i]
            == '\n' || rest[i] == '\t' || rest[i] == '\r' by {
            assert(rest[i] == gap[i + 1]);
        }
        lemma_gap(rest, text);
        assert((gap + text)[0] == gap[0]);
        assert((gap + text).skip(1) =~= rest + text);
    } else {
        assert(gap + text =~= text);
    }
}

proof fn lemma_mark(gap: Seq<char>, mark: char, rest: Seq<char>, other: char)
    requires
        is_gap(gap),
        begins_at_once(seq![mark]),
        other != mark,
    ensures
        after_mark(gap + seq![mark] + rest, mark) == Some(rest),
        after_mark(gap + seq![mark] + rest, other) is None,
{
    let text = seq![mark] + rest;
    assert(seq![mark][0] == mark);
    assert(text[0] == mark);
    lemma_gap(gap, text);
    assert(gap + seq![mark] + rest =~= gap + text);
    assert(text.skip(1) =~= rest);
}

/// A member is a name and a value with a colon between them.
pub proof fn law_member_is_name_and_value(
    text: Seq<char>,
    raw: Seq<char>,
    gap: Seq<char>,
    rest: Seq<char>,
    name: Seq<char>,
    value: Seq<char>,
    end: Seq<char>,
)
    requires
        is_gap(gap),
        leading_value(text) == Some((raw, gap + seq![':'] + rest)),
        decoded_string(raw) == Some(name),
        leading_value(rest) == Some((value, end)),
    ensures
        leading_member(text) == Some((Member { name, value }, end)),
{
    assert(seq![':'][0] == ':');
    lemma_mark(gap, ':', rest, ',');
}

/// An object without members is two braces; nothing may follow it.
pub proof fn law_empty_object_has_no_members(
    before: Seq<char>,
    inside: Seq<char>,
    after: Seq<char>,
    more: Seq<char>,
)
    requires
        is_gap(before),
        is_gap(inside),
        is_gap(after),
        more.len() > 0,
        begins_at_once(more),
    ensures
        members_in(before + seq!['{'] + (inside + seq!['}'] + after)) == Some(
            Seq::<Member>::empty(),
        ),
        members_in(before + seq!['{'] + (inside + seq!['}'] + (after + more))) is None,
{
    assert(seq!['{'][0] == '{');
    assert(seq!['}'][0] == '}');
    lemma_mark(before, '{', inside + seq!['}'] + after, ',');
    lemma_mark(before, '{', inside + seq!['}'] + (after + more), ',');
    lemma_mark(inside, '}', after, ',');
    lemma_mark(inside, '}', after + more, ',');
    lemma_gap(after, more);
}

/// The members of an object follow its brace. The last one is followed by the
/// other brace and then by nothing; any other by a comma and then by the rest.
pub proof fn law_members_are_parted_by_commas(
    before: Seq<char>,
    text: Seq<char>,
    member: Member,
    gap: Seq<char>,
    after: Seq<char>,
    more: Seq<char>,
)
    requires
        is_gap(before),
        is_gap(gap),
        is_gap(after),
        more.len() < text.len(),
    ensures
        leading_member(text) == Some((member, gap + seq!['}'] + after)) ==> members_from(text)
            == Some(seq![member]),
        more.len() > 0 && begins_at_once(more) && leading_member(text) == Some(
            (member, gap + seq!['}'] + (after + more)),
        ) ==> members_from(text) is None,
        leading_member(text) == Some((member, gap + seq![','] + more)) ==> (members_from(text)
            is Some <==> members_from(more) is Some),
        leading_member(text) == Some((member, gap + seq![','] + more)) && members_from(more)
            is Some ==> members_from(text) == Some(seq![member] + members_from(more)->0),
        leading_member(text) is None ==> members_from(text) is None,
        text[0] != '}' && begins_at_once(text) ==> members_in(before + seq!['{'] + text)
            == members_from(text),
{
    assert(seq!['{'][0] == '{');
    assert(seq!['}'][0] == '}');
    assert(seq![','][0] == ',');
    lemma_mark(before, '{', text, ',');
    lemma_mark(gap, '}', after, ',');
    lemma_mark(gap, '}', after + more, ',');
    lemma_mark(gap, ',', more, '}');
    if begins_at_once(more) {
        lemma_gap(after, more);
    }
    lemma_gap(after, Seq::empty());
    assert(after + Seq::<char>::empty() =~= after);
    if begins_at_once(text) {
        lemma_gap(Seq::empty(), text);
        assert(Seq::<char>::empty() + text =~= text);
    }
}

/// What an object holds under a name is the value of the one member with that
/// name, and nothing if there is none or more than one.
pub proof fn law_one_member_has_the_name(
    content: Seq<char>,
    before: Seq<Member>,
    member: Member,
    after: Seq<Member>,
    other: Member,
)
    requires
        forall|i: int| 0 <= i < before.len() ==> (#[trigger] before[i]).name != member.name,
        forall|i: int| 0 <= i < after.len() ==> (#[trigger] after[i]).name != member.name,
    ensures
        only_value(before + seq![member] + after, member.name) == Some(member.value),
        only_value(before, member.name) is None,
        other.name == member.name ==> only_value(
            before + seq![member] + after + seq![other],
            member.name,
        ) is None,
        members_in(content) == Some(before + seq![member] + after) ==> decoded_list(
            content,
            member.name,
        ) == decoded_array(member.value),
        members_in(content) == Some(before) ==> decoded_list(content, member.name) is None,
        members_in(content) is None ==> decoded_list(content, member.name) is None,
{
    let named = |each: Member| each.name == member.name;
    lemma_none(before, named);
    lemma_none(after, named);
    lemma_single(member, named);
    lemma_single(other, named);
    let all = before + seq![member] + after;
    Seq::filter_distributes_over_add(before, seq![member], named);
    Seq::filter_distributes_over_add(before + seq![member], after, named);
    Seq::filter_distributes_over_add(all, seq![other], named);
    assert(all.filter(named) =~= seq![member]);
}

proof fn lemma_single(member: Member, named: spec_fn(Member) -> bool)
    ensures
        seq![member].filter(named) == if named(member) {
            seq![member]
        } else {
            Seq::empty()
        },
{
    reveal(Seq::filter);
    let list = seq![member];
    assert(list.drop_last() =~= Seq::empty());
    assert(list.last() == member);
    assert(list.drop_last().filter(named) =~= Seq::empty());
    assert(list.filter(named) =~= if named(member) {
        seq![member]
    } else {
        Seq::empty()
    });
}

proof fn lemma_none(members: Seq<Member>, named: spec_fn(Member) -> bool)
    requires
        forall|i: int| 0 <= i < members.len() ==> !named(#[trigger] members[i]),
    ensures
        members.filter(named) == Seq::<Member>::empty(),
    decreases members.len(),
{
    reveal(Seq::filter);
    if members.len() > 0 {
        lemma_none(members.drop_last(), named);
    }
}

} // verus!
