//! Text helpers over character sequences: comparison, splitting, replacement,
//! ordering, trimming and decimal spelling.
//!
//! A string is modelled by the sequence of its characters; every function
//! here states its result over that sequence.
use vstd::prelude::*;
use vstd::utf8::*;

verus! {

/// `String::push`: appends one character.
pub assume_specification[ String::push ](text: &mut String, c: char)
    ensures
        final(text)@ == old(text)@.push(c),
;

/// The characters of each string of a list.
pub open spec fn texts(strings: Seq<String>) -> Seq<Seq<char>> {
    Seq::new(strings.len(), |i: int| strings[i]@)
}

/// The characters of an optional string.
pub open spec fn optional_text(string: Option<String>) -> Option<Seq<char>> {
    match string {
        Some(s) => Some(s@),
        None => None,
    }
}

/// The characters of each string of an optional list.
pub open spec fn optional_texts(strings: Option<Vec<String>>) -> Option<Seq<Seq<char>>> {
    match strings {
        Some(list) => Some(texts(list@)),
        None => None,
    }
}

/// Whether two strings hold the same characters.
pub fn same(left: &str, right: &str) -> (result: bool)
    ensures
        result == (left@ == right@),
{
    let a: &[u8] = left.as_bytes();
    let b: &[u8] = right.as_bytes();
    if a.len() != b.len() {
        return false;
    }
    let mut i: usize = 0;
    while i < a.len()
        invariant
            i <= a.len(),
            a.len() == b.len(),
            a@ == encode_utf8(left@),
            b@ == encode_utf8(right@),
            forall|j: int| 0 <= j < i ==> a@[j] == b@[j],
        decreases a.len() - i,
    {
        if a[i] != b[i] {
            return false;
        }
        i = i + 1;
    }
    proof {
        assert(a@ =~= b@);
        encode_utf8_decode_utf8(left@);
        encode_utf8_decode_utf8(right@);
    }
    true
}

/// The characters of a string, one by one.
pub fn characters(text: &str) -> (result: Vec<char>)
    ensures
        result@ == text@,
{
    let mut result: Vec<char> = Vec::new();
    for c in iter: text.chars()
        invariant
            result@ == iter.seq().take(iter.index() as int),
            iter.seq() == text@,
    {
        result.push(c);
    }
    result
}

/// The string that holds the given characters.
pub fn from_characters(characters: &[char]) -> (result: String)
    ensures
        result@ == characters@,
{
    let mut result: String = String::new();
    let mut i: usize = 0;
    while i < characters.len()
        invariant
            i <= characters.len(),
            result@ == characters@.take(i as int),
        decreases characters.len() - i,
    {
        result.push(characters[i]);
        i = i + 1;
        assert(characters@.take(i as int) =~= characters@.take(i as int - 1).push(
            characters@[i as int - 1],
        ));
    }
    assert(characters@.take(i as int) =~= characters@);
    result
}

/// `left` followed by `right`.
pub fn joined(left: &str, right: &str) -> (result: String)
    ensures
        result@ == left@ + right@,
{
    let mut result: String = left.to_owned();
    result.append(right);
    result
}

/// Whether the characters of `text` begin with those of `prefix`.
pub fn has_prefix(text: &str, prefix: &str) -> (result: bool)
    ensures
        result == prefix@.is_prefix_of(text@),
{
    let a: Vec<char> = characters(text);
    let b: Vec<char> = characters(prefix);
    matches_at(&a, 0, &b)
}

/// Whether the characters of `text` end with those of `suffix`.
pub fn has_suffix(text: &str, suffix: &str) -> (result: bool)
    ensures
        result == suffix@.is_suffix_of(text@),
{
    let a: Vec<char> = characters(text);
    let b: Vec<char> = characters(suffix);
    if b.len() > a.len() {
        return false;
    }
    let result: bool = matches_at(&a, a.len() - b.len(), &b);
    proof {
        let tail = a@.skip(a.len() - b.len());
        assert(tail =~= a@.subrange(a.len() - b.len(), a.len() as int));
        if result {
            assert(tail =~= b@);
        } else if b@.is_suffix_of(a@) {
            assert(b@.is_prefix_of(tail));
        }
    }
    result
}

/// Whether `pattern` stands in `text` at position `start`.
pub fn matches_at(text: &[char], start: usize, pattern: &[char]) -> (result: bool)
    requires
        start <= text.len(),
    ensures
        result == pattern@.is_prefix_of(text@.skip(start as int)),
{
    if pattern.len() > text.len() - start {
        return false;
    }
    let mut i: usize = 0;
    while i < pattern.len()
        invariant
            i <= pattern.len(),
            start + pattern.len() <= text.len(),
            forall|j: int| 0 <= j < i ==> text@[start + j] == pattern@[j],
        decreases pattern.len() - i,
    {
        if text[start + i] != pattern[i] {
            assert(text@.skip(start as int)[i as int] != pattern@[i as int]);
            return false;
        }
        i = i + 1;
    }
    assert(text@.skip(start as int).subrange(0, pattern.len() as int) =~= pattern@);
    true
}

/// Whether `needle` occurs somewhere in `text`.
pub open spec fn occurs_in(needle: Seq<char>, text: Seq<char>) -> bool {
    exists|start: int| 0 <= start <= text.len() && #[trigger] needle.is_prefix_of(text.skip(start))
}

/// Whether `text` contains `needle`.
pub fn contains_text(text: &str, needle: &str) -> (result: bool)
    ensures
        result == occurs_in(needle@, text@),
{
    let a: Vec<char> = characters(text);
    let b: Vec<char> = characters(needle);
    let mut start: usize = 0;
    loop
        invariant
            start <= a.len(),
            a@ == text@,
            b@ == needle@,
            forall|s: int| 0 <= s < start ==> !#[trigger] b@.is_prefix_of(a@.skip(s)),
        decreases a.len() - start,
    {
        if matches_at(&a, start, &b) {
            return true;
        }
        if start == a.len() {
            return false;
        }
        start = start + 1;
    }
}

/// Whether `text` contains the character `c`.
pub fn contains_character(text: &str, c: char) -> (result: bool)
    ensures
        result == text@.contains(c),
{
    let a: Vec<char> = characters(text);
    let mut i: usize = 0;
    while i < a.len()
        invariant
            i <= a.len(),
            a@ == text@,
            forall|j: int| 0 <= j < i ==> a@[j] != c,
        decreases a.len() - i,
    {
        if a[i] == c {
            assert(text@[i as int] == c);
            return true;
        }
        i = i + 1;
    }
    false
}

/// `text` with every occurrence of `pattern` replaced by `with`, found from
/// the left and without overlap. An empty pattern replaces nothing.
pub open spec fn replaced(text: Seq<char>, pattern: Seq<char>, with: Seq<char>) -> Seq<char>
    decreases text.len(),
{
    if text.len() == 0 || pattern.len() == 0 {
        text
    } else if pattern.is_prefix_of(text) {
        with + replaced(text.skip(pattern.len() as int), pattern, with)
    } else {
        seq![text[0]] + replaced(text.skip(1), pattern, with)
    }
}

/// Replaces every occurrence of a non-empty `pattern` in `text` by `with`.
pub fn replace(text: &str, pattern: &str, with: &str) -> (result: String)
    requires
        pattern@.len() > 0,
    ensures
        result@ == replaced(text@, pattern@, with@),
{
    let a: Vec<char> = characters(text);
    let b: Vec<char> = characters(pattern);
    let mut result: String = String::new();
    let mut i: usize = 0;
    assert(a@.skip(0) =~= text@);
    while i < a.len()
        invariant
            i <= a.len(),
            a@ == text@,
            b@ == pattern@,
            b@.len() > 0,
            result@ + replaced(a@.skip(i as int), b@, with@) == replaced(text@, b@, with@),
        decreases a.len() - i,
    {
        let ghost rest = a@.skip(i as int);
        if matches_at(&a, i, &b) {
            proof {
                assert(rest.skip(b@.len() as int) =~= a@.skip(i + b@.len()));
                assert(result@ + (with@ + replaced(a@.skip(i + b@.len()), b@, with@)) =~= (result@
                    + with@) + replaced(a@.skip(i + b@.len()), b@, with@));
            }
            result.append(with);
            i = i + b.len();
        } else {
            proof {
                assert(rest.skip(1) =~= a@.skip(i + 1));
                assert(result@ + (seq![rest[0]] + replaced(a@.skip(i + 1), b@, with@))
                    =~= result@.push(a@[i as int]) + replaced(a@.skip(i + 1), b@, with@));
            }
            result.push(a[i]);
            i = i + 1;
        }
    }
    assert(replaced(a@.skip(i as int), b@, with@).len() == 0);
    assert(result@ + replaced(a@.skip(i as int), b@, with@) =~= result@);
    result
}

/// The position of the last `c` in `text`, or -1.
pub open spec fn last_position(text: Seq<char>, c: char) -> int
    decreases text.len(),
{
    if text.len() == 0 {
        -1
    } else if text.last() == c {
        text.len() - 1
    } else {
        last_position(text.drop_last(), c)
    }
}

/// What the last position of a character is: the character stands there and
/// nowhere after; at -1 it stands nowhere.
pub proof fn lemma_last_position(text: Seq<char>, c: char)
    ensures
        -1 <= last_position(text, c) < text.len(),
        last_position(text, c) >= 0 ==> text[last_position(text, c)] == c,
        forall|i: int| last_position(text, c) < i < text.len() ==> text[i] != c,
    decreases text.len(),
{
    if text.len() > 0 && text.last() != c {
        lemma_last_position(text.drop_last(), c);
        assert forall|i: int| last_position(text, c) < i < text.len() implies text[i] != c by {
            if i < text.len() - 1 {
                assert(text.drop_last()[i] != c);
            }
        }
    }
}

/// The last position is the only position with the character there and nowhere after.
pub proof fn lemma_last_position_is(text: Seq<char>, c: char, position: int)
    requires
        0 <= position < text.len(),
        text[position] == c,
        forall|i: int| position < i < text.len() ==> text[i] != c,
    ensures
        last_position(text, c) == position,
{
    lemma_last_position(text, c);
}

/// Finds the last `c` in `text`.
pub fn find_last(text: &[char], c: char) -> (result: Option<usize>)
    ensures
        match result {
            Some(position) => position == last_position(text@, c),
            None => last_position(text@, c) == -1,
        },
{
    let mut i: usize = text.len();
    proof {
        lemma_last_position(text@, c);
    }
    while i > 0
        invariant
            i <= text.len(),
            -1 <= last_position(text@, c) < text.len(),
            last_position(text@, c) >= 0 ==> text@[last_position(text@, c)] == c,
            forall|j: int| i <= j < text.len() ==> text@[j] != c,
        decreases i,
    {
        if text[i - 1] == c {
            proof {
                lemma_last_position_is(text@, c, i - 1);
            }
            return Some(i - 1);
        }
        i = i - 1;
    }
    None
}

/// The position of the first `c` in `text`, or its length.
pub open spec fn first_position(text: Seq<char>, c: char) -> int
    decreases text.len(),
{
    if text.len() == 0 || text[0] == c {
        0
    } else {
        1 + first_position(text.skip(1), c)
    }
}

/// What the first position of a character is: the character stands there, if
/// anywhere, and nowhere before.
pub proof fn lemma_first_position(text: Seq<char>, c: char)
    ensures
        0 <= first_position(text, c) <= text.len(),
        first_position(text, c) < text.len() ==> text[first_position(text, c)] == c,
        forall|i: int| 0 <= i < first_position(text, c) ==> text[i] != c,
    decreases text.len(),
{
    if text.len() > 0 && text[0] != c {
        lemma_first_position(text.skip(1), c);
        assert forall|i: int| 0 <= i < first_position(text, c) implies text[i] != c by {
            if i > 0 {
                assert(text.skip(1)[i - 1] != c);
            }
        }
    }
}

/// Finds the first `c` in `text`, or its length.
pub fn find_first(text: &[char], c: char) -> (result: usize)
    ensures
        result == first_position(text@, c),
{
    let mut i: usize = 0;
    assert(text@.skip(0) =~= text@);
    while i < text.len()
        invariant
            i <= text.len(),
            first_position(text@, c) == i + first_position(text@.skip(i as int), c),
        decreases text.len() - i,
    {
        if text[i] == c {
            return i;
        }
        assert(text@.skip(i as int).skip(1) =~= text@.skip(i + 1));
        i = i + 1;
    }
    i
}

/// The Unicode `White_Space` property.
pub open spec fn is_white_space(c: char) -> bool {
    ||| 0x9 <= c as u32 <= 0xd
    ||| c as u32 == 0x20
    ||| c as u32 == 0x85
    ||| c as u32 == 0xa0
    ||| c as u32 == 0x1680
    ||| 0x2000 <= c as u32 <= 0x200a
    ||| c as u32 == 0x2028
    ||| c as u32 == 0x2029
    ||| c as u32 == 0x202f
    ||| c as u32 == 0x205f
    ||| c as u32 == 0x3000
}

/// Whether a character is white space.
pub fn white_space(c: char) -> (result: bool)
    ensures
        result == is_white_space(c),
{
    let code: u32 = c as u32;
    (0x9 <= code && code <= 0xd) || code == 0x20 || code == 0x85 || code == 0xa0 || code == 0x1680
        || (0x2000 <= code && code <= 0x200a) || code == 0x2028 || code == 0x2029 || code
        == 0x202f || code == 0x205f || code == 0x3000
}

/// Whether nothing but white space stands in `text`.
pub open spec fn is_blank(text: Seq<char>) -> bool {
    forall|i: int| 0 <= i < text.len() ==> is_white_space(#[trigger] text[i])
}

/// Whether `text` is empty once trimmed.
pub fn blank(text: &str) -> (result: bool)
    ensures
        result == is_blank(text@),
{
    let a: Vec<char> = characters(text);
    let mut i: usize = 0;
    while i < a.len()
        invariant
            i <= a.len(),
            a@ == text@,
            forall|j: int| 0 <= j < i ==> is_white_space(#[trigger] a@[j]),
        decreases a.len() - i,
    {
        if !white_space(a[i]) {
            assert(!is_white_space(text@[i as int]));
            return false;
        }
        i = i + 1;
    }
    true
}

/// `text` without its leading white space.
pub open spec fn trimmed_start(text: Seq<char>) -> Seq<char>
    decreases text.len(),
{
    if text.len() > 0 && is_white_space(text[0]) {
        trimmed_start(text.skip(1))
    } else {
        text
    }
}

/// Whether `text` begins with `c`, past its leading white space.
pub fn begins_after_space(text: &str, c: char) -> (result: bool)
    ensures
        result == (trimmed_start(text@).len() > 0 && trimmed_start(text@)[0] == c),
{
    let a: Vec<char> = characters(text);
    let mut i: usize = 0;
    assert(a@.skip(0) =~= a@);
    while i < a.len() && white_space(a[i])
        invariant
            i <= a.len(),
            a@ == text@,
            trimmed_start(a@) == trimmed_start(a@.skip(i as int)),
        decreases a.len() - i,
    {
        assert(a@.skip(i as int).skip(1) =~= a@.skip(i + 1));
        i = i + 1;
    }
    if i < a.len() {
        assert(a@.skip(i as int)[0] == a@[i as int]);
    }
    i < a.len() && a[i] == c
}

/// `text` without its trailing white space.
pub open spec fn trimmed_end(text: Seq<char>) -> Seq<char>
    decreases text.len(),
{
    if text.len() > 0 && is_white_space(text.last()) {
        trimmed_end(text.drop_last())
    } else {
        text
    }
}

/// `text` without the white space around it.
pub open spec fn trimmed(text: Seq<char>) -> Seq<char> {
    trimmed_end(trimmed_start(text))
}

/// The characters between the white space at both ends.
pub fn trim(text: &[char]) -> (result: Vec<char>)
    ensures
        result@ == trimmed(text@),
{
    let mut start: usize = 0;
    assert(text@.skip(0) =~= text@);
    while start < text.len() && white_space(text[start])
        invariant
            start <= text.len(),
            trimmed_start(text@) == trimmed_start(text@.skip(start as int)),
        decreases text.len() - start,
    {
        assert(text@.skip(start as int).skip(1) =~= text@.skip(start + 1));
        start = start + 1;
    }
    let mut end: usize = text.len();
    assert(text@.subrange(start as int, end as int) =~= text@.skip(start as int));
    while end > start && white_space(text[end - 1])
        invariant
            start <= end <= text.len(),
            trimmed(text@) == trimmed_end(text@.subrange(start as int, end as int)),
        decreases end,
    {
        assert(text@.subrange(start as int, end as int).drop_last() =~= text@.subrange(
            start as int,
            end - 1,
        ));
        end = end - 1;
    }
    copy_range(text, start, end)
}

/// The characters of `text` from `start` up to `end`.
pub fn copy_range(text: &[char], start: usize, end: usize) -> (result: Vec<char>)
    requires
        start <= end <= text.len(),
    ensures
        result@ == text@.subrange(start as int, end as int),
{
    let mut result: Vec<char> = Vec::new();
    let mut i: usize = start;
    while i < end
        invariant
            start <= i <= end <= text.len(),
            result@ == text@.subrange(start as int, i as int),
        decreases end - i,
    {
        result.push(text[i]);
        i = i + 1;
        assert(text@.subrange(start as int, i as int) =~= text@.subrange(
            start as int,
            i - 1,
        ).push(text@[i - 1]));
    }
    result
}

/// `text` without the run of `c` that it starts with.
pub open spec fn without_leading(text: Seq<char>, c: char) -> Seq<char>
    decreases text.len(),
{
    if text.len() > 0 && text[0] == c {
        without_leading(text.skip(1), c)
    } else {
        text
    }
}

/// Drops the run of `c` at the start of `text`.
pub fn strip_leading(text: &str, c: char) -> (result: String)
    ensures
        result@ == without_leading(text@, c),
{
    let a: Vec<char> = characters(text);
    let mut start: usize = 0;
    assert(a@.skip(0) =~= text@);
    while start < a.len() && a[start] == c
        invariant
            start <= a.len(),
            without_leading(text@, c) == without_leading(a@.skip(start as int), c),
        decreases a.len() - start,
    {
        assert(a@.skip(start as int).skip(1) =~= a@.skip(start + 1));
        start = start + 1;
    }
    let rest: Vec<char> = copy_range(&a, start, a.len());
    assert(rest@ =~= a@.skip(start as int));
    from_characters(&rest)
}

/// `text` without the run of `c` that it ends with.
pub open spec fn without_trailing(text: Seq<char>, c: char) -> Seq<char>
    decreases text.len(),
{
    if text.len() > 0 && text.last() == c {
        without_trailing(text.drop_last(), c)
    } else {
        text
    }
}

/// Drops the run of `c` at the end of `text`.
pub fn strip_trailing(text: &str, c: char) -> (result: String)
    ensures
        result@ == without_trailing(text@, c),
{
    let a: Vec<char> = characters(text);
    let mut end: usize = a.len();
    assert(a@.subrange(0, end as int) =~= text@);
    while end > 0 && a[end - 1] == c
        invariant
            end <= a.len(),
            without_trailing(text@, c) == without_trailing(a@.subrange(0, end as int), c),
        decreases end,
    {
        assert(a@.subrange(0, end as int).drop_last() =~= a@.subrange(0, end - 1));
        end = end - 1;
    }
    let rest: Vec<char> = copy_range(&a, 0, end);
    from_characters(&rest)
}

/// The decimal digit for a value below ten.
pub open spec fn digit(value: nat) -> char {
    (48 + value) as char
}

/// The decimal spelling of a natural number.
pub open spec fn decimal(value: nat) -> Seq<char>
    decreases value,
{
    if value < 10 {
        seq![digit(value)]
    } else {
        decimal(value / 10).push(digit(value % 10))
    }
}

/// Spells a number in decimal.
pub fn spell(value: u64) -> (result: String)
    ensures
        result@ == decimal(value as nat),
    decreases value,
{
    let mut result: String = if value < 10 {
        String::new()
    } else {
        spell(value / 10)
    };
    let last: u8 = 48 + (value % 10) as u8;
    result.push(last as char);
    assert(result@ =~= decimal(value as nat));
    result
}

/// The number that a non-empty run of decimal digits spells.
pub open spec fn digits_value(text: Seq<char>) -> nat
    decreases text.len(),
{
    if text.len() == 0 {
        0
    } else {
        digits_value(text.drop_last()) * 10 + (text.last() as u32 - 48) as nat
    }
}

/// Whether only decimal digits stand in `text`, at least one of them.
pub open spec fn is_digits(text: Seq<char>) -> bool {
    text.len() > 0 && forall|i: int| 0 <= i < text.len() ==> 48 <= #[trigger] text[i] as u32 <= 57
}

/// The unsigned number of at most `limit` that `text` spells: digits, which
/// one plus sign may precede.
pub open spec fn parsed_number(text: Seq<char>, limit: nat) -> Option<nat> {
    let digits = if text.len() > 0 && text[0] == '+' {
        text.skip(1)
    } else {
        text
    };
    if is_digits(digits) && digits_value(digits) <= limit {
        Some(digits_value(digits))
    } else {
        None
    }
}

proof fn lemma_digits_value_grows(text: Seq<char>, length: int)
    requires
        is_digits(text),
        0 <= length <= text.len(),
    ensures
        digits_value(text.take(length)) <= digits_value(text),
    decreases text.len() - length,
{
    if length < text.len() {
        assert(text.take(length + 1).drop_last() =~= text.take(length));
        lemma_digits_value_grows(text, length + 1);
    } else {
        assert(text.take(length) =~= text);
    }
}

/// Parses an unsigned 64-bit number.
pub fn parse_number(text: &str) -> (result: Option<u64>)
    ensures
        match result {
            Some(value) => parsed_number(text@, u64::MAX as nat) == Some(value as nat),
            None => parsed_number(text@, u64::MAX as nat) is None,
        },
{
    let a: Vec<char> = characters(text);
    let signed: bool = a.len() > 0 && a[0] == '+';
    let digits: Vec<char> = if signed {
        copy_range(&a, 1, a.len())
    } else {
        copy_range(&a, 0, a.len())
    };
    proof {
        if signed {
            assert(digits@ =~= text@.skip(1));
        } else {
            assert(digits@ =~= text@);
        }
    }
    if digits.len() == 0 {
        return None;
    }
    let mut value: u64 = 0;
    let mut i: usize = 0;
    while i < digits.len()
        invariant
            i <= digits.len(),
            digits.len() > 0,
            digits@ == if text@.len() > 0 && text@[0] == '+' {
                text@.skip(1)
            } else {
                text@
            },
            forall|j: int| 0 <= j < i ==> 48 <= #[trigger] digits@[j] as u32 <= 57,
            value == digits_value(digits@.take(i as int)),
        decreases digits.len() - i,
    {
        let code: u32 = digits[i] as u32;
        if code < 48 || code > 57 {
            assert(!(48 <= digits@[i as int] as u32 <= 57));
            return None;
        }
        assert(digits@.take(i + 1).drop_last() =~= digits@.take(i as int));
        assert(digits_value(digits@.take(i + 1)) == value * 10 + (code - 48));
        let unit: u64 = (code - 48) as u64;
        if value > (u64::MAX - unit) / 10 {
            proof {
                if is_digits(digits@) {
                    lemma_digits_value_grows(digits@, i + 1);
                }
            }
            return None;
        }
        value = value * 10 + unit;
        i = i + 1;
    }
    assert(digits@.take(i as int) =~= digits@);
    Some(value)
}

/// Whether `left` comes before `right` in the order of their characters'
/// code points, a proper prefix coming first.
pub open spec fn text_less(left: Seq<char>, right: Seq<char>) -> bool
    decreases left.len(),
{
    if right.len() == 0 {
        false
    } else if left.len() == 0 {
        true
    } else if left[0] == right[0] {
        text_less(left.skip(1), right.skip(1))
    } else {
        (left[0] as u32) < (right[0] as u32)
    }
}

/// Compares two strings by code points.
pub fn less(left: &str, right: &str) -> (result: bool)
    ensures
        result == text_less(left@, right@),
{
    let a: Vec<char> = characters(left);
    let b: Vec<char> = characters(right);
    let mut i: usize = 0;
    assert(a@.skip(0) =~= left@);
    assert(b@.skip(0) =~= right@);
    while i < a.len() && i < b.len() && a[i] == b[i]
        invariant
            i <= a.len(),
            i <= b.len(),
            text_less(left@, right@) == text_less(a@.skip(i as int), b@.skip(i as int)),
        decreases a.len() - i,
    {
        assert(a@.skip(i as int).skip(1) =~= a@.skip(i + 1));
        assert(b@.skip(i as int).skip(1) =~= b@.skip(i + 1));
        i = i + 1;
    }
    if i == b.len() {
        false
    } else if i == a.len() {
        true
    } else {
        (a[i] as u32) < (b[i] as u32)
    }
}

/// No text comes before itself.
pub proof fn lemma_less_irreflexive(text: Seq<char>)
    ensures
        !text_less(text, text),
    decreases text.len(),
{
    if text.len() > 0 {
        lemma_less_irreflexive(text.skip(1));
    }
}

/// Of two texts, one comes before the other unless they are equal.
pub proof fn lemma_less_total(left: Seq<char>, right: Seq<char>)
    ensures
        text_less(left, right) || text_less(right, left) || left == right,
    decreases left.len(),
{
    if left.len() > 0 && right.len() > 0 {
        if left[0] == right[0] {
            lemma_less_total(left.skip(1), right.skip(1));
            if left.skip(1) == right.skip(1) {
                assert(left.len() == left.skip(1).len() + 1);
                assert(right.len() == right.skip(1).len() + 1);
                assert forall|i: int| 0 <= i < left.len() implies left[i] == right[i] by {
                    if i > 0 {
                        assert(left[i] == left.skip(1)[i - 1]);
                        assert(right[i] == right.skip(1)[i - 1]);
                    }
                }
                assert(left =~= right);
            }
        } else {
            char_u32_cast(left[0], left[0] as u32);
            char_u32_cast(right[0], right[0] as u32);
            assert(left[0] as u32 != right[0] as u32);
        }
    } else {
        if left.len() == 0 && right.len() == 0 {
            assert(left =~= right);
        }
    }
}

/// The order of texts is transitive.
pub proof fn lemma_less_transitive(a: Seq<char>, b: Seq<char>, c: Seq<char>)
    requires
        text_less(a, b),
        text_less(b, c),
    ensures
        text_less(a, c),
    decreases a.len(),
{
    if a.len() > 0 && b.len() > 0 && c.len() > 0 && a[0] == b[0] && b[0] == c[0] {
        lemma_less_transitive(a.skip(1), b.skip(1), c.skip(1));
    }
}

/// Copies a list of strings.
pub fn copy_texts(strings: &[String]) -> (result: Vec<String>)
    ensures
        result@ == strings@,
{
    let mut result: Vec<String> = Vec::new();
    let mut i: usize = 0;
    while i < strings.len()
        invariant
            i <= strings.len(),
            result@ == strings@.take(i as int),
        decreases strings.len() - i,
    {
        result.push(strings[i].clone());
        i = i + 1;
        assert(strings@.take(i as int) =~= strings@.take(i - 1).push(strings@[i - 1]));
    }
    assert(strings@.take(i as int) =~= strings@);
    result
}

/// Whether a list of strings holds `needle`.
pub fn holds_text(strings: &[String], needle: &str) -> (result: bool)
    ensures
        result == texts(strings@).contains(needle@),
{
    let mut i: usize = 0;
    while i < strings.len()
        invariant
            i <= strings.len(),
            forall|j: int| 0 <= j < i ==> strings@[j]@ != needle@,
        decreases strings.len() - i,
    {
        if same(strings[i].as_str(), needle) {
            assert(texts(strings@)[i as int] == needle@);
            return true;
        }
        i = i + 1;
    }
    false
}

/// The texts of a list that grew by one string.
pub broadcast proof fn lemma_texts_push(strings: Seq<String>, string: String)
    ensures
        #[trigger] texts(strings.push(string)) == texts(strings).push(string@),
{
    assert(texts(strings.push(string)) =~= texts(strings).push(string@));
}

/// An optional text over characters.
pub open spec fn optional_str(text: Option<&str>) -> Option<Seq<char>> {
    match text {
        Some(t) => Some(t@),
        None => None,
    }
}

/// Copies an optional text.
pub fn copy_optional_text(text: &Option<String>) -> (result: Option<String>)
    ensures
        optional_text(result) == optional_text(*text),
{
    match text {
        Some(string) => Some(string.clone()),
        None => None,
    }
}

} // verus!
