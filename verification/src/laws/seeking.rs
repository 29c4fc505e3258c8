//! What reading a window of lines gives.
use vstd::prelude::*;
use vstd::utf8::*;
use crate::error::Fault;
use crate::json::decoded_array;
use crate::seek::{
    body_window, first_marked, is_marked, judged, lemma_first_marked, lemma_line_length,
    line_length, lines, matching_prefix, opening_prefix, query_window, resolved, window_bytes,
    window_end, window_lines, window_start, window_text, SeekBody, SeekBodyToPrefixes, Window,
};
use crate::text::{optional_texts, replaced, texts};

verus! {

/// Whether a line begins with the bytes of one of some texts.
pub open spec fn begins_with_one(line: Seq<u8>, prefixes: Seq<Seq<char>>) -> bool {
    exists|i: int| 0 <= i < prefixes.len() && encode_utf8(#[trigger] prefixes[i]).is_prefix_of(line)
}

proof fn lemma_matching_prefix(line: Seq<u8>, prefixes: Seq<Seq<char>>)
    ensures
        0 <= matching_prefix(line, prefixes) <= prefixes.len(),
        matching_prefix(line, prefixes) < prefixes.len() ==> encode_utf8(
            prefixes[matching_prefix(line, prefixes)],
        ).is_prefix_of(line),
        forall|i: int|
            0 <= i < matching_prefix(line, prefixes) ==> !encode_utf8(
                #[trigger] prefixes[i],
            ).is_prefix_of(line),
    decreases prefixes.len(),
{
    if prefixes.len() > 0 && !encode_utf8(prefixes[0]).is_prefix_of(line) {
        let rest = prefixes.skip(1);
        lemma_matching_prefix(line, rest);
        assert forall|i: int| 0 <= i < matching_prefix(line, prefixes) implies !encode_utf8(
            #[trigger] prefixes[i],
        ).is_prefix_of(line) by {
            if i > 0 {
                assert(rest[i - 1] == prefixes[i]);
            }
        }
    }
}

proof fn lemma_marked(line: Seq<u8>, prefixes: Seq<Seq<char>>)
    ensures
        is_marked(line, prefixes) <==> begins_with_one(line, prefixes),
{
    lemma_matching_prefix(line, prefixes);
}

/// Lines are cut after each newline and nowhere else: put together they are
/// the content, none is empty, a newline stands at the end of a line only, and
/// only the last line may be without one.
pub proof fn law_lines_end_at_newlines(content: Seq<u8>)
    ensures
        lines(content).flatten() == content,
        forall|i: int| 0 <= i < lines(content).len() ==> (#[trigger] lines(content)[i]).len() > 0,
        forall|i: int, k: int|
            0 <= i < lines(content).len() && 0 <= k < lines(content)[i].len() - 1
                ==> #[trigger] lines(content)[i][k] != 10u8,
        forall|i: int|
            0 <= i < lines(content).len() - 1 ==> (#[trigger] lines(content)[i]).last() == 10u8,
    decreases content.len(),
{
    crate::seek::law_lines_make_up_content(content);
    if content.len() > 0 {
        let n = line_length(content);
        let rest = content.skip(n);
        let all = lines(content);
        lemma_line_length(content);
        lemma_line_is_cut(content);
        law_lines_end_at_newlines(rest);
        assert(all[0] == content.take(n));
        assert forall|i: int| 0 < i < all.len() implies #[trigger] all[i] == lines(rest)[i - 1] by {}
        assert forall|i: int, k: int|
            0 <= i < all.len() && 0 <= k < all[i].len() - 1 implies #[trigger] all[i][k] != 10u8 by {
            if i > 0 {
                assert(all[i] == lines(rest)[i - 1]);
                assert(lines(rest)[i - 1][k] != 10u8);
            }
        }
        assert forall|i: int| 0 <= i < all.len() - 1 implies (#[trigger] all[i]).last() == 10u8 by {
            if i > 0 {
                assert(all[i] == lines(rest)[i - 1]);
            } else {
                assert(rest.len() > 0);
                assert(all[0].last() == content[n - 1]);
            }
        }
    }
}

proof fn lemma_line_is_cut(content: Seq<u8>)
    requires
        content.len() > 0,
    ensures
        forall|k: int| 0 <= k < line_length(content) - 1 ==> content[k] != 10u8,
        line_length(content) < content.len() ==> content[line_length(content) - 1] == 10u8,
    decreases content.len(),
{
    if content[0] != 10u8 && content.len() > 1 {
        let rest = content.skip(1);
        lemma_line_is_cut(rest);
        lemma_line_length(rest);
        assert forall|k: int| 0 <= k < line_length(content) - 1 implies content[k] != 10u8 by {
            if k > 0 {
                assert(rest[k - 1] == content[k]);
            }
        }
        assert(content[line_length(content) - 1] == rest[line_length(rest) - 1]);
    } else if content[0] != 10u8 {
        assert(line_length(content.skip(1)) == 0);
    }
}

/// Where no line begins with one of the `from` prefixes, the window is empty.
pub proof fn law_unopened_window_is_empty(content: Seq<u8>, window: Window, path: Seq<char>)
    requires
        window.from is Some,
        forall|i: int|
            0 <= i < lines(content).len() ==> !begins_with_one(
                #[trigger] lines(content)[i],
                window.from->0,
            ),
    ensures
        window_text(content, window, path) == Ok::<Seq<char>, Fault>(Seq::empty()),
{
    let all = lines(content);
    lemma_first_marked(all, window.from->0, 0);
    let start = window_start(all, window);
    if start < all.len() {
        lemma_marked(all[start], window.from->0);
    }
    assert(window_lines(content, window).flatten() =~= Seq::<u8>::empty());
    assert(window_bytes(content, window) =~= Seq::<u8>::empty());
    assert(valid_utf8(Seq::<u8>::empty())) by {
        encode_utf8_valid_utf8(Seq::empty());
        assert(encode_utf8(Seq::<char>::empty()) =~= Seq::<u8>::empty());
    }
    assert(decode_utf8(Seq::<u8>::empty()) =~= Seq::<char>::empty()) by {
        encode_utf8_decode_utf8(Seq::empty());
        assert(encode_utf8(Seq::<char>::empty()) =~= Seq::<u8>::empty());
    }
}

/// What a window holds. It opens at line `s`: the first one, or the first that
/// begins with a `from` prefix, of which `p` is the first that it begins with.
/// It is the lines from there on, at least that one and at most its maximum.
/// It ends before the last line of the content only because it is full, or
/// because its last line, which is not its first, begins with an end marker; no
/// line between its first and its last begins with one. The end markers are
/// the `to` prefixes, with the `from` prefix that opened the window in place
/// of the meta value. Read as text it is these lines, or refused if they are
/// not UTF-8.
pub proof fn law_window_ends_for_a_reason(
    content: Seq<u8>,
    window: Window,
    path: Seq<char>,
    s: int,
    p: int,
    markers: Seq<Seq<char>>,
)
    requires
        0 <= s < lines(content).len(),
        match window.from {
            None => s == 0 && (window.to matches Some(to) ==> markers == to),
            Some(from) => {
                &&& forall|i: int|
                    0 <= i < s ==> !begins_with_one(#[trigger] lines(content)[i], from)
                &&& 0 <= p < from.len()
                &&& encode_utf8(from[p]).is_prefix_of(lines(content)[s])
                &&& forall|q: int|
                    0 <= q < p ==> !encode_utf8(#[trigger] from[q]).is_prefix_of(lines(content)[s])
                &&& window.to matches Some(to) ==> markers.len() == to.len() && forall|j: int|
                    0 <= j < to.len() ==> #[trigger] markers[j] == replaced(
                        to[j],
                        "$seek_from_line_starts_with"@,
                        from[p],
                    )
            },
        },
    ensures
        ({
            let all = lines(content);
            let shown = window_lines(content, window);
            let n = shown.len() as int;
            &&& shown == all.subrange(s, s + n)
            &&& s + n <= all.len()
            &&& window.maximum != Some(0nat) ==> n >= 1
            &&& window.maximum matches Some(maximum) ==> n <= maximum
            &&& s + n < all.len() ==> window.maximum == Some(n as nat) || (window.to is Some && n
                >= 2 && begins_with_one(all[s + n - 1], markers))
            &&& window.to is Some ==> forall|i: int|
                s < i < s + n - 1 ==> !begins_with_one(#[trigger] all[i], markers)
            &&& window_text(content, window, path) == if valid_utf8(shown.flatten()) {
                Ok(decode_utf8(shown.flatten()))
            } else {
                Err(Fault::InvalidUtf8(path))
            }
        }),
{
    let all = lines(content);
    match window.from {
        None => {},
        Some(from) => {
            lemma_first_marked(all, from, 0);
            lemma_marked(all[s], from);
            lemma_matching_prefix(all[s], from);
            let start = window_start(all, window);
            if start < s {
                lemma_marked(all[start], from);
            }
            assert(start == s);
            assert(matching_prefix(all[s], from) == p);
            if let Some(to) = window.to {
                assert(resolved(to, opening_prefix(all, window, s)) =~= markers);
            }
        },
    }
    assert(window_start(all, window) == s);
    if let Some(to) = window.to {
        assert(resolved(to, opening_prefix(all, window, s)) == markers);
        lemma_first_marked(all, markers, s + 1);
        let stop = first_marked(all, markers, s + 1);
        if stop < all.len() {
            lemma_marked(all[stop], markers);
        }
        assert forall|i: int| s < i < stop implies !begins_with_one(#[trigger] all[i], markers) by {
            lemma_marked(all[i], markers);
        }
    }
    let end = window_end(all, window, s);
    assert(window_lines(content, window) == all.subrange(s, end));
    assert(window_lines(content, window).len() == end - s);
}

/// Without an end marker after its first line, and without a maximum, a window
/// runs to the end of the content.
pub proof fn law_unmarked_window_runs_on(
    content: Seq<u8>,
    window: Window,
    path: Seq<char>,
    s: int,
    p: int,
    markers: Seq<Seq<char>>,
)
    requires
        0 <= s < lines(content).len(),
        match window.from {
            None => s == 0 && (window.to matches Some(to) ==> markers == to),
            Some(from) => {
                &&& forall|i: int|
                    0 <= i < s ==> !begins_with_one(#[trigger] lines(content)[i], from)
                &&& 0 <= p < from.len()
                &&& encode_utf8(from[p]).is_prefix_of(lines(content)[s])
                &&& forall|q: int|
                    0 <= q < p ==> !encode_utf8(#[trigger] from[q]).is_prefix_of(lines(content)[s])
                &&& window.to matches Some(to) ==> markers.len() == to.len() && forall|j: int|
                    0 <= j < to.len() ==> #[trigger] markers[j] == replaced(
                        to[j],
                        "$seek_from_line_starts_with"@,
                        from[p],
                    )
            },
        },
        window.maximum is None,
        window.to is Some ==> forall|i: int|
            s < i < lines(content).len() ==> !begins_with_one(#[trigger] lines(content)[i], markers),
    ensures
        window_lines(content, window) == lines(content).skip(s),
{
    law_window_ends_for_a_reason(content, window, path, s, p, markers);
    let n = window_lines(content, window).len() as int;
    assert(s + n == lines(content).len());
    assert(lines(content).subrange(s, s + n) =~= lines(content).skip(s));
}

/// Texts are replaced from the left: what holds no pattern stays, and where the
/// first one stands the other text stands instead, the rest being replaced in
/// turn.
pub proof fn law_replaced_from_the_left(
    before: Seq<char>,
    pattern: Seq<char>,
    after: Seq<char>,
    with: Seq<char>,
)
    requires
        pattern.len() > 0,
    ensures
        (forall|i: int|
            0 <= i < after.len() ==> !pattern.is_prefix_of(#[trigger] after.skip(i))) ==> replaced(
            after,
            pattern,
            with,
        ) == after,
        (forall|i: int|
            0 <= i < before.len() ==> !pattern.is_prefix_of(
                #[trigger] (before + pattern + after).skip(i),
            )) ==> replaced(before + pattern + after, pattern, with) == before + with + replaced(
            after,
            pattern,
            with,
        ),
{
    if forall|i: int| 0 <= i < after.len() ==> !pattern.is_prefix_of(#[trigger] after.skip(i)) {
        lemma_nothing_replaced(after, pattern, with);
    }
    if forall|i: int|
        0 <= i < before.len() ==> !pattern.is_prefix_of(#[trigger] (before + pattern + after).skip(i)) {
        lemma_first_replaced(before, pattern, after, with);
    }
}

proof fn lemma_nothing_replaced(text: Seq<char>, pattern: Seq<char>, with: Seq<char>)
    requires
        forall|i: int| 0 <= i < text.len() ==> !pattern.is_prefix_of(#[trigger] text.skip(i)),
    ensures
        replaced(text, pattern, with) == text,
    decreases text.len(),
{
    if text.len() > 0 {
        assert(text.skip(0) =~= text);
        let rest = text.skip(1);
        assert forall|i: int| 0 <= i < rest.len() implies !pattern.is_prefix_of(
            #[trigger] rest.skip(i),
        ) by {
            assert(rest.skip(i) =~= text.skip(i + 1));
        }
        lemma_nothing_replaced(rest, pattern, with);
        assert(seq![text[0]] + rest =~= text);
    }
}

proof fn lemma_first_replaced(
    before: Seq<char>,
    pattern: Seq<char>,
    after: Seq<char>,
    with: Seq<char>,
)
    requires
        pattern.len() > 0,
        forall|i: int|
            0 <= i < before.len() ==> !pattern.is_prefix_of(
                #[trigger] (before + pattern + after).skip(i),
            ),
    ensures
        replaced(before + pattern + after, pattern, with) == before + with + replaced(
            after,
            pattern,
            with,
        ),
    decreases before.len(),
{
    let text = before + pattern + after;
    assert(text.skip(0) =~= text);
    if before.len() == 0 {
        assert(pattern =~= text.subrange(0, pattern.len() as int));
        assert(text.skip(pattern.len() as int) =~= after);
        assert(before + with + replaced(after, pattern, with) =~= with + replaced(
            after,
            pattern,
            with,
        ));
    } else {
        let rest = before.skip(1);
        assert(text.skip(1) =~= rest + pattern + after);
        assert forall|i: int| 0 <= i < rest.len() implies !pattern.is_prefix_of(
            #[trigger] (rest + pattern + after).skip(i),
        ) by {
            assert((rest + pattern + after).skip(i) =~= text.skip(i + 1));
        }
        lemma_first_replaced(rest, pattern, after, with);
        assert(!pattern.is_prefix_of(text.skip(0)));
        assert(seq![text[0]] + (rest + with + replaced(after, pattern, with)) =~= before + with
            + replaced(after, pattern, with));
    }
}

/// Whether a list of prefixes is given and is empty or holds an empty one.
pub open spec fn lacks_a_prefix(prefixes: Option<Seq<Seq<char>>>) -> bool {
    prefixes matches Some(list) && (list.len() == 0 || exists|i: int|
        0 <= i < list.len() && (#[trigger] list[i]).len() == 0)
}

/// Whether the meta value stands in one of the `to` prefixes of a window.
pub open spec fn refers_to_opening(window: Window) -> bool {
    window.to matches Some(to) && exists|i: int, k: int|
        0 <= i < to.len() && 0 <= k <= to[i].len() && "$seek_from_line_starts_with"@.is_prefix_of(
            #[trigger] to[i].skip(k),
        )
}

/// A window is accepted as it is, or refused: exactly if a list of prefixes is
/// empty or holds an empty one, if the end refers to an opening that is not
/// set, or if it is to hold no line.
pub proof fn law_window_is_accepted_or_refused(
    window: Window,
    names: (Seq<char>, Seq<char>, Seq<char>),
)
    ensures
        ({
            let refused = lacks_a_prefix(window.from) || lacks_a_prefix(window.to) || (
            window.from is None && refers_to_opening(window)) || window.maximum == Some(0nat);
            match judged(window, names) {
                Ok(accepted) => !refused && accepted == window,
                Err(fault) => refused && fault is InvalidOperation,
            }
        }),
{
    if let Some(to) = window.to {
        if crate::seek::some_meta(to) {
            let i = choose|i: int|
                0 <= i < to.len() && crate::text::occurs_in(
                    crate::seek::SEEK_TO_FROM_META@,
                    #[trigger] to[i],
                );
            let k = choose|k: int|
                0 <= k <= to[i].len() && #[trigger] crate::seek::SEEK_TO_FROM_META@.is_prefix_of(
                    to[i].skip(k),
                );
            assert("$seek_from_line_starts_with"@.is_prefix_of(to[i].skip(k)));
        }
        if refers_to_opening(window) {
            let (i, k) = choose|i: int, k: int|
                0 <= i < to.len() && 0 <= k <= to[i].len()
                    && "$seek_from_line_starts_with"@.is_prefix_of(#[trigger] to[i].skip(k));
            assert(crate::seek::SEEK_TO_FROM_META@.is_prefix_of(to[i].skip(k)));
            assert(crate::text::occurs_in(crate::seek::SEEK_TO_FROM_META@, to[i]));
        }
    }
}

/// A window that a query asks for has the prefixes that its parameters spell
/// and its maximum; the bare meta value is a list of that value.
pub proof fn law_query_means_its_lists(
    from: Option<Seq<char>>,
    to: Option<Seq<char>>,
    maximum: Option<nat>,
)
    ensures
        query_window(from, to, maximum) matches Ok(window) ==> {
            &&& window.maximum == maximum
            &&& match from {
                None => window.from is None,
                Some(raw) => decoded_array(raw) is Some && window.from == decoded_array(raw),
            }
            &&& match to {
                None => window.to is None,
                Some(raw) => if raw == "$seek_from_line_starts_with"@ {
                    window.to == Some(seq![raw])
                } else {
                    decoded_array(raw) is Some && window.to == decoded_array(raw)
                },
            }
        },
        from is None && to is None && maximum != Some(0nat) ==> query_window(from, to, maximum)
            is Ok,
{
}

/// A window that a body asks for has the prefixes and the maximum that it
/// states; the bare meta value is a list of that value, and any other bare
/// value is refused.
pub proof fn law_body_means_its_lists(body: SeekBody)
    ensures
        body_window(body) matches Ok(window) ==> {
            &&& window.from == optional_texts(body.from_line_starts_with)
            &&& window.maximum == match body.lines_maximum {
                Some(maximum) => Some(maximum as nat),
                None => None,
            }
            &&& match body.to_line_starts_with {
                None => window.to is None,
                Some(SeekBodyToPrefixes::Values(values)) => window.to == Some(texts(values@)),
                Some(SeekBodyToPrefixes::Value(value)) => value@
                    == "$seek_from_line_starts_with"@ && window.to == Some(seq![value@]),
            }
        },
        body.to_line_starts_with matches Some(SeekBodyToPrefixes::Value(value)) && value@
            != "$seek_from_line_starts_with"@ ==> body_window(body) is Err,
{
}

} // verus!
