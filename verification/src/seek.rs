//! Line windows over file content.
//!
//! A window starts at the first line that begins with one of the `from`
//! prefixes, ends with the first later line that begins with one of the `to`
//! prefixes, and holds no more than a given number of lines. Matching is on
//! bytes; only the selected window has to be UTF-8.
use vstd::prelude::*;
use vstd::utf8::*;
use crate::error::{invalid_operation, AppError, Fault};
use crate::json::{decode_array, decoded_array};
use crate::text::{
    contains_text, copy_texts, joined, occurs_in, optional_texts, replace, replaced, same, texts,
};

verus! {

/// Stands, among the `to` prefixes, for the `from` prefix that opened the window.
pub const SEEK_TO_FROM_META: &'static str = "$seek_from_line_starts_with";

/// How the seek fields are named on one wire format.
pub struct SeekParameterNames {
    pub from: &'static str,
    pub to: &'static str,
    pub maximum: &'static str,
}

/// The names of the query parameters.
pub open spec fn query_names() -> (Seq<char>, Seq<char>, Seq<char>) {
    (
        "seek_from_line_starts_with"@,
        "seek_to_line_starts_with"@,
        "seek_lines_maximum"@,
    )
}

/// The names of the body fields.
pub open spec fn body_names() -> (Seq<char>, Seq<char>, Seq<char>) {
    ("seek.from_line_starts_with"@, "seek.to_line_starts_with"@, "seek.lines_maximum"@)
}

impl View for SeekParameterNames {
    type V = (Seq<char>, Seq<char>, Seq<char>);

    open spec fn view(&self) -> (Seq<char>, Seq<char>, Seq<char>) {
        (self.from@, self.to@, self.maximum@)
    }
}

fn query_parameter_names() -> (result: SeekParameterNames)
    ensures
        result@ == query_names(),
{
    SeekParameterNames {
        from: "seek_from_line_starts_with",
        to: "seek_to_line_starts_with",
        maximum: "seek_lines_maximum",
    }
}

fn body_parameter_names() -> (result: SeekParameterNames)
    ensures
        result@ == body_names(),
{
    SeekParameterNames {
        from: "seek.from_line_starts_with",
        to: "seek.to_line_starts_with",
        maximum: "seek.lines_maximum",
    }
}

/// The seek filters as they arrive in query parameters. Prefix lists travel
/// as JSON arrays spelled in strings.
#[derive(Debug, Clone)]
pub struct SeekOptions {
    pub seek_from_line_starts_with: Option<String>,
    pub seek_to_line_starts_with: Option<String>,
    pub seek_lines_maximum: Option<usize>,
}

/// The seek filters as they arrive in a JSON body.
#[derive(Debug, Clone)]
pub struct SeekBody {
    pub from_line_starts_with: Option<Vec<String>>,
    pub to_line_starts_with: Option<SeekBodyToPrefixes>,
    pub lines_maximum: Option<usize>,
}

/// The two spellings of the `to` prefixes in a body: an array, or the bare
/// meta value.
#[derive(Debug, Clone)]
pub enum SeekBodyToPrefixes {
    Value(String),
    Values(Vec<String>),
}

/// A validated line window.
#[derive(Debug, Clone)]
pub struct SeekFilter {
    pub from_prefixes: Option<Vec<String>>,
    pub to_prefixes: Option<Vec<String>>,
    pub lines_maximum: Option<usize>,
}

/// A line window over characters.
pub struct Window {
    pub from: Option<Seq<Seq<char>>>,
    pub to: Option<Seq<Seq<char>>>,
    pub maximum: Option<nat>,
}

/// An optional count as a number.
pub open spec fn optional_count(count: Option<usize>) -> Option<nat> {
    match count {
        Some(value) => Some(value as nat),
        None => None,
    }
}

impl View for SeekFilter {
    type V = Window;

    open spec fn view(&self) -> Window {
        Window {
            from: optional_texts(self.from_prefixes),
            to: optional_texts(self.to_prefixes),
            maximum: optional_count(self.lines_maximum),
        }
    }
}

/// Whether some text of a list is empty.
pub open spec fn some_empty(list: Seq<Seq<char>>) -> bool {
    exists|i: int| 0 <= i < list.len() && (#[trigger] list[i]).len() == 0
}

/// Whether some text of a list holds the meta value.
pub open spec fn some_meta(list: Seq<Seq<char>>) -> bool {
    exists|i: int| 0 <= i < list.len() && occurs_in(SEEK_TO_FROM_META@, #[trigger] list[i])
}

/// Why a prefix list is refused, if it is.
pub open spec fn prefixes_fault(prefixes: Option<Seq<Seq<char>>>, parameter: Seq<char>) -> Option<
    Seq<char>,
> {
    match prefixes {
        None => None,
        Some(list) => if list.len() == 0 {
            Some(parameter + " must contain at least one prefix"@)
        } else if some_empty(list) {
            Some(parameter + " prefixes must not be empty"@)
        } else {
            None
        },
    }
}

/// Why a window is refused, if it is: the first reason, in the order in which
/// the parameters are judged.
pub open spec fn window_fault(window: Window, names: (Seq<char>, Seq<char>, Seq<char>)) -> Option<
    Seq<char>,
> {
    if prefixes_fault(window.from, names.0) is Some {
        prefixes_fault(window.from, names.0)
    } else if prefixes_fault(window.to, names.1) is Some {
        prefixes_fault(window.to, names.1)
    } else if window.from is None && window.to is Some && some_meta(window.to->0) {
        Some(names.1 + " uses "@ + SEEK_TO_FROM_META@ + " but "@ + names.0 + " is not set"@)
    } else if window.maximum == Some(0nat) {
        Some(names.2 + " must be at least 1"@)
    } else {
        None
    }
}

/// A window, or the reason it is refused.
pub open spec fn judged(window: Window, names: (Seq<char>, Seq<char>, Seq<char>)) -> Result<
    Window,
    Fault,
> {
    match window_fault(window, names) {
        None => Ok(window),
        Some(reason) => Err(Fault::InvalidOperation(reason)),
    }
}

/// The outcome of building a filter, over its views.
pub open spec fn filter_outcome(result: Result<SeekFilter, AppError>) -> Result<Window, Fault> {
    match result {
        Ok(filter) => Ok(filter@),
        Err(error) => Err(error@),
    }
}

/// The `to` list that the bare meta value stands for.
pub open spec fn meta_only() -> Seq<Seq<char>> {
    seq![SEEK_TO_FROM_META@]
}

/// What a query's prefix parameter decodes to: the array it spells, or the
/// reason it is refused.
pub open spec fn decoded_parameter(raw: Option<Seq<char>>, parameter: Seq<char>) -> Result<
    Option<Seq<Seq<char>>>,
    Fault,
> {
    match raw {
        None => Ok(None),
        Some(text) => match decoded_array(text) {
            Some(list) => Ok(Some(list)),
            None => Err(
                Fault::InvalidOperation(
                    parameter + " must be a JSON array of strings, e.g. [\"## \"]"@,
                ),
            ),
        },
    }
}

/// What a query's seek parameters mean.
pub open spec fn query_window(
    from: Option<Seq<char>>,
    to: Option<Seq<char>>,
    maximum: Option<nat>,
) -> Result<Window, Fault> {
    let names = query_names();
    let to_decoded = if to == Some(SEEK_TO_FROM_META@) {
        Ok(Some(meta_only()))
    } else {
        decoded_parameter(to, names.1)
    };
    match decoded_parameter(from, names.0) {
        Err(fault) => Err(fault),
        Ok(from_list) => match to_decoded {
            Err(fault) => Err(fault),
            Ok(to_list) => judged(Window { from: from_list, to: to_list, maximum }, names),
        },
    }
}

/// What a body's seek fields mean.
pub open spec fn body_window(body: SeekBody) -> Result<Window, Fault> {
    let names = body_names();
    let from = optional_texts(body.from_line_starts_with);
    let maximum = optional_count(body.lines_maximum);
    match body.to_line_starts_with {
        None => judged(Window { from, to: None, maximum }, names),
        Some(SeekBodyToPrefixes::Values(values)) => judged(
            Window { from, to: Some(texts(values@)), maximum },
            names,
        ),
        Some(SeekBodyToPrefixes::Value(value)) => if value@ == SEEK_TO_FROM_META@ {
            judged(Window { from, to: Some(meta_only()), maximum }, names)
        } else {
            Err(
                Fault::InvalidOperation(
                    names.1 + " must be a JSON array of strings, or the bare meta value "@
                        + SEEK_TO_FROM_META@,
                ),
            )
        },
    }
}

/// Copies an optional list of strings.
fn copy_optional(list: &Option<Vec<String>>) -> (result: Option<Vec<String>>)
    ensures
        optional_texts(result) == optional_texts(*list),
{
    match list {
        Some(strings) => Some(copy_texts(strings.as_slice())),
        None => None,
    }
}

/// The list that holds the meta value alone.
fn meta_list() -> (result: Vec<String>)
    ensures
        texts(result@) == meta_only(),
{
    let mut list: Vec<String> = Vec::new();
    list.push(SEEK_TO_FROM_META.to_owned());
    assert(texts(list@) =~= meta_only());
    list
}

impl SeekOptions {
    /// Decodes and validates the raw filters.
    pub fn parse(&self) -> (result: Result<SeekFilter, AppError>)
        ensures
            filter_outcome(result) == query_window(
                crate::text::optional_text(self.seek_from_line_starts_with),
                crate::text::optional_text(self.seek_to_line_starts_with),
                optional_count(self.seek_lines_maximum),
            ),
    {
        let names: SeekParameterNames = query_parameter_names();
        let from_prefixes: Option<Vec<String>> = match &self.seek_from_line_starts_with {
            None => None,
            Some(raw) => match Self::parse_prefix_array(raw.as_str(), names.from) {
                Ok(list) => Some(list),
                Err(error) => {
                    return Err(error);
                },
            },
        };
        let to_prefixes: Option<Vec<String>> = match &self.seek_to_line_starts_with {
            None => None,
            Some(raw) => if same(raw.as_str(), SEEK_TO_FROM_META) {
                Some(meta_list())
            } else {
                match Self::parse_prefix_array(raw.as_str(), names.to) {
                    Ok(list) => Some(list),
                    Err(error) => {
                        return Err(error);
                    },
                }
            },
        };
        SeekFilter::build(from_prefixes, to_prefixes, self.seek_lines_maximum, &names)
    }

    /// Decodes one prefix list from its JSON spelling.
    pub fn parse_prefix_array(raw: &str, parameter: &str) -> (result: Result<Vec<String>, AppError>)
        ensures
            match result {
                Ok(list) => decoded_parameter(Some(raw@), parameter@) == Ok::<_, Fault>(
                    Some(texts(list@)),
                ),
                Err(error) => decoded_parameter(Some(raw@), parameter@) == Err::<
                    Option<Seq<Seq<char>>>,
                    _,
                >(error@),
            },
    {
        match decode_array(raw) {
            Some(list) => Ok(list),
            None => Err(
                invalid_operation(
                    joined(
                        parameter,
                        " must be a JSON array of strings, e.g. [\"## \"]",
                    ).as_str(),
                ),
            ),
        }
    }
}

impl SeekBody {
    /// Validates the body filters.
    pub fn parse(&self) -> (result: Result<SeekFilter, AppError>)
        ensures
            filter_outcome(result) == body_window(*self),
    {
        let names: SeekParameterNames = body_parameter_names();
        let to_prefixes: Option<Vec<String>> = match &self.to_line_starts_with {
            None => None,
            Some(SeekBodyToPrefixes::Value(value)) => if same(value.as_str(), SEEK_TO_FROM_META) {
                Some(meta_list())
            } else {
                let mut reason: String = joined(
                    names.to,
                    " must be a JSON array of strings, or the bare meta value ",
                );
                reason.append(SEEK_TO_FROM_META);
                return Err(invalid_operation(reason.as_str()));
            },
            Some(SeekBodyToPrefixes::Values(values)) => Some(copy_texts(values.as_slice())),
        };
        SeekFilter::build(
            copy_optional(&self.from_line_starts_with),
            to_prefixes,
            self.lines_maximum,
            &names,
        )
    }
}

impl Default for SeekBody {
    fn default() -> (result: Self)
        ensures
            result.from_line_starts_with is None,
            result.to_line_starts_with is None,
            result.lines_maximum is None,
    {
        SeekBody { from_line_starts_with: None, to_line_starts_with: None, lines_maximum: None }
    }
}

impl Default for SeekOptions {
    fn default() -> (result: Self)
        ensures
            result.seek_from_line_starts_with is None,
            result.seek_to_line_starts_with is None,
            result.seek_lines_maximum is None,
    {
        SeekOptions {
            seek_from_line_starts_with: None,
            seek_to_line_starts_with: None,
            seek_lines_maximum: None,
        }
    }
}

impl Default for SeekFilter {
    fn default() -> (result: Self)
        ensures
            result@ == (Window { from: None, to: None, maximum: None }),
    {
        SeekFilter { from_prefixes: None, to_prefixes: None, lines_maximum: None }
    }
}

/// Whether some string of a list is empty.
fn has_empty(list: &[String]) -> (result: bool)
    ensures
        result == some_empty(texts(list@)),
{
    let mut i: usize = 0;
    while i < list.len()
        invariant
            i <= list.len(),
            forall|j: int| 0 <= j < i ==> (#[trigger] list@[j])@.len() != 0,
        decreases list.len() - i,
    {
        if list[i].as_str().is_empty() {
            assert(texts(list@)[i as int].len() == 0);
            return true;
        }
        i = i + 1;
    }
    assert forall|j: int| 0 <= j < list.len() implies (#[trigger] texts(list@)[j]).len() != 0 by {
        assert(list@[j]@.len() != 0);
    }
    false
}

/// Whether some string of a list holds the meta value.
fn has_meta(list: &[String]) -> (result: bool)
    ensures
        result == some_meta(texts(list@)),
{
    let mut i: usize = 0;
    while i < list.len()
        invariant
            i <= list.len(),
            forall|j: int| 0 <= j < i ==> !occurs_in(SEEK_TO_FROM_META@, (#[trigger] list@[j])@),
        decreases list.len() - i,
    {
        if contains_text(list[i].as_str(), SEEK_TO_FROM_META) {
            assert(occurs_in(SEEK_TO_FROM_META@, texts(list@)[i as int]));
            return true;
        }
        i = i + 1;
    }
    assert forall|j: int| 0 <= j < list.len() implies !occurs_in(
        SEEK_TO_FROM_META@,
        #[trigger] texts(list@)[j],
    ) by {
        assert(!occurs_in(SEEK_TO_FROM_META@, list@[j]@));
    }
    false
}

/// Checks one prefix list.
fn check_prefixes(prefixes: &Option<Vec<String>>, parameter: &str) -> (result: Result<(), AppError>)
    ensures
        match result {
            Ok(()) => prefixes_fault(optional_texts(*prefixes), parameter@) is None,
            Err(error) => prefixes_fault(optional_texts(*prefixes), parameter@) matches Some(reason)
                && error@ == Fault::InvalidOperation(reason),
        },
{
    if let Some(list) = prefixes {
        if list.len() == 0 {
            return Err(
                invalid_operation(joined(parameter, " must contain at least one prefix").as_str()),
            );
        }
        if has_empty(list.as_slice()) {
            return Err(
                invalid_operation(joined(parameter, " prefixes must not be empty").as_str()),
            );
        }
    }
    Ok(())
}

/// Whether a line begins with the bytes of a prefix.
pub open spec fn begins_with(line: Seq<u8>, prefix: Seq<char>) -> bool {
    encode_utf8(prefix).is_prefix_of(line)
}

/// Position of the first prefix that a line begins with, or the list's length.
pub open spec fn matching_prefix(line: Seq<u8>, prefixes: Seq<Seq<char>>) -> int
    decreases prefixes.len(),
{
    if prefixes.len() == 0 || begins_with(line, prefixes[0]) {
        0
    } else {
        1 + matching_prefix(line, prefixes.skip(1))
    }
}

/// Whether a line begins with one of the prefixes.
pub open spec fn is_marked(line: Seq<u8>, prefixes: Seq<Seq<char>>) -> bool {
    matching_prefix(line, prefixes) < prefixes.len()
}

/// The length of the first line of a non-empty content, its newline included.
pub open spec fn line_length(content: Seq<u8>) -> int
    decreases content.len(),
{
    if content.len() == 0 {
        0
    } else if content[0] == 10u8 {
        1
    } else {
        1 + line_length(content.skip(1))
    }
}

/// The first line of a non-empty content is not empty and lies within it.
pub proof fn lemma_line_length(content: Seq<u8>)
    ensures
        0 <= line_length(content) <= content.len(),
        content.len() > 0 ==> line_length(content) > 0,
    decreases content.len(),
{
    if content.len() > 0 && content[0] != 10u8 {
        lemma_line_length(content.skip(1));
    }
}

/// The lines of a content, each with the newline that ends it.
pub open spec fn lines(content: Seq<u8>) -> Seq<Seq<u8>>
    decreases content.len(),
{
    if content.len() == 0 {
        Seq::empty()
    } else {
        proof {
            lemma_line_length(content);
        }
        seq![content.take(line_length(content))] + lines(content.skip(line_length(content)))
    }
}

/// Position of the first line from `start` on that is marked, or the number
/// of lines.
pub open spec fn first_marked(all: Seq<Seq<u8>>, prefixes: Seq<Seq<char>>, start: int) -> int
    decreases all.len() - start,
{
    if start >= all.len() {
        all.len() as int
    } else if is_marked(all[start], prefixes) {
        start
    } else {
        first_marked(all, prefixes, start + 1)
    }
}

/// Position of the window's first line.
pub open spec fn window_start(all: Seq<Seq<u8>>, window: Window) -> int {
    match window.from {
        None => 0,
        Some(prefixes) => first_marked(all, prefixes, 0),
    }
}

/// The prefix that opened the window at line `start`.
pub open spec fn opening_prefix(all: Seq<Seq<u8>>, window: Window, start: int) -> Option<Seq<char>> {
    match window.from {
        None => None,
        Some(prefixes) => Some(prefixes[matching_prefix(all[start], prefixes)]),
    }
}

/// The `to` prefixes once the window is open: the meta value resolved.
pub open spec fn resolved(to: Seq<Seq<char>>, opening: Option<Seq<char>>) -> Seq<Seq<char>> {
    match opening {
        None => to,
        Some(prefix) => Seq::new(
            to.len(),
            |i: int| replaced(to[i], SEEK_TO_FROM_META@, prefix),
        ),
    }
}

/// Position after the window's last line, before the cap on its size.
pub open spec fn window_stop(all: Seq<Seq<u8>>, window: Window, start: int) -> int {
    match window.to {
        None => all.len() as int,
        Some(to) => {
            let stop = first_marked(
                all,
                resolved(to, opening_prefix(all, window, start)),
                start + 1,
            );
            if stop < all.len() {
                stop + 1
            } else {
                all.len() as int
            }
        },
    }
}

/// Position after the window's last line.
pub open spec fn window_end(all: Seq<Seq<u8>>, window: Window, start: int) -> int {
    let stop = window_stop(all, window, start);
    match window.maximum {
        Some(maximum) => if start + maximum < stop {
            start + maximum
        } else {
            stop
        },
        None => stop,
    }
}

/// The lines of a content that lie in the window.
pub open spec fn window_lines(content: Seq<u8>, window: Window) -> Seq<Seq<u8>> {
    let all = lines(content);
    let start = window_start(all, window);
    if start >= all.len() {
        Seq::empty()
    } else {
        all.subrange(start, window_end(all, window, start))
    }
}

/// The bytes of a content that lie in the window.
pub open spec fn window_bytes(content: Seq<u8>, window: Window) -> Seq<u8> {
    window_lines(content, window).flatten()
}

/// The text of a window, or the error for one that is not UTF-8.
pub open spec fn window_text(content: Seq<u8>, window: Window, path: Seq<char>) -> Result<
    Seq<char>,
    Fault,
> {
    let bytes = window_bytes(content, window);
    if valid_utf8(bytes) {
        Ok(decode_utf8(bytes))
    } else {
        Err(Fault::InvalidUtf8(path))
    }
}

/// `String::from_utf8`: the text of valid UTF-8 bytes, `None` for any other.
#[verifier::external_body]
pub(crate) fn text_of_bytes(bytes: Vec<u8>) -> (result: Option<String>)
    ensures
        match result {
            Some(text) => valid_utf8(bytes@) && text@ == decode_utf8(bytes@),
            None => !valid_utf8(bytes@),
        },
{
    String::from_utf8(bytes).ok()
}

/// Whether the bytes of `prefix` begin `content` at `start`, before `end`.
fn line_begins_with(content: &[u8], start: usize, end: usize, prefix: &str) -> (result: bool)
    requires
        start <= end <= content.len(),
    ensures
        result == begins_with(content@.subrange(start as int, end as int), prefix@),
{
    let bytes: &[u8] = prefix.as_bytes();
    let ghost line = content@.subrange(start as int, end as int);
    if bytes.len() > end - start {
        return false;
    }
    let mut i: usize = 0;
    while i < bytes.len()
        invariant
            i <= bytes.len(),
            start + bytes.len() <= end <= content.len(),
            line == content@.subrange(start as int, end as int),
            bytes@ == encode_utf8(prefix@),
            forall|j: int| 0 <= j < i ==> line[j] == bytes@[j],
        decreases bytes.len() - i,
    {
        if content[start + i] != bytes[i] {
            assert(line[i as int] != bytes@[i as int]);
            return false;
        }
        i = i + 1;
    }
    assert(line.subrange(0, bytes.len() as int) =~= bytes@);
    true
}

/// Position of the first prefix that a line begins with, or the list's length.
fn find_prefix(content: &[u8], start: usize, end: usize, prefixes: &[String]) -> (result: usize)
    requires
        start <= end <= content.len(),
    ensures
        result == matching_prefix(content@.subrange(start as int, end as int), texts(prefixes@)),
        result <= prefixes.len(),
{
    let ghost line = content@.subrange(start as int, end as int);
    let ghost all = texts(prefixes@);
    let mut i: usize = 0;
    assert(all.skip(0) =~= all);
    while i < prefixes.len()
        invariant
            i <= prefixes.len(),
            start <= end <= content.len(),
            line == content@.subrange(start as int, end as int),
            all == texts(prefixes@),
            matching_prefix(line, all) == i + matching_prefix(line, all.skip(i as int)),
        decreases prefixes.len() - i,
    {
        if line_begins_with(content, start, end, prefixes[i].as_str()) {
            return i;
        }
        assert(all.skip(i as int).skip(1) =~= all.skip(i + 1));
        i = i + 1;
    }
    i
}

/// Whether `bounds` lists where each line of a content starts, and then its end.
spec fn is_bounds(content: Seq<u8>, bounds: Seq<usize>) -> bool {
    let all = lines(content);
    &&& bounds.len() == all.len() + 1
    &&& bounds[0] == 0
    &&& bounds.last() == content.len()
    &&& forall|i: int| 0 <= i < bounds.len() ==> #[trigger] bounds[i] <= content.len()
    &&& forall|i: int| 0 <= i < all.len() ==> #[trigger] bounds[i] < bounds[i + 1]
    &&& forall|i: int|
        0 <= i < all.len() ==> #[trigger] all[i] == content.subrange(
            bounds[i] as int,
            bounds[i + 1] as int,
        )
}

/// Finds where each line of a content starts, and its end.
fn line_bounds(content: &[u8]) -> (result: Vec<usize>)
    ensures
        is_bounds(content@, result@),
{
    let mut bounds: Vec<usize> = Vec::new();
    bounds.push(0);
    let ghost mut done: Seq<Seq<u8>> = Seq::empty();
    let mut position: usize = 0;
    assert(content@.skip(0) =~= content@);
    assert(done + lines(content@) =~= lines(content@));
    while position < content.len()
        invariant
            position <= content.len(),
            bounds.len() == done.len() + 1,
            bounds@[0] == 0,
            bounds@.last() == position,
            lines(content@) == done + lines(content@.skip(position as int)),
            forall|i: int| 0 <= i < bounds.len() ==> #[trigger] bounds@[i] <= content.len(),
            forall|i: int| 0 <= i < done.len() ==> #[trigger] bounds@[i] < bounds@[i + 1],
            forall|i: int|
                0 <= i < done.len() ==> #[trigger] done[i] == content@.subrange(
                    bounds@[i] as int,
                    bounds@[i + 1] as int,
                ),
        decreases content.len() - position,
    {
        let ghost rest = content@.skip(position as int);
        let mut end: usize = position;
        assert(rest.skip(0) =~= rest);
        let mut ended: bool = false;
        while end < content.len() && !ended
            invariant
                position <= end <= content.len(),
                rest == content@.skip(position as int),
                ended ==> line_length(rest) == end - position,
                !ended ==> line_length(rest) == end - position + line_length(
                    rest.skip(end - position),
                ),
            decreases content.len() - end, (if ended { 0int } else { 1int }),
        {
            if content[end] == 10u8 {
                ended = true;
            }
            assert(rest.skip(end - position).skip(1) =~= rest.skip(end - position + 1));
            assert(rest.skip(end - position)[0] == content@[end as int]);
            end = end + 1;
        }
        assert(line_length(rest) == end - position);
        proof {
            lemma_line_length(rest);
            let line = rest.take(line_length(rest));
            assert(line =~= content@.subrange(position as int, end as int));
            assert(rest.skip(line_length(rest)) =~= content@.skip(end as int));
            assert(done + (seq![line] + lines(content@.skip(end as int))) =~= done.push(line)
                + lines(content@.skip(end as int)));
            done = done.push(line);
        }
        bounds.push(end);
        position = end;
    }
    assert(lines(content@.skip(position as int)).len() == 0);
    assert(done + lines(content@.skip(position as int)) =~= done);
    bounds
}

/// The bytes of a run of lines are the bytes between their bounds.
proof fn lemma_lines_flatten(content: Seq<u8>, bounds: Seq<usize>, start: int, end: int)
    requires
        is_bounds(content, bounds),
        0 <= start <= end <= lines(content).len(),
    ensures
        bounds[start] <= bounds[end] <= content.len(),
        lines(content).subrange(start, end).flatten() == content.subrange(
            bounds[start] as int,
            bounds[end] as int,
        ),
    decreases end - start,
{
    let all = lines(content);
    let run = all.subrange(start, end);
    if start == end {
        assert(run =~= Seq::empty());
        assert(run.flatten() =~= Seq::<u8>::empty());
        if start > 0 {
            assert(all[start - 1] == content.subrange(bounds[start - 1] as int, bounds[start] as int));
        }
        assert(content.subrange(bounds[start] as int, bounds[end] as int) =~= Seq::<u8>::empty());
    } else {
        lemma_lines_flatten(content, bounds, start, end - 1);
        let before = all.subrange(start, end - 1);
        assert(run =~= before.push(all[end - 1]));
        before.lemma_flatten_push(all[end - 1]);
        assert(content.subrange(bounds[start] as int, bounds[end] as int) =~= content.subrange(
            bounds[start] as int,
            bounds[end - 1] as int,
        ) + content.subrange(bounds[end - 1] as int, bounds[end] as int));
    }
}

/// Finds the first marked line from `start` on.
fn find_marked(content: &[u8], bounds: &[usize], prefixes: &[String], start: usize) -> (result:
    usize)
    requires
        is_bounds(content@, bounds@),
        start < bounds.len(),
    ensures
        result == first_marked(lines(content@), texts(prefixes@), start as int),
        start <= result < bounds.len(),
{
    let ghost all = lines(content@);
    let mut i: usize = start;
    while i < bounds.len() - 1
        invariant
            start <= i < bounds.len(),
            is_bounds(content@, bounds@),
            all == lines(content@),
            first_marked(all, texts(prefixes@), start as int) == first_marked(
                all,
                texts(prefixes@),
                i as int,
            ),
        decreases bounds.len() - i,
    {
        assert(all[i as int] == content@.subrange(bounds@[i as int] as int, bounds@[i + 1] as int));
        if find_prefix(content, bounds[i], bounds[i + 1], prefixes) < prefixes.len() {
            return i;
        }
        i = i + 1;
    }
    i
}

/// Resolves the meta value in the `to` prefixes.
fn resolve(to: &[String], opening: Option<&str>) -> (result: Vec<String>)
    ensures
        texts(result@) == resolved(
            texts(to@),
            match opening {
                Some(prefix) => Some(prefix@),
                None => None,
            },
        ),
{
    match opening {
        None => copy_texts(to),
        Some(prefix) => {
            let mut result: Vec<String> = Vec::new();
            let mut i: usize = 0;
            proof {
                reveal_strlit("$seek_from_line_starts_with");
            }
            while i < to.len()
                invariant
                    i <= to.len(),
                    result.len() == i,
                    SEEK_TO_FROM_META@.len() > 0,
                    forall|j: int|
                        0 <= j < i ==> (#[trigger] result@[j])@ == replaced(
                            to@[j]@,
                            SEEK_TO_FROM_META@,
                            prefix@,
                        ),
                decreases to.len() - i,
            {
                result.push(replace(to[i].as_str(), SEEK_TO_FROM_META, prefix));
                i = i + 1;
            }
            assert(texts(result@) =~= resolved(texts(to@), Some(prefix@)));
            result
        },
    }
}

impl SeekFilter {
    /// A window without limits.
    pub fn all() -> (result: Self)
        ensures
            result@ == (Window { from: None, to: None, maximum: None }),
    {
        SeekFilter { from_prefixes: None, to_prefixes: None, lines_maximum: None }
    }

    /// A copy of this window.
    pub fn copy(&self) -> (result: Self)
        ensures
            result@ == self@,
    {
        SeekFilter {
            from_prefixes: copy_optional(&self.from_prefixes),
            to_prefixes: copy_optional(&self.to_prefixes),
            lines_maximum: self.lines_maximum,
        }
    }

    /// Validates decoded filter values; every wire format goes through here.
    pub fn build(
        from_prefixes: Option<Vec<String>>,
        to_prefixes: Option<Vec<String>>,
        lines_maximum: Option<usize>,
        names: &SeekParameterNames,
    ) -> (result: Result<Self, AppError>)
        ensures
            filter_outcome(result) == judged(
                Window {
                    from: optional_texts(from_prefixes),
                    to: optional_texts(to_prefixes),
                    maximum: optional_count(lines_maximum),
                },
                names@,
            ),
    {
        match check_prefixes(&from_prefixes, names.from) {
            Ok(()) => {},
            Err(error) => {
                return Err(error);
            },
        }
        match check_prefixes(&to_prefixes, names.to) {
            Ok(()) => {},
            Err(error) => {
                return Err(error);
            },
        }
        if from_prefixes.is_none() {
            if let Some(to) = &to_prefixes {
                if has_meta(to.as_slice()) {
                    let mut reason: String = joined(names.to, " uses ");
                    reason.append(SEEK_TO_FROM_META);
                    reason.append(" but ");
                    reason.append(names.from);
                    reason.append(" is not set");
                    return Err(invalid_operation(reason.as_str()));
                }
            }
        }
        if let Some(maximum) = lines_maximum {
            if maximum == 0 {
                return Err(
                    invalid_operation(joined(names.maximum, " must be at least 1").as_str()),
                );
            }
        }
        Ok(SeekFilter { from_prefixes, to_prefixes, lines_maximum })
    }

    /// Whether no filter is set.
    pub fn is_noop(&self) -> (result: bool)
        ensures
            result == (self@ == (Window { from: None, to: None, maximum: None })),
    {
        self.from_prefixes.is_none() && self.to_prefixes.is_none() && self.lines_maximum.is_none()
    }

    /// Selects the window of `content`; `file_path` names it in an error.
    pub fn apply_reader(&self, content: &[u8], file_path: &str) -> (result: Result<
        String,
        AppError,
    >)
        ensures
            match result {
                Ok(text) => window_text(content@, self@, file_path@) == Ok::<_, Fault>(text@),
                Err(error) => window_text(content@, self@, file_path@) == Err::<Seq<char>, _>(
                    error@,
                ),
            },
    {
        let bounds: Vec<usize> = line_bounds(content);
        let count: usize = bounds.len() - 1;
        let ghost all = lines(content@);
        let start: usize = match &self.from_prefixes {
            None => 0,
            Some(prefixes) => find_marked(content, bounds.as_slice(), prefixes.as_slice(), 0),
        };
        let mut window: Vec<u8> = Vec::new();
        if start < count {
            assert(all[start as int] == content@.subrange(
                bounds@[start as int] as int,
                bounds@[start + 1] as int,
            ));
            let opening: Option<&str> = match &self.from_prefixes {
                None => None,
                Some(prefixes) => {
                    let position: usize = find_prefix(
                        content,
                        bounds[start],
                        bounds[start + 1],
                        prefixes.as_slice(),
                    );
                    proof {
                        lemma_first_marked(all, texts(prefixes@), 0);
                    }
                    Some(prefixes[position].as_str())
                },
            };
            let stop: usize = match &self.to_prefixes {
                None => count,
                Some(to) => {
                    let markers: Vec<String> = resolve(to.as_slice(), opening);
                    let marked: usize = find_marked(
                        content,
                        bounds.as_slice(),
                        markers.as_slice(),
                        start + 1,
                    );
                    if marked < count {
                        marked + 1
                    } else {
                        count
                    }
                },
            };
            let end: usize = match self.lines_maximum {
                Some(maximum) => if maximum < stop - start {
                    start + maximum
                } else {
                    stop
                },
                None => stop,
            };
            proof {
                lemma_lines_flatten(content@, bounds@, start as int, end as int);
            }
            let from: usize = bounds[start];
            let to: usize = bounds[end];
            let mut i: usize = from;
            while i < to
                invariant
                    from <= i <= to <= content.len(),
                    window@ == content@.subrange(from as int, i as int),
                decreases to - i,
            {
                window.push(content[i]);
                i = i + 1;
                assert(content@.subrange(from as int, i as int) =~= content@.subrange(
                    from as int,
                    i - 1,
                ).push(content@[i - 1]));
            }
        } else {
            assert(window_lines(content@, self@) =~= Seq::empty());
            assert(window_bytes(content@, self@) =~= Seq::<u8>::empty());
            assert(window@ =~= Seq::<u8>::empty());
        }
        assert(window@ == window_bytes(content@, self@));
        match text_of_bytes(window) {
            Some(text) => Ok(text),
            None => Err(AppError::InvalidUtf8 { path: file_path.to_owned() }),
        }
    }
}

/// The first marked line is marked, and none between is.
pub proof fn lemma_first_marked(all: Seq<Seq<u8>>, prefixes: Seq<Seq<char>>, start: int)
    requires
        0 <= start <= all.len(),
    ensures
        start <= first_marked(all, prefixes, start) <= all.len(),
        first_marked(all, prefixes, start) < all.len() ==> is_marked(
            all[first_marked(all, prefixes, start)],
            prefixes,
        ),
        forall|i: int|
            start <= i < first_marked(all, prefixes, start) ==> !is_marked(
                #[trigger] all[i],
                prefixes,
            ),
    decreases all.len() - start,
{
    if start < all.len() && !is_marked(all[start], prefixes) {
        lemma_first_marked(all, prefixes, start + 1);
    }
}

/// The lines of a content make up the content.
pub proof fn law_lines_make_up_content(content: Seq<u8>)
    ensures
        lines(content).flatten() == content,
    decreases content.len(),
{
    if content.len() == 0 {
        assert(lines(content).flatten() =~= content);
    } else {
        lemma_line_length(content);
        let n = line_length(content);
        law_lines_make_up_content(content.skip(n));
        assert(lines(content).drop_first() =~= lines(content.skip(n)));
        assert(lines(content).first() == content.take(n));
        assert(content =~= content.take(n) + content.skip(n));
    }
}

proof fn lemma_window_range(content: Seq<u8>, window: Window)
    ensures
        ({
            let all = lines(content);
            let start = window_start(all, window);
            &&& 0 <= start <= all.len()
            &&& start < all.len() ==> start < window_stop(all, window, start) <= all.len()
        }),
{
    let all = lines(content);
    if window.from is Some {
        lemma_first_marked(all, window.from->0, 0);
    }
    let start = window_start(all, window);
    if start < all.len() && window.to is Some {
        lemma_first_marked(
            all,
            resolved(window.to->0, opening_prefix(all, window, start)),
            start + 1,
        );
    }
}

/// A window is one unbroken run of the content's bytes.
pub proof fn law_window_is_a_run(content: Seq<u8>, window: Window)
    ensures
        exists|before: Seq<u8>, after: Seq<u8>|
            content == #[trigger] (before + window_bytes(content, window) + after),
{
    let all = lines(content);
    let start = window_start(all, window);
    lemma_window_range(content, window);
    law_lines_make_up_content(content);
    if start >= all.len() {
        assert(window_bytes(content, window) =~= Seq::<u8>::empty());
        assert(content =~= content + window_bytes(content, window) + Seq::<u8>::empty());
    } else {
        let end = window_end(all, window, start);
        let head = all.subrange(0, start);
        let run = all.subrange(start, end);
        let tail = all.subrange(end, all.len() as int);
        assert(all =~= head + run + tail);
        vstd::seq_lib::lemma_flatten_concat(head + run, tail);
        vstd::seq_lib::lemma_flatten_concat(head, run);
        assert(content == head.flatten() + window_bytes(content, window) + tail.flatten());
    }
}

/// Without a filter the window is the whole content.
pub proof fn law_no_filter_keeps_everything(content: Seq<u8>)
    ensures
        window_bytes(content, (Window { from: None, to: None, maximum: None })) == content,
{
    let window = Window { from: None, to: None, maximum: None };
    law_lines_make_up_content(content);
    assert(window_lines(content, window) =~= lines(content));
}

/// A window that opens holds at least its first line, and never more lines
/// than its maximum.
pub proof fn law_window_size(content: Seq<u8>, window: Window, names: (Seq<char>, Seq<char>, Seq<char>))
    requires
        window_fault(window, names) is None,
    ensures
        window.maximum matches Some(maximum) ==> window_lines(content, window).len() <= maximum,
        window_start(lines(content), window) < lines(content).len() ==> {
            &&& window_lines(content, window).len() >= 1
            &&& window_lines(content, window)[0] == lines(content)[window_start(
                lines(content),
                window,
            )]
        },
{
    lemma_window_range(content, window);
}

/// Every line of a window but its first and its last begins with no end marker.
pub proof fn law_window_stops_at_marker(content: Seq<u8>, window: Window, i: int)
    requires
        window.to is Some,
        0 < i < window_lines(content, window).len() - 1,
    ensures
        ({
            let all = lines(content);
            let start = window_start(all, window);
            !is_marked(
                window_lines(content, window)[i],
                resolved(window.to->0, opening_prefix(all, window, start)),
            )
        }),
{
    let all = lines(content);
    let start = window_start(all, window);
    lemma_window_range(content, window);
    lemma_first_marked(
        all,
        resolved(window.to->0, opening_prefix(all, window, start)),
        start + 1,
    );
    assert(window_lines(content, window)[i] == all[start + i]);
}

/// The query and the body spellings of the same prefixes mean the same window.
pub proof fn law_spellings_agree(
    from: Option<Seq<char>>,
    to: Option<Seq<char>>,
    maximum: Option<nat>,
    body: SeekBody,
)
    requires
        maximum == optional_count(body.lines_maximum),
        match from {
            None => body.from_line_starts_with is None,
            Some(raw) => decoded_array(raw) is Some && decoded_array(raw) == optional_texts(
                body.from_line_starts_with,
            ),
        },
        match to {
            None => body.to_line_starts_with is None,
            Some(raw) => if raw == SEEK_TO_FROM_META@ {
                body.to_line_starts_with matches Some(SeekBodyToPrefixes::Value(value)) && value@
                    == raw
            } else {
                body.to_line_starts_with matches Some(SeekBodyToPrefixes::Values(values))
                    && decoded_array(raw) == Some(texts(values@))
            },
        },
    ensures
        query_window(from, to, maximum) is Ok <==> body_window(body) is Ok,
        query_window(from, to, maximum) is Ok ==> query_window(from, to, maximum) == body_window(
            body,
        ),
{
}

} // verus!
