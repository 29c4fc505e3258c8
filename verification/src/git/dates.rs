//! When the files of a repository were created and last updated.
use vstd::prelude::*;
use crate::git::history::{Delta, DeltaRecord, DeltaStatus};
use crate::order::{child_path, path_in};
use crate::sorting::views;
use crate::text::{lemma_texts_push, same, texts};

verus! {

/// An instant: seconds since the Unix epoch, and nanoseconds past them.
#[derive(Debug, Clone, Copy, PartialEq, Eq, Structural)]
pub struct Timestamp {
    pub seconds: i64,
    pub nanos: u32,
}

/// Whether one instant comes before another.
pub open spec fn is_earlier(left: Timestamp, right: Timestamp) -> bool {
    left.seconds < right.seconds || (left.seconds == right.seconds && left.nanos < right.nanos)
}

impl Timestamp {
    /// Whether this instant comes before another.
    pub fn is_before(&self, other: &Timestamp) -> (result: bool)
        ensures
            result == is_earlier(*self, *other),
    {
        self.seconds < other.seconds || (self.seconds == other.seconds && self.nanos < other.nanos)
    }
}

/// Which date of a file a filter is about.
#[derive(Debug, Clone, Copy, PartialEq, Eq, Structural)]
pub enum DateKind {
    Created,
    Updated,
}

/// A date range, from its start up to, and without, its end.
#[derive(Debug, Clone, Copy)]
pub struct DateFilter {
    pub from: Option<Timestamp>,
    pub to: Option<Timestamp>,
    pub kind: DateKind,
}

/// Whether a date lies in a range.
pub open spec fn in_range(filter: DateFilter, date: Timestamp) -> bool {
    &&& filter.from matches Some(from) ==> !is_earlier(date, from)
    &&& filter.to matches Some(to) ==> is_earlier(date, to)
}

impl DateFilter {
    /// Whether a date lies in the range.
    pub fn matches(&self, date: Timestamp) -> (result: bool)
        ensures
            result == in_range(*self, date),
    {
        if let Some(from) = self.from {
            if date.is_before(&from) {
                return false;
            }
        }
        if let Some(to) = self.to {
            if !date.is_before(&to) {
                return false;
            }
        }
        true
    }
}

/// A commit with its time and its differences from its first parent, taken
/// without rename detection: a file that was moved is a deletion at its old
/// path and an addition at its new one.
#[derive(Debug)]
pub struct DatedCommit {
    /// Seconds since the Unix epoch.
    pub committed_at: i64,
    pub deltas: Vec<DeltaRecord>,
}

/// A dated commit over characters.
pub struct Dated {
    pub committed_at: i64,
    pub deltas: Seq<Delta>,
}

impl View for DatedCommit {
    type V = Dated;

    open spec fn view(&self) -> Dated {
        Dated { committed_at: self.committed_at, deltas: views(self.deltas@) }
    }
}

/// The path that a difference is filed under.
pub open spec fn filed_path(delta: Delta) -> Option<Seq<char>> {
    if delta.new_path is Some {
        delta.new_path
    } else {
        delta.old_path
    }
}

/// Whether a commit counts for a date of a path: any difference for its
/// update, an addition for its creation.
pub open spec fn counts_for(commit: Dated, path: Seq<char>, kind: DateKind) -> bool {
    exists|i: int|
        0 <= i < commit.deltas.len() && filed_path(#[trigger] commit.deltas[i]) == Some(path) && (
        kind == DateKind::Updated || commit.deltas[i].status == DeltaStatus::Added)
}

/// The date of a path in a history listed newest first: its newest commit for
/// its update, its oldest addition for its creation.
pub open spec fn date_of(history: Seq<Dated>, path: Seq<char>, kind: DateKind) -> Option<i64>
    decreases history.len(),
{
    if history.len() == 0 {
        None
    } else {
        let last = history.last();
        let before = date_of(history.drop_last(), path, kind);
        if counts_for(last, path, kind) && (kind == DateKind::Created || before is None) {
            Some(last.committed_at)
        } else {
            before
        }
    }
}

/// Whether a commit counts for a date of a path.
fn commit_counts(commit: &DatedCommit, path: &str, kind: DateKind) -> (result: bool)
    ensures
        result == counts_for(commit@, path@, kind),
{
    let mut i: usize = 0;
    while i < commit.deltas.len()
        invariant
            i <= commit.deltas.len(),
            forall|j: int|
                0 <= j < i ==> !(filed_path(#[trigger] commit@.deltas[j]) == Some(path@) && (kind
                    == DateKind::Updated || commit@.deltas[j].status == DeltaStatus::Added)),
        decreases commit.deltas.len() - i,
    {
        let delta: &DeltaRecord = &commit.deltas[i];
        assert(commit@.deltas[i as int] == delta@);
        let filed: bool = match &delta.new_path {
            Some(new_path) => same(new_path.as_str(), path),
            None => match &delta.old_path {
                Some(old_path) => same(old_path.as_str(), path),
                None => false,
            },
        };
        if filed && (kind == DateKind::Updated || delta.status == DeltaStatus::Added) {
            return true;
        }
        i = i + 1;
    }
    false
}

/// The date of a path in a history listed newest first.
pub fn file_date(history: &[DatedCommit], path: &str, kind: DateKind) -> (result: Option<i64>)
    ensures
        result == date_of(views(history@), path@, kind),
{
    let ghost all = views(history@);
    let mut date: Option<i64> = None;
    let mut i: usize = 0;
    assert(all.take(0) =~= Seq::empty());
    while i < history.len()
        invariant
            i <= history.len(),
            all == views(history@),
            date == date_of(all.take(i as int), path@, kind),
        decreases history.len() - i,
    {
        assert(all.take(i + 1).drop_last() =~= all.take(i as int));
        assert(all.take(i + 1).last() == history@[i as int]@);
        if (kind == DateKind::Created || date.is_none()) && commit_counts(
            &history[i],
            path,
            kind,
        ) {
            date = Some(history[i].committed_at);
        }
        i = i + 1;
    }
    assert(all.take(i as int) =~= all);
    date
}

/// Whether a path has a date, and one in range.
pub open spec fn is_retained(history: Seq<Dated>, path: Seq<char>, filter: DateFilter) -> bool {
    date_of(history, path, filter.kind) matches Some(seconds) && in_range(
        filter,
        Timestamp { seconds, nanos: 0 },
    )
}

/// The paths, below a prefix, whose date lies in range.
pub open spec fn retained(
    history: Seq<Dated>,
    prefix: Seq<char>,
    paths: Seq<Seq<char>>,
    filter: DateFilter,
) -> Seq<Seq<char>> {
    paths.filter(|path: Seq<char>| is_retained(history, child_path(prefix, path), filter))
}

/// Keeps the paths, below a prefix, whose date lies in range.
pub fn retain_by_date(
    history: &[DatedCommit],
    path_prefix: &str,
    flat: Vec<String>,
    date_filter: DateFilter,
) -> (result: Vec<String>)
    ensures
        texts(result@) == retained(views(history@), path_prefix@, texts(flat@), date_filter),
{
    let ghost commits = views(history@);
    let ghost all = texts(flat@);
    let ghost keeps = |path: Seq<char>|
        is_retained(commits, child_path(path_prefix@, path), date_filter);
    let mut result: Vec<String> = Vec::new();
    let mut i: usize = 0;
    assert(texts(result@) =~= all.take(0).filter(keeps));
    while i < flat.len()
        invariant
            i <= flat.len(),
            commits == views(history@),
            all == texts(flat@),
            keeps == (|path: Seq<char>|
                is_retained(commits, child_path(path_prefix@, path), date_filter)),
            texts(result@) == all.take(i as int).filter(keeps),
        decreases flat.len() - i,
    {
        proof {
            assert(all.take(i + 1) =~= all.take(i as int).push(flat@[i as int]@));
            all.take(i as int).lemma_filter_push(flat@[i as int]@, keeps);
            lemma_texts_push(result@, flat@[i as int]);
        }
        let full: String = path_in(path_prefix, flat[i].as_str());
        let keep: bool = match file_date(history, full.as_str(), date_filter.kind) {
            Some(seconds) => date_filter.matches(Timestamp { seconds, nanos: 0 }),
            None => false,
        };
        if keep {
            result.push(flat[i].clone());
        }
        i = i + 1;
    }
    assert(all.take(i as int) =~= all);
    result
}

/// A file's update is dated by the first commit of the history that has a
/// difference for it, newest first.
pub proof fn law_update_is_newest(history: Seq<Dated>, path: Seq<char>, newest: int)
    requires
        0 <= newest < history.len(),
        counts_for(history[newest], path, DateKind::Updated),
        forall|i: int|
            0 <= i < newest ==> !counts_for(#[trigger] history[i], path, DateKind::Updated),
    ensures
        date_of(history, path, DateKind::Updated) == Some(history[newest].committed_at),
    decreases history.len(),
{
    let init = history.drop_last();
    if newest < init.len() {
        assert(init[newest] == history[newest]);
        assert forall|i: int| 0 <= i < newest implies !counts_for(
            #[trigger] init[i],
            path,
            DateKind::Updated,
        ) by {
            assert(init[i] == history[i]);
        }
        law_update_is_newest(init, path, newest);
    } else {
        assert forall|i: int| 0 <= i < init.len() implies !counts_for(
            #[trigger] init[i],
            path,
            DateKind::Updated,
        ) by {
            assert(init[i] == history[i]);
        }
        lemma_no_date(init, path, DateKind::Updated);
    }
}

/// A file's creation is dated by the last commit of the history that added
/// it, oldest first.
pub proof fn law_creation_is_oldest(history: Seq<Dated>, path: Seq<char>, oldest: int)
    requires
        0 <= oldest < history.len(),
        counts_for(history[oldest], path, DateKind::Created),
        forall|i: int|
            oldest < i < history.len() ==> !counts_for(
                #[trigger] history[i],
                path,
                DateKind::Created,
            ),
    ensures
        date_of(history, path, DateKind::Created) == Some(history[oldest].committed_at),
    decreases history.len(),
{
    let init = history.drop_last();
    if oldest < init.len() {
        assert(init[oldest] == history[oldest]);
        assert(!counts_for(history[history.len() - 1], path, DateKind::Created));
        assert forall|i: int| oldest < i < init.len() implies !counts_for(
            #[trigger] init[i],
            path,
            DateKind::Created,
        ) by {
            assert(init[i] == history[i]);
        }
        law_creation_is_oldest(init, path, oldest);
    }
}

proof fn lemma_no_date(history: Seq<Dated>, path: Seq<char>, kind: DateKind)
    requires
        forall|i: int| 0 <= i < history.len() ==> !counts_for(#[trigger] history[i], path, kind),
    ensures
        date_of(history, path, kind) is None,
    decreases history.len(),
{
    if history.len() > 0 {
        let init = history.drop_last();
        assert(!counts_for(history[history.len() - 1], path, kind));
        assert forall|i: int| 0 <= i < init.len() implies !counts_for(
            #[trigger] init[i],
            path,
            kind,
        ) by {
            assert(init[i] == history[i]);
        }
        lemma_no_date(init, path, kind);
    }
}

} // verus!
