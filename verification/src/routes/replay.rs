//! Replaying past events, so that a receiver that fell out of step catches up.
//!
//! The caller's paths are compared with those of the repository: one direction
//! replays a deletion for every path that the repository lacks, the other a
//! creation for every path that it holds.
use vstd::prelude::*;
use crate::config::Config;
use crate::error::{invalid_operation, AppError, Fault};
use crate::git::dates::Timestamp;
use crate::git::files::is_inside;
use crate::hooks::{HookJob, HookSource, ReplayJob, ReplayKind};
use crate::order::{is_index_path, is_order_file};
use crate::text::{decimal, has_prefix, holds_text, joined, optional_str, spell, texts};
use crate::validate::{file_path, file_path_of};

verus! {

/// The longest pause between two replayed events.
pub const MAX_DELAY_MS: u64 = 60000;

/// Which side of the comparison is replayed.
#[derive(Debug, Clone, Copy, PartialEq, Eq, Structural)]
pub enum ReplayDirection {
    /// A deletion for every path that the repository lacks.
    Delete,
    /// A creation for every path that the repository holds.
    Create,
}

impl ReplayDirection {
    /// Whether this direction is about the paths that the repository holds.
    pub fn keeps_present(self) -> (result: bool)
        ensures
            result == (self == ReplayDirection::Create),
    {
        match self {
            ReplayDirection::Create => true,
            ReplayDirection::Delete => false,
        }
    }

    /// The kind of event that this direction replays.
    pub fn replay_kind(self) -> (result: ReplayKind)
        ensures
            result == match self {
                ReplayDirection::Delete => ReplayKind::Deleted,
                ReplayDirection::Create => ReplayKind::Created,
            },
    {
        match self {
            ReplayDirection::Delete => ReplayKind::Deleted,
            ReplayDirection::Create => ReplayKind::Created,
        }
    }
}

/// The body of a replay.
#[derive(Debug, Clone)]
pub struct ReplayHookRequest {
    pub direction: ReplayDirection,
    /// The paths that the caller holds; all of the repository's if omitted.
    pub files: Option<Vec<String>>,
    /// The folder that the replay is about.
    pub prefix_path: Option<String>,
    /// Whether hidden files count where the paths are omitted.
    pub include_hidden_files: bool,
    pub delay_ms: Option<u64>,
}

impl ReplayHookRequest {
    /// Whether hidden files of the repository count. They always do where the
    /// caller names its paths, so that none of them is taken for missing.
    pub fn includes_hidden(&self) -> (result: bool)
        ensures
            result == (self.files is Some || self.include_hidden_files),
    {
        self.files.is_some() || self.include_hidden_files
    }
}

/// Refuses a replay that nobody would receive.
pub fn require_hook_receiver(config: &Config) -> (result: Result<(), AppError>)
    ensures
        match result {
            Ok(()) => config.hooks is Some,
            Err(error) => config.hooks is None && error@ == Fault::InvalidOperation(
                "no webhook receiver is configured; a replay would deliver nothing"@,
            ),
        },
{
    if config.hooks.is_none() {
        return Err(
            invalid_operation("no webhook receiver is configured; a replay would deliver nothing"),
        );
    }
    Ok(())
}

/// Judges the pause between two events.
pub fn validate_delay(delay_ms: Option<u64>) -> (result: Result<Option<u64>, AppError>)
    ensures
        match result {
            Ok(delay) => delay == delay_ms && (delay_ms matches Some(pause) ==> pause
                <= MAX_DELAY_MS),
            Err(error) => delay_ms matches Some(pause) && pause > MAX_DELAY_MS && error@
                == Fault::InvalidOperation(
                "delay_ms must not exceed "@ + decimal(MAX_DELAY_MS as nat) + " milliseconds, got "@
                    + decimal(pause as nat),
            ),
        },
{
    if let Some(pause) = delay_ms {
        if pause > MAX_DELAY_MS {
            let mut reason: String = joined(
                "delay_ms must not exceed ",
                spell(MAX_DELAY_MS).as_str(),
            );
            reason.append(" milliseconds, got ");
            reason.append(spell(pause).as_str());
            return Err(AppError::InvalidOperation { reason });
        }
    }
    Ok(delay_ms)
}

/// Whether a path lies in a folder; every path does in the root.
pub open spec fn lies_under(path: Seq<char>, prefix: Option<Seq<char>>) -> bool {
    match prefix {
        Some(folder) => folder.len() == 0 || (is_inside(path, folder) && path.len() > folder.len()
            + 1),
        None => true,
    }
}

/// The paths of the first entries, or why the list is refused: the first
/// reason, entry by entry.
pub open spec fn sanitized_paths(
    raw: Seq<Seq<char>>,
    prefix: Option<Seq<char>>,
    count: int,
) -> Result<Seq<Seq<char>>, Fault>
    decreases count,
{
    if count <= 0 {
        Ok(Seq::empty())
    } else {
        match sanitized_paths(raw, prefix, count - 1) {
            Err(fault) => Err(fault),
            Ok(paths) => match file_path_of(raw[count - 1]) {
                Err(fault) => Err(fault),
                Ok(path) => if is_index_path(path) {
                    Err(
                        Fault::InvalidOperation(
                            "files must not reference an order index: "@ + raw[count - 1]
                                + "; file order is a separate resource under /order"@,
                        ),
                    )
                } else if !lies_under(path, prefix) {
                    Err(
                        Fault::InvalidOperation(
                            "files entry '"@ + raw[count - 1] + "' must sit under prefix_path '"@
                                + prefix->0 + "'"@,
                        ),
                    )
                } else if paths.contains(path) {
                    Err(
                        Fault::InvalidOperation(
                            "files must be unique: '"@ + path + "' is listed twice"@,
                        ),
                    )
                } else {
                    Ok(paths.push(path))
                },
            },
        }
    }
}

/// The paths of a caller's list, or why it is refused.
pub open spec fn sanitized(
    raw: Seq<Seq<char>>,
    prefix: Option<Seq<char>>,
) -> Result<Seq<Seq<char>>, Fault> {
    if raw.len() == 0 {
        Err(
            Fault::InvalidOperation(
                "files must contain at least one path; omit it entirely to default to every file"@,
            ),
        )
    } else {
        sanitized_paths(raw, prefix, raw.len() as int)
    }
}

/// Whether a path lies in a folder.
fn under_prefix(path: &str, prefix: Option<&str>) -> (result: bool)
    ensures
        result == lies_under(path@, optional_str(prefix)),
{
    match prefix {
        None => true,
        Some(folder) => {
            if folder.is_empty() {
                return true;
            }
            let inside: String = joined(folder, "/");
            let enough: bool = path.unicode_len() > inside.as_str().unicode_len();
            proof {
                reveal_strlit("/");
                assert(inside@ =~= folder@.push('/'));
            }
            has_prefix(path, inside.as_str()) && enough
        },
    }
}

/// Once a list is refused for an entry, nothing after it matters.
proof fn lemma_refusal_stays(
    raw: Seq<Seq<char>>,
    prefix: Option<Seq<char>>,
    count: int,
)
    requires
        0 < count <= raw.len(),
        sanitized_paths(raw, prefix, count) is Err,
    ensures
        sanitized_paths(raw, prefix, raw.len() as int) == sanitized_paths(
            raw,
            prefix,
            count,
        ),
    decreases raw.len() - count,
{
    if count < raw.len() {
        lemma_refusal_stays(raw, prefix, count + 1);
    }
}

/// Reads a caller's list of paths. What is no path, an order index, a path
/// outside the folder and a path that is there twice are refused.
pub fn sanitize_files(
    raw_files: &[String],
    prefix_path: Option<&str>,
) -> (result: Result<Vec<String>, AppError>)
    ensures
        match result {
            Ok(paths) => sanitized(texts(raw_files@), optional_str(prefix_path)) == Ok::<_, Fault>(
                texts(paths@),
            ),
            Err(error) => sanitized(texts(raw_files@), optional_str(prefix_path)) == Err::<
                Seq<Seq<char>>,
                _,
            >(error@),
        },
{
    if raw_files.len() == 0 {
        return Err(
            invalid_operation(
                "files must contain at least one path; omit it entirely to default to every file",
            ),
        );
    }
    let ghost raw = texts(raw_files@);
    let ghost prefix = optional_str(prefix_path);
    let mut paths: Vec<String> = Vec::new();
    let mut i: usize = 0;
    assert(texts(paths@) =~= Seq::empty());
    while i < raw_files.len()
        invariant
            i <= raw_files.len(),
            raw_files@.len() > 0,
            raw == texts(raw_files@),
            prefix == optional_str(prefix_path),
            sanitized_paths(raw, prefix, i as int) == Ok::<_, Fault>(texts(paths@)),
        decreases raw_files.len() - i,
    {
        let given: &str = raw_files[i].as_str();
        assert(raw[i as int] == given@);
        let path: String = match file_path(given) {
            Ok(path) => path,
            Err(error) => {
                proof {
                    lemma_refusal_stays(raw, prefix, i + 1);
                }
                return Err(error);
            },
        };
        if is_order_file(path.as_str()) {
            let mut reason: String = joined("files must not reference an order index: ", given);
            reason.append("; file order is a separate resource under /order");
            proof {
                lemma_refusal_stays(raw, prefix, i + 1);
            }
            return Err(AppError::InvalidOperation { reason });
        }
        if !under_prefix(path.as_str(), prefix_path) {
            let folder: &str = match prefix_path {
                Some(folder) => folder,
                None => "",
            };
            let mut reason: String = joined("files entry '", given);
            reason.append("' must sit under prefix_path '");
            reason.append(folder);
            reason.append("'");
            proof {
                lemma_refusal_stays(raw, prefix, i + 1);
            }
            return Err(AppError::InvalidOperation { reason });
        }
        if holds_text(paths.as_slice(), path.as_str()) {
            let mut reason: String = joined("files must be unique: '", path.as_str());
            reason.append("' is listed twice");
            proof {
                lemma_refusal_stays(raw, prefix, i + 1);
            }
            return Err(AppError::InvalidOperation { reason });
        }
        let ghost before = paths@;
        let ghost added = path@;
        paths.push(path);
        assert(texts(paths@) =~= texts(before).push(added));
        i = i + 1;
    }
    Ok(paths)
}

/// The paths whose event is replayed: those of the candidates that the
/// repository holds, or those that it lacks, in their order.
pub open spec fn replayed(
    direction: ReplayDirection,
    candidates: Seq<Seq<char>>,
    present: Seq<Seq<char>>,
) -> Seq<Seq<char>> {
    candidates.filter(
        |path: Seq<char>| present.contains(path) == (direction == ReplayDirection::Create),
    )
}

/// The paths whose event is replayed. Without a list of the caller's, the
/// repository's paths are the candidates.
pub fn replay_paths(direction: ReplayDirection, files: Option<&[String]>, present: &[String]) -> (result:
    Vec<String>)
    ensures
        texts(result@) == replayed(
            direction,
            match files {
                Some(given) => texts(given@),
                None => texts(present@),
            },
            texts(present@),
        ),
{
    let candidates: &[String] = match files {
        Some(given) => given,
        None => present,
    };
    let keeps_present: bool = direction.keeps_present();
    let ghost wanted = |path: Seq<char>|
        texts(present@).contains(path) == (direction == ReplayDirection::Create);
    let ghost all = texts(candidates@);
    let mut paths: Vec<String> = Vec::new();
    let mut i: usize = 0;
    proof {
        reveal(Seq::filter);
        assert(all.take(0) =~= Seq::empty());
        assert(texts(paths@) =~= all.take(0).filter(wanted));
    }
    while i < candidates.len()
        invariant
            i <= candidates.len(),
            all == texts(candidates@),
            keeps_present == (direction == ReplayDirection::Create),
            wanted == (|path: Seq<char>|
                texts(present@).contains(path) == (direction == ReplayDirection::Create)),
            texts(paths@) == all.take(i as int).filter(wanted),
        decreases candidates.len() - i,
    {
        let path: &str = candidates[i].as_str();
        let ghost before = paths@;
        proof {
            reveal(Seq::filter);
            assert(all.take(i + 1).drop_last() =~= all.take(i as int));
            assert(all.take(i + 1).last() == path@);
        }
        if holds_text(present, path) == keeps_present {
            paths.push(path.to_owned());
            assert(texts(paths@) =~= texts(before).push(path@));
        }
        i = i + 1;
    }
    assert(all.take(i as int) =~= all);
    paths
}

/// The hook job of a replay: none where no path is affected.
pub fn replay_job(
    collection_id: String,
    tenant_id: String,
    head_sha: String,
    at: Timestamp,
    repo_path: String,
    direction: ReplayDirection,
    paths: Vec<String>,
    delay_ms: Option<u64>,
) -> (result: Option<HookJob>)
    ensures
        result is None <==> paths@.len() == 0,
        match result {
            Some(job) => {
                &&& job.collection_id == collection_id
                &&& job.tenant_id == tenant_id
                &&& job.commit_sha == head_sha
                &&& job.committed_at == at
                &&& match job.source {
                    HookSource::Replay(replay) => {
                        &&& replay.repo_path == repo_path
                        &&& replay.paths == paths
                        &&& replay.delay_ms == delay_ms
                        &&& replay.kind == match direction {
                            ReplayDirection::Delete => ReplayKind::Deleted,
                            ReplayDirection::Create => ReplayKind::Created,
                        }
                    },
                    HookSource::Commit { .. } => false,
                }
            },
            None => true,
        },
{
    if paths.len() == 0 {
        return None;
    }
    Some(
        HookJob::replay(
            collection_id,
            tenant_id,
            head_sha,
            at,
            ReplayJob { repo_path, kind: direction.replay_kind(), paths, delay_ms },
        ),
    )
}

/// Every path of the caller's is replayed in one direction, and only in one.
pub proof fn law_directions_part_the_paths(
    candidates: Seq<Seq<char>>,
    present: Seq<Seq<char>>,
    path: Seq<char>,
)
    requires
        candidates.contains(path),
    ensures
        replayed(ReplayDirection::Create, candidates, present).contains(path) == present.contains(
            path,
        ),
        replayed(ReplayDirection::Delete, candidates, present).contains(path) == !present.contains(
            path,
        ),
{
    lemma_member(ReplayDirection::Create, candidates, present, path);
    lemma_member(ReplayDirection::Delete, candidates, present, path);
}

proof fn lemma_member(
    direction: ReplayDirection,
    candidates: Seq<Seq<char>>,
    present: Seq<Seq<char>>,
    path: Seq<char>,
)
    ensures
        replayed(direction, candidates, present).contains(path) == (candidates.contains(path)
            && present.contains(path) == (direction == ReplayDirection::Create)),
{
    let wanted = |p: Seq<char>| present.contains(p) == (direction == ReplayDirection::Create);
    let kept = replayed(direction, candidates, present);
    if kept.contains(path) {
        let i = choose|i: int| 0 <= i < kept.len() && kept[i] == path;
        candidates.lemma_filter_pred(wanted, i);
        candidates.lemma_filter_contains_rev(wanted, path);
    }
    if candidates.contains(path) && wanted(path) {
        let i = choose|i: int| 0 <= i < candidates.len() && candidates[i] == path;
        candidates.lemma_filter_contains(wanted, i);
    }
}

/// Nothing that the repository holds is ever replayed as deleted.
pub proof fn law_present_is_not_deleted(
    candidates: Seq<Seq<char>>,
    present: Seq<Seq<char>>,
    path: Seq<char>,
)
    requires
        present.contains(path),
    ensures
        !replayed(ReplayDirection::Delete, candidates, present).contains(path),
{
    lemma_member(ReplayDirection::Delete, candidates, present, path);
}

/// Without a list of the caller's, everything is replayed as created and
/// nothing as deleted.
pub proof fn law_whole_repository(present: Seq<Seq<char>>)
    ensures
        replayed(ReplayDirection::Create, present, present) == present,
        replayed(ReplayDirection::Delete, present, present).len() == 0,
{
    lemma_whole(present, present, present.len() as int);
    assert(present.take(present.len() as int) =~= present);
}

proof fn lemma_whole(candidates: Seq<Seq<char>>, present: Seq<Seq<char>>, count: int)
    requires
        0 <= count <= candidates.len(),
        forall|i: int| 0 <= i < candidates.len() ==> present.contains(#[trigger] candidates[i]),
    ensures
        replayed(ReplayDirection::Create, candidates.take(count), present) == candidates.take(
            count,
        ),
        replayed(ReplayDirection::Delete, candidates.take(count), present).len() == 0,
    decreases count,
{
    reveal(Seq::filter);
    if count > 0 {
        lemma_whole(candidates, present, count - 1);
        assert(candidates.take(count).drop_last() =~= candidates.take(count - 1));
        assert(candidates.take(count - 1).push(candidates[count - 1]) =~= candidates.take(count));
    } else {
        assert(candidates.take(0) =~= Seq::empty());
    }
}

} // verus!
