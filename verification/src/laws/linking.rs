//! How a replica and its master stay in touch.
use vstd::prelude::*;
use crate::replication::follower::ReplicaFollower;
use crate::replication::issues::Issue;
use crate::replication::registry::{
    closed, collides, is_expired, noted, opened, refused, shown_before, Presence,
};
use crate::replication::status::{passed, Following};
use crate::replication::stream::{frames_in, identity_verdict, longer_pause, pack_url_of, part_url};
use crate::replication::sync::{since_when, SyncOutcome};
use crate::replication::worker::{landed_after, outcome_count, stalled_after};
use crate::text::{first_position, is_white_space, lemma_first_position, trimmed};

verus! {

/// One process holds the stream of a node: once it is open, another one
/// collides and the same one does not, until the holder closes it. Another
/// process closes nothing.
pub proof fn law_stream_has_one_holder(
    row: Presence,
    holder: Seq<char>,
    other: Seq<char>,
    now: i64,
    later: i64,
)
    requires
        holder != other,
    ensures
        ({
            let held = opened(row, holder, now);
            let left = closed(held, holder, later);
            &&& collides(held, other)
            &&& !collides(held, holder)
            &&& closed(held, other, later) == held
            &&& !collides(left, other)
            &&& !left.stream_connected
            &&& left.last_contact_at == Some(later)
            &&& held.last_contact_at == Some(now)
            &&& held.connected_at == Some(now)
            &&& held.packs_delivered == row.packs_delivered
            &&& left.packs_delivered == row.packs_delivered
            &&& left.sync == row.sync
            &&& held.collision_since is None
        }),
        !row.stream_connected ==> !collides(row, other),
        row.instance is None ==> !collides(row, other),
{
}

/// Refusals that follow each other within 150 seconds are one run, which began
/// with the first of them; a later one begins a run of its own. A refusal
/// changes nothing else of a row.
pub proof fn law_refusals_form_runs(row: Presence, first: i64, second: i64)
    requires
        row.collision_since is None,
    ensures
        ({
            let once = refused(row, first);
            let twice = refused(once, second);
            &&& once.collision_since == Some(first)
            &&& once.last_collision_at == Some(first)
            &&& twice.last_collision_at == Some(second)
            &&& second - first <= 150 ==> twice.collision_since == Some(first)
            &&& second - first > 150 ==> twice.collision_since == Some(second)
            &&& is_expired(once, second) <==> second - first > 150
            &&& twice == (Presence {
                last_collision_at: twice.last_collision_at,
                collision_since: twice.collision_since,
                ..row
            })
        }),
        row.last_collision_at is None ==> !is_expired(row, second),
{
}

/// A request that reports something replaces all that was reported; one that
/// reports nothing replaces none of it. Either is a contact.
pub proof fn law_report_replaces_report(
    row: Presence,
    repositories: Option<usize>,
    pending: Option<usize>,
    sync: Option<Seq<char>>,
    interval: Option<u64>,
    now: i64,
)
    ensures
        ({
            let after = noted(row, repositories, pending, sync, interval, now);
            let says = repositories is Some || pending is Some || sync is Some;
            &&& after.last_contact_at == Some(now)
            &&& says ==> after.repositories == repositories && after.pending_repositories
                == pending && after.sync == sync && after.reported_at == Some(now)
            &&& !says ==> after.repositories == row.repositories && after.pending_repositories
                == row.pending_repositories && after.sync == row.sync && after.reported_at
                == row.reported_at
            &&& interval is Some ==> after.poll_interval_secs == interval
            &&& interval is None ==> after.poll_interval_secs == row.poll_interval_secs
            &&& after.stream_connected == row.stream_connected
            &&& after.instance == row.instance
            &&& after.node_id == row.node_id
            &&& after.connected_at == row.connected_at
        }),
{
}

/// Of two rows the one that was heard of later is shown first, one that was
/// never heard of comes last, and names decide between equals.
pub proof fn law_rows_are_shown_by_contact(left: Presence, right: Presence)
    ensures
        left.last_contact_at matches Some(a) && right.last_contact_at matches Some(b) && a > b
            ==> shown_before(left, right) && !shown_before(right, left),
        left.last_contact_at is Some && right.last_contact_at is None ==> shown_before(left, right)
            && !shown_before(right, left),
        left.last_contact_at == right.last_contact_at ==> (shown_before(left, right)
            <==> crate::text::text_less(left.node_id, right.node_id)),
{
}

/// A master is followed only if it states a well formed identity, and the one
/// that this replica is pinned to if it is. A replica that is not pinned is
/// pinned where it may be.
pub proof fn law_master_has_to_be_the_pinned_one(
    follower: ReplicaFollower,
    stated: Option<Seq<char>>,
    may_pin: bool,
    pinned: Option<Seq<char>>,
    place: Seq<char>,
    name: Option<Seq<char>>,
)
    ensures
        ({
            let answer = identity_verdict(follower, stated, may_pin, pinned, place, name);
            let is_sound = stated matches Some(identity) && identity.len() == 64
                && crate::laws::asking::is_made_of_digits(identity);
            &&& answer is Refused <==> !is_sound || (pinned is Some && pinned != stated)
            &&& answer is Pin <==> is_sound && pinned is None && may_pin
            &&& answer is Accepted <==> is_sound && (pinned == stated || (pinned is None
                && !may_pin))
        }),
{
    if let Some(identity) = stated {
        crate::laws::asking::law_ids_are_hexadecimal(identity);
    }
}

/// An issue that is raised again keeps the time when it was first raised,
/// whatever it is and has become.
pub proof fn law_issue_keeps_its_beginning(
    issues: Map<Seq<char>, Issue>,
    key: Seq<char>,
    first: i64,
    again: i64,
)
    ensures
        !issues.contains_key(key) ==> since_when(issues, key, again) == again,
        issues.contains_key(key) ==> match issues[key] {
            Issue::ReplicaAhead { since, .. } => since_when(issues, key, again) == since,
            Issue::HistoryDiverged { since, .. } => since_when(issues, key, again) == since,
            Issue::IdentityMismatch { since, .. } => since_when(issues, key, again) == since,
            Issue::DeletionRefused { since, .. } => since_when(issues, key, again) == since,
            Issue::IdentityFileMissing { since, .. } => since_when(issues, key, again) == since,
            Issue::IdentityFileChanged { since, .. } => since_when(issues, key, again) == since,
            Issue::NodeIdCollision { since, .. } => since_when(issues, key, again) == since,
        },
        issues.contains_key(key) ==> since_when(
            issues.insert(key, crate::replication::issues::dated(issues[key], first)),
            key,
            again,
        ) == first,
{
}

/// Each pause is twice the one before, up to a minute.
pub proof fn law_pauses_double(pause: u64)
    ensures
        2 * pause <= 60000 ==> longer_pause(pause) == 2 * pause,
        2 * pause > 60000 ==> longer_pause(pause) == 60000,
{
}

/// Each line of a stream that is not blank is a frame, without the white space
/// around it; a line that is not ended yet is left over.
pub proof fn law_frames_are_lines(line: Seq<char>, rest: Seq<char>)
    requires
        !line.contains('\n'),
    ensures
        frames_in(line) == (Seq::<Seq<char>>::empty(), line),
        frames_in(line + seq!['\n'] + rest).1 == frames_in(rest).1,
        frames_in(line + seq!['\n'] + rest).0 == if trimmed(line).len() == 0 {
            frames_in(rest).0
        } else {
            seq![trimmed(line)] + frames_in(rest).0
        },
{
    let whole = line + seq!['\n'] + rest;
    let end = first_position(whole, '\n');
    lemma_first_position(whole, '\n');
    assert(whole[line.len() as int] == '\n');
    assert(whole.contains('\n'));
    if end < line.len() {
        assert(line[end] == whole[end]);
    }
    assert(end == line.len());
    assert(whole.take(end) =~= line);
    assert(whole.skip(end + 1) =~= rest);
}

/// What is left of a text without the white space around it neither begins nor
/// ends with any, and only white space was around it.
pub proof fn law_trimming_takes_white_space(text: Seq<char>) -> (place: (int, int))
    ensures
        0 <= place.0 <= place.1 <= text.len(),
        trimmed(text) == text.subrange(place.0, place.1),
        forall|i: int| 0 <= i < place.0 ==> is_white_space(#[trigger] text[i]),
        forall|i: int| place.1 <= i < text.len() ==> is_white_space(#[trigger] text[i]),
        place.0 < place.1 ==> !is_white_space(text[place.0]) && !is_white_space(text[place.1 - 1]),
{
    let start = lemma_start(text);
    let rest = text.skip(start);
    let length = lemma_end(rest);
    assert(rest.take(length) =~= text.subrange(start, start + length));
    assert forall|i: int| start + length <= i < text.len() implies is_white_space(
        #[trigger] text[i],
    ) by {
        assert(rest[i - start] == text[i]);
    }
    if length > 0 {
        assert(rest[0] == text[start]);
        assert(rest[length - 1] == text[start + length - 1]);
    }
    (start, start + length)
}

proof fn lemma_start(text: Seq<char>) -> (start: int)
    ensures
        0 <= start <= text.len(),
        crate::text::trimmed_start(text) == text.skip(start),
        forall|i: int| 0 <= i < start ==> is_white_space(#[trigger] text[i]),
        start < text.len() ==> !is_white_space(text[start]),
    decreases text.len(),
{
    if text.len() > 0 && is_white_space(text[0]) {
        let rest = text.skip(1);
        let start = lemma_start(rest);
        assert(rest.skip(start) =~= text.skip(start + 1));
        assert forall|i: int| 0 <= i < start + 1 implies is_white_space(#[trigger] text[i]) by {
            if i > 0 {
                assert(rest[i - 1] == text[i]);
            }
        }
        start + 1
    } else {
        assert(text.skip(0) =~= text);
        0
    }
}

proof fn lemma_end(text: Seq<char>) -> (length: int)
    ensures
        0 <= length <= text.len(),
        crate::text::trimmed_end(text) == text.take(length),
        forall|i: int| length <= i < text.len() ==> is_white_space(#[trigger] text[i]),
        length > 0 ==> !is_white_space(text[length - 1]),
    decreases text.len(),
{
    if text.len() > 0 && is_white_space(text.last()) {
        let rest = text.drop_last();
        let length = lemma_end(rest);
        assert(rest.take(length) =~= text.take(length));
        assert forall|i: int| length <= i < text.len() implies is_white_space(#[trigger] text[i]) by {
            if i < rest.len() {
                assert(rest[i] == text[i]);
            }
        }
        length
    } else {
        assert(text.take(text.len() as int) =~= text);
        text.len() as int
    }
}

/// The parts of a master are below `/_replication`, and a pack is below its
/// collection and its tenant, with what the replica has as a parameter.
pub proof fn law_parts_have_their_urls(
    master: Seq<char>,
    part: Seq<char>,
    collection_id: Seq<char>,
    tenant_id: Seq<char>,
    have: Seq<char>,
)
    ensures
        part_url(master, part) == master + "/_replication"@ + part,
        pack_url_of(master, collection_id, tenant_id, None) == master + "/_replication"@ + seq!['/']
            + collection_id + seq!['/'] + tenant_id + "/pack"@,
        pack_url_of(master, collection_id, tenant_id, Some(have)) == master + "/_replication"@
            + seq!['/'] + collection_id + seq!['/'] + tenant_id + "/pack"@ + "?have="@ + have,
{
    reveal_strlit("/");
    assert("/"@ =~= seq!['/']);
}

/// Outcomes are counted one by one.
pub proof fn law_outcomes_are_counted(
    first: Seq<SyncOutcome>,
    last: SyncOutcome,
    outcome: SyncOutcome,
)
    ensures
        outcome_count(Seq::empty(), outcome) == 0,
        outcome_count(first.push(last), outcome) == outcome_count(first, outcome) + if last
            == outcome {
            1nat
        } else {
            0nat
        },
{
    reveal(Seq::filter);
    assert(first.push(last).drop_last() =~= first);
}

/// Passes without progress are counted until one makes progress, and what
/// landed is added up.
pub proof fn law_progress_is_counted(passes: u32, total: usize, landed: usize)
    ensures
        stalled_after(passes, false) == 0,
        passes < u32::MAX ==> stalled_after(passes, true) == passes + 1,
        stalled_after(u32::MAX, true) == u32::MAX,
        total + landed <= usize::MAX ==> landed_after(total, landed) == total + landed,
        total + landed > usize::MAX ==> landed_after(total, landed) == usize::MAX,
{
}

/// A pass that fails is one failure more and leaves the last success; one that
/// succeeds ends the failures and is the last success. Neither changes what
/// else is known.
pub proof fn law_passes_are_noted(following: Following, now: i64)
    ensures
        ({
            let bad = passed(following, true, now);
            let good = passed(following, false, now);
            &&& following.consecutive_failures < u32::MAX ==> bad.consecutive_failures
                == following.consecutive_failures + 1
            &&& bad.last_success_unix == following.last_success_unix
            &&& good.consecutive_failures == 0
            &&& good.last_success_unix == now
            &&& bad.pending == following.pending && good.pending == following.pending
            &&& bad.bootstrapped == following.bootstrapped && good.bootstrapped
                == following.bootstrapped
        }),
{
}

} // verus!
