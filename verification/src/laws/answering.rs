//! What a node answers to, and what it takes for granted of its settings.
use vstd::prelude::*;
use crate::config::{
    Config, HooksConfig, LimitsConfig, MaintenanceConfig, PathProbe, ReplicationConfig,
    ReplicationRole, ServerConfig,
};
use crate::error::{fault_message, fault_status, Fault};
use crate::git::listing::begins_with_some;
use crate::git::upkeep::superfluous_packs;
use crate::laws::asking::{is_letter_or_digit, is_name, run_of};
use crate::maintenance::pass_delay;
use crate::replication::registry::{opened, Presence};
use crate::replication::status::Following;
use crate::routes::files::{moved_paths, prefix_of, target_of, MoveFileRequest};
use crate::routes::replication::{can_describe, is_refused, kept_claim, PeerHeaders};
use crate::text::{is_white_space, parsed_number};
use crate::url::{shown_url, url_parts, Parts};

verus! {

/// What is missing is answered by 404, what was asked for wrongly by 400, what
/// cannot be read as text by 422 and what failed here by 500. The answer ends
/// with what the error is about.
pub proof fn law_status_tells_what_went_wrong(fault: Fault, about: Seq<char>)
    ensures
        fault_status(fault) == 404 <==> fault is FileNotFound || fault is CommitNotFound
            || fault is OrderNotFound || fault is TenantNotFound,
        fault_status(fault) == 400 <==> fault is InvalidTenant || fault is InvalidPath
            || fault is InvalidOperation,
        fault_status(fault) == 422 <==> fault is InvalidUtf8,
        fault_status(fault) == 500 <==> fault is Git || fault is Io || fault is TaskFailed,
        about.is_suffix_of(fault_message(Fault::FileNotFound(about))),
        about.is_suffix_of(fault_message(Fault::CommitNotFound(about))),
        about.is_suffix_of(fault_message(Fault::OrderNotFound(about))),
        about.is_suffix_of(fault_message(Fault::TenantNotFound(about))),
        about.is_suffix_of(fault_message(Fault::InvalidTenant(about))),
        about.is_suffix_of(fault_message(Fault::InvalidPath(about))),
        about.is_suffix_of(fault_message(Fault::InvalidOperation(about))),
        about.is_suffix_of(fault_message(Fault::InvalidUtf8(about))),
        about.is_suffix_of(fault_message(Fault::Git(about))),
        about.is_suffix_of(fault_message(Fault::Io(about))),
        about.is_suffix_of(fault_message(Fault::TaskFailed(about))),
{
    lemma_ends("file not found: "@, about);
    lemma_ends("commit not found: "@, about);
    lemma_ends("order index not found for directory: "@, about);
    lemma_ends("tenant not found: "@, about);
    lemma_ends("invalid tenant id: "@, about);
    lemma_ends("invalid path: "@, about);
    lemma_ends("invalid operation: "@, about);
    lemma_ends("file content is not valid UTF-8 at path: "@, about);
    lemma_ends("git error: "@, about);
    lemma_ends("io error: "@, about);
    lemma_ends("background task failed: "@, about);
}

proof fn lemma_ends(start: Seq<char>, end: Seq<char>)
    ensures
        end.is_suffix_of(start + end),
{
    let whole = start + end;
    assert(whole.subrange(whole.len() - end.len(), whole.len() as int) =~= end);
}

/// Whether a text has something in it besides white space.
pub open spec fn says_something(text: Seq<char>) -> bool {
    exists|i: int| 0 <= i < text.len() && !is_white_space(#[trigger] text[i])
}

/// Whether a URL can be read and is one of the web.
pub open spec fn leads_to_web(url: Seq<char>) -> bool {
    url_parts(url) matches Some(parts) && (parts.scheme == "http"@ || parts.scheme == "https"@)
}

/// Whether an extension is made of letters and digits, behind any dots.
pub open spec fn is_good_extension(extension: Seq<char>) -> bool {
    exists|dots: nat, name: Seq<char>|
        extension == #[trigger] (run_of('.', dots) + name) && name.len() > 0 && forall|i: int|
            0 <= i < name.len() ==> is_letter_or_digit(#[trigger] name[i])
}

/// A server's settings are accepted if it has a host and a key, its log level
/// is one of five or is not set, and its path is, or became, a directory.
pub proof fn law_server_settings_are_judged(server: ServerConfig, probe: PathProbe)
    ensures
        server.errors(probe).len() == 0 <==> {
            &&& says_something(server.host@)
            &&& says_something(server.api_key@)
            &&& server.log_level matches Some(level) ==> level@ == "trace"@ || level@ == "debug"@
                || level@ == "info"@ || level@ == "warn"@ || level@ == "error"@
            &&& server.repos_path@.len() > 0
            &&& probe is Directory || probe is Created
        },
{
}

/// Limits are accepted if a batch may read a file, and the extensions, if
/// writes are limited to some, are good and at least one.
pub proof fn law_limits_are_judged(limits: LimitsConfig)
    ensures
        limits.errors().len() == 0 <==> {
            &&& limits.batch_read_maximum_files >= 1
            &&& limits.allowed_extensions matches Some(extensions) ==> extensions@.len() > 0
                && forall|i: int|
                0 <= i < extensions@.len() ==> is_good_extension(#[trigger] extensions@[i]@)
        },
{
    if let Some(extensions) = limits.allowed_extensions {
        lemma_extension_errors(crate::text::texts(extensions@), extensions@.len() as int);
        let list = crate::text::texts(extensions@);
        assert forall|i: int| 0 <= i < extensions@.len() implies #[trigger] list[i]
            == extensions@[i]@ by {}
        if forall|i: int|
            0 <= i < extensions@.len() ==> is_good_extension(#[trigger] extensions@[i]@) {
            assert forall|i: int| 0 <= i < list.len() implies is_good_extension(
                #[trigger] list[i],
            ) by {
                assert(is_good_extension(extensions@[i]@));
            }
        }
        if forall|i: int| 0 <= i < list.len() ==> is_good_extension(#[trigger] list[i]) {
            assert forall|i: int| 0 <= i < extensions@.len() implies is_good_extension(
                #[trigger] extensions@[i]@,
            ) by {
                assert(is_good_extension(list[i]));
            }
        }
    }
}

proof fn lemma_extension_errors(extensions: Seq<Seq<char>>, count: int)
    requires
        0 <= count <= extensions.len(),
    ensures
        crate::config::extension_errors(extensions, count).len() == 0 <==> forall|i: int|
            0 <= i < count ==> is_good_extension(#[trigger] extensions[i]),
    decreases count,
{
    if count > 0 {
        lemma_extension_errors(extensions, count - 1);
        lemma_good_extension(extensions[count - 1]);
    }
}

proof fn lemma_good_extension(extension: Seq<char>)
    ensures
        crate::config::is_extension(extension) <==> is_good_extension(extension),
{
    let bare = crate::text::without_leading(extension, '.');
    if crate::config::is_extension(extension) {
        let dots = lemma_dots(extension);
        assert forall|i: int| 0 <= i < bare.len() implies is_letter_or_digit(
            #[trigger] bare[i],
        ) by {
            assert(crate::config::is_alphanumeric(bare[i]));
        }
        assert(extension == run_of('.', dots) + bare);
    }
    if is_good_extension(extension) {
        let (dots, name) = choose|dots: nat, name: Seq<char>|
            extension == #[trigger] (run_of('.', dots) + name) && name.len() > 0 && forall|i: int|
                0 <= i < name.len() ==> is_letter_or_digit(#[trigger] name[i]);
        assert(is_letter_or_digit(name[0]));
        crate::laws::asking::lemma_leading('.', dots, name);
        assert forall|i: int| 0 <= i < bare.len() implies crate::config::is_alphanumeric(
            #[trigger] bare[i],
        ) by {
            assert(is_letter_or_digit(name[i]));
        }
    }
}

proof fn lemma_dots(text: Seq<char>) -> (count: nat)
    ensures
        text == run_of('.', count) + crate::text::without_leading(text, '.'),
    decreases text.len(),
{
    if text.len() > 0 && text[0] == '.' {
        let count = lemma_dots(text.skip(1));
        let bare = crate::text::without_leading(text, '.');
        let rest = run_of('.', count) + bare;
        assert(rest == text.skip(1));
        assert forall|i: int| 0 <= i < text.len() implies #[trigger] text[i] == (run_of(
            '.',
            count + 1,
        ) + bare)[i] by {
            if i > 0 {
                assert(rest[i - 1] == text[i]);
            }
        }
        assert(text =~= run_of('.', count + 1) + bare);
        count + 1
    } else {
        assert(text =~= run_of('.', 0) + text);
        0
    }
}

/// Upkeep is accepted if it waits at least a second where it is on, and keeps
/// at least two packs where it has a limit.
pub proof fn law_upkeep_is_judged(upkeep: MaintenanceConfig)
    ensures
        upkeep.errors().len() == 0 <==> (upkeep.enabled ==> upkeep.delay_secs >= 1) && (
        upkeep.maximum_packs matches Some(packs) ==> packs >= 2),
{
}

/// A hook is accepted if its URL is one of the web, it has an event, it tries
/// and waits at all, and its header, if it has one, is not blank.
pub proof fn law_hook_is_judged(hook: HooksConfig)
    ensures
        hook.errors().len() == 0 <==> {
            &&& leads_to_web(hook.url@)
            &&& hook.events@.len() > 0
            &&& hook.retry_attempts >= 1
            &&& hook.retry_backoff_ms >= 1
            &&& hook.auth matches Some(auth) ==> says_something(auth.header@) && says_something(
                auth.value@,
            )
        },
{
}

/// Replication is accepted if it has a secret, a port of its own and a name,
/// polls, works and waits at all, and a replica has a master of the web while
/// a master has none.
pub proof fn law_replication_is_judged(replication: ReplicationConfig, server: ServerConfig)
    ensures
        replication.errors(server).len() == 0 <==> {
            &&& says_something(replication.secret@)
            &&& replication.port != server.port
            &&& is_name(replication.node_id@)
            &&& replication.role == ReplicationRole::Replica <==> replication.master_url is Some
            &&& replication.master_url matches Some(url) ==> leads_to_web(url@)
            &&& replication.poll_interval_secs >= 1
            &&& replication.parallelism >= 1
            &&& replication.reconnect_backoff_ms >= 1
        },
{
    crate::laws::asking::law_names_are_plain(replication.node_id@);
}

/// Settings are accepted if each section is.
pub proof fn law_settings_are_judged_by_section(config: Config, probe: PathProbe)
    ensures
        config.errors(probe).len() == 0 <==> {
            &&& config.server.errors(probe).len() == 0
            &&& config.limits.errors().len() == 0
            &&& config.hooks matches Some(hooks) ==> hooks.errors().len() == 0
            &&& config.maintenance.errors().len() == 0
            &&& config.replication matches Some(replication) ==> replication.errors(
                config.server,
            ).len() == 0
        },
{
}

/// A pass of upkeep waits, but not on a repository that has reached its limit
/// of packs.
pub proof fn law_upkeep_waits_below_its_limit(delay: u64, limit: usize, packs: usize)
    ensures
        pass_delay(delay, None, packs) == delay,
        packs < limit ==> pass_delay(delay, Some(limit), packs) == delay,
        packs >= limit ==> pass_delay(delay, Some(limit), packs) == 0,
{
}

/// A number is read digit by digit; a plus sign before it changes nothing.
/// One above the limit is none, and neither is a text with something else in
/// it or without a digit.
pub proof fn law_numbers_are_read_by_digits(
    text: Seq<char>,
    number: nat,
    digit: nat,
    limit: nat,
    c: char,
)
    requires
        digit < 10,
        text.len() > 0 ==> text[0] != '+',
    ensures
        parsed_number(Seq::empty(), limit) is None,
        parsed_number(seq!['+'], limit) is None,
        parsed_number(seq![(('0' as u8) + digit) as char], limit) == if digit <= limit {
            Some(digit)
        } else {
            None
        },
        parsed_number(text, limit) == Some(number) ==> parsed_number(
            text.push((('0' as u8) + digit) as char),
            limit,
        ) == if 10 * number + digit <= limit {
            Some((10 * number + digit) as nat)
        } else {
            None
        },
        parsed_number(seq!['+'] + text, limit) == parsed_number(text, limit),
        !('0' as u32 <= c as u32 <= '9' as u32) && c != '+' ==> parsed_number(text.push(c), limit)
            is None,
{
    let d = (('0' as u8) + digit) as char;
    assert(d as u32 == 48 + digit);
    assert(seq![d].drop_last() =~= Seq::empty());
    reveal_with_fuel(crate::text::digits_value, 2);
    assert(crate::text::digits_value(seq![d]) == digit);
    assert(seq!['+'].skip(1) =~= Seq::empty());
    assert((seq!['+'] + text).skip(1) =~= text);
    if parsed_number(text, limit) == Some(number) {
        let longer = text.push(d);
        assert(longer.drop_last() =~= text);
        assert(longer[0] == text[0]);
        assert forall|i: int| 0 <= i < longer.len() implies 48 <= #[trigger] longer[i] as u32
            <= 57 by {
            if i < text.len() {
                assert(longer[i] == text[i]);
            }
        }
    }
    if !('0' as u32 <= c as u32 <= '9' as u32) && c != '+' {
        let longer = text.push(c);
        if text.len() > 0 {
            assert(longer[0] == text[0]);
        }
        assert(longer.last() == c);
        assert(!crate::text::is_digits(longer)) by {
            assert(longer[longer.len() - 1] == c);
        }
    }
}

/// What is shown of a URL is itself where it holds no credentials, and what
/// is left without them otherwise; in either case without the slashes that it
/// ends with. Nothing is shown of what cannot be read or cleared.
pub proof fn law_no_credentials_are_shown(parts: Parts, text: Seq<char>, slashes: nat)
    requires
        text.len() > 0 ==> text.last() != '/',
    ensures
        ({
            let ended = text + run_of('/', slashes);
            let bare = parts.username.len() == 0 && !parts.has_password;
            &&& bare && parts.text == ended ==> shown_url(Some(parts), None) == text
            &&& bare && parts.text == ended ==> shown_url(Some(parts), Some(ended)) == text
            &&& !bare ==> shown_url(Some(parts), Some(ended)) == text
            &&& !bare ==> shown_url(Some(parts), None) == "<invalid url>"@
            &&& shown_url(None, Some(ended)) == "<invalid url>"@
        }),
{
    crate::laws::asking::lemma_trailing('/', slashes, text);
}

/// A peer's claim to a name is kept as it is if it can be one, and dropped
/// otherwise.
pub proof fn law_claims_are_kept_or_dropped(claim: String)
    ensures
        kept_claim(Some(claim)) == if is_name(claim@) {
            Some(claim@)
        } else {
            None
        },
        kept_claim(None) is None,
{
    crate::laws::asking::law_names_are_plain(claim@);
}

/// A stream is refused to a peer that gives a token other than that of the
/// process that holds it, and to no other.
pub proof fn law_other_tokens_are_refused(
    row: Presence,
    holder: Seq<char>,
    now: i64,
    peer: PeerHeaders,
)
    ensures
        is_refused(opened(row, holder, now), peer) <==> (peer.instance matches Some(token)
            && token@ != holder),
        !row.stream_connected ==> !is_refused(row, peer),
{
}

/// A replica tells what it holds once it has caught up and knows what it
/// follows; any other node always does.
pub proof fn law_replica_tells_once_it_knows(following: Following, identity: Seq<char>)
    ensures
        !following.is_replica ==> can_describe(following, None) && can_describe(
            following,
            Some(identity),
        ),
        following.is_replica ==> !can_describe(following, None) && (can_describe(
            following,
            Some(identity),
        ) <==> following.bootstrapped),
{
}

/// A move goes from one accepted path to another; where only a file can be
/// moved, the second has to have an allowed extension.
pub proof fn law_move_goes_from_path_to_path(
    body: MoveFileRequest,
    raw: Seq<char>,
    allowed: Seq<Seq<char>>,
)
    ensures
        ({
            let from = target_of(raw, body.allow_prefix_path_recurse);
            let to = target_of(body.destination@, body.allow_prefix_path_recurse);
            &&& moved_paths(body, raw, None) is Ok <==> from is Ok && to is Ok
            &&& moved_paths(body, raw, Some(allowed)) is Ok <==> from is Ok && to is Ok && (
            body.allow_prefix_path_recurse == Some(true) || crate::laws::telling::ends_as_allowed(
                crate::order::leaf_of(to->Ok_0),
                allowed,
            ))
            &&& moved_paths(body, raw, None) matches Ok(paths) ==> Ok::<_, Fault>(paths.0) == from
                && Ok::<_, Fault>(paths.1) == to
            &&& moved_paths(body, raw, Some(allowed)) matches Ok(paths) ==> Ok::<_, Fault>(
                paths.0,
            ) == from && Ok::<_, Fault>(paths.1) == to
        }),
{
    let to = target_of(body.destination@, body.allow_prefix_path_recurse);
    if to is Ok {
        crate::laws::telling::lemma_extension(crate::order::leaf_of(to->Ok_0), allowed);
    }
}

/// The folder of a request is the one that it names; the root is the same as
/// none.
pub proof fn law_root_is_no_folder(raw: String)
    ensures
        prefix_of(None) == Ok::<_, Fault>(None::<Seq<char>>),
        prefix_of(Some(raw)) is Ok <==> crate::validate::folder_path_of(raw@) is Ok,
        crate::validate::folder_path_of(raw@) matches Ok(path) ==> (path.len() == 0 ==> prefix_of(
            Some(raw),
        ) == Ok::<_, Fault>(None::<Seq<char>>)) && (path.len() > 0 ==> prefix_of(Some(raw)) == Ok::<_, Fault>(
            Some(path),
        )),
{
}

/// The packs that were there go once a pack is there that was not, and stay
/// otherwise.
pub proof fn law_packs_go_for_a_new_one(before: Seq<Seq<char>>, after: Seq<Seq<char>>, new: Seq<char>)
    ensures
        after.contains(new) && !before.contains(new) ==> superfluous_packs(before, after)
            == before,
        (forall|pack: Seq<char>| #[trigger] after.contains(pack) ==> before.contains(pack))
            ==> superfluous_packs(before, after) == Seq::<Seq<char>>::empty(),
{
    if after.contains(new) && !before.contains(new) {
        let i = choose|i: int| 0 <= i < after.len() && after[i] == new;
        assert(!before.contains(after[i]));
    }
    if forall|pack: Seq<char>| #[trigger] after.contains(pack) ==> before.contains(pack) {
        assert forall|i: int| 0 <= i < after.len() implies before.contains(#[trigger] after[i]) by {
            assert(after.contains(after[i]));
        }
    }
}

/// A name begins with one of some prefixes if it is one of them and anything
/// behind it.
pub proof fn law_any_prefix_is_enough(prefixes: Seq<Seq<char>>, name: Seq<char>)
    ensures
        begins_with_some(prefixes, name) <==> exists|i: int, rest: Seq<char>|
            0 <= i < prefixes.len() && name == #[trigger] (prefixes[i] + rest),
{
    if begins_with_some(prefixes, name) {
        let i = choose|i: int|
            0 <= i < prefixes.len() && (#[trigger] prefixes[i]).is_prefix_of(name);
        let rest = name.skip(prefixes[i].len() as int);
        assert(name =~= prefixes[i] + rest);
    }
    if exists|i: int, rest: Seq<char>|
        0 <= i < prefixes.len() && name == #[trigger] (prefixes[i] + rest) {
        let (i, rest) = choose|i: int, rest: Seq<char>|
            0 <= i < prefixes.len() && name == #[trigger] (prefixes[i] + rest);
        assert(name.subrange(0, prefixes[i].len() as int) =~= prefixes[i]);
        assert(prefixes[i].is_prefix_of(name));
    }
}

} // verus!
