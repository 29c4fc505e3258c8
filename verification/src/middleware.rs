//! Request guards: who may ask, and what a replica answers.
use vstd::prelude::*;
use crate::config::ReplicationConfig;
use crate::replication::status::ReplicaStatus;
use crate::text::{has_prefix, has_suffix, optional_str, same};

verus! {

/// What an authorization header begins with.
pub const BEARER_PREFIX: &'static str = "Bearer ";

/// The key that an authorization header carries.
pub open spec fn bearer_key_of(header: Option<Seq<char>>) -> Option<Seq<char>> {
    match header {
        Some(value) => if BEARER_PREFIX@.is_prefix_of(value) {
            Some(value.skip(BEARER_PREFIX@.len() as int))
        } else {
            None
        },
        None => None,
    }
}

/// Whether two byte strings are equal. The time that it takes depends on their
/// lengths alone.
pub fn constant_time_eq(left: &[u8], right: &[u8]) -> (result: bool)
    ensures
        result == (left@ == right@),
{
    if left.len() != right.len() {
        return false;
    }
    let mut difference: u8 = 0;
    let mut i: usize = 0;
    while i < left.len()
        invariant
            i <= left.len(),
            left.len() == right.len(),
            difference == 0 <==> (forall|j: int| 0 <= j < i ==> left@[j] == right@[j]),
        decreases left.len() - i,
    {
        let a: u8 = left[i];
        let b: u8 = right[i];
        proof {
            assert((difference | (a ^ b)) == 0 <==> (difference == 0 && a == b)) by (bit_vector);
        }
        difference = difference | (a ^ b);
        i = i + 1;
    }
    assert(difference == 0 <==> left@ =~= right@);
    difference == 0
}

/// Whether two texts are equal, in a time that depends on their lengths alone.
fn constant_time_same(left: &str, right: &str) -> (result: bool)
    ensures
        result == (left@ == right@),
{
    proof {
        broadcast use vstd::utf8::encode_utf8_decode_utf8;

        assert(vstd::utf8::decode_utf8(vstd::utf8::encode_utf8(left@)) == left@);
        assert(vstd::utf8::decode_utf8(vstd::utf8::encode_utf8(right@)) == right@);
    }
    constant_time_eq(left.as_bytes(), right.as_bytes())
}

/// The key that an authorization header carries.
fn bearer_key(header: Option<&str>) -> (result: Option<&str>)
    ensures
        optional_str(result) == bearer_key_of(optional_str(header)),
{
    match header {
        Some(value) => if has_prefix(value, BEARER_PREFIX) {
            let start: usize = BEARER_PREFIX.unicode_len();
            let end: usize = value.unicode_len();
            let key: &str = value.substring_char(start, end);
            assert(key@ =~= value@.skip(start as int));
            Some(key)
        } else {
            None
        },
        None => None,
    }
}

/// Whether a request to the content server carries its key.
pub fn require_api_key(header: Option<&str>, api_key: &str) -> (result: bool)
    ensures
        result == (bearer_key_of(optional_str(header)) == Some(api_key@)),
{
    match bearer_key(header) {
        Some(key) => constant_time_same(key, api_key),
        None => false,
    }
}

/// Whether a request to the replication server carries its secret. A node
/// that does not replicate accepts none.
pub fn require_replication_key(header: Option<&str>, replication: Option<&ReplicationConfig>) -> (result:
    bool)
    ensures
        result == match replication {
            Some(config) => bearer_key_of(optional_str(header)) == Some(config.secret@),
            None => false,
        },
{
    match (replication, bearer_key(header)) {
        (Some(config), Some(key)) => constant_time_same(key, config.secret.as_str()),
        _ => false,
    }
}

/// What a node answers before it looks at a request.
#[derive(Debug, Clone, Copy, PartialEq, Eq, Structural)]
pub enum Guard {
    /// The request is served.
    Pass,
    /// A replica takes no writes.
    ReadOnly,
    /// A replica that holds nothing yet serves nothing.
    Bootstrapping,
}

/// Whether a request only reads: by its method, except for the one route that
/// reads by `POST`.
pub open spec fn is_read_request(method: Seq<char>, path: Seq<char>) -> bool {
    ||| method == "GET"@
    ||| method == "HEAD"@
    ||| method == "OPTIONS"@
    ||| method == "POST"@ && "/batch/files/read"@.is_suffix_of(path)
}

/// Whether a request asks a node to explain itself.
pub open spec fn is_diagnostic_request(method: Seq<char>, path: Seq<char>) -> bool {
    method == "GET"@ && (path == "/"@ || path == "/v1"@)
}

/// What a node answers before it looks at a request.
pub open spec fn guard_of(
    is_replica: bool,
    bootstrapped: bool,
    method: Seq<char>,
    path: Seq<char>,
) -> Guard {
    if !is_replica {
        Guard::Pass
    } else if !is_read_request(method, path) {
        Guard::ReadOnly
    } else if !bootstrapped && !is_diagnostic_request(method, path) {
        Guard::Bootstrapping
    } else {
        Guard::Pass
    }
}

impl Guard {
    /// The HTTP status of a refusal.
    pub fn status(self) -> (result: Option<u16>)
        ensures
            result == match self {
                Guard::Pass => None::<u16>,
                Guard::ReadOnly => Some(423u16),
                Guard::Bootstrapping => Some(503u16),
            },
    {
        match self {
            Guard::Pass => None,
            Guard::ReadOnly => Some(423),
            Guard::Bootstrapping => Some(503),
        }
    }

    /// The message of a refusal.
    pub fn message(self) -> (result: &'static str)
        ensures
            result@ == match self {
                Guard::Pass => ""@,
                Guard::ReadOnly => "this node is a read-only replica; writes must go to the master"@,
                Guard::Bootstrapping => "replica is bootstrapping and holds no content yet"@,
            },
    {
        match self {
            Guard::Pass => "",
            Guard::ReadOnly => "this node is a read-only replica; writes must go to the master",
            Guard::Bootstrapping => "replica is bootstrapping and holds no content yet",
        }
    }

    /// The seconds after which a refused request is worth another try. A
    /// write never is.
    pub fn retry_after_secs(self) -> (result: Option<u64>)
        ensures
            result == if self == Guard::Bootstrapping {
                Some(5u64)
            } else {
                None
            },
    {
        match self {
            Guard::Bootstrapping => Some(5),
            _ => None,
        }
    }
}

/// Guards a replica: writes are refused, and so is everything else while it
/// holds nothing yet.
pub fn enforce_replica_read_only(status: &ReplicaStatus, method: &str, path: &str) -> (result: Guard)
    ensures
        result == guard_of(status@.is_replica, status@.bootstrapped, method@, path@),
{
    if !status.is_replica() {
        return Guard::Pass;
    }
    let is_read: bool = same(method, "GET") || same(method, "HEAD") || same(method, "OPTIONS") || (
    same(method, "POST") && has_suffix(path, "/batch/files/read"));
    if !is_read {
        return Guard::ReadOnly;
    }
    let is_diagnostic: bool = same(method, "GET") && (same(path, "/") || same(path, "/v1"));
    if !is_diagnostic && !status.is_bootstrapped() {
        return Guard::Bootstrapping;
    }
    Guard::Pass
}

/// A replica answers a write the same way, whether or not it has caught up.
pub proof fn law_write_answer_is_constant(method: Seq<char>, path: Seq<char>)
    requires
        !is_read_request(method, path),
    ensures
        guard_of(true, true, method, path) == Guard::ReadOnly,
        guard_of(true, false, method, path) == Guard::ReadOnly,
{
}

/// A replica that has caught up serves every read.
pub proof fn law_caught_up_serves_reads(method: Seq<char>, path: Seq<char>)
    requires
        is_read_request(method, path),
    ensures
        guard_of(true, true, method, path) == Guard::Pass,
{
}

} // verus!
