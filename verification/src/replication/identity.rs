//! Which data set a node serves, and whether its store still vouches for it.
use vstd::prelude::*;
use crate::replication::issues::{
    dated, since_of, Issue, Issues, ISSUE_IDENTITY_FILE,
};
use crate::text::{joined, optional_text, same};
use crate::validate::{identity_fault, replication_identity};

verus! {

/// Size of an identity, before it is spelled in hexadecimal.
pub const IDENTITY_BYTES: usize = 32;

/// Size of a process token, before it is spelled in hexadecimal.
pub const INSTANCE_BYTES: usize = 16;

/// What is wrong with an identity file.
#[derive(Debug)]
pub enum IdentityDrift {
    Missing { path: String },
    Changed { path: String, expected: String, found: String },
}

/// The identity of the data set that a node serves: generated on a master,
/// pinned on a replica, none on a standalone node.
#[derive(Debug)]
pub struct ReplicationIdentity {
    path: String,
    identity: Option<String>,
}

/// What a node with an identity finds in its file: the identity, another one,
/// nothing, or something that cannot be read.
pub type IdentityRead = Result<Option<String>, String>;

/// A hexadecimal digit in lower case.
pub open spec fn hex_digit(value: int) -> char {
    if value < 10 {
        ((48 + value) as u8) as char
    } else {
        ((87 + value) as u8) as char
    }
}

/// Bytes in hexadecimal.
pub open spec fn hex_text(bytes: Seq<u8>) -> Seq<char>
    decreases bytes.len(),
{
    if bytes.len() == 0 {
        Seq::empty()
    } else {
        hex_text(bytes.drop_last()).push(hex_digit(bytes.last() as int / 16)).push(
            hex_digit(bytes.last() as int % 16),
        )
    }
}

/// Spells bytes in hexadecimal.
pub fn spell_hex(bytes: &[u8]) -> (result: String)
    ensures
        result@ == hex_text(bytes@),
{
    let mut result: String = String::new();
    let mut i: usize = 0;
    assert(bytes@.take(0) =~= Seq::empty());
    while i < bytes.len()
        invariant
            i <= bytes.len(),
            result@ == hex_text(bytes@.take(i as int)),
        decreases bytes.len() - i,
    {
        assert(bytes@.take(i + 1).drop_last() =~= bytes@.take(i as int));
        let byte: u8 = bytes[i];
        result.push(spell_digit(byte / 16));
        result.push(spell_digit(byte % 16));
        i = i + 1;
    }
    assert(bytes@.take(i as int) =~= bytes@);
    result
}

/// A hexadecimal digit in lower case.
fn spell_digit(value: u8) -> (result: char)
    requires
        value < 16,
    ensures
        result == hex_digit(value as int),
{
    if value < 10 {
        (48 + value) as char
    } else {
        (87 + value) as char
    }
}

/// The text of bytes in hexadecimal takes two digits for each.
pub proof fn law_hex_length(bytes: Seq<u8>)
    ensures
        hex_text(bytes).len() == 2 * bytes.len(),
    decreases bytes.len(),
{
    if bytes.len() > 0 {
        law_hex_length(bytes.drop_last());
    }
}

/// `getrandom::fill` on a buffer of `count` bytes.
///
/// Claims only the length of what comes back: the bytes are random, and the
/// system may fail to give any. It is not asked for none, so an empty buffer is
/// always filled. No buffer is larger than `isize::MAX` bytes.
#[verifier::external_body]
fn random_bytes(count: usize) -> (result: Result<Vec<u8>, String>)
    requires
        count <= isize::MAX,
    ensures
        match result {
            Ok(bytes) => bytes@.len() == count,
            Err(_) => count > 0,
        },
{
    let mut bytes: Vec<u8> = vec![0u8; count];
    match getrandom::fill(&mut bytes) {
        Ok(()) => Ok(bytes),
        Err(error) => Err(error.to_string()),
    }
}

/// What came of drawing bytes, with the bytes in hexadecimal.
pub fn hex_of_draw(drawn: Result<Vec<u8>, String>) -> (result: Result<String, String>)
    ensures
        match (drawn, result) {
            (Ok(bytes), Ok(text)) => text@ == hex_text(bytes@),
            (Err(reason), Err(error)) => error == reason,
            _ => false,
        },
{
    match drawn {
        Ok(bytes) => Ok(spell_hex(bytes.as_slice())),
        Err(reason) => Err(reason),
    }
}

/// Random bytes in hexadecimal. Only where there are bytes to draw can the
/// system fail to give them.
pub fn generate_hex(bytes: usize) -> (result: Result<String, String>)
    requires
        bytes <= isize::MAX,
    ensures
        match result {
            Ok(text) => exists|drawn: Seq<u8>| drawn.len() == bytes && text@ == #[trigger] hex_text(
                drawn,
            ),
            Err(_) => bytes > 0,
        },
{
    hex_of_draw(random_bytes(bytes))
}

impl ReplicationIdentity {
    /// Where the identity is stored.
    pub closed spec fn place(&self) -> Seq<char> {
        self.path@
    }

    /// The identity, if there is one.
    pub closed spec fn held(&self) -> Option<Seq<char>> {
        optional_text(self.identity)
    }

    /// Takes up the identity that a node serves, given what its file holds.
    /// `is_replica` is `None` on a standalone node, which has no identity. A
    /// master without a file makes one; it comes back a second time, to be
    /// written before it is used. A file that cannot be trusted is an error.
    pub fn load(path: &str, is_replica: Option<bool>, read: IdentityRead) -> (result: Result<
        (Self, Option<String>),
        String,
    >)
        ensures
            match result {
                Ok((identity, to_write)) => {
                    &&& identity.place() == path@
                    &&& match is_replica {
                        None => identity.held() is None && to_write is None,
                        Some(replica) => match read {
                            Err(_) => false,
                            Ok(Some(stored)) => identity.held() == Some(stored@) && to_write is None,
                            Ok(None) => if replica {
                                identity.held() is None && to_write is None
                            } else {
                                to_write matches Some(made) && identity.held() == Some(made@)
                                    && made@.len() == 64 && exists|drawn: Seq<u8>|
                                    drawn.len() == 32 && made@ == #[trigger] hex_text(drawn)
                            },
                        },
                    }
                },
                Err(error) => is_replica matches Some(replica) && match read {
                    Err(reason) => error@ == reason@,
                    Ok(Some(_)) => false,
                    Ok(None) => !replica
                        && "cannot generate replication identity: "@.is_prefix_of(error@),
                },
            },
    {
        let place: String = path.to_owned();
        match is_replica {
            None => Ok((ReplicationIdentity { path: place, identity: None }, None)),
            Some(replica) => match read {
                Err(reason) => Err(reason),
                Ok(Some(stored)) => Ok(
                    (ReplicationIdentity { path: place, identity: Some(stored) }, None),
                ),
                Ok(None) => {
                    if replica {
                        return Ok((ReplicationIdentity { path: place, identity: None }, None));
                    }
                    match Self::generate() {
                        Err(error) => Err(error),
                        Ok(made) => Ok(
                            (
                                ReplicationIdentity { path: place, identity: Some(made.clone()) },
                                Some(made),
                            ),
                        ),
                    }
                },
            },
        }
    }

    /// The identity, if there is one.
    pub fn current(&self) -> (result: Option<String>)
        ensures
            optional_text(result) == self.held(),
    {
        match &self.identity {
            Some(identity) => Some(identity.clone()),
            None => None,
        }
    }

    /// Where the identity is stored.
    pub fn path(&self) -> (result: &str)
        ensures
            result@ == self.place(),
    {
        self.path.as_str()
    }

    /// Whether the file still holds the identity, given what was read from
    /// it. A node without an identity has nothing to compare. A file that
    /// cannot be read counts as missing.
    pub fn verify_on_disk(&self, read: &IdentityRead) -> (result: Result<(), IdentityDrift>)
        ensures
            match result {
                Ok(()) => self.held() is None || (*read matches Ok(Some(found)) && self.held()
                    == Some(found@)),
                Err(IdentityDrift::Missing { path }) => self.held() is Some && path@ == self.place()
                    && !(*read matches Ok(Some(_))),
                Err(IdentityDrift::Changed { path, expected, found }) => {
                    &&& self.held() == Some(expected@)
                    &&& path@ == self.place()
                    &&& *read matches Ok(Some(stored)) && found@ == stored@
                    &&& found@ != expected@
                },
            },
    {
        let expected: &String = match &self.identity {
            Some(expected) => expected,
            None => {
                return Ok(());
            },
        };
        match read {
            Ok(Some(found)) => if same(found.as_str(), expected.as_str()) {
                Ok(())
            } else {
                Err(
                    IdentityDrift::Changed {
                        path: self.path.clone(),
                        expected: expected.clone(),
                        found: found.clone(),
                    },
                )
            },
            Ok(None) => Err(IdentityDrift::Missing { path: self.path.clone() }),
            Err(_) => Err(IdentityDrift::Missing { path: self.path.clone() }),
        }
    }

    /// What the identity file holds, once it has been parsed. One of another
    /// form is no identity.
    pub fn judge_file(path: &str, identity: String) -> (result: IdentityRead)
        ensures
            match (identity_fault(identity@), result) {
                (None, Ok(Some(held))) => held@ == identity@,
                (Some(reason), Err(error)) => error@ == path@ + " holds an invalid identity: "@
                    + reason,
                _ => false,
            },
    {
        match replication_identity(identity.as_str()) {
            Ok(()) => Ok(Some(identity)),
            Err(reason) => {
                let mut message: String = joined(path, " holds an invalid identity: ");
                message.append(reason.as_str());
                Err(message)
            },
        }
    }

    /// Takes up the master's identity once it is stored; `stored` tells what
    /// came of writing it.
    pub fn pin(&mut self, identity: &str, stored: Result<(), String>) -> (result: Result<
        (),
        String,
    >)
        ensures
            final(self).place() == old(self).place(),
            final(self).held() == match result {
                Ok(()) => Some(identity@),
                Err(_) => old(self).held(),
            },
            match (identity_fault(identity@), stored, result) {
                (None, Ok(()), Ok(())) => true,
                (None, Err(reason), Err(error)) => error@ == reason@,
                (Some(reason), _, Err(error)) => error@ == reason,
                _ => false,
            },
    {
        if let Err(reason) = replication_identity(identity) {
            return Err(reason);
        }
        match stored {
            Ok(()) => {
                self.identity = Some(identity.to_owned());
                Ok(())
            },
            Err(reason) => Err(reason),
        }
    }

    /// A new identity.
    pub fn generate() -> (result: Result<String, String>)
        ensures
            match result {
                Ok(text) => text@.len() == 64 && exists|drawn: Seq<u8>|
                    drawn.len() == 32 && text@ == #[trigger] hex_text(drawn),
                Err(error) => "cannot generate replication identity: "@.is_prefix_of(error@),
            },
    {
        match generate_hex(IDENTITY_BYTES) {
            Ok(text) => {
                proof {
                    let drawn = choose|drawn: Seq<u8>|
                        drawn.len() == 32 && text@ == #[trigger] hex_text(drawn);
                    law_hex_length(drawn);
                }
                Ok(text)
            },
            Err(error) => {
                let message: String = joined(
                    "cannot generate replication identity: ",
                    error.as_str(),
                );
                assert("cannot generate replication identity: "@ =~= message@.subrange(
                    0,
                    "cannot generate replication identity: "@.len() as int,
                ));
                Err(message)
            },
        }
    }
}

/// The issue for what is wrong with an identity file.
pub open spec fn drift_issue(drift: IdentityDrift, now: i64) -> Issue {
    match drift {
        IdentityDrift::Missing { path } => Issue::IdentityFileMissing { path, since: now },
        IdentityDrift::Changed { path, expected, found } => Issue::IdentityFileChanged {
            path,
            expected,
            found,
            since: now,
        },
    }
}

/// Keeps the issue of the identity file in step with what was found of the
/// file. Tells whether the file is intact.
pub fn verify_identity_file(drift: Result<(), IdentityDrift>, issues: &mut Issues, now: i64) -> (result:
    bool)
    requires
        old(issues).is_valid(),
    ensures
        final(issues).is_valid(),
        result == (drift is Ok),
        match drift {
            Ok(()) => final(issues)@ == old(issues)@.remove(ISSUE_IDENTITY_FILE@),
            Err(found) => final(issues)@ == old(issues)@.insert(
                ISSUE_IDENTITY_FILE@,
                if old(issues)@.contains_key(ISSUE_IDENTITY_FILE@) {
                    dated(drift_issue(found, now), since_of(old(issues)@[ISSUE_IDENTITY_FILE@]))
                } else {
                    drift_issue(found, now)
                },
            ),
        },
{
    match drift {
        Ok(()) => {
            issues.clear(ISSUE_IDENTITY_FILE);
            true
        },
        Err(IdentityDrift::Missing { path }) => {
            issues.raise(ISSUE_IDENTITY_FILE, Issue::IdentityFileMissing { path, since: now });
            false
        },
        Err(IdentityDrift::Changed { path, expected, found }) => {
            issues.raise(
                ISSUE_IDENTITY_FILE,
                Issue::IdentityFileChanged { path, expected, found, since: now },
            );
            false
        },
    }
}

} // verus!
