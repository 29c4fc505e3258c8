//! The configuration of a node, and everything that can be wrong with it.
//!
//! Each section reports all of its problems, so that an operator can mend a
//! file in one edit.
use vstd::prelude::*;
use crate::text::{
    blank, characters, decimal, is_blank, joined, same, spell, strip_leading, texts,
    without_leading,
};
use crate::url::{is_web, parse_url, url_parts, UrlParts};
use crate::validate::identifier_fault;

verus! {

/// The configuration file.
#[derive(Debug, Clone)]
pub struct Config {
    pub server: ServerConfig,
    pub limits: LimitsConfig,
    pub hooks: Option<HooksConfig>,
    pub maintenance: MaintenanceConfig,
    /// Absent on a standalone node.
    pub replication: Option<ReplicationConfig>,
}

/// Background maintenance of repositories.
#[derive(Debug, Clone)]
pub struct MaintenanceConfig {
    pub enabled: bool,
    /// Seconds between the first write to a repository and its maintenance.
    pub delay_secs: u64,
    /// Whether unreachable objects are dropped for good.
    pub destructive_prune: bool,
    /// How many packs a repository may hold before it is maintained at once.
    pub maximum_packs: Option<usize>,
}

#[derive(Debug, Clone)]
pub struct ServerConfig {
    pub host: String,
    pub port: u16,
    pub api_key: String,
    pub repos_path: String,
    pub log_level: Option<String>,
    /// Whether files are kept on the working tree too.
    pub checkout_files: bool,
    /// Whether working trees are brought in line at startup.
    pub checkout_files_autoheal: bool,
}

/// Limits on what one request may ask for.
#[derive(Debug, Clone)]
pub struct LimitsConfig {
    /// The extensions accepted on writes; all of them if unset.
    pub allowed_extensions: Option<Vec<String>>,
    pub batch_read_maximum_files: usize,
    /// Milliseconds that a date-filtered listing may walk history; 0 for any.
    pub date_filter_maximum_ms: u64,
}

/// Which side of a replication pair a node is.
#[derive(Debug, Clone, Copy, PartialEq, Eq, Structural)]
pub enum ReplicationRole {
    Master,
    Replica,
}

/// Read-only replication.
#[derive(Debug, Clone)]
pub struct ReplicationConfig {
    pub role: ReplicationRole,
    /// Guards the replication server, and is sent to the master's.
    pub secret: String,
    /// How this node names itself to its peers.
    pub node_id: String,
    /// The master's replication server; on a replica only.
    pub master_url: Option<String>,
    /// The address that the replication server binds, if not the server's.
    pub host: Option<String>,
    pub port: u16,
    pub poll_interval_secs: u64,
    pub parallelism: usize,
    pub reconnect_backoff_ms: u64,
    /// Whether a listing that would delete most repositories is refused.
    pub deletion_guard: bool,
}

/// The webhook receiver.
#[derive(Debug, Clone)]
pub struct HooksConfig {
    pub url: String,
    /// The events that are delivered.
    pub events: Vec<HookEvent>,
    /// Delivery attempts for one payload, the first included.
    pub retry_attempts: u32,
    pub retry_backoff_ms: u64,
    pub auth: Option<HookAuthConfig>,
}

/// The kinds of webhook events.
#[derive(Debug, Clone, Copy, PartialEq, Eq, Structural)]
pub enum HookEvent {
    FileCreated,
    FileUpdated,
    FileDeleted,
    FileMoved,
    OrderUpdated,
    OrderDeleted,
}

/// A header that authenticates this server to the receiver.
#[derive(Debug, Clone)]
pub struct HookAuthConfig {
    pub header: String,
    pub value: String,
}

/// What stands at the repositories path, or came of creating it.
#[derive(Debug, Clone)]
pub enum PathProbe {
    Directory,
    NotDirectory,
    Created,
    NotCreated(String),
}

/// One text if a condition holds, else none.
pub open spec fn when(condition: bool, text: Seq<char>) -> Seq<Seq<char>> {
    if condition {
        seq![text]
    } else {
        Seq::empty()
    }
}

/// Reports a problem where there is one.
fn report(errors: &mut Vec<String>, faulty: bool, text: &str)
    ensures
        texts(final(errors)@) == texts(old(errors)@) + when(faulty, text@),
{
    let ghost before = errors@;
    if faulty {
        errors.push(text.to_owned());
    }
    assert(texts(errors@) =~= texts(before) + when(faulty, text@));
}

/// Reports an optional problem.
fn report_optional(errors: &mut Vec<String>, text: Option<String>)
    ensures
        texts(final(errors)@) == texts(old(errors)@) + optional_error(
            crate::text::optional_text(text),
        ),
{
    let ghost before = errors@;
    match text {
        Some(problem) => {
            errors.push(problem);
        },
        None => {},
    }
    assert(texts(errors@) =~= texts(before) + optional_error(crate::text::optional_text(text)));
}

/// Adds the problems of one section.
fn report_all(errors: &mut Vec<String>, found: Vec<String>)
    ensures
        texts(final(errors)@) == texts(old(errors)@) + texts(found@),
{
    let ghost before = errors@;
    let mut rest: Vec<String> = found;
    errors.append(&mut rest);
    assert(texts(errors@) =~= texts(before) + texts(found@));
}

/// An optional problem as a list.
pub open spec fn optional_error(text: Option<Seq<char>>) -> Seq<Seq<char>> {
    match text {
        Some(problem) => seq![problem],
        None => Seq::empty(),
    }
}

/// Whether a word is a log level.
pub open spec fn is_log_level(level: Seq<char>) -> bool {
    level == "trace"@ || level == "debug"@ || level == "info"@ || level == "warn"@ || level
        == "error"@
}

/// What is wrong with the repositories path, if anything.
pub open spec fn repos_path_error(path: Seq<char>, probe: PathProbe) -> Option<Seq<char>> {
    if path.len() == 0 {
        Some("server.repos_path must not be empty"@)
    } else {
        match probe {
            PathProbe::Directory | PathProbe::Created => None,
            PathProbe::NotDirectory => Some(
                "server.repos_path '"@ + path + "' exists but is not a directory"@,
            ),
            PathProbe::NotCreated(reason) => Some(
                "server.repos_path '"@ + path + "' could not be created: "@ + reason@,
            ),
        }
    }
}

/// What is wrong with the log level, if anything.
pub open spec fn log_level_error(level: Option<Seq<char>>) -> Option<Seq<char>> {
    match level {
        Some(word) => if is_log_level(word) {
            None
        } else {
            Some(
                "server.log_level '"@ + word
                    + "' is invalid; must be one of: trace, debug, info, warn, error"@,
            )
        },
        None => None,
    }
}

impl ServerConfig {
    /// The problems of the section.
    pub open spec fn errors(&self, probe: PathProbe) -> Seq<Seq<char>> {
        when(is_blank(self.host@), "server.host must not be empty"@) + when(
            is_blank(self.api_key@),
            "server.api_key must not be empty"@,
        ) + optional_error(log_level_error(crate::text::optional_text(self.log_level)))
            + optional_error(repos_path_error(self.repos_path@, probe))
    }

    /// Adds the problems of the section.
    pub fn collect_errors(&self, errors: &mut Vec<String>, probe: &PathProbe)
        ensures
            texts(final(errors)@) == texts(old(errors)@) + self.errors(*probe),
    {
        let ghost before = texts(errors@);
        report(errors, blank(self.host.as_str()), "server.host must not be empty");
        report(errors, blank(self.api_key.as_str()), "server.api_key must not be empty");
        report_optional(errors, self.check_log_level());
        report_optional(errors, self.check_repos_path(probe));
        assert(texts(errors@) =~= before + self.errors(*probe));
    }

    fn check_log_level(&self) -> (result: Option<String>)
        ensures
            crate::text::optional_text(result) == log_level_error(
                crate::text::optional_text(self.log_level),
            ),
    {
        match &self.log_level {
            None => None,
            Some(level) => {
                let word: &str = level.as_str();
                if same(word, "trace") || same(word, "debug") || same(word, "info") || same(
                    word,
                    "warn",
                ) || same(word, "error") {
                    return None;
                }
                let mut problem: String = joined("server.log_level '", word);
                problem.append("' is invalid; must be one of: trace, debug, info, warn, error");
                Some(problem)
            },
        }
    }

    fn check_repos_path(&self, probe: &PathProbe) -> (result: Option<String>)
        ensures
            crate::text::optional_text(result) == repos_path_error(self.repos_path@, *probe),
    {
        let path: &str = self.repos_path.as_str();
        if path.is_empty() {
            return Some("server.repos_path must not be empty".to_owned());
        }
        match probe {
            PathProbe::Directory | PathProbe::Created => None,
            PathProbe::NotDirectory => {
                let mut problem: String = joined("server.repos_path '", path);
                problem.append("' exists but is not a directory");
                Some(problem)
            },
            PathProbe::NotCreated(reason) => {
                let mut problem: String = joined("server.repos_path '", path);
                problem.append("' could not be created: ");
                problem.append(reason.as_str());
                Some(problem)
            },
        }
    }
}

/// Whether a character is an ASCII letter or digit.
pub open spec fn is_alphanumeric(c: char) -> bool {
    ||| 48 <= c as u32 <= 57
    ||| 65 <= c as u32 <= 90
    ||| 97 <= c as u32 <= 122
}

/// Whether an extension is one: letters and digits, after any dots.
pub open spec fn is_extension(extension: Seq<char>) -> bool {
    let bare = without_leading(extension, '.');
    bare.len() > 0 && forall|i: int| 0 <= i < bare.len() ==> is_alphanumeric(#[trigger] bare[i])
}

/// What is wrong with the first `count` allowed extensions.
pub open spec fn extension_errors(extensions: Seq<Seq<char>>, count: int) -> Seq<Seq<char>>
    decreases count,
{
    if count <= 0 {
        Seq::empty()
    } else {
        extension_errors(extensions, count - 1) + when(
            !is_extension(extensions[count - 1]),
            "limits.allowed_extensions entry '"@ + extensions[count - 1]
                + "' is invalid; must be alphanumeric like \"md\""@,
        )
    }
}

/// Whether an extension is one.
fn check_extension(extension: &str) -> (result: bool)
    ensures
        result == is_extension(extension@),
{
    let bare: Vec<char> = characters(strip_leading(extension, '.').as_str());
    if bare.len() == 0 {
        return false;
    }
    let mut i: usize = 0;
    while i < bare.len()
        invariant
            i <= bare.len(),
            bare@ == without_leading(extension@, '.'),
            forall|j: int| 0 <= j < i ==> is_alphanumeric(#[trigger] bare@[j]),
        decreases bare.len() - i,
    {
        let code: u32 = bare[i] as u32;
        if !((48 <= code && code <= 57) || (65 <= code && code <= 90) || (97 <= code && code
            <= 122)) {
            assert(!is_alphanumeric(bare@[i as int]));
            return false;
        }
        i = i + 1;
    }
    true
}

impl Default for LimitsConfig {
    fn default() -> (result: Self)
        ensures
            result.allowed_extensions is None,
            result.batch_read_maximum_files == 100,
            result.date_filter_maximum_ms == 10_000,
    {
        LimitsConfig {
            allowed_extensions: None,
            batch_read_maximum_files: 100,
            date_filter_maximum_ms: 10_000,
        }
    }
}

impl LimitsConfig {
    /// The problems of the section.
    pub open spec fn errors(&self) -> Seq<Seq<char>> {
        when(
            self.batch_read_maximum_files < 1,
            "limits.batch_read_maximum_files must be at least 1"@,
        ) + match self.allowed_extensions {
            Some(extensions) => when(
                extensions@.len() == 0,
                "limits.allowed_extensions must contain at least one extension"@,
            ) + extension_errors(texts(extensions@), extensions@.len() as int),
            None => Seq::empty(),
        }
    }

    /// Adds the problems of the section.
    pub fn collect_errors(&self, errors: &mut Vec<String>)
        ensures
            texts(final(errors)@) == texts(old(errors)@) + self.errors(),
    {
        let ghost before = texts(errors@);
        report(
            errors,
            self.batch_read_maximum_files < 1,
            "limits.batch_read_maximum_files must be at least 1",
        );
        if let Some(extensions) = &self.allowed_extensions {
            report(
                errors,
                extensions.len() == 0,
                "limits.allowed_extensions must contain at least one extension",
            );
            let ghost start = texts(errors@);
            let ghost all = texts(extensions@);
            let mut i: usize = 0;
            assert(start + extension_errors(all, 0) =~= start);
            while i < extensions.len()
                invariant
                    i <= extensions.len(),
                    all == texts(extensions@),
                    texts(errors@) == start + extension_errors(all, i as int),
                decreases extensions.len() - i,
            {
                let mut problem: String = joined(
                    "limits.allowed_extensions entry '",
                    extensions[i].as_str(),
                );
                problem.append("' is invalid; must be alphanumeric like \"md\"");
                let ghost so_far = extension_errors(all, i as int);
                let ghost next = when(!is_extension(all[i as int]), problem@);
                report(errors, !check_extension(extensions[i].as_str()), problem.as_str());
                i = i + 1;
                assert((start + so_far) + next =~= start + (so_far + next));
            }
            assert(texts(errors@) =~= before + self.errors());
        } else {
            assert(texts(errors@) =~= before + self.errors());
        }
    }
}

impl Default for MaintenanceConfig {
    fn default() -> (result: Self)
        ensures
            result.enabled,
            result.delay_secs == 86_400,
            !result.destructive_prune,
            result.maximum_packs is None,
    {
        MaintenanceConfig {
            enabled: true,
            delay_secs: 86_400,
            destructive_prune: false,
            maximum_packs: None,
        }
    }
}

impl MaintenanceConfig {
    /// The problems of the section.
    pub open spec fn errors(&self) -> Seq<Seq<char>> {
        when(
            self.enabled && self.delay_secs < 1,
            "maintenance.delay_secs must be at least 1"@,
        ) + when(
            self.maximum_packs matches Some(packs) && packs < 2,
            "maintenance.maximum_packs must be at least 2"@,
        )
    }

    /// Adds the problems of the section.
    pub fn collect_errors(&self, errors: &mut Vec<String>)
        ensures
            texts(final(errors)@) == texts(old(errors)@) + self.errors(),
    {
        let ghost before = texts(errors@);
        report(
            errors,
            self.enabled && self.delay_secs < 1,
            "maintenance.delay_secs must be at least 1",
        );
        let too_few: bool = match self.maximum_packs {
            Some(packs) => packs < 2,
            None => false,
        };
        report(errors, too_few, "maintenance.maximum_packs must be at least 2");
        assert(texts(errors@) =~= before + self.errors());
    }
}

/// What is wrong with a URL under the given key, if anything.
pub open spec fn url_error(key: Seq<char>, url: Seq<char>) -> Option<Seq<char>> {
    match url_parts(url) {
        Some(parts) => if is_web(parts.scheme) {
            None
        } else {
            Some(key + " scheme '"@ + parts.scheme + "' is invalid; must be http or https"@)
        },
        None => Some(key + " '"@ + url + "' is not a valid URL"@),
    }
}

/// Checks a URL under the given key.
fn check_url(key: &str, url: &str) -> (result: Option<String>)
    ensures
        crate::text::optional_text(result) == url_error(key@, url@),
{
    let parts: Option<UrlParts> = parse_url(url);
    match parts {
        None => {
            let mut problem: String = joined(key, " '");
            problem.append(url);
            problem.append("' is not a valid URL");
            Some(problem)
        },
        Some(parsed) => judge_scheme(key, parsed.scheme.as_str()),
    }
}

/// What is wrong with a URL's scheme, if anything.
pub open spec fn scheme_error(key: Seq<char>, scheme: Seq<char>) -> Option<Seq<char>> {
    if is_web(scheme) {
        None
    } else {
        Some(key + " scheme '"@ + scheme + "' is invalid; must be http or https"@)
    }
}

/// Judges the scheme of a URL under the given key.
pub fn judge_scheme(key: &str, scheme: &str) -> (result: Option<String>)
    ensures
        crate::text::optional_text(result) == scheme_error(key@, scheme@),
{
    if same(scheme, "http") || same(scheme, "https") {
        None
    } else {
        let mut problem: String = joined(key, " scheme '");
        problem.append(scheme);
        problem.append("' is invalid; must be http or https");
        Some(problem)
    }
}

/// The default of a flag that is on.
pub fn default_true() -> (result: bool)
    ensures
        result,
{
    true
}

/// Whether mass deletions are refused by default: they are.
pub fn default_deletion_guard() -> (result: bool)
    ensures
        result,
{
    true
}

/// Seconds between two polls by default.
pub fn default_poll_interval_secs() -> (result: u64)
    ensures
        result == 60,
{
    60
}

/// Repositories synced at once by default.
pub fn default_replication_parallelism() -> (result: usize)
    ensures
        result == 4,
{
    4
}

/// Milliseconds before a stream is dialled again by default.
pub fn default_reconnect_backoff_ms() -> (result: u64)
    ensures
        result == 1_000,
{
    1_000
}

/// The replication server's port by default.
pub fn default_replication_port() -> (result: u16)
    ensures
        result == 5356,
{
    5356
}

/// What is wrong with a master's URL for a role, if anything.
pub open spec fn master_url_error(role: ReplicationRole, master_url: Option<Seq<char>>) -> Option<
    Seq<char>,
> {
    match (role, master_url) {
        (ReplicationRole::Replica, None) => Some(
            "replication.master_url is required when role is 'replica'"@,
        ),
        (ReplicationRole::Master, Some(_)) => Some(
            "replication.master_url must not be set when role is 'master'"@,
        ),
        _ => None,
    }
}

impl ReplicationConfig {
    /// Whether this node is a replica.
    pub fn is_replica(&self) -> (result: bool)
        ensures
            result == (self.role == ReplicationRole::Replica),
    {
        self.role == ReplicationRole::Replica
    }

    /// This node's id.
    pub fn node_id(&self) -> (result: &str)
        ensures
            result@ == self.node_id@,
    {
        self.node_id.as_str()
    }

    /// The address that the replication server binds.
    pub fn host(&self, server: &ServerConfig) -> (result: String)
        ensures
            result@ == match self.host {
                Some(host) => host@,
                None => server.host@,
            },
    {
        match &self.host {
            Some(host) => host.clone(),
            None => server.host.clone(),
        }
    }

    /// The problems of the section.
    pub open spec fn errors(&self, server: ServerConfig) -> Seq<Seq<char>> {
        when(is_blank(self.secret@), "replication.secret must not be empty"@) + when(
            self.port == server.port,
            "replication.port ("@ + decimal(self.port as nat) + ") must differ from server.port"@,
        ) + match identifier_fault(self.node_id@) {
            Some(reason) => seq![
                "replication.node_id is required and must be valid: "@ + reason,
            ],
            None => Seq::empty(),
        } + optional_error(
            master_url_error(self.role, crate::text::optional_text(self.master_url)),
        ) + match self.master_url {
            Some(url) => optional_error(url_error("replication.master_url"@, url@)),
            None => Seq::empty(),
        } + when(
            self.poll_interval_secs < 1,
            "replication.poll_interval_secs must be at least 1"@,
        ) + when(self.parallelism < 1, "replication.parallelism must be at least 1"@) + when(
            self.reconnect_backoff_ms < 1,
            "replication.reconnect_backoff_ms must be at least 1"@,
        )
    }

    /// Adds the problems of the section.
    pub fn collect_errors(&self, errors: &mut Vec<String>, server: &ServerConfig)
        ensures
            texts(final(errors)@) == texts(old(errors)@) + self.errors(*server),
    {
        let mut found: Vec<String> = Vec::new();
        report(&mut found, blank(self.secret.as_str()), "replication.secret must not be empty");
        assert(texts(found@) =~= when(
            is_blank(self.secret@),
            "replication.secret must not be empty"@,
        ));
        let mut port_problem: String = joined("replication.port (", spell(self.port as u64).as_str());
        port_problem.append(") must differ from server.port");
        report(&mut found, self.port == server.port, port_problem.as_str());
        let id_problem: Option<String> = match crate::validate::node_id(self.node_id.as_str()) {
            Err(reason) => Some(
                joined("replication.node_id is required and must be valid: ", reason.as_str()),
            ),
            Ok(()) => None,
        };
        report_optional(&mut found, id_problem);
        report_optional(&mut found, self.check_master_url());
        let url_problem: Option<String> = match &self.master_url {
            Some(url) => check_url("replication.master_url", url.as_str()),
            None => None,
        };
        report_optional(&mut found, url_problem);
        report(
            &mut found,
            self.poll_interval_secs < 1,
            "replication.poll_interval_secs must be at least 1",
        );
        report(&mut found, self.parallelism < 1, "replication.parallelism must be at least 1");
        report(
            &mut found,
            self.reconnect_backoff_ms < 1,
            "replication.reconnect_backoff_ms must be at least 1",
        );
        report_all(errors, found);
    }

    fn check_master_url(&self) -> (result: Option<String>)
        ensures
            crate::text::optional_text(result) == master_url_error(
                self.role,
                crate::text::optional_text(self.master_url),
            ),
    {
        if self.role == ReplicationRole::Replica && self.master_url.is_none() {
            Some("replication.master_url is required when role is 'replica'".to_owned())
        } else if self.role == ReplicationRole::Master && self.master_url.is_some() {
            Some("replication.master_url must not be set when role is 'master'".to_owned())
        } else {
            None
        }
    }
}

impl HooksConfig {
    /// The problems of the section.
    pub open spec fn errors(&self) -> Seq<Seq<char>> {
        optional_error(url_error("hooks.url"@, self.url@)) + when(
            self.events@.len() == 0,
            "hooks.events must contain at least one event"@,
        ) + when(self.retry_attempts < 1, "hooks.retry_attempts must be at least 1"@) + when(
            self.retry_backoff_ms < 1,
            "hooks.retry_backoff_ms must be at least 1"@,
        ) + match self.auth {
            Some(auth) => auth.errors(),
            None => Seq::empty(),
        }
    }

    /// Adds the problems of the section.
    pub fn collect_errors(&self, errors: &mut Vec<String>)
        ensures
            texts(final(errors)@) == texts(old(errors)@) + self.errors(),
    {
        let ghost before = texts(errors@);
        report_optional(errors, check_url("hooks.url", self.url.as_str()));
        report(errors, self.events.len() == 0, "hooks.events must contain at least one event");
        report(errors, self.retry_attempts < 1, "hooks.retry_attempts must be at least 1");
        report(errors, self.retry_backoff_ms < 1, "hooks.retry_backoff_ms must be at least 1");
        if let Some(auth) = &self.auth {
            auth.collect_errors(errors);
        }
        assert(texts(errors@) =~= before + self.errors());
    }
}

impl HookAuthConfig {
    /// The problems of the section.
    pub open spec fn errors(&self) -> Seq<Seq<char>> {
        when(is_blank(self.header@), "hooks.auth.header must not be empty"@) + when(
            is_blank(self.value@),
            "hooks.auth.value must not be empty"@,
        )
    }

    /// Adds the problems of the section.
    pub fn collect_errors(&self, errors: &mut Vec<String>)
        ensures
            texts(final(errors)@) == texts(old(errors)@) + self.errors(),
    {
        let ghost before = texts(errors@);
        report(errors, blank(self.header.as_str()), "hooks.auth.header must not be empty");
        report(errors, blank(self.value.as_str()), "hooks.auth.value must not be empty");
        assert(texts(errors@) =~= before + self.errors());
    }
}

impl Config {
    /// Everything that is wrong with the configuration.
    pub open spec fn errors(&self, probe: PathProbe) -> Seq<Seq<char>> {
        self.server.errors(probe) + self.limits.errors() + match self.hooks {
            Some(hooks) => hooks.errors(),
            None => Seq::empty(),
        } + self.maintenance.errors() + match self.replication {
            Some(replication) => replication.errors(self.server),
            None => Seq::empty(),
        }
    }

    /// Validates the configuration, with all its problems at once. `probe`
    /// says what came of looking at the repositories path.
    pub fn validate(&self, probe: &PathProbe) -> (result: Result<(), Vec<String>>)
        ensures
            ({
                let errors = self.errors(*probe);
                match result {
                    Ok(()) => errors.len() == 0,
                    Err(list) => errors.len() > 0 && texts(list@) == errors,
                }
            }),
    {
        let mut errors: Vec<String> = Vec::new();
        assert(texts(errors@) =~= Seq::empty());
        self.server.collect_errors(&mut errors, probe);
        self.limits.collect_errors(&mut errors);
        if let Some(hooks) = &self.hooks {
            hooks.collect_errors(&mut errors);
        }
        self.maintenance.collect_errors(&mut errors);
        if let Some(replication) = &self.replication {
            replication.collect_errors(&mut errors, &self.server);
        }
        assert(texts(errors@) =~= self.errors(*probe));
        assert(texts(errors@).len() == errors.len());
        if errors.len() == 0 {
            Ok(())
        } else {
            Err(errors)
        }
    }
}

} // verus!
