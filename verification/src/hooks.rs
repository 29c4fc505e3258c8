//! Webhooks: which events a commit or a replay gives rise to, what each says,
//! in which order they go out, and when a failed one is tried again.
use vstd::prelude::*;
use crate::config::{HookEvent, HooksConfig};
use crate::git::dates::Timestamp;
use crate::git::model::{Change, FileChange};
use crate::order::{
    directory_of_order_file, display_directory, is_index_path, is_order_file, order_in, parent_of,
    parse, shown_directory,
};
use crate::rfc3339::{instant_text, spell_instant};
use crate::sorting::{lemma_views_push, views};
use crate::text::{copy_texts, decimal, joined, spell, texts};

verus! {

/// Cap on the backoff's exponent.
pub const MAX_BACKOFF_EXPONENT: u32 = 20;

/// How many files a replay reads in one go.
pub const REPLAY_READ_CHUNK: usize = 64;

/// A change to one directory's order.
#[derive(Debug)]
pub enum OrderChange {
    /// The directory's whole order as it is now.
    Updated { directory: String, order: Vec<String> },
    Deleted { directory: String },
}

/// An order change over characters.
pub enum OrderEvent {
    Updated(Seq<char>, Seq<Seq<char>>),
    Deleted(Seq<char>),
}

impl View for OrderChange {
    type V = OrderEvent;

    open spec fn view(&self) -> OrderEvent {
        match *self {
            OrderChange::Updated { directory, order } => OrderEvent::Updated(
                directory@,
                texts(order@),
            ),
            OrderChange::Deleted { directory } => OrderEvent::Deleted(directory@),
        }
    }
}

/// Which event a replay sends again.
#[derive(Debug, Clone, Copy, PartialEq, Eq, Structural)]
pub enum ReplayKind {
    Created,
    Deleted,
}

/// A replay of past events, by path.
#[derive(Debug)]
pub struct ReplayJob {
    pub repo_path: String,
    pub kind: ReplayKind,
    pub paths: Vec<String>,
    /// Pause between two deliveries.
    pub delay_ms: Option<u64>,
}

/// Where a job's events come from.
#[derive(Debug)]
pub enum HookSource {
    Commit { file_changes: Vec<FileChange>, order_changes: Vec<OrderChange> },
    Replay(ReplayJob),
}

/// The events of one commit, or one replay.
#[derive(Debug)]
pub struct HookJob {
    pub collection_id: String,
    pub tenant_id: String,
    pub commit_sha: String,
    pub committed_at: Timestamp,
    pub source: HookSource,
}

/// Whether a change is to an order index. A move is judged by where it goes.
pub open spec fn touches_index(change: Change) -> bool {
    match change {
        Change::Created(path, _) => is_index_path(path),
        Change::Updated(path, _) => is_index_path(path),
        Change::Deleted(path) => is_index_path(path),
        Change::Moved(_, to, _) => is_index_path(to),
    }
}

/// The changes of a commit that are to files.
pub open spec fn file_part(changes: Seq<Change>) -> Seq<Change> {
    changes.filter(|change: Change| !touches_index(change))
}

/// The event for an index that now holds `content`: none where it cannot be
/// read.
pub open spec fn order_updated(path: Seq<char>, content: Seq<char>) -> Seq<OrderEvent> {
    match order_in(content) {
        Some(order) => seq![OrderEvent::Updated(parent_of(path), order)],
        None => Seq::empty(),
    }
}

/// The order events of one change.
pub open spec fn order_events(change: Change) -> Seq<OrderEvent> {
    if !touches_index(change) {
        Seq::empty()
    } else {
        match change {
            Change::Created(path, content) => order_updated(path, content),
            Change::Updated(path, content) => order_updated(path, content),
            Change::Deleted(path) => seq![OrderEvent::Deleted(parent_of(path))],
            Change::Moved(from, to, content) => (if is_index_path(from) {
                seq![OrderEvent::Deleted(parent_of(from))]
            } else {
                Seq::empty()
            }) + order_updated(to, content),
        }
    }
}

/// The order events of a commit's changes.
pub open spec fn order_part(changes: Seq<Change>) -> Seq<OrderEvent>
    decreases changes.len(),
{
    if changes.len() == 0 {
        Seq::empty()
    } else {
        order_part(changes.drop_last()) + order_events(changes.last())
    }
}

/// Whether a change is to an order index.
fn is_index_change(change: &FileChange) -> (result: bool)
    ensures
        result == touches_index(change@),
{
    match change {
        FileChange::Created { path, .. } => is_order_file(path.as_str()),
        FileChange::Updated { path, .. } => is_order_file(path.as_str()),
        FileChange::Deleted { path } => is_order_file(path.as_str()),
        FileChange::Moved { to_path, .. } => is_order_file(to_path.as_str()),
    }
}

impl HookJob {
    /// The time of the job, as its payloads spell it.
    pub fn spelled_time(&self) -> (result: String)
        ensures
            result@ == time_text(self.committed_at),
    {
        match spell_instant(self.committed_at.seconds, self.committed_at.nanos) {
            Some(text) => text,
            None => {
                let none: String = String::new();
                assert(none@ =~= Seq::empty());
                none
            },
        }
    }

    /// A replay job.
    pub fn replay(
        collection_id: String,
        tenant_id: String,
        commit_sha: String,
        committed_at: Timestamp,
        replay: ReplayJob,
    ) -> (result: Self)
        ensures
            result.collection_id == collection_id,
            result.tenant_id == tenant_id,
            result.commit_sha == commit_sha,
            result.committed_at == committed_at,
            result.source == HookSource::Replay(replay),
    {
        HookJob {
            collection_id,
            tenant_id,
            commit_sha,
            committed_at,
            source: HookSource::Replay(replay),
        }
    }

    /// A commit's job: its changes to order indexes become order events, by
    /// their path alone.
    pub fn new(
        collection_id: String,
        tenant_id: String,
        commit_sha: String,
        committed_at: Timestamp,
        changes: Vec<FileChange>,
    ) -> (result: Self)
        ensures
            result.collection_id == collection_id,
            result.tenant_id == tenant_id,
            result.commit_sha == commit_sha,
            result.committed_at == committed_at,
            match result.source {
                HookSource::Commit { file_changes, order_changes } => {
                    &&& views(file_changes@) == file_part(views(changes@))
                    &&& views(order_changes@) == order_part(views(changes@))
                },
                HookSource::Replay(_) => false,
            },
    {
        let ghost all = views(changes@);
        let ghost keeps = |change: Change| !touches_index(change);
        let mut file_changes: Vec<FileChange> = Vec::new();
        let mut order_changes: Vec<OrderChange> = Vec::new();
        assert(views(file_changes@) =~= all.take(0).filter(keeps));
        assert(all.take(0) =~= Seq::empty());
        assert(views(order_changes@) =~= Seq::empty());
        for change in iter: changes.into_iter()
            invariant
                iter.seq() == changes@,
                all == views(changes@),
                keeps == (|change: Change| !touches_index(change)),
                views(file_changes@) == all.take(iter.index() as int).filter(keeps),
                views(order_changes@) == order_part(all.take(iter.index() as int)),
        {
            let ghost i = iter.index() as int;
            let ghost before = views(order_changes@);
            proof {
                assert(change == changes@[i]);
                assert(all.take(i + 1) =~= all.take(i).push(change@));
                assert(all.take(i + 1).drop_last() =~= all.take(i));
                all.take(i).lemma_filter_push(change@, keeps);
                lemma_views_push(file_changes@, change);
            }
            if !is_index_change(&change) {
                assert(before + Seq::<OrderEvent>::empty() =~= before);
                file_changes.push(change);
            } else {
                match change {
                    FileChange::Created { path, content } => {
                        Self::push_order_updated(
                            &mut order_changes,
                            path.as_str(),
                            content.as_str(),
                        );
                    },
                    FileChange::Updated { path, content } => {
                        Self::push_order_updated(
                            &mut order_changes,
                            path.as_str(),
                            content.as_str(),
                        );
                    },
                    FileChange::Deleted { path } => {
                        Self::push_order_deleted(&mut order_changes, path.as_str());
                    },
                    FileChange::Moved { from_path, to_path, content } => {
                        Self::push_order_deleted(&mut order_changes, from_path.as_str());
                        let ghost middle = views(order_changes@);
                        Self::push_order_updated(
                            &mut order_changes,
                            to_path.as_str(),
                            content.as_str(),
                        );
                        assert(views(order_changes@) =~= before + order_events(all[i]));
                    },
                }
            }
        }
        assert(all.take(all.len() as int) =~= all);
        HookJob {
            collection_id,
            tenant_id,
            commit_sha,
            committed_at,
            source: HookSource::Commit { file_changes, order_changes },
        }
    }

    /// Adds the event for an index that was removed, if the path is one.
    fn push_order_deleted(order_changes: &mut Vec<OrderChange>, path: &str)
        ensures
            views(final(order_changes)@) == views(old(order_changes)@) + (if is_index_path(path@) {
                seq![OrderEvent::Deleted(parent_of(path@))]
            } else {
                Seq::empty()
            }),
    {
        let ghost before = order_changes@;
        if let Some(directory) = directory_of_order_file(path) {
            order_changes.push(OrderChange::Deleted { directory: directory.to_owned() });
        }
        assert(views(order_changes@) =~= views(before) + (if is_index_path(path@) {
            seq![OrderEvent::Deleted(parent_of(path@))]
        } else {
            Seq::empty()
        }));
    }

    /// Adds the event for what an index now holds.
    fn push_order_updated(order_changes: &mut Vec<OrderChange>, path: &str, content: &str)
        requires
            is_index_path(path@),
        ensures
            views(final(order_changes)@) == views(old(order_changes)@) + order_updated(
                path@,
                content@,
            ),
    {
        let ghost before = order_changes@;
        if let Some(directory) = directory_of_order_file(path) {
            if let Some(order) = parse(content) {
                order_changes.push(
                    OrderChange::Updated { directory: directory.to_owned(), order },
                );
            }
        }
        assert(views(order_changes@) =~= views(before) + order_updated(path@, content@));
    }
}

/// One value of a payload.
#[derive(Debug)]
pub enum PayloadValue {
    Text(String),
    Flag(bool),
    List(Vec<String>),
    /// An object whose members are texts.
    Object(Vec<(String, String)>),
}

/// A payload value over characters.
pub enum Value {
    Text(Seq<char>),
    Flag(bool),
    List(Seq<Seq<char>>),
    Object(Seq<(Seq<char>, Seq<char>)>),
}

/// The members of an object over characters.
pub open spec fn members(object: Seq<(String, String)>) -> Seq<(Seq<char>, Seq<char>)> {
    Seq::new(object.len(), |i: int| (object[i].0@, object[i].1@))
}

impl View for PayloadValue {
    type V = Value;

    open spec fn view(&self) -> Value {
        match *self {
            PayloadValue::Text(text) => Value::Text(text@),
            PayloadValue::Flag(flag) => Value::Flag(flag),
            PayloadValue::List(list) => Value::List(texts(list@)),
            PayloadValue::Object(object) => Value::Object(members(object@)),
        }
    }
}

/// The members of a payload.
#[derive(Debug)]
pub struct Payload {
    pub fields: Vec<(String, PayloadValue)>,
}

impl View for Payload {
    type V = Seq<(Seq<char>, Value)>;

    open spec fn view(&self) -> Seq<(Seq<char>, Value)> {
        Seq::new(self.fields@.len(), |i: int| (self.fields@[i].0@, self.fields@[i].1@))
    }
}

/// The text of a job's time; empty where there is none.
pub open spec fn time_text(at: Timestamp) -> Seq<char> {
    match instant_text(at.seconds, at.nanos) {
        Some(text) => text,
        None => Seq::empty(),
    }
}

/// What every payload starts with.
pub open spec fn envelope(
    collection_id: Seq<char>,
    tenant_id: Seq<char>,
    commit_sha: Seq<char>,
    committed_at: Seq<char>,
) -> Seq<(Seq<char>, Value)> {
    seq![
        ("collection_id"@, Value::Text(collection_id)),
        ("tenant_id"@, Value::Text(tenant_id)),
        ("commit_sha"@, Value::Text(commit_sha)),
        ("committed_at"@, Value::Text(committed_at)),
    ]
}

/// A file as a payload shows it.
pub open spec fn file_object(path: Seq<char>, content: Seq<char>) -> Value {
    Value::Object(seq![("path"@, path), ("content"@, content)])
}

/// A path as a payload shows it.
pub open spec fn path_object(path: Seq<char>) -> Value {
    Value::Object(seq![("path"@, path)])
}

/// What a payload says of a file change.
pub open spec fn change_fields(change: Change) -> Seq<(Seq<char>, Value)> {
    match change {
        Change::Created(path, content) => seq![
            ("event"@, Value::Text("file.created"@)),
            ("file"@, file_object(path, content)),
        ],
        Change::Updated(path, content) => seq![
            ("event"@, Value::Text("file.updated"@)),
            ("file"@, file_object(path, content)),
        ],
        Change::Deleted(path) => seq![
            ("event"@, Value::Text("file.deleted"@)),
            ("file"@, path_object(path)),
        ],
        Change::Moved(from, to, content) => seq![
            ("event"@, Value::Text("file.moved"@)),
            ("from"@, path_object(from)),
            ("to"@, file_object(to, content)),
        ],
    }
}

/// What a payload says of an order change.
pub open spec fn order_fields(event: OrderEvent) -> Seq<(Seq<char>, Value)> {
    match event {
        OrderEvent::Updated(directory, order) => seq![
            ("event"@, Value::Text("order.updated"@)),
            ("directory"@, Value::Text(directory)),
            ("order"@, Value::List(order)),
        ],
        OrderEvent::Deleted(directory) => seq![
            ("event"@, Value::Text("order.deleted"@)),
            ("directory"@, Value::Text(directory)),
        ],
    }
}

/// The mark of a replayed event.
pub open spec fn replay_fields(replay: bool) -> Seq<(Seq<char>, Value)> {
    if replay {
        seq![("replayed"@, Value::Flag(true))]
    } else {
        Seq::empty()
    }
}

/// The event kind of a file change.
pub open spec fn event_of(change: Change) -> HookEvent {
    match change {
        Change::Created(_, _) => HookEvent::FileCreated,
        Change::Updated(_, _) => HookEvent::FileUpdated,
        Change::Deleted(_) => HookEvent::FileDeleted,
        Change::Moved(_, _, _) => HookEvent::FileMoved,
    }
}

/// The event kind of an order change.
pub open spec fn order_event_of(event: OrderEvent) -> HookEvent {
    match event {
        OrderEvent::Updated(_, _) => HookEvent::OrderUpdated,
        OrderEvent::Deleted(_) => HookEvent::OrderDeleted,
    }
}

/// A file change in a log line.
pub open spec fn description_of(change: Change) -> Seq<char> {
    match change {
        Change::Created(path, _) => "created:"@ + path,
        Change::Updated(path, _) => "updated:"@ + path,
        Change::Deleted(path) => "deleted:"@ + path,
        Change::Moved(from, to, _) => "moved:"@ + from + "→"@ + to,
    }
}

/// An order change in a log line.
pub open spec fn order_description_of(event: OrderEvent) -> Seq<char> {
    match event {
        OrderEvent::Updated(directory, order) => "order updated:"@ + shown_directory(directory)
            + " ("@ + decimal(order.len()) + " entries)"@,
        OrderEvent::Deleted(directory) => "order deleted:"@ + shown_directory(directory),
    }
}

/// One event to send.
#[derive(Debug)]
pub struct Delivery {
    pub payload: Payload,
    pub description: String,
}

/// An event to send, over characters.
pub struct Sending {
    pub payload: Seq<(Seq<char>, Value)>,
    pub description: Seq<char>,
}

impl View for Delivery {
    type V = Sending;

    open spec fn view(&self) -> Sending {
        Sending { payload: self.payload@, description: self.description@ }
    }
}

/// The delivery of a file change.
pub open spec fn sending_of(
    start: Seq<(Seq<char>, Value)>,
    change: Change,
    replay: bool,
) -> Sending {
    Sending {
        payload: start + replay_fields(replay) + change_fields(change),
        description: description_of(change),
    }
}

/// The delivery of an order change.
pub open spec fn order_sending_of(start: Seq<(Seq<char>, Value)>, event: OrderEvent) -> Sending {
    Sending { payload: start + order_fields(event), description: order_description_of(event) }
}

/// The deliveries of the file changes that are subscribed to.
pub open spec fn file_sendings(
    start: Seq<(Seq<char>, Value)>,
    changes: Seq<Change>,
    events: Seq<HookEvent>,
) -> Seq<Sending>
    decreases changes.len(),
{
    if changes.len() == 0 {
        Seq::empty()
    } else {
        let before = file_sendings(start, changes.drop_last(), events);
        if events.contains(event_of(changes.last())) {
            before.push(sending_of(start, changes.last(), false))
        } else {
            before
        }
    }
}

/// The deliveries of the order changes that are subscribed to.
pub open spec fn order_sendings(
    start: Seq<(Seq<char>, Value)>,
    changes: Seq<OrderEvent>,
    events: Seq<HookEvent>,
) -> Seq<Sending>
    decreases changes.len(),
{
    if changes.len() == 0 {
        Seq::empty()
    } else {
        let before = order_sendings(start, changes.drop_last(), events);
        if events.contains(order_event_of(changes.last())) {
            before.push(order_sending_of(start, changes.last()))
        } else {
            before
        }
    }
}

/// What every payload of a job starts with.
pub open spec fn job_envelope(job: HookJob) -> Seq<(Seq<char>, Value)> {
    envelope(
        job.collection_id@,
        job.tenant_id@,
        job.commit_sha@,
        time_text(job.committed_at),
    )
}

/// What to do after a delivery attempt.
#[derive(Debug, Clone, Copy, PartialEq, Eq, Structural)]
pub enum RetryStep {
    /// The event was delivered.
    Delivered,
    /// The event is given up.
    GiveUp,
    /// The event is sent again after so many milliseconds.
    RetryAfter(u64),
}

/// Two to the given power.
pub open spec fn power_of_two(exponent: nat) -> nat
    decreases exponent,
{
    if exponent == 0 {
        1
    } else {
        2 * power_of_two((exponent - 1) as nat)
    }
}

/// The milliseconds to wait after a failed attempt: they double each time, up
/// to the cap on the exponent, and never overflow.
pub open spec fn backoff_after(base_ms: u64, attempt: u32) -> nat {
    let exponent = if attempt - 1 < 20 {
        attempt - 1
    } else {
        20
    };
    let wait = base_ms * power_of_two(exponent as nat);
    if wait <= u64::MAX {
        wait as nat
    } else {
        u64::MAX as nat
    }
}

/// Stateless namespace of delivery.
pub struct HookDelivery;

/// Starts a payload.
fn start_payload(
    collection_id: &str,
    tenant_id: &str,
    commit_sha: &str,
    committed_at: &str,
) -> (result: Payload)
    ensures
        result@ == envelope(collection_id@, tenant_id@, commit_sha@, committed_at@),
{
    let mut payload: Payload = Payload { fields: Vec::new() };
    assert(payload@ =~= Seq::empty());
    add_text(&mut payload, "collection_id", collection_id);
    add_text(&mut payload, "tenant_id", tenant_id);
    add_text(&mut payload, "commit_sha", commit_sha);
    add_text(&mut payload, "committed_at", committed_at);
    assert(payload@ =~= envelope(collection_id@, tenant_id@, commit_sha@, committed_at@));
    payload
}

/// Adds a member to a payload.
fn add_value(payload: &mut Payload, name: &str, value: PayloadValue)
    ensures
        final(payload)@ == old(payload)@.push((name@, value@)),
{
    let ghost before = payload@;
    payload.fields.push((name.to_owned(), value));
    assert(payload@ =~= before.push((name@, value@)));
}

/// Adds a text to a payload.
fn add_text(payload: &mut Payload, name: &str, text: &str)
    ensures
        final(payload)@ == old(payload)@.push((name@, Value::Text(text@))),
{
    add_value(payload, name, PayloadValue::Text(text.to_owned()));
}

/// Adds a path to a payload.
fn add_path(payload: &mut Payload, name: &str, path: &str)
    ensures
        final(payload)@ == old(payload)@.push((name@, path_object(path@))),
{
    let mut object: Vec<(String, String)> = Vec::new();
    object.push(("path".to_owned(), path.to_owned()));
    assert(members(object@) =~= seq![("path"@, path@)]);
    add_value(payload, name, PayloadValue::Object(object));
}

/// Adds a file to a payload.
fn add_file(payload: &mut Payload, name: &str, path: &str, content: &str)
    ensures
        final(payload)@ == old(payload)@.push((name@, file_object(path@, content@))),
{
    let mut object: Vec<(String, String)> = Vec::new();
    object.push(("path".to_owned(), path.to_owned()));
    object.push(("content".to_owned(), content.to_owned()));
    assert(members(object@) =~= seq![("path"@, path@), ("content"@, content@)]);
    add_value(payload, name, PayloadValue::Object(object));
}

/// Whether an event kind is subscribed to.
fn is_subscribed(events: &[HookEvent], event: HookEvent) -> (result: bool)
    ensures
        result == events@.contains(event),
{
    let mut i: usize = 0;
    while i < events.len()
        invariant
            i <= events.len(),
            forall|j: int| 0 <= j < i ==> events@[j] != event,
        decreases events.len() - i,
    {
        if events[i] == event {
            assert(events@[i as int] == event);
            return true;
        }
        i = i + 1;
    }
    false
}

/// Two to a power of at most the cap on the exponent.
fn shifted_one(exponent: u32) -> (result: u64)
    requires
        exponent <= 20,
    ensures
        result == power_of_two(exponent as nat),
        result <= 1_048_576,
{
    let mut result: u64 = 1;
    let mut i: u32 = 0;
    proof {
        reveal_with_fuel(power_of_two, 21);
        assert(power_of_two(20) == 1_048_576);
    }
    while i < exponent
        invariant
            i <= exponent <= 20,
            result == power_of_two(i as nat),
            power_of_two(20) == 1_048_576,
        decreases exponent - i,
    {
        proof {
            lemma_power_grows(i as nat, 20);
        }
        result = result * 2;
        i = i + 1;
    }
    proof {
        lemma_power_grows(exponent as nat, 20);
    }
    result
}

proof fn lemma_power_grows(low: nat, high: nat)
    requires
        low <= high,
    ensures
        0 < power_of_two(low) <= power_of_two(high),
    decreases high,
{
    if low < high {
        lemma_power_grows(low, (high - 1) as nat);
    } else if low > 0 {
        lemma_power_grows((low - 1) as nat, (low - 1) as nat);
    }
}

impl HookDelivery {
    /// How often an event is tried: at least once.
    pub fn attempts(hooks: &HooksConfig) -> (result: u32)
        ensures
            result == if hooks.retry_attempts < 1 {
                1
            } else {
                hooks.retry_attempts
            },
    {
        if hooks.retry_attempts < 1 {
            1
        } else {
            hooks.retry_attempts
        }
    }

    /// The milliseconds to wait after a failed attempt.
    pub fn backoff_ms(retry_backoff_ms: u64, attempt: u32) -> (result: u64)
        requires
            attempt >= 1,
        ensures
            result == backoff_after(retry_backoff_ms, attempt),
    {
        let exponent: u32 = if attempt - 1 < MAX_BACKOFF_EXPONENT {
            attempt - 1
        } else {
            MAX_BACKOFF_EXPONENT
        };
        let factor: u64 = shifted_one(exponent);
        match retry_backoff_ms.checked_mul(factor) {
            Some(wait) => wait,
            None => u64::MAX,
        }
    }

    /// What to do after an attempt, counted from 1.
    pub fn after_attempt(hooks: &HooksConfig, attempt: u32, delivered: bool) -> (result: RetryStep)
        requires
            attempt >= 1,
        ensures
            result == if delivered {
                RetryStep::Delivered
            } else if attempt >= (if hooks.retry_attempts < 1 {
                1
            } else {
                hooks.retry_attempts
            }) {
                RetryStep::GiveUp
            } else {
                RetryStep::RetryAfter(backoff_after(hooks.retry_backoff_ms, attempt) as u64)
            },
    {
        if delivered {
            RetryStep::Delivered
        } else if attempt >= Self::attempts(hooks) {
            RetryStep::GiveUp
        } else {
            RetryStep::RetryAfter(Self::backoff_ms(hooks.retry_backoff_ms, attempt))
        }
    }

    /// The event kind of a file change.
    pub fn event_for_change(file_change: &FileChange) -> (result: HookEvent)
        ensures
            result == event_of(file_change@),
    {
        match file_change {
            FileChange::Created { .. } => HookEvent::FileCreated,
            FileChange::Updated { .. } => HookEvent::FileUpdated,
            FileChange::Deleted { .. } => HookEvent::FileDeleted,
            FileChange::Moved { .. } => HookEvent::FileMoved,
        }
    }

    /// The event kind of an order change.
    pub fn event_for_order_change(order_change: &OrderChange) -> (result: HookEvent)
        ensures
            result == order_event_of(order_change@),
    {
        match order_change {
            OrderChange::Updated { .. } => HookEvent::OrderUpdated,
            OrderChange::Deleted { .. } => HookEvent::OrderDeleted,
        }
    }

    /// A file change in a log line.
    pub fn change_description(file_change: &FileChange) -> (result: String)
        ensures
            result@ == description_of(file_change@),
    {
        match file_change {
            FileChange::Created { path, .. } => joined("created:", path.as_str()),
            FileChange::Updated { path, .. } => joined("updated:", path.as_str()),
            FileChange::Deleted { path } => joined("deleted:", path.as_str()),
            FileChange::Moved { from_path, to_path, .. } => {
                let mut text: String = joined("moved:", from_path.as_str());
                text.append("→");
                text.append(to_path.as_str());
                text
            },
        }
    }

    /// An order change in a log line.
    pub fn order_change_description(order_change: &OrderChange) -> (result: String)
        ensures
            result@ == order_description_of(order_change@),
    {
        match order_change {
            OrderChange::Updated { directory, order } => {
                let mut text: String = joined(
                    "order updated:",
                    display_directory(directory.as_str()),
                );
                text.append(" (");
                text.append(spell(order.len() as u64).as_str());
                text.append(" entries)");
                text
            },
            OrderChange::Deleted { directory } => joined(
                "order deleted:",
                display_directory(directory.as_str()),
            ),
        }
    }

    /// The payload of a file change.
    pub fn build_payload(
        collection_id: &str,
        tenant_id: &str,
        commit_sha: &str,
        committed_at: &str,
        file_change: &FileChange,
        replay: bool,
    ) -> (result: Payload)
        ensures
            result@ == envelope(collection_id@, tenant_id@, commit_sha@, committed_at@)
                + replay_fields(replay) + change_fields(file_change@),
    {
        let mut payload: Payload = start_payload(
            collection_id,
            tenant_id,
            commit_sha,
            committed_at,
        );
        let ghost start = payload@;
        if replay {
            add_value(&mut payload, "replayed", PayloadValue::Flag(true));
        }
        match file_change {
            FileChange::Created { path, content } => {
                add_text(&mut payload, "event", "file.created");
                add_file(&mut payload, "file", path.as_str(), content.as_str());
            },
            FileChange::Updated { path, content } => {
                add_text(&mut payload, "event", "file.updated");
                add_file(&mut payload, "file", path.as_str(), content.as_str());
            },
            FileChange::Deleted { path } => {
                add_text(&mut payload, "event", "file.deleted");
                add_path(&mut payload, "file", path.as_str());
            },
            FileChange::Moved { from_path, to_path, content } => {
                add_text(&mut payload, "event", "file.moved");
                add_path(&mut payload, "from", from_path.as_str());
                add_file(&mut payload, "to", to_path.as_str(), content.as_str());
            },
        }
        assert(payload@ =~= start + replay_fields(replay) + change_fields(file_change@));
        payload
    }

    /// The payload of an order change.
    pub fn build_order_payload(
        collection_id: &str,
        tenant_id: &str,
        commit_sha: &str,
        committed_at: &str,
        order_change: &OrderChange,
    ) -> (result: Payload)
        ensures
            result@ == envelope(collection_id@, tenant_id@, commit_sha@, committed_at@)
                + order_fields(order_change@),
    {
        let mut payload: Payload = start_payload(
            collection_id,
            tenant_id,
            commit_sha,
            committed_at,
        );
        let ghost start = payload@;
        match order_change {
            OrderChange::Updated { directory, order } => {
                add_text(&mut payload, "event", "order.updated");
                add_text(&mut payload, "directory", directory.as_str());
                add_value(
                    &mut payload,
                    "order",
                    PayloadValue::List(copy_texts(order.as_slice())),
                );
            },
            OrderChange::Deleted { directory } => {
                add_text(&mut payload, "event", "order.deleted");
                add_text(&mut payload, "directory", directory.as_str());
            },
        }
        assert(payload@ =~= start + order_fields(order_change@));
        payload
    }

    /// The deliveries of a commit's job, in order: files before orders, and
    /// only events that are subscribed to. A replay's job has none of its own.
    pub fn deliver_all(hooks: &HooksConfig, job: &HookJob) -> (result: Vec<Delivery>)
        ensures
            views(result@) == match job.source {
                HookSource::Commit { file_changes, order_changes } => file_sendings(
                    job_envelope(*job),
                    views(file_changes@),
                    hooks.events@,
                ) + order_sendings(job_envelope(*job), views(order_changes@), hooks.events@),
                HookSource::Replay(_) => Seq::empty(),
            },
    {
        let committed_at: String = job.spelled_time();
        Self::deliver_all_at(hooks, job, committed_at.as_str())
    }

    /// The deliveries of a job whose time is spelled as given.
    pub fn deliver_all_at(hooks: &HooksConfig, job: &HookJob, committed_at: &str) -> (result: Vec<
        Delivery,
    >)
        ensures
            ({
                let start = envelope(
                    job.collection_id@,
                    job.tenant_id@,
                    job.commit_sha@,
                    committed_at@,
                );
                views(result@) == match job.source {
                    HookSource::Commit { file_changes, order_changes } => file_sendings(
                        start,
                        views(file_changes@),
                        hooks.events@,
                    ) + order_sendings(start, views(order_changes@), hooks.events@),
                    HookSource::Replay(_) => Seq::empty(),
                }
            }),
    {
        let ghost start = envelope(
            job.collection_id@,
            job.tenant_id@,
            job.commit_sha@,
            committed_at@,
        );
        let mut deliveries: Vec<Delivery> = Vec::new();
        assert(views(deliveries@) =~= Seq::empty());
        if let HookSource::Commit { file_changes, order_changes } = &job.source {
            let ghost files = views(file_changes@);
            let ghost orders = views(order_changes@);
            let mut i: usize = 0;
            assert(files.take(0) =~= Seq::empty());
            while i < file_changes.len()
                invariant
                    i <= file_changes.len(),
                    files == views(file_changes@),
                    start == envelope(
                        job.collection_id@,
                        job.tenant_id@,
                        job.commit_sha@,
                        committed_at@,
                    ),
                    views(deliveries@) == file_sendings(
                        start,
                        files.take(i as int),
                        hooks.events@,
                    ),
                decreases file_changes.len() - i,
            {
                let change: &FileChange = &file_changes[i];
                assert(files.take(i + 1).drop_last() =~= files.take(i as int));
                assert(files.take(i + 1).last() == change@);
                if is_subscribed(hooks.events.as_slice(), Self::event_for_change(change)) {
                    let delivery: Delivery = Delivery {
                        payload: Self::build_payload(
                            job.collection_id.as_str(),
                            job.tenant_id.as_str(),
                            job.commit_sha.as_str(),
                            committed_at,
                            change,
                            false,
                        ),
                        description: Self::change_description(change),
                    };
                    proof {
                        lemma_views_push(deliveries@, delivery);
                    }
                    deliveries.push(delivery);
                }
                i = i + 1;
            }
            assert(files.take(i as int) =~= files);
            let ghost sent = views(deliveries@);
            let mut j: usize = 0;
            assert(orders.take(0) =~= Seq::empty());
            assert(sent + order_sendings(start, orders.take(0), hooks.events@) =~= sent);
            while j < order_changes.len()
                invariant
                    j <= order_changes.len(),
                    orders == views(order_changes@),
                    start == envelope(
                        job.collection_id@,
                        job.tenant_id@,
                        job.commit_sha@,
                        committed_at@,
                    ),
                    views(deliveries@) == sent + order_sendings(
                        start,
                        orders.take(j as int),
                        hooks.events@,
                    ),
                decreases order_changes.len() - j,
            {
                let change: &OrderChange = &order_changes[j];
                let ghost so_far = order_sendings(start, orders.take(j as int), hooks.events@);
                assert(orders.take(j + 1).drop_last() =~= orders.take(j as int));
                assert(orders.take(j + 1).last() == change@);
                if is_subscribed(hooks.events.as_slice(), Self::event_for_order_change(change)) {
                    let delivery: Delivery = Delivery {
                        payload: Self::build_order_payload(
                            job.collection_id.as_str(),
                            job.tenant_id.as_str(),
                            job.commit_sha.as_str(),
                            committed_at,
                            change,
                        ),
                        description: Self::order_change_description(change),
                    };
                    proof {
                        lemma_views_push(deliveries@, delivery);
                        assert((sent + so_far).push(delivery@) =~= sent + so_far.push(delivery@));
                    }
                    deliveries.push(delivery);
                }
                j = j + 1;
            }
            assert(orders.take(j as int) =~= orders);
        }
        deliveries
    }
}

/// The event kind of a replay.
pub open spec fn replay_event_of(kind: ReplayKind) -> HookEvent {
    match kind {
        ReplayKind::Created => HookEvent::FileCreated,
        ReplayKind::Deleted => HookEvent::FileDeleted,
    }
}

/// What a replay sends for one path: nothing for a file that cannot be read.
pub open spec fn replay_change(
    kind: ReplayKind,
    path: Seq<char>,
    content: Option<Seq<char>>,
) -> Option<Change> {
    match kind {
        ReplayKind::Deleted => Some(Change::Deleted(path)),
        ReplayKind::Created => match content {
            Some(text) => Some(Change::Created(path, text)),
            None => None,
        },
    }
}

/// A change that may be missing, over characters.
pub open spec fn optional_change(change: Option<FileChange>) -> Option<Change> {
    match change {
        Some(present) => Some(present@),
        None => None,
    }
}

/// Changes that may be missing, over characters.
pub open spec fn optional_changes(changes: Seq<Option<FileChange>>) -> Seq<Option<Change>> {
    Seq::new(changes.len(), |i: int| optional_change(changes[i]))
}

/// The number of changes that are there.
pub open spec fn present_count(changes: Seq<Option<Change>>) -> nat
    decreases changes.len(),
{
    if changes.len() == 0 {
        0
    } else {
        present_count(changes.drop_last()) + (if changes.last() is Some {
            1nat
        } else {
            0nat
        })
    }
}

/// An event to send after a pause.
#[derive(Debug)]
pub struct PacedDelivery {
    pub pause_ms: Option<u64>,
    pub delivery: Delivery,
}

/// An event to send after a pause, over characters.
pub struct Paced {
    pub pause_ms: Option<u64>,
    pub sending: Sending,
}

impl View for PacedDelivery {
    type V = Paced;

    open spec fn view(&self) -> Paced {
        Paced { pause_ms: self.pause_ms, sending: self.delivery@ }
    }
}

/// The deliveries of a chunk of a replay: each change that is there, with a
/// pause before every delivery of the replay but the first.
pub open spec fn paced_sendings(
    start: Seq<(Seq<char>, Value)>,
    changes: Seq<Option<Change>>,
    delivered: nat,
    delay_ms: Option<u64>,
) -> Seq<Paced>
    decreases changes.len(),
{
    if changes.len() == 0 {
        Seq::empty()
    } else {
        let before = paced_sendings(start, changes.drop_last(), delivered, delay_ms);
        match changes.last() {
            None => before,
            Some(change) => before.push(
                Paced {
                    pause_ms: if delivered + present_count(changes.drop_last()) > 0 {
                        delay_ms
                    } else {
                        None
                    },
                    sending: sending_of(start, change, true),
                },
            ),
        }
    }
}

/// How far a replay has come.
#[derive(Debug)]
pub struct ReplayRun {
    total: usize,
    delivered: usize,
    skipped: usize,
    delay_ms: Option<u64>,
}

impl ReplayRun {
    /// The number of paths to replay.
    pub closed spec fn total(&self) -> nat {
        self.total as nat
    }

    /// The number of events sent.
    pub closed spec fn delivered(&self) -> nat {
        self.delivered as nat
    }

    /// The number of paths left out.
    pub closed spec fn skipped(&self) -> nat {
        self.skipped as nat
    }

    /// The pause between two deliveries, if any.
    pub closed spec fn delay(&self) -> Option<u64> {
        self.delay_ms
    }

    /// Whether no more paths are accounted for than there are.
    pub closed spec fn is_valid(&self) -> bool {
        self.delivered + self.skipped <= self.total
    }

    /// Starts a replay. A pause of nothing is none.
    pub fn new(total: usize, delay_ms: Option<u64>) -> (result: Self)
        ensures
            result.is_valid(),
            result.total() == total,
            result.delivered() == 0,
            result.skipped() == 0,
            result.delay() == (if delay_ms == Some(0u64) {
                None
            } else {
                delay_ms
            }),
    {
        let pause: Option<u64> = match delay_ms {
            Some(milliseconds) => if milliseconds > 0 {
                Some(milliseconds)
            } else {
                None
            },
            None => None,
        };
        ReplayRun { total, delivered: 0, skipped: 0, delay_ms: pause }
    }

    /// The number of paths that are not accounted for.
    pub fn remaining(&self) -> (result: usize)
        requires
            self.is_valid(),
        ensures
            result == self.total() - self.delivered() - self.skipped(),
    {
        self.total - self.delivered - self.skipped
    }

    /// The paths to read next, from the first up to, and without, the second
    /// position; none once all are accounted for.
    pub fn next_chunk(&self) -> (result: Option<(usize, usize)>)
        requires
            self.is_valid(),
        ensures
            match result {
                None => self.delivered() + self.skipped() == self.total(),
                Some((start, end)) => {
                    &&& start == self.delivered() + self.skipped()
                    &&& start < end <= self.total()
                    &&& end == self.total() || end - start == 64
                    &&& end - start <= 64
                },
            },
    {
        let start: usize = self.delivered + self.skipped;
        if start == self.total {
            None
        } else if self.total - start <= REPLAY_READ_CHUNK {
            Some((start, self.total))
        } else {
            Some((start, start + REPLAY_READ_CHUNK))
        }
    }
}

impl HookDelivery {
    /// The event kind of a replay.
    pub fn replay_event(kind: ReplayKind) -> (result: HookEvent)
        ensures
            result == replay_event_of(kind),
    {
        match kind {
            ReplayKind::Created => HookEvent::FileCreated,
            ReplayKind::Deleted => HookEvent::FileDeleted,
        }
    }

    /// Whether a replay delivers anything: its event is subscribed to.
    pub fn delivers_replay(hooks: &HooksConfig, kind: ReplayKind) -> (result: bool)
        ensures
            result == hooks.events@.contains(replay_event_of(kind)),
    {
        is_subscribed(hooks.events.as_slice(), Self::replay_event(kind))
    }

    /// What a replay sends for a chunk of paths, given the contents read for
    /// them; `None` where the repository could not be read, which ends a
    /// replay of creations. A replay of deletions needs no contents.
    pub fn replay_chunk_changes(
        kind: ReplayKind,
        chunk: &[String],
        contents: Option<&[Option<String>]>,
    ) -> (result: Option<Vec<Option<FileChange>>>)
        requires
            contents matches Some(read) ==> read@.len() == chunk@.len(),
        ensures
            match result {
                None => kind == ReplayKind::Created && contents is None,
                Some(changes) => {
                    &&& kind == ReplayKind::Deleted || contents is Some
                    &&& changes@.len() == chunk@.len()
                    &&& forall|i: int|
                        0 <= i < chunk@.len() ==> optional_change(#[trigger] changes@[i])
                            == replay_change(
                            kind,
                            chunk@[i]@,
                            match contents {
                                Some(read) => crate::text::optional_text(read@[i]),
                                None => None,
                            },
                        )
                },
            },
    {
        if kind == ReplayKind::Created && contents.is_none() {
            return None;
        }
        let mut changes: Vec<Option<FileChange>> = Vec::new();
        let mut i: usize = 0;
        while i < chunk.len()
            invariant
                i <= chunk.len(),
                changes.len() == i,
                kind == ReplayKind::Deleted || contents is Some,
                contents matches Some(read) ==> read@.len() == chunk@.len(),
                forall|j: int|
                    0 <= j < i ==> optional_change(#[trigger] changes@[j]) == replay_change(
                        kind,
                        chunk@[j]@,
                        match contents {
                            Some(read) => crate::text::optional_text(read@[j]),
                            None => None,
                        },
                    ),
            decreases chunk.len() - i,
        {
            let change: Option<FileChange> = match kind {
                ReplayKind::Deleted => Some(FileChange::Deleted { path: chunk[i].clone() }),
                ReplayKind::Created => match contents {
                    Some(read) => match &read[i] {
                        Some(content) => Some(
                            FileChange::Created {
                                path: chunk[i].clone(),
                                content: content.clone(),
                            },
                        ),
                        None => None,
                    },
                    None => None,
                },
            };
            changes.push(change);
            i = i + 1;
        }
        Some(changes)
    }

    /// The deliveries of a chunk of a replay, whose job's time is spelled as
    /// given.
    pub fn deliver_replay(
        collection_id: &str,
        tenant_id: &str,
        commit_sha: &str,
        committed_at: &str,
        run: &mut ReplayRun,
        changes: &[Option<FileChange>],
    ) -> (result: Vec<PacedDelivery>)
        requires
            old(run).is_valid(),
            old(run).delivered() + old(run).skipped() + changes@.len() <= old(run).total(),
        ensures
            final(run).is_valid(),
            final(run).total() == old(run).total(),
            final(run).delay() == old(run).delay(),
            final(run).delivered() == old(run).delivered() + present_count(
                optional_changes(changes@),
            ),
            final(run).delivered() + final(run).skipped() == old(run).delivered()
                + old(run).skipped() + changes@.len(),
            views(result@) == paced_sendings(
                envelope(collection_id@, tenant_id@, commit_sha@, committed_at@),
                optional_changes(changes@),
                old(run).delivered(),
                old(run).delay(),
            ),
    {
        let ghost start = envelope(collection_id@, tenant_id@, commit_sha@, committed_at@);
        let ghost all = optional_changes(changes@);
        let ghost before = *run;
        let mut deliveries: Vec<PacedDelivery> = Vec::new();
        let mut i: usize = 0;
        assert(all.take(0) =~= Seq::empty());
        assert(views(deliveries@) =~= Seq::empty());
        while i < changes.len()
            invariant
                i <= changes.len(),
                all == optional_changes(changes@),
                start == envelope(collection_id@, tenant_id@, commit_sha@, committed_at@),
                run.total == before.total,
                run.delay_ms == before.delay_ms,
                before.delivered + before.skipped + changes@.len() <= before.total,
                run.delivered + run.skipped == before.delivered + before.skipped + i,
                run.delivered == before.delivered + present_count(all.take(i as int)),
                views(deliveries@) == paced_sendings(
                    start,
                    all.take(i as int),
                    before.delivered as nat,
                    before.delay_ms,
                ),
            decreases changes.len() - i,
        {
            assert(all.take(i + 1).drop_last() =~= all.take(i as int));
            assert(all.take(i + 1).last() == optional_change(changes@[i as int]));
            match &changes[i] {
                None => {
                    run.skipped = run.skipped + 1;
                },
                Some(change) => {
                    let paced: PacedDelivery = PacedDelivery {
                        pause_ms: if run.delivered > 0 {
                            run.delay_ms
                        } else {
                            None
                        },
                        delivery: Delivery {
                            payload: Self::build_payload(
                                collection_id,
                                tenant_id,
                                commit_sha,
                                committed_at,
                                change,
                                true,
                            ),
                            description: Self::change_description(change),
                        },
                    };
                    proof {
                        lemma_views_push(deliveries@, paced);
                    }
                    deliveries.push(paced);
                    run.delivered = run.delivered + 1;
                },
            }
            i = i + 1;
        }
        assert(all.take(i as int) =~= all);
        deliveries
    }
}

/// No file event of a commit is about an order index, and every change that
/// is not about one is a file event.
pub proof fn law_index_changes_are_order_events(changes: Seq<Change>, change: Change)
    ensures
        file_part(changes).contains(change) <==> changes.contains(change) && !touches_index(change),
{
    let keeps = |c: Change| !touches_index(c);
    if file_part(changes).contains(change) {
        let i = choose|i: int| 0 <= i < file_part(changes).len() && file_part(changes)[i] == change;
        changes.lemma_filter_pred(keeps, i);
        changes.lemma_filter_contains_rev(keeps, change);
    }
    if changes.contains(change) && !touches_index(change) {
        let i = choose|i: int| 0 <= i < changes.len() && changes[i] == change;
        changes.lemma_filter_contains(keeps, i);
    }
}

/// The wait after a failed attempt doubles with each attempt up to the cap,
/// stays the same from there, and never shrinks.
pub proof fn law_backoff_doubles(base_ms: u64, attempt: u32)
    requires
        1 <= attempt < u32::MAX,
    ensures
        backoff_after(base_ms, 1) == base_ms,
        attempt <= 20 && 2 * backoff_after(base_ms, attempt) <= u64::MAX ==> backoff_after(
            base_ms,
            (attempt + 1) as u32,
        ) == 2 * backoff_after(base_ms, attempt),
        attempt > 20 ==> backoff_after(base_ms, (attempt + 1) as u32) == backoff_after(
            base_ms,
            attempt,
        ),
        backoff_after(base_ms, attempt) <= backoff_after(base_ms, (attempt + 1) as u32),
{
    assert(power_of_two(0) == 1);
    assert(base_ms * 1 == base_ms);
    if attempt <= 20 {
        let power = power_of_two((attempt - 1) as nat);
        assert(power_of_two(attempt as nat) == 2 * power);
        assert(base_ms * (2 * power) == 2 * (base_ms * power)) by (nonlinear_arith);
        assert(base_ms * power >= 0) by (nonlinear_arith);
    }
}

} // verus!
