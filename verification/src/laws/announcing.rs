//! What the receiver of webhooks hears of.
use vstd::prelude::*;
use crate::config::HookEvent;
use crate::git::model::Change;
use crate::hooks::{
    backoff_after, envelope, file_part, file_sendings, order_part, order_sendings, paced_sendings,
    present_count, replay_change, replay_event_of, OrderEvent, Paced, ReplayKind, Sending, Value,
};
use crate::order::{leaf_of, order_in, parent_of};

verus! {

/// What a payload says before it says what happened.
pub open spec fn origin(
    collection_id: Seq<char>,
    tenant_id: Seq<char>,
    commit_sha: Seq<char>,
    committed_at: Seq<char>,
) -> Seq<(Seq<char>, Value)> {
    seq![
        ("collection_id"@, Value::Text(collection_id)),
        ("tenant_id"@, Value::Text(tenant_id)),
        ("commit_sha"@, Value::Text(commit_sha)),
        ("committed_at"@, Value::Text(committed_at)),
    ]
}

/// Every payload tells the repository, the commit and its time first.
pub proof fn law_payload_tells_its_origin(
    collection_id: Seq<char>,
    tenant_id: Seq<char>,
    commit_sha: Seq<char>,
    committed_at: Seq<char>,
)
    ensures
        envelope(collection_id, tenant_id, commit_sha, committed_at) == origin(
            collection_id,
            tenant_id,
            commit_sha,
            committed_at,
        ),
{
    assert(envelope(collection_id, tenant_id, commit_sha, committed_at) =~= origin(
        collection_id,
        tenant_id,
        commit_sha,
        committed_at,
    ));
}

/// The changes of a commit are announced one by one, in their order.
pub proof fn law_changes_are_announced_in_turn(
    start: Seq<(Seq<char>, Value)>,
    first: Seq<Change>,
    second: Seq<Change>,
    events: Seq<HookEvent>,
)
    ensures
        file_sendings(start, seq![], events).len() == 0,
        file_sendings(start, first + second, events) == file_sendings(start, first, events)
            + file_sendings(start, second, events),
    decreases second.len(),
{
    if second.len() == 0 {
        assert(first + second =~= first);
        assert(file_sendings(start, first, events) + file_sendings(start, second, events)
            =~= file_sendings(start, first, events));
    } else {
        assert((first + second).drop_last() =~= first + second.drop_last());
        law_changes_are_announced_in_turn(start, first, second.drop_last(), events);
        assert(file_sendings(start, first + second, events) =~= file_sendings(start, first, events)
            + file_sendings(start, second, events));
    }
}

/// A new file is announced exactly to those who subscribe to `FileCreated`,
/// with its path and its content, under the name `file.created`.
pub proof fn law_created_is_announced(
    start: Seq<(Seq<char>, Value)>,
    events: Seq<HookEvent>,
    path: Seq<char>,
    content: Seq<char>,
)
    ensures
        ({
            let sent = file_sendings(start, seq![Change::Created(path, content)], events);
            if events.contains(HookEvent::FileCreated) {
                &&& sent.len() == 1
                &&& sent[0].payload == start + seq![
                    ("event"@, Value::Text("file.created"@)),
                    ("file"@, Value::Object(seq![("path"@, path), ("content"@, content)])),
                ]
                &&& sent[0].description == "created:"@ + path
            } else {
                sent.len() == 0
            }
        }),
{
    lemma_one_change(start, events, Change::Created(path, content));
    assert(start + Seq::<(Seq<char>, Value)>::empty() =~= start);
}

/// A changed file is announced exactly to those who subscribe to `FileUpdated`,
/// with its path and its new content, under the name `file.updated`.
pub proof fn law_updated_is_announced(
    start: Seq<(Seq<char>, Value)>,
    events: Seq<HookEvent>,
    path: Seq<char>,
    content: Seq<char>,
)
    ensures
        ({
            let sent = file_sendings(start, seq![Change::Updated(path, content)], events);
            if events.contains(HookEvent::FileUpdated) {
                &&& sent.len() == 1
                &&& sent[0].payload == start + seq![
                    ("event"@, Value::Text("file.updated"@)),
                    ("file"@, Value::Object(seq![("path"@, path), ("content"@, content)])),
                ]
                &&& sent[0].description == "updated:"@ + path
            } else {
                sent.len() == 0
            }
        }),
{
    lemma_one_change(start, events, Change::Updated(path, content));
    assert(start + Seq::<(Seq<char>, Value)>::empty() =~= start);
}

/// A deleted file is announced exactly to those who subscribe to
/// `FileDeleted`, with its path, under the name `file.deleted`.
pub proof fn law_deleted_is_announced(
    start: Seq<(Seq<char>, Value)>,
    events: Seq<HookEvent>,
    path: Seq<char>,
)
    ensures
        ({
            let sent = file_sendings(start, seq![Change::Deleted(path)], events);
            if events.contains(HookEvent::FileDeleted) {
                &&& sent.len() == 1
                &&& sent[0].payload == start + seq![
                    ("event"@, Value::Text("file.deleted"@)),
                    ("file"@, Value::Object(seq![("path"@, path)])),
                ]
                &&& sent[0].description == "deleted:"@ + path
            } else {
                sent.len() == 0
            }
        }),
{
    lemma_one_change(start, events, Change::Deleted(path));
    assert(start + Seq::<(Seq<char>, Value)>::empty() =~= start);
}

/// A moved file is announced exactly to those who subscribe to `FileMoved`,
/// with its old path, its new one and its content, under the name
/// `file.moved`.
pub proof fn law_moved_is_announced(
    start: Seq<(Seq<char>, Value)>,
    events: Seq<HookEvent>,
    from: Seq<char>,
    to: Seq<char>,
    content: Seq<char>,
)
    ensures
        ({
            let sent = file_sendings(start, seq![Change::Moved(from, to, content)], events);
            if events.contains(HookEvent::FileMoved) {
                &&& sent.len() == 1
                &&& sent[0].payload == start + seq![
                    ("event"@, Value::Text("file.moved"@)),
                    ("from"@, Value::Object(seq![("path"@, from)])),
                    ("to"@, Value::Object(seq![("path"@, to), ("content"@, content)])),
                ]
            } else {
                sent.len() == 0
            }
        }),
{
    lemma_one_change(start, events, Change::Moved(from, to, content));
    assert(start + Seq::<(Seq<char>, Value)>::empty() =~= start);
}

proof fn lemma_one_change(start: Seq<(Seq<char>, Value)>, events: Seq<HookEvent>, change: Change)
    ensures
        file_sendings(start, seq![change], events) == if events.contains(
            crate::hooks::event_of(change),
        ) {
            seq![crate::hooks::sending_of(start, change, false)]
        } else {
            Seq::empty()
        },
{
    reveal_with_fuel(file_sendings, 2);
    assert(seq![change].drop_last() =~= Seq::<Change>::empty());
    assert(Seq::<Sending>::empty().push(crate::hooks::sending_of(start, change, false)) =~= seq![
        crate::hooks::sending_of(start, change, false),
    ]);
}

/// Order changes are announced one by one, in their order: a directory's whole
/// order exactly to those who subscribe to `OrderUpdated`, that it has none any
/// more exactly to those who subscribe to `OrderDeleted`.
pub proof fn law_order_changes_are_announced(
    start: Seq<(Seq<char>, Value)>,
    events: Seq<HookEvent>,
    first: Seq<OrderEvent>,
    second: Seq<OrderEvent>,
    directory: Seq<char>,
    order: Seq<Seq<char>>,
)
    ensures
        order_sendings(start, seq![], events).len() == 0,
        order_sendings(start, first + second, events) == order_sendings(start, first, events)
            + order_sendings(start, second, events),
        ({
            let sent = order_sendings(start, seq![OrderEvent::Updated(directory, order)], events);
            if events.contains(HookEvent::OrderUpdated) {
                &&& sent.len() == 1
                &&& sent[0].payload == start + seq![
                    ("event"@, Value::Text("order.updated"@)),
                    ("directory"@, Value::Text(directory)),
                    ("order"@, Value::List(order)),
                ]
            } else {
                sent.len() == 0
            }
        }),
        ({
            let sent = order_sendings(start, seq![OrderEvent::Deleted(directory)], events);
            if events.contains(HookEvent::OrderDeleted) {
                &&& sent.len() == 1
                &&& sent[0].payload == start + seq![
                    ("event"@, Value::Text("order.deleted"@)),
                    ("directory"@, Value::Text(directory)),
                ]
            } else {
                sent.len() == 0
            }
        }),
    decreases second.len(),
{
    reveal_with_fuel(order_sendings, 2);
    assert(seq![OrderEvent::Updated(directory, order)].drop_last() =~= Seq::<OrderEvent>::empty());
    assert(seq![OrderEvent::Deleted(directory)].drop_last() =~= Seq::<OrderEvent>::empty());
    if second.len() == 0 {
        assert(first + second =~= first);
        assert(order_sendings(start, first, events) + order_sendings(start, second, events)
            =~= order_sendings(start, first, events));
    } else {
        assert((first + second).drop_last() =~= first + second.drop_last());
        law_order_changes_are_announced(
            start,
            events,
            first,
            second.drop_last(),
            directory,
            order,
        );
        assert(order_sendings(start, first + second, events) =~= order_sendings(
            start,
            first,
            events,
        ) + order_sendings(start, second, events));
    }
}

/// Whether a path is that of an order index.
pub open spec fn is_index(path: Seq<char>) -> bool {
    leaf_of(path) == ".order.json"@
}

/// What a commit did to order indexes is told as order changes, what it did to
/// other files as changes of files, each in turn and nothing twice. An index
/// that was written tells its directory's order, if it can be read; one that
/// was deleted or moved away tells that there is none.
pub proof fn law_changes_are_parted(
    first: Seq<Change>,
    second: Seq<Change>,
    path: Seq<char>,
    to: Seq<char>,
    content: Seq<char>,
)
    ensures
        file_part(first + second) == file_part(first) + file_part(second),
        order_part(first + second) == order_part(first) + order_part(second),
        file_part(seq![]).len() == 0 && order_part(seq![]).len() == 0,
        !is_index(path) ==> {
            &&& file_part(seq![Change::Created(path, content)]) == seq![
                Change::Created(path, content),
            ]
            &&& file_part(seq![Change::Updated(path, content)]) == seq![
                Change::Updated(path, content),
            ]
            &&& file_part(seq![Change::Deleted(path)]) == seq![Change::Deleted(path)]
            &&& file_part(seq![Change::Moved(to, path, content)]) == seq![
                Change::Moved(to, path, content),
            ]
            &&& order_part(seq![Change::Created(path, content)]).len() == 0
            &&& order_part(seq![Change::Updated(path, content)]).len() == 0
            &&& order_part(seq![Change::Deleted(path)]).len() == 0
            &&& order_part(seq![Change::Moved(to, path, content)]).len() == 0
        },
        is_index(path) ==> {
            let told = match order_in(content) {
                Some(order) => seq![OrderEvent::Updated(parent_of(path), order)],
                None => seq![],
            };
            &&& file_part(seq![Change::Created(path, content)]).len() == 0
            &&& file_part(seq![Change::Updated(path, content)]).len() == 0
            &&& file_part(seq![Change::Deleted(path)]).len() == 0
            &&& file_part(seq![Change::Moved(to, path, content)]).len() == 0
            &&& order_part(seq![Change::Created(path, content)]) == told
            &&& order_part(seq![Change::Updated(path, content)]) == told
            &&& order_part(seq![Change::Deleted(path)]) == seq![
                OrderEvent::Deleted(parent_of(path)),
            ]
            &&& order_part(seq![Change::Moved(to, path, content)]) == if is_index(to) {
                seq![OrderEvent::Deleted(parent_of(to))] + told
            } else {
                told
            }
        },
    decreases second.len(),
{
    lemma_one_part(Change::Created(path, content));
    lemma_one_part(Change::Updated(path, content));
    lemma_one_part(Change::Deleted(path));
    lemma_one_part(Change::Moved(to, path, content));
    reveal(Seq::filter);
    let none = Seq::<OrderEvent>::empty();
    let told = crate::hooks::order_updated(path, content);
    assert(none + told =~= told);
    if second.len() == 0 {
        assert(first + second =~= first);
        assert(file_part(first) + file_part(second) =~= file_part(first));
        assert(order_part(first) + order_part(second) =~= order_part(first));
    } else {
        assert((first + second).drop_last() =~= first + second.drop_last());
        law_changes_are_parted(first, second.drop_last(), path, to, content);
        assert(file_part(first + second) =~= file_part(first) + file_part(second));
        assert(order_part(first + second) =~= order_part(first) + order_part(second));
    }
}

proof fn lemma_one_part(change: Change)
    ensures
        file_part(seq![change]) == if crate::hooks::touches_index(change) {
            Seq::empty()
        } else {
            seq![change]
        },
        order_part(seq![change]) == crate::hooks::order_events(change),
{
    reveal(Seq::filter);
    reveal_with_fuel(order_part, 2);
    let none = Seq::<Change>::empty();
    assert(seq![change].drop_last() =~= none);
    assert(none.filter(|c: Change| !crate::hooks::touches_index(c)) =~= none);
    assert(Seq::<OrderEvent>::empty() + crate::hooks::order_events(change)
        =~= crate::hooks::order_events(change));
    assert(none.push(change) =~= seq![change]);
}

/// A replay sends again what it is for: the creation of a file with the content
/// that was read, nothing for one that was not, and the deletion of any. It is
/// for those who subscribe to that event.
pub proof fn law_replay_sends_its_event(path: Seq<char>, content: Seq<char>)
    ensures
        replay_change(ReplayKind::Created, path, Some(content)) == Some(
            Change::Created(path, content),
        ),
        replay_change(ReplayKind::Created, path, None) is None,
        replay_change(ReplayKind::Deleted, path, Some(content)) == Some(Change::Deleted(path)),
        replay_change(ReplayKind::Deleted, path, None) == Some(Change::Deleted(path)),
        replay_event_of(ReplayKind::Created) == HookEvent::FileCreated,
        replay_event_of(ReplayKind::Deleted) == HookEvent::FileDeleted,
{
}

/// The events of a replay are sent in turn, each marked as replayed, with the
/// pause before each but the first that is sent. A file that is missing sends
/// nothing.
pub proof fn law_replay_is_paced(
    start: Seq<(Seq<char>, Value)>,
    first: Seq<Option<Change>>,
    second: Seq<Option<Change>>,
    delivered: nat,
    delay_ms: Option<u64>,
    path: Seq<char>,
    content: Seq<char>,
)
    ensures
        paced_sendings(start, seq![], delivered, delay_ms).len() == 0,
        paced_sendings(start, seq![None], delivered, delay_ms).len() == 0,
        paced_sendings(start, first + second, delivered, delay_ms) == paced_sendings(
            start,
            first,
            delivered,
            delay_ms,
        ) + paced_sendings(
            start,
            second,
            delivered + paced_sendings(start, first, delivered, delay_ms).len(),
            delay_ms,
        ),
        ({
            let sent = paced_sendings(
                start,
                seq![Some(Change::Created(path, content))],
                delivered,
                delay_ms,
            );
            &&& sent.len() == 1
            &&& sent[0].pause_ms == if delivered == 0 {
                None
            } else {
                delay_ms
            }
            &&& sent[0].sending.payload == start + seq![
                ("replayed"@, Value::Flag(true)),
                ("event"@, Value::Text("file.created"@)),
                ("file"@, Value::Object(seq![("path"@, path), ("content"@, content)])),
            ]
        }),
        ({
            let sent = paced_sendings(
                start,
                seq![Some(Change::Deleted(path))],
                delivered,
                delay_ms,
            );
            &&& sent.len() == 1
            &&& sent[0].pause_ms == if delivered == 0 {
                None
            } else {
                delay_ms
            }
            &&& sent[0].sending.payload == start + seq![
                ("replayed"@, Value::Flag(true)),
                ("event"@, Value::Text("file.deleted"@)),
                ("file"@, Value::Object(seq![("path"@, path)])),
            ]
        }),
{
    lemma_one_paced(start, delivered, delay_ms, None);
    lemma_one_paced(start, delivered, delay_ms, Some(Change::Created(path, content)));
    lemma_one_paced(start, delivered, delay_ms, Some(Change::Deleted(path)));
    lemma_paced_in_turn(start, first, second, delivered, delay_ms);
    let flag = seq![("replayed"@, Value::Flag(true))];
    let made = crate::hooks::change_fields(Change::Created(path, content));
    let gone = crate::hooks::change_fields(Change::Deleted(path));
    assert(start + flag + made =~= start + seq![
        ("replayed"@, Value::Flag(true)),
        ("event"@, Value::Text("file.created"@)),
        ("file"@, Value::Object(seq![("path"@, path), ("content"@, content)])),
    ]);
    assert(start + flag + gone =~= start + seq![
        ("replayed"@, Value::Flag(true)),
        ("event"@, Value::Text("file.deleted"@)),
        ("file"@, Value::Object(seq![("path"@, path)])),
    ]);
}

proof fn lemma_one_paced(
    start: Seq<(Seq<char>, Value)>,
    delivered: nat,
    delay_ms: Option<u64>,
    change: Option<Change>,
)
    ensures
        paced_sendings(start, seq![change], delivered, delay_ms) == match change {
            None => Seq::empty(),
            Some(present) => seq![
                Paced {
                    pause_ms: if delivered > 0 {
                        delay_ms
                    } else {
                        None
                    },
                    sending: crate::hooks::sending_of(start, present, true),
                },
            ],
        },
{
    reveal_with_fuel(paced_sendings, 2);
    assert(seq![change].drop_last() =~= Seq::<Option<Change>>::empty());
    if let Some(present) = change {
        assert(paced_sendings(start, seq![change], delivered, delay_ms) =~= seq![
            Paced {
                pause_ms: if delivered > 0 {
                    delay_ms
                } else {
                    None
                },
                sending: crate::hooks::sending_of(start, present, true),
            },
        ]);
    }
}

proof fn lemma_paced_in_turn(
    start: Seq<(Seq<char>, Value)>,
    first: Seq<Option<Change>>,
    second: Seq<Option<Change>>,
    delivered: nat,
    delay_ms: Option<u64>,
)
    ensures
        paced_sendings(start, first, delivered, delay_ms).len() == present_count(first),
        present_count(first + second) == present_count(first) + present_count(second),
        paced_sendings(start, first + second, delivered, delay_ms) == paced_sendings(
            start,
            first,
            delivered,
            delay_ms,
        ) + paced_sendings(
            start,
            second,
            delivered + paced_sendings(start, first, delivered, delay_ms).len(),
            delay_ms,
        ),
    decreases first.len() + second.len(), second.len(),
{
    if second.len() == 0 {
        assert(first + second =~= first);
        assert(paced_sendings(start, first, delivered, delay_ms) + paced_sendings(
            start,
            second,
            delivered + paced_sendings(start, first, delivered, delay_ms).len(),
            delay_ms,
        ) =~= paced_sendings(start, first, delivered, delay_ms));
        if first.len() > 0 {
            lemma_paced_in_turn(start, first.drop_last(), Seq::empty(), delivered, delay_ms);
        }
    } else {
        assert((first + second).drop_last() =~= first + second.drop_last());
        lemma_paced_in_turn(start, first, second.drop_last(), delivered, delay_ms);
        assert(paced_sendings(start, first + second, delivered, delay_ms) =~= paced_sendings(
            start,
            first,
            delivered,
            delay_ms,
        ) + paced_sendings(
            start,
            second,
            delivered + paced_sendings(start, first, delivered, delay_ms).len(),
            delay_ms,
        ));
    }
}

/// The wait after the first failed attempt is the one that is set; after each
/// further one it is twice as long, twenty times over, or as long as can be
/// counted.
pub proof fn law_wait_grows(base_ms: u64, attempt: u32)
    requires
        1 <= attempt < u32::MAX,
    ensures
        backoff_after(base_ms, 1) == base_ms,
        backoff_after(base_ms, (attempt + 1) as u32) == if attempt > 20 {
            backoff_after(base_ms, attempt)
        } else if 2 * backoff_after(base_ms, attempt) <= u64::MAX {
            2 * backoff_after(base_ms, attempt)
        } else {
            u64::MAX as nat
        },
{
    crate::hooks::law_backoff_doubles(base_ms, attempt);
    if attempt <= 20 {
        let power = crate::hooks::power_of_two((attempt - 1) as nat);
        assert(crate::hooks::power_of_two(attempt as nat) == 2 * power);
        assert(base_ms * (2 * power) == 2 * (base_ms * power)) by (nonlinear_arith);
    }
}

/// The log line of a change names what happened and where.
pub proof fn law_log_line_names_the_change(path: Seq<char>, to: Seq<char>, content: Seq<char>)
    ensures
        crate::hooks::description_of(Change::Created(path, content)) == "created:"@ + path,
        crate::hooks::description_of(Change::Updated(path, content)) == "updated:"@ + path,
        crate::hooks::description_of(Change::Deleted(path)) == "deleted:"@ + path,
        crate::hooks::description_of(Change::Moved(path, to, content)) == "moved:"@ + path
            + seq!['→'] + to,
{
    reveal_strlit("→");
    assert("→"@ =~= seq!['→']);
}

} // verus!
