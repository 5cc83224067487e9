//! One aggregate instance's lane: its state, rebuilt by folding its stream,
//! and the loop that turns a command into events appended to that stream.

use vstd::prelude::*;
use vstd::string::StringExecFns;

use crate::store::{
    appended, command_query, ids_fresh, lemma_select_len, lemma_select_prefix, lemma_select_tail, lemma_stream_from, query_matches, select,
    stream_length, stream_of, stream_query, well_formed, AppendError, EventRecord,
    ExpectedVersion, InMemoryEventStore, Message, MessageId, NewMessage, Query,
};

verus! {

/// An event that a command emits, before it is stamped and stored.
#[derive(Debug, Clone)]
pub struct PendingEvent {
    pub msg_type: String,
    /// The payload, as JSON text.
    pub data: String,
}

/// The logic of one kind of aggregate.
pub trait Aggregate: Sized {
    /// The state before any event.
    spec fn initial() -> Self;

    /// A state before any event.
    fn new() -> (r: Self)
        ensures
            r == Self::initial(),
    ;

    /// An event of type `msg_type` with payload `data` decodes under the
    /// aggregate's event schema.
    spec fn decodes(msg_type: String, data: String) -> bool;

    /// Whether an event of type `msg_type` with payload `data` (JSON text)
    /// decodes under the aggregate's event schema.
    fn decode(msg_type: &String, data: &String) -> (r: bool)
        ensures
            r == Self::decodes(*msg_type, *data),
    ;

    /// The state after folding in `event`.
    spec fn next(self, event: Message) -> Self;

    /// Folds one stored event into the state.
    fn apply(&mut self, event: &Message)
        ensures
            *final(self) == old(self).next(*event),
    ;

    /// The events that `command` with `payload` emits from this state, or
    /// the rejection.
    spec fn decide(&self, command: &str, payload: &str) -> Result<Vec<PendingEvent>, String>;

    /// The events that `command` with `payload` (JSON text) emits, or a
    /// rejection, as JSON text. Reads the state and leaves it as it is.
    fn execute(&self, command: &str, payload: &str) -> (r: Result<Vec<PendingEvent>, String>)
        ensures
            r == self.decide(command, payload),
    ;
}

/// The state reached from `state` by folding in `events` in order.
pub open spec fn fold<A: Aggregate>(state: A, events: Seq<Message>) -> A
    decreases events.len(),
{
    if events.len() == 0 {
        state
    } else {
        fold(state, events.drop_last()).next(events.last())
    }
}

#[derive(Debug, Clone)]
pub enum ExecuteError {
    /// The stream name does not parse.
    InvalidStreamName,
    /// The category has no such command.
    UnknownCommand,
    /// The payload is no JSON object holding each field of the command.
    InvalidPayload,
    /// The aggregate rejected the command; its reason, as JSON text.
    Domain(String),
    /// Every attempt met an append from elsewhere.
    ConcurrencyExhausted,
    /// The store could not take the events, or the aggregate emitted an
    /// event its own schema does not decode.
    Internal,
    /// The stream holds an event the aggregate's schema does not decode; the
    /// lane cannot be brought up to date.
    Rehydrate,
}

/// Every message of `msgs` decodes under `A`'s event schema.
pub open spec fn history_decodes<A: Aggregate>(msgs: Seq<Message>) -> bool {
    forall|k: int|
        0 <= k < msgs.len() ==> A::decodes(
            (#[trigger] msgs[k]).record.msg_type,
            msgs[k].record.event_data,
        )
}

/// Every event of `events` decodes under `A`'s event schema.
pub open spec fn events_decode<A: Aggregate>(events: Seq<PendingEvent>) -> bool {
    forall|k: int| 0 <= k < events.len() ==> A::decodes((#[trigger] events[k]).msg_type, events[k].data)
}

/// Whether every message of `msgs` decodes under `A`'s event schema.
pub fn history_decodes_exec<A: Aggregate>(msgs: &Vec<Message>) -> (r: bool)
    ensures
        r == history_decodes::<A>(msgs@),
{
    let mut k: usize = 0;
    while k < msgs.len()
        invariant
            k <= msgs@.len(),
            forall|j: int|
                0 <= j < k ==> A::decodes(
                    (#[trigger] msgs@[j]).record.msg_type,
                    msgs@[j].record.event_data,
                ),
        decreases msgs@.len() - k,
    {
        if !A::decode(&msgs[k].record.msg_type, &msgs[k].record.event_data) {
            return false;
        }
        k = k + 1;
    }
    true
}

/// Whether every event of `events` decodes under `A`'s event schema.
pub fn events_decode_exec<A: Aggregate>(events: &Vec<PendingEvent>) -> (r: bool)
    ensures
        r == events_decode::<A>(events@),
{
    let mut k: usize = 0;
    while k < events.len()
        invariant
            k <= events@.len(),
            forall|j: int| 0 <= j < k ==> A::decodes((#[trigger] events@[j]).msg_type, events@[j].data),
        decreases events@.len() - k,
    {
        if !A::decode(&events[k].msg_type, &events[k].data) {
            return false;
        }
        k = k + 1;
    }
    true
}

/// The id of the `index`-th event of a command.
pub open spec fn message_id_of(command_id: Option<u128>, index: int) -> Option<MessageId> {
    match command_id {
        Some(u) => Some(MessageId { command_id: u, index: index as u64 }),
        None => None,
    }
}

/// Every message of `batch` carries `command_id` and the id that it gives.
pub open spec fn stamped_by(batch: Seq<NewMessage>, command_id: Option<u128>) -> bool {
    forall|k: int|
        0 <= k < batch.len() ==> {
            &&& (#[trigger] batch[k]).command_id == command_id
            &&& batch[k].id == message_id_of(command_id, k)
        }
}

/// `events` stamped with `command_id`: each carries it, and the `k`-th gets
/// the id (`command_id`, `k`).
pub open spec fn stamped_batch(events: Seq<PendingEvent>, command_id: Option<u128>) -> Seq<
    NewMessage,
> {
    Seq::new(
        events.len(),
        |k: int|
            NewMessage {
                id: message_id_of(command_id, k),
                msg_type: events[k].msg_type,
                data: events[k].data,
                command_id: command_id,
            },
    )
}

proof fn lemma_stamped_batch(events: Seq<PendingEvent>, command_id: Option<u128>)
    ensures
        stamped_by(stamped_batch(events, command_id), command_id),
{
}

/// Stamps `events` with `command_id`: each carries it, and the `k`-th gets the
/// id (`command_id`, `k`).
pub fn stamp(events: &Vec<PendingEvent>, command_id: Option<u128>) -> (r: Vec<NewMessage>)
    ensures
        r@ == stamped_batch(events@, command_id),
{
    let mut r: Vec<NewMessage> = Vec::new();
    let mut k: usize = 0;
    while k < events.len()
        invariant
            k <= events@.len(),
            r@.len() == k,
            stamped_by(r@, command_id),
            forall|j: int|
                0 <= j < k ==> (#[trigger] r@[j]).msg_type == events@[j].msg_type && r@[j].data
                    == events@[j].data,
        decreases events@.len() - k,
    {
        let id = match command_id {
            Some(u) => Some(MessageId { command_id: u, index: k as u64 }),
            None => None,
        };
        r.push(
            NewMessage {
                id,
                msg_type: events[k].msg_type.clone(),
                data: events[k].data.clone(),
                command_id,
            },
        );
        k = k + 1;
    }
    assert(r@ =~= stamped_batch(events@, command_id));
    r
}

/// The stream already holds messages of command `command_id`.
pub open spec fn replayed(
    events: Seq<EventRecord>,
    category: Seq<char>,
    id: Seq<char>,
    command_id: Option<u128>,
) -> bool {
    &&& command_id is Some
    &&& select(events, command_query(category, id, command_id->0)).len() > 0
}

/// What running a command does once the aggregate, on the state of the
/// whole stream, has decided `decided`: a rejection comes back as `Domain`;
/// events are stamped and appended, and their messages come back. Where an
/// event does not decode under the aggregate's own schema, or the log has no
/// room, `Internal`; where a message id is held already (by another stream)
/// nothing is appended and no message comes back.
pub open spec fn decided_outcome<A: Aggregate>(
    before: Seq<EventRecord>,
    after: Seq<EventRecord>,
    category: Seq<char>,
    id: Seq<char>,
    decided: Result<Vec<PendingEvent>, String>,
    command_id: Option<u128>,
    time: i64,
    r: Result<Vec<Message>, ExecuteError>,
) -> bool {
    match decided {
        Err(e) => {
            &&& r == Err::<Vec<Message>, ExecuteError>(ExecuteError::Domain(e))
            &&& after == before
        },
        Ok(events) => {
            let batch = stamped_batch(events@, command_id);
            if !events_decode::<A>(events@) {
                &&& r matches Err(ExecuteError::Internal)
                &&& after == before
            } else if !ids_fresh(before, batch) {
                &&& r is Ok
                &&& r->Ok_0@.len() == 0
                &&& after == before
            } else if before.len() + batch.len() >= u64::MAX {
                &&& r matches Err(ExecuteError::Internal)
                &&& after == before
            } else {
                &&& r is Ok
                &&& appended(before, after, category, id, batch, time)
                &&& r->Ok_0@ == select(
                    after,
                    stream_query(category, id, stream_length(before, category, id) as u64),
                )
            }
        },
    }
}

/// What executing `command` with `payload` does on a stream whose full
/// history folds to `state`, by a lane that has folded in the first `known`
/// messages of the stream:
/// - a command the stream holds messages of returns them, where the lane can
///   catch up;
/// - with no attempt allowed, `ConcurrencyExhausted`;
/// - where a message the lane has not seen does not decode, `Rehydrate`;
/// - with one attempt allowed and the lane behind, `ConcurrencyExhausted`
///   (the attempt is spent catching up);
/// - otherwise the aggregate decides on `state`.
pub open spec fn execute_post<A: Aggregate>(
    before: Seq<EventRecord>,
    after: Seq<EventRecord>,
    category: Seq<char>,
    id: Seq<char>,
    state: A,
    known: int,
    command: &str,
    payload: &str,
    command_id: Option<u128>,
    max_attempts: u16,
    time: i64,
    r: Result<Vec<Message>, ExecuteError>,
) -> bool {
    let unseen_decodes = history_decodes::<A>(stream_of(before, category, id).skip(known));
    let stale = known != stream_length(before, category, id);
    &&& after.len() >= before.len()
    &&& if replayed(before, category, id, command_id) {
        &&& after == before
        &&& if unseen_decodes {
            &&& r is Ok
            &&& r->Ok_0@ == select(before, command_query(category, id, command_id->0))
        } else {
            r matches Err(ExecuteError::Rehydrate)
        }
    } else if max_attempts == 0 {
        &&& after == before
        &&& r matches Err(ExecuteError::ConcurrencyExhausted)
    } else if !unseen_decodes {
        &&& after == before
        &&& r matches Err(ExecuteError::Rehydrate)
    } else if max_attempts == 1 && stale {
        &&& after == before
        &&& r matches Err(ExecuteError::ConcurrencyExhausted)
    } else {
        decided_outcome::<A>(
            before,
            after,
            category,
            id,
            state.decide(command, payload),
            command_id,
            time,
            r,
        )
    }
}

/// Two executes of one command on one stream, the second by a lane that is
/// up to date (as a successful execute leaves it) and allowed an attempt,
/// return the same messages, and the second appends nothing.
pub proof fn lemma_idempotent_execute<A: Aggregate>(
    s0: Seq<EventRecord>,
    s1: Seq<EventRecord>,
    s2: Seq<EventRecord>,
    category: Seq<char>,
    id: Seq<char>,
    initial: A,
    known: (int, int),
    command: &str,
    payload: &str,
    command_id: u128,
    max_attempts: (u16, u16),
    times: (i64, i64),
    r1: Result<Vec<Message>, ExecuteError>,
    r2: Result<Vec<Message>, ExecuteError>,
)
    requires
        well_formed(s0),
        well_formed(s1),
        execute_post(
            s0,
            s1,
            category,
            id,
            fold(initial, stream_of(s0, category, id)),
            known.0,
            command,
            payload,
            Some(command_id),
            max_attempts.0,
            times.0,
            r1,
        ),
        execute_post(
            s1,
            s2,
            category,
            id,
            fold(initial, stream_of(s1, category, id)),
            known.1,
            command,
            payload,
            Some(command_id),
            max_attempts.1,
            times.1,
            r2,
        ),
        r1 is Ok,
        known.1 == stream_length(s1, category, id),
        max_attempts.1 >= 1,
    ensures
        r2 is Ok,
        r2->Ok_0@ == r1->Ok_0@,
        s2 == s1,
{
    let cid = Some(command_id);
    let t1 = stream_of(s1, category, id);
    assert(t1.skip(known.1) =~= Seq::<Message>::empty());
    if !replayed(s0, category, id, cid) {
        let events = fold(initial, stream_of(s0, category, id)).decide(command, payload)->Ok_0;
        let batch = stamped_batch(events@, cid);
        if ids_fresh(s0, batch) {
            if batch.len() > 0 {
                lemma_stamped_batch(events@, cid);
                lemma_fresh_command_tail(s0, s1, category, id, command_id, batch, times.0);
                assert(replayed(s1, category, id, cid));
            } else {
                assert(s1 =~= s0) by {
                    assert(s1.take(s0.len() as int) == s0);
                }
                lemma_select_len(s0, stream_query(category, id, 0));
                let n = stream_length(s0, category, id);
                lemma_stream_from(s0, category, id, n as u64);
                assert(stream_of(s0, category, id).skip(n as int) =~= Seq::<Message>::empty());
                assert(fold(initial, stream_of(s1, category, id)) == fold(
                    initial,
                    stream_of(s0, category, id),
                ));
                assert(!replayed(s1, category, id, cid));
                assert(ids_fresh(s1, batch));
                assert(s2 =~= s1) by {
                    assert(s2.take(s1.len() as int) == s1);
                }
            }
        } else {
            assert(s1 == s0);
            assert(fold(initial, stream_of(s1, category, id)) == fold(
                initial,
                stream_of(s0, category, id),
            ));
            assert(!replayed(s1, category, id, cid));
        }
    }
}

/// The messages of a command's first append are the stream's new tail.
proof fn lemma_fresh_command_tail(
    s0: Seq<EventRecord>,
    s1: Seq<EventRecord>,
    category: Seq<char>,
    id: Seq<char>,
    command_id: u128,
    batch: Seq<NewMessage>,
    time: i64,
)
    requires
        well_formed(s0),
        well_formed(s1),
        appended(s0, s1, category, id, batch, time),
        stamped_by(batch, Some(command_id)),
        select(s0, command_query(category, id, command_id)).len() == 0,
    ensures
        select(s1, command_query(category, id, command_id)) == select(
            s1,
            stream_query(category, id, stream_length(s0, category, id) as u64),
        ),
        select(s1, command_query(category, id, command_id)).len() == batch.len(),
{
    let cq = command_query(category, id, command_id);
    let n = s0.len() as int;
    let sl = stream_length(s0, category, id);
    lemma_select_len(s0, stream_query(category, id, 0));
    let sq = stream_query(category, id, sl as u64);
    assert forall|g: int| n <= g < s1.len() implies query_matches(cq, #[trigger] s1[g], g)
        && query_matches(sq, s1[g], g) by {
        assert(s1[n + (g - n)] == s1[g]);
    }
    lemma_select_tail(s0, s1, cq);
    lemma_select_tail(s0, s1, sq);
    lemma_stream_from(s0, category, id, sl as u64);
    assert(select(s0, sq) =~= Seq::<Message>::empty());
    assert(select(s0, cq) =~= Seq::<Message>::empty());
    assert(select(s1, cq) =~= select(s1, sq));
}

/// An execute only adds records at the end of the log.
pub proof fn lemma_execute_extends<A: Aggregate>(
    before: Seq<EventRecord>,
    after: Seq<EventRecord>,
    category: Seq<char>,
    id: Seq<char>,
    state: A,
    known: int,
    command: &str,
    payload: &str,
    command_id: Option<u128>,
    max_attempts: u16,
    time: i64,
    r: Result<Vec<Message>, ExecuteError>,
)
    requires
        execute_post(
            before,
            after,
            category,
            id,
            state,
            known,
            command,
            payload,
            command_id,
            max_attempts,
            time,
            r,
        ),
    ensures
        before.len() <= after.len(),
        after.take(before.len() as int) == before,
{
    assert(before.take(before.len() as int) =~= before);
}

/// A lane consistent with a log stays so when records are added at its end.
pub proof fn lemma_consistent_grows<A: Aggregate>(
    lane: Lane<A>,
    before: Seq<EventRecord>,
    after: Seq<EventRecord>,
)
    requires
        lane.consistent(before),
        before.len() <= after.len(),
        after.take(before.len() as int) == before,
    ensures
        lane.consistent(after),
{
    let q = stream_query(lane.category@, lane.id@, 0);
    lemma_select_prefix(before, after, q);
    let n = lane.next_position as int;
    assert(stream_of(after, lane.category@, lane.id@).take(n) =~= stream_of(
        before,
        lane.category@,
        lane.id@,
    ).take(n));
}

/// The lane of one stream: the aggregate's state after the first
/// `next_position` messages of the stream.
pub struct Lane<A> {
    pub category: String,
    pub id: String,
    pub state: A,
    pub next_position: u64,
    /// The state before any event.
    pub initial: Ghost<A>,
}

impl<A: Aggregate> Lane<A> {
    /// The state is the fold of the stream's first `next_position` messages.
    pub open spec fn consistent(&self, events: Seq<EventRecord>) -> bool {
        &&& self.next_position <= stream_length(events, self.category@, self.id@)
        &&& self.state == fold(
            self.initial@,
            stream_of(events, self.category@, self.id@).take(self.next_position as int),
        )
    }

    /// The state is the fold of the whole stream.
    pub open spec fn in_sync(&self, events: Seq<EventRecord>) -> bool {
        &&& self.consistent(events)
        &&& self.next_position == stream_length(events, self.category@, self.id@)
    }

    /// A lane for the stream (`category`, `id`), its state rebuilt from the
    /// stream; `Rehydrate` where an event of the stream does not decode.
    pub fn rehydrate(store: &InMemoryEventStore, category: &str, id: &str, initial: A) -> (r:
        Result<Self, ExecuteError>)
        requires
            store.wf(),
        ensures
            match r {
                Ok(lane) => {
                    &&& history_decodes::<A>(stream_of(store@, category@, id@))
                    &&& lane.category@ == category@
                    &&& lane.id@ == id@
                    &&& lane.initial@ == initial
                    &&& lane.in_sync(store@)
                    &&& lane.state == fold(initial, stream_of(store@, category@, id@))
                },
                Err(e) => {
                    &&& !history_decodes::<A>(stream_of(store@, category@, id@))
                    &&& e matches ExecuteError::Rehydrate
                },
            },
    {
        let ghost init = initial;
        let mut lane = Lane {
            category: String::from_str(category),
            id: String::from_str(id),
            state: initial,
            next_position: 0,
            initial: Ghost(init),
        };
        proof {
            assert(stream_of(store@, category@, id@).take(0) =~= Seq::<Message>::empty());
            assert(stream_of(store@, category@, id@).skip(0) =~= stream_of(store@, category@, id@));
        }
        match lane.refresh(store) {
            Ok(_) => {},
            Err(e) => {
                return Err(e);
            },
        }
        proof {
            assert(stream_of(store@, category@, id@).take(lane.next_position as int) =~= stream_of(
                store@,
                category@,
                id@,
            ));
        }
        Ok(lane)
    }

    /// Folds in the messages appended to the stream since the lane last read
    /// it, and returns them; `Rehydrate`, with the lane left as it was, where
    /// one of them does not decode.
    pub fn refresh(&mut self, store: &InMemoryEventStore) -> (r: Result<Vec<Message>, ExecuteError>)
        requires
            store.wf(),
            old(self).consistent(store@),
        ensures
            final(self).category == old(self).category,
            final(self).id == old(self).id,
            final(self).initial == old(self).initial,
            match r {
                Ok(msgs) => {
                    &&& history_decodes::<A>(
                        stream_of(store@, old(self).category@, old(self).id@).skip(
                            old(self).next_position as int,
                        ),
                    )
                    &&& final(self).in_sync(store@)
                    &&& msgs@ == stream_of(store@, old(self).category@, old(self).id@).skip(
                        old(self).next_position as int,
                    )
                },
                Err(e) => {
                    &&& !history_decodes::<A>(
                        stream_of(store@, old(self).category@, old(self).id@).skip(
                            old(self).next_position as int,
                        ),
                    )
                    &&& e matches ExecuteError::Rehydrate
                    &&& *final(self) == *old(self)
                },
            },
    {
        let unseen = store.iter_stream(self.category.as_str(), self.id.as_str(), self.next_position);
        proof {
            lemma_stream_from(store@, self.category@, self.id@, self.next_position);
        }
        if !history_decodes_exec::<A>(&unseen) {
            return Err(ExecuteError::Rehydrate);
        }
        Ok(self.catch_up(store))
    }

    /// Folds in the messages appended to the stream since the lane last read
    /// it, and returns them.
    fn catch_up(&mut self, store: &InMemoryEventStore) -> (r: Vec<Message>)
        requires
            store.wf(),
            old(self).consistent(store@),
        ensures
            final(self).category == old(self).category,
            final(self).id == old(self).id,
            final(self).initial == old(self).initial,
            final(self).in_sync(store@),
            r@ == stream_of(store@, old(self).category@, old(self).id@).skip(
                old(self).next_position as int,
            ),
    {
        let msgs = store.iter_stream(self.category.as_str(), self.id.as_str(), self.next_position);
        let ghost t = stream_of(store@, self.category@, self.id@);
        let ghost p0 = self.next_position as int;
        proof {
            lemma_stream_from(store@, self.category@, self.id@, self.next_position);
            lemma_select_len(store@, stream_query(self.category@, self.id@, 0));
        }
        let mut j: usize = 0;
        while j < msgs.len()
            invariant
                store.wf(),
                self.category == old(self).category,
                self.id == old(self).id,
                self.initial == old(self).initial,
                t == stream_of(store@, self.category@, self.id@),
                p0 == old(self).next_position,
                p0 <= t.len(),
                t.len() <= store@.len() < u64::MAX,
                msgs@ == t.skip(p0),
                j <= msgs@.len(),
                self.next_position == p0 + j,
                self.state == fold(self.initial@, t.take(p0 + j)),
            decreases msgs@.len() - j,
        {
            self.state.apply(&msgs[j]);
            proof {
                assert(t.take(p0 + j + 1).drop_last() =~= t.take(p0 + j));
                assert(msgs@[j as int] == t[p0 + j]);
            }
            self.next_position = self.next_position + 1;
            j = j + 1;
        }
        msgs
    }

    /// Runs `command` against the state of the whole stream and appends the
    /// events it emits, stamped with `command_id` and `time`, at the stream's
    /// tail. Where the lane is behind the stream (an append from elsewhere),
    /// the attempt is spent catching up, and the lane tries again, at most
    /// `max_attempts` times in all. A command whose messages the stream
    /// already holds returns them and appends nothing.
    pub fn execute(
        &mut self,
        store: &mut InMemoryEventStore,
        command: &str,
        payload: &str,
        command_id: Option<u128>,
        max_attempts: u16,
        time: i64,
    ) -> (r: Result<Vec<Message>, ExecuteError>)
        requires
            old(store).wf(),
            old(self).consistent(old(store)@),
        ensures
            final(store).wf(),
            final(self).category == old(self).category,
            final(self).id == old(self).id,
            final(self).initial == old(self).initial,
            final(self).consistent(final(store)@),
            r is Ok ==> final(self).in_sync(final(store)@),
            execute_post(
                old(store)@,
                final(store)@,
                old(self).category@,
                old(self).id@,
                fold(old(self).initial@, stream_of(old(store)@, old(self).category@, old(self).id@)),
                old(self).next_position as int,
                command,
                payload,
                command_id,
                max_attempts,
                time,
                r,
            ),
    {
        let ghost c = self.category@;
        let ghost i = self.id@;
        let ghost whole = fold(self.initial@, stream_of(store@, c, i));
        match command_id {
            Some(u) => {
                let q = Query {
                    category: Some(self.category.clone()),
                    id: Some(self.id.clone()),
                    from_stream_position: 0,
                    from_global_position: 0,
                    command_id: Some(u),
                };
                let prior = store.query(&q);
                if prior.len() > 0 {
                    return match self.refresh(store) {
                        Ok(_) => Ok(prior),
                        Err(e) => Err(e),
                    };
                }
            },
            None => {},
        }
        let mut attempt: u16 = 0;
        while attempt < max_attempts
            invariant
                store.wf(),
                store@ == old(store)@,
                self.category == old(self).category,
                self.id == old(self).id,
                self.initial == old(self).initial,
                c == self.category@,
                i == self.id@,
                whole == fold(self.initial@, stream_of(store@, c, i)),
                !replayed(store@, c, i, command_id),
                self.consistent(store@),
                old(self).consistent(old(store)@),
                attempt <= max_attempts,
                attempt <= 1,
                attempt == 0 ==> self.next_position == old(self).next_position,
                attempt == 1 ==> {
                    &&& self.in_sync(store@)
                    &&& !old(self).in_sync(old(store)@)
                    &&& history_decodes::<A>(
                        stream_of(store@, c, i).skip(old(self).next_position as int),
                    )
                },
            decreases max_attempts - attempt,
        {
            let in_sync = self.next_position == store.stream_length(
                self.category.as_str(),
                self.id.as_str(),
            );
            if !in_sync {
                match self.refresh(store) {
                    Ok(_) => {},
                    Err(e) => {
                        return Err(e);
                    },
                }
            } else {
                proof {
                    assert(stream_of(store@, c, i).take(self.next_position as int) =~= stream_of(
                        store@,
                        c,
                        i,
                    ));
                    assert(stream_of(store@, c, i).skip(self.next_position as int)
                        =~= Seq::<Message>::empty());
                    assert(self.state == whole);
                    assert(attempt == 0 ==> old(self).in_sync(old(store)@));
                }
                let events = match self.state.execute(command, payload) {
                    Ok(events) => events,
                    Err(e) => {
                        return Err(ExecuteError::Domain(e));
                    },
                };
                if !events_decode_exec::<A>(&events) {
                    return Err(ExecuteError::Internal);
                }
                let batch = stamp(&events, command_id);
                let ghost before = store@;
                let res = store.append(
                    self.category.as_str(),
                    self.id.as_str(),
                    ExpectedVersion::Exact(self.next_position),
                    &batch,
                    time,
                );
                match res {
                    Ok(_) => {
                        proof {
                            let n = before.len() as int;
                            let q0 = stream_query(c, i, 0);
                            assert forall|g: int| n <= g < store@.len() implies query_matches(
                                q0,
                                #[trigger] store@[g],
                                g,
                            ) by {
                                assert(store@[n + (g - n)] == store@[g]);
                            }
                            lemma_select_tail(before, store@, q0);
                            assert(stream_of(store@, c, i).take(self.next_position as int)
                                =~= stream_of(before, c, i).take(self.next_position as int));
                        }
                        let msgs = self.catch_up(store);
                        proof {
                            lemma_stream_from(store@, c, i, stream_length(before, c, i) as u64);
                        }
                        return Ok(msgs);
                    },
                    Err(AppendError::WrongExpectedVersion { .. }) => {
                        // The lane was in sync just above and nothing wrote
                        // in between: this cannot come.
                        return Err(ExecuteError::Internal);
                    },
                    Err(AppendError::DuplicateMessageId) => {
                        // The stream holds no message of this command
                        // (checked above), so the id stands in another
                        // stream: nothing of this stream to return.
                        return Ok(Vec::new());
                    },
                    Err(AppendError::StoreFull) => {
                        return Err(ExecuteError::Internal);
                    },
                }
            }
            attempt = attempt + 1;
        }
        Err(ExecuteError::ConcurrencyExhausted)
    }
}

} // verus!
