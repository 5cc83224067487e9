//! An in-memory, append-only message store.
//!
//! Records are kept in one vector: a record's index is its global position,
//! and its `sequence` is its position within its stream, the pair
//! (`aggregate_type`, `aggregate_id`).

use vstd::prelude::*;
use vstd::string::StringExecFns;

verus! {

/// Identifies one message: the command that emitted it and its index in that
/// command's batch.
#[derive(Debug, Clone, Copy, PartialEq, Eq, Structural)]
pub struct MessageId {
    pub command_id: u128,
    pub index: u64,
}

/// A message handed to `append`, before it has a position.
#[derive(Debug, Clone)]
pub struct NewMessage {
    pub id: Option<MessageId>,
    pub msg_type: String,
    /// The payload, as JSON text.
    pub data: String,
    /// The command that emitted the message, carried as metadata.
    pub command_id: Option<u128>,
}

/// A stored message.
#[derive(Debug, Clone)]
pub struct EventRecord {
    /// Milliseconds since the Unix epoch, UTC.
    pub created_at: i64,
    /// The stream's category.
    pub aggregate_type: String,
    /// The stream's instance id.
    pub aggregate_id: String,
    /// The position within the stream, from 0.
    pub sequence: u64,
    pub id: Option<MessageId>,
    pub msg_type: String,
    /// The payload, as JSON text.
    pub event_data: String,
    pub command_id: Option<u128>,
}

/// A stored message with its global position.
#[derive(Debug, Clone)]
pub struct Message {
    pub global_position: u64,
    pub record: EventRecord,
}

/// What a read selects: each field that is set narrows it.
#[derive(Debug, Clone)]
pub struct Query {
    pub category: Option<String>,
    pub id: Option<String>,
    pub from_stream_position: u64,
    pub from_global_position: u64,
    pub command_id: Option<u128>,
}

pub struct QuerySpec {
    pub category: Option<Seq<char>>,
    pub id: Option<Seq<char>>,
    pub from_stream_position: u64,
    pub from_global_position: u64,
    pub command_id: Option<u128>,
}

impl View for Query {
    type V = QuerySpec;

    open spec fn view(&self) -> QuerySpec {
        QuerySpec {
            category: match self.category {
                Some(c) => Some(c@),
                None => None,
            },
            id: match self.id {
                Some(i) => Some(i@),
                None => None,
            },
            from_stream_position: self.from_stream_position,
            from_global_position: self.from_global_position,
            command_id: self.command_id,
        }
    }
}

/// The condition a stream's next position must meet for an append.
#[derive(Debug, Clone, Copy, PartialEq, Eq, Structural)]
pub enum ExpectedVersion {
    /// No condition.
    Any,
    /// The stream holds exactly this many messages: 0 for an empty stream.
    Exact(u64),
}

#[derive(Debug, Clone, Copy, PartialEq, Eq, Structural)]
pub struct AppendResult {
    pub first_global_position: u64,
    pub first_stream_position: u64,
}

#[derive(Debug, Clone, Copy, PartialEq, Eq, Structural)]
pub enum AppendError {
    /// The stream's next position was `actual`, the caller expected `supplied`.
    WrongExpectedVersion { actual: u64, supplied: u64 },
    /// A message id is already stored, or stands twice in the batch.
    DuplicateMessageId,
    /// The batch would take the global position past what a `u64` holds.
    StoreFull,
}

pub open spec fn field_matches(f: Option<Seq<char>>, s: Seq<char>) -> bool {
    match f {
        Some(x) => x == s,
        None => true,
    }
}

/// The record at global position `g` is selected by `q`.
pub open spec fn query_matches(q: QuerySpec, r: EventRecord, g: int) -> bool {
    &&& field_matches(q.category, r.aggregate_type@)
    &&& field_matches(q.id, r.aggregate_id@)
    &&& r.sequence >= q.from_stream_position
    &&& g >= q.from_global_position
    &&& match q.command_id {
        Some(c) => r.command_id == Some(c),
        None => true,
    }
}

/// The messages that `q` selects, in ascending global position.
pub open spec fn select(events: Seq<EventRecord>, q: QuerySpec) -> Seq<Message>
    decreases events.len(),
{
    if events.len() == 0 {
        Seq::empty()
    } else {
        let g = events.len() - 1;
        let prior = select(events.drop_last(), q);
        if query_matches(q, events.last(), g) {
            prior.push(Message { global_position: g as u64, record: events.last() })
        } else {
            prior
        }
    }
}

pub open spec fn stream_query(category: Seq<char>, id: Seq<char>, from: u64) -> QuerySpec {
    QuerySpec {
        category: Some(category),
        id: Some(id),
        from_stream_position: from,
        from_global_position: 0,
        command_id: None,
    }
}

pub open spec fn global_query(from: u64) -> QuerySpec {
    QuerySpec {
        category: None,
        id: None,
        from_stream_position: 0,
        from_global_position: from,
        command_id: None,
    }
}

pub open spec fn command_query(category: Seq<char>, id: Seq<char>, command_id: u128) -> QuerySpec {
    QuerySpec {
        category: Some(category),
        id: Some(id),
        from_stream_position: 0,
        from_global_position: 0,
        command_id: Some(command_id),
    }
}

/// The messages of one stream.
pub open spec fn stream_of(events: Seq<EventRecord>, category: Seq<char>, id: Seq<char>) -> Seq<
    Message,
> {
    select(events, stream_query(category, id, 0))
}

/// The number of messages in a stream: its next position.
pub open spec fn stream_length(events: Seq<EventRecord>, category: Seq<char>, id: Seq<char>) -> nat {
    stream_of(events, category, id).len()
}

/// The highest position in a stream, or `None` for an empty one.
pub open spec fn version_of(events: Seq<EventRecord>, category: Seq<char>, id: Seq<char>) -> Option<
    u64,
> {
    let n = stream_length(events, category, id);
    if n == 0 {
        None
    } else {
        Some((n - 1) as u64)
    }
}

pub open spec fn holds_id(events: Seq<EventRecord>, id: MessageId) -> bool {
    exists|i: int| 0 <= i < events.len() && #[trigger] events[i].id == Some(id)
}

/// Each record's sequence is the number of records of its stream before it,
/// message ids are unique, and every position fits in a `u64`.
pub open spec fn well_formed(events: Seq<EventRecord>) -> bool {
    &&& events.len() < u64::MAX
    &&& forall|i: int|
        0 <= i < events.len() ==> #[trigger] events[i].sequence == stream_length(
            events.take(i),
            events[i].aggregate_type@,
            events[i].aggregate_id@,
        )
    &&& forall|i: int, j: int|
        0 <= i < j < events.len() && events[i].id is Some ==> #[trigger] events[i].id
            != #[trigger] events[j].id
}

/// `expected` holds of a stream of `len` messages.
pub open spec fn version_matches(expected: ExpectedVersion, len: nat) -> bool {
    match expected {
        ExpectedVersion::Any => true,
        ExpectedVersion::Exact(n) => n == len,
    }
}

/// No id of `msgs` is stored in `events`, and none stands twice in `msgs`.
pub open spec fn ids_fresh(events: Seq<EventRecord>, msgs: Seq<NewMessage>) -> bool {
    &&& forall|k: int|
        0 <= k < msgs.len() && #[trigger] msgs[k].id is Some ==> !holds_id(events, msgs[k].id->0)
    &&& forall|k: int, l: int|
        0 <= k < l < msgs.len() && msgs[k].id is Some ==> #[trigger] msgs[k].id
            != #[trigger] msgs[l].id
}

/// `r` is `m` stored at `sequence` of the stream, at time `time`.
pub open spec fn is_record_of(
    r: EventRecord,
    category: Seq<char>,
    id: Seq<char>,
    sequence: int,
    m: NewMessage,
    time: i64,
) -> bool {
    &&& r.created_at == time
    &&& r.aggregate_type@ == category
    &&& r.aggregate_id@ == id
    &&& r.sequence == sequence
    &&& r.id == m.id
    &&& r.msg_type == m.msg_type
    &&& r.event_data == m.data
    &&& r.command_id == m.command_id
}

/// `after` is `before` with `msgs` appended to the stream at time `time`.
pub open spec fn appended(
    before: Seq<EventRecord>,
    after: Seq<EventRecord>,
    category: Seq<char>,
    id: Seq<char>,
    msgs: Seq<NewMessage>,
    time: i64,
) -> bool {
    let n = before.len();
    let s = stream_length(before, category, id);
    &&& after.len() == n + msgs.len()
    &&& after.take(n as int) == before
    &&& forall|k: int|
        0 <= k < msgs.len() ==> is_record_of(
            #[trigger] after[n + k],
            category,
            id,
            s + k,
            msgs[k],
            time,
        )
}

impl EventRecord {
    /// A copy of this record.
    pub fn copied(&self) -> (r: Self)
        ensures
            r == *self,
    {
        EventRecord {
            created_at: self.created_at,
            aggregate_type: self.aggregate_type.clone(),
            aggregate_id: self.aggregate_id.clone(),
            sequence: self.sequence,
            id: self.id,
            msg_type: self.msg_type.clone(),
            event_data: self.event_data.clone(),
            command_id: self.command_id,
        }
    }
}

fn field_matches_exec(f: &Option<String>, s: &String) -> (r: bool)
    ensures
        r == field_matches(
            match f {
                Some(x) => Some(x@),
                None => None,
            },
            s@,
        ),
{
    match f {
        Some(x) => *x == *s,
        None => true,
    }
}

fn query_matches_exec(q: &Query, r: &EventRecord, g: usize) -> (b: bool)
    ensures
        b == query_matches(q@, *r, g as int),
{
    let c = match q.command_id {
        Some(c) => match r.command_id {
            Some(d) => c == d,
            None => false,
        },
        None => true,
    };
    field_matches_exec(&q.category, &r.aggregate_type) && field_matches_exec(
        &q.id,
        &r.aggregate_id,
    ) && r.sequence >= q.from_stream_position && g as u64 >= q.from_global_position && c
}

/// A query for the stream (`category`, `id`) from stream position `from`.
pub fn stream_query_exec(category: &str, id: &str, from: u64) -> (q: Query)
    ensures
        q@ == stream_query(category@, id@, from),
{
    Query {
        category: Some(String::from_str(category)),
        id: Some(String::from_str(id)),
        from_stream_position: from,
        from_global_position: 0,
        command_id: None,
    }
}

/// What a read selects after one more record.
proof fn lemma_select_push(events: Seq<EventRecord>, r: EventRecord, q: QuerySpec)
    ensures
        select(events.push(r), q) == if query_matches(q, r, events.len() as int) {
            select(events, q).push(Message { global_position: events.len() as u64, record: r })
        } else {
            select(events, q)
        },
{
    assert(events.push(r).drop_last() =~= events);
}

/// A read selects no more messages than the log holds.
pub proof fn lemma_select_len(events: Seq<EventRecord>, q: QuerySpec)
    ensures
        select(events, q).len() <= events.len(),
    decreases events.len(),
{
    if events.len() > 0 {
        lemma_select_len(events.drop_last(), q);
    }
}

/// Records added at the end of the log leave what a read selected before as
/// the start of what it selects now.
pub proof fn lemma_select_prefix(before: Seq<EventRecord>, after: Seq<EventRecord>, q: QuerySpec)
    requires
        before.len() <= after.len(),
        after.take(before.len() as int) == before,
    ensures
        select(before, q).len() <= select(after, q).len(),
        select(after, q).take(select(before, q).len() as int) == select(before, q),
    decreases after.len(),
{
    if after.len() > before.len() {
        let d = after.drop_last();
        assert(d.take(before.len() as int) =~= before);
        lemma_select_prefix(before, d, q);
        assert(select(after, q).take(select(before, q).len() as int) =~= select(before, q));
    } else {
        assert(after =~= before);
        assert(select(after, q).take(select(before, q).len() as int) =~= select(before, q));
    }
}

/// Every selected message is stored at its global position, in ascending order.
pub proof fn lemma_select_positions(events: Seq<EventRecord>, q: QuerySpec)
    requires
        events.len() < u64::MAX,
    ensures
        forall|k: int|
            0 <= k < select(events, q).len() ==> {
                let m = #[trigger] select(events, q)[k];
                &&& m.global_position < events.len()
                &&& m.record == events[m.global_position as int]
                &&& query_matches(q, m.record, m.global_position as int)
            },
        forall|a: int, b: int|
            0 <= a < b < select(events, q).len() ==> #[trigger] select(events, q)[a].global_position
                < #[trigger] select(events, q)[b].global_position,
    decreases events.len(),
{
    if events.len() > 0 {
        lemma_select_positions(events.drop_last(), q);
    }
}

/// A record of another stream leaves a stream's length as it was; one of
/// the stream adds one.
proof fn lemma_stream_length_push(events: Seq<EventRecord>, r: EventRecord, category: Seq<char>, id: Seq<char>)
    ensures
        stream_length(events.push(r), category, id) == stream_length(events, category, id) + if r.aggregate_type@
            == category && r.aggregate_id@ == id {
            1int
        } else {
            0int
        },
{
    lemma_select_push(events, r, stream_query(category, id, 0));
}

/// Appending a record at its stream's next position with a fresh id keeps
/// the log well formed.
proof fn lemma_push_well_formed(events: Seq<EventRecord>, r: EventRecord)
    requires
        well_formed(events),
        events.len() + 1 < u64::MAX,
        r.sequence == stream_length(events, r.aggregate_type@, r.aggregate_id@),
        r.id is Some ==> !holds_id(events, r.id->0),
    ensures
        well_formed(events.push(r)),
{
    let grown = events.push(r);
    assert forall|i: int| 0 <= i < grown.len() implies #[trigger] grown[i].sequence == stream_length(
        grown.take(i),
        grown[i].aggregate_type@,
        grown[i].aggregate_id@,
    ) by {
        if i < events.len() {
            assert(grown.take(i) =~= events.take(i));
        } else {
            assert(grown.take(i) =~= events);
        }
    }
    assert forall|i: int, j: int|
        0 <= i < j < grown.len() && grown[i].id is Some implies #[trigger] grown[i].id
        != #[trigger] grown[j].id by {
        if j == events.len() {
            if grown[i].id == grown[j].id {
                assert(events[i].id == Some(r.id->0));
            }
        }
    }
}

/// Records that `q` selects, added at the end of the log, add their messages
/// at the end of what `q` selects.
pub proof fn lemma_select_tail(before: Seq<EventRecord>, after: Seq<EventRecord>, q: QuerySpec)
    requires
        before.len() <= after.len() < u64::MAX,
        after.take(before.len() as int) == before,
        forall|g: int| before.len() <= g < after.len() ==> query_matches(q, #[trigger] after[g], g),
    ensures
        select(after, q) == select(before, q) + Seq::new(
            (after.len() - before.len()) as nat,
            |k: int| Message { global_position: (before.len() + k) as u64, record: after[before.len() + k] },
        ),
    decreases after.len(),
{
    let n = before.len() as int;
    if after.len() > n {
        let d = after.drop_last();
        assert(d.take(n) =~= before);
        lemma_select_tail(before, d, q);
        assert(select(after, q) =~= select(before, q) + Seq::new(
            (after.len() - n) as nat,
            |k: int| Message { global_position: (n + k) as u64, record: after[n + k] },
        ));
    } else {
        assert(after =~= before);
        assert(select(after, q) =~= select(before, q) + Seq::new(
            0 as nat,
            |k: int| Message { global_position: (n + k) as u64, record: after[n + k] },
        ));
    }
}

proof fn lemma_well_formed_drop_last(events: Seq<EventRecord>)
    requires
        well_formed(events),
        events.len() > 0,
    ensures
        well_formed(events.drop_last()),
        events.take(events.len() - 1) == events.drop_last(),
{
    let d = events.drop_last();
    assert forall|i: int| 0 <= i < d.len() implies #[trigger] d[i].sequence == stream_length(
        d.take(i),
        d[i].aggregate_type@,
        d[i].aggregate_id@,
    ) by {
        assert(d.take(i) =~= events.take(i));
    }
    assert(events.take(events.len() - 1) =~= d);
}

/// Reading a stream from position `from` gives its messages from `from` on.
pub proof fn lemma_stream_from(events: Seq<EventRecord>, category: Seq<char>, id: Seq<char>, from: u64)
    requires
        well_formed(events),
    ensures
        select(events, stream_query(category, id, from)) == if from <= stream_length(events, category, id) {
            stream_of(events, category, id).skip(from as int)
        } else {
            Seq::<Message>::empty()
        },
    decreases events.len(),
{
    if events.len() > 0 {
        let d = events.drop_last();
        lemma_well_formed_drop_last(events);
        lemma_stream_from(d, category, id, from);
        let s = stream_of(d, category, id);
        let sf = select(events, stream_query(category, id, from));
        if from <= stream_length(events, category, id) {
            assert(sf =~= stream_of(events, category, id).skip(from as int));
        } else {
            assert(sf =~= Seq::<Message>::empty());
        }
    }
}

/// Within a stream, positions run 0, 1, 2, ... in the order of the log.
pub proof fn lemma_stream_positions(events: Seq<EventRecord>, category: Seq<char>, id: Seq<char>)
    requires
        well_formed(events),
    ensures
        forall|k: int|
            0 <= k < stream_length(events, category, id) ==> (#[trigger] stream_of(
                events,
                category,
                id,
            )[k]).record.sequence == k,
    decreases events.len(),
{
    if events.len() > 0 {
        let d = events.drop_last();
        lemma_well_formed_drop_last(events);
        lemma_stream_positions(d, category, id);
    }
}

/// Messages of two successive appends get distinct global positions, those
/// of the later append all higher than those of the earlier one: the first
/// batch takes positions `s0.len()` up to `s1.len()`, the second `s1.len()` up
/// to `s2.len()`, and the first stays where it was.
pub proof fn lemma_successive_appends(
    s0: Seq<EventRecord>,
    s1: Seq<EventRecord>,
    s2: Seq<EventRecord>,
    a: (Seq<char>, Seq<char>, Seq<NewMessage>, i64),
    b: (Seq<char>, Seq<char>, Seq<NewMessage>, i64),
)
    requires
        appended(s0, s1, a.0, a.1, a.2, a.3),
        appended(s1, s2, b.0, b.1, b.2, b.3),
    ensures
        s1.len() == s0.len() + a.2.len(),
        s2.len() == s1.len() + b.2.len(),
        s2.take(s1.len() as int) == s1,
        s2.take(s0.len() as int) == s0,
{
    assert(s2.take(s0.len() as int) =~= s1.take(s1.len() as int).take(s0.len() as int));
    assert(s1.take(s1.len() as int) =~= s1);
}

/// The query for `aggregate_type`, narrowed to one instance where `id` is given.
pub open spec fn aggregate_query(aggregate_type: Seq<char>, id: Option<Seq<char>>) -> QuerySpec {
    QuerySpec {
        category: Some(aggregate_type),
        id: id,
        from_stream_position: 0,
        from_global_position: 0,
        command_id: None,
    }
}

/// In-memory message store.
#[derive(Debug, Default)]
pub struct InMemoryEventStore {
    events: Vec<EventRecord>,
}

impl View for InMemoryEventStore {
    type V = Seq<EventRecord>;

    closed spec fn view(&self) -> Seq<EventRecord> {
        self.events@
    }
}

impl InMemoryEventStore {
    pub open spec fn wf(&self) -> bool {
        well_formed(self@)
    }

    /// An empty store.
    pub fn new() -> (r: Self)
        ensures
            r@ == Seq::<EventRecord>::empty(),
            r.wf(),
    {
        InMemoryEventStore { events: Vec::new() }
    }

    /// The messages that `q` selects, in ascending global position.
    pub fn query(&self, q: &Query) -> (r: Vec<Message>)
        requires
            self.wf(),
        ensures
            r@ == select(self@, q@),
    {
        let mut r: Vec<Message> = Vec::new();
        let mut i: usize = 0;
        while i < self.events.len()
            invariant
                self.wf(),
                i <= self@.len(),
                r@ == select(self@.take(i as int), q@),
            decreases self@.len() - i,
        {
            proof {
                assert(self@.take(i + 1) =~= self@.take(i as int).push(self@[i as int]));
                lemma_select_push(self@.take(i as int), self@[i as int], q@);
            }
            let e = &self.events[i];
            if query_matches_exec(q, e, i) {
                r.push(Message { global_position: i as u64, record: e.copied() });
            }
            i = i + 1;
        }
        assert(self@.take(i as int) =~= self@);
        r
    }

    /// How many messages `q` selects.
    pub fn count(&self, q: &Query) -> (r: u64)
        requires
            self.wf(),
        ensures
            r == select(self@, q@).len(),
    {
        let mut r: u64 = 0;
        let mut i: usize = 0;
        while i < self.events.len()
            invariant
                self.wf(),
                i <= self@.len(),
                r == select(self@.take(i as int), q@).len(),
                r <= i,
            decreases self@.len() - i,
        {
            proof {
                assert(self@.take(i + 1) =~= self@.take(i as int).push(self@[i as int]));
                lemma_select_push(self@.take(i as int), self@[i as int], q@);
            }
            if query_matches_exec(q, &self.events[i], i) {
                r = r + 1;
            }
            i = i + 1;
        }
        assert(self@.take(i as int) =~= self@);
        r
    }

    /// The messages of a stream from stream position `from`, ascending.
    pub fn iter_stream(&self, category: &str, id: &str, from: u64) -> (r: Vec<Message>)
        requires
            self.wf(),
        ensures
            r@ == select(self@, stream_query(category@, id@, from)),
    {
        self.query(&stream_query_exec(category, id, from))
    }

    /// All messages from global position `from`, ascending.
    pub fn iter_global(&self, from: u64) -> (r: Vec<Message>)
        requires
            self.wf(),
        ensures
            r@ == select(self@, global_query(from)),
    {
        self.query(
            &Query {
                category: None,
                id: None,
                from_stream_position: 0,
                from_global_position: from,
                command_id: None,
            },
        )
    }

    /// The number of messages in a stream: the position its next message gets.
    pub fn stream_length(&self, category: &str, id: &str) -> (r: u64)
        requires
            self.wf(),
        ensures
            r == stream_length(self@, category@, id@),
    {
        self.count(&stream_query_exec(category, id, 0))
    }

    /// The highest position in a stream, or `None` while it is empty.
    pub fn stream_version(&self, category: &str, id: &str) -> (r: Option<u64>)
        requires
            self.wf(),
        ensures
            r == version_of(self@, category@, id@),
    {
        let n = self.stream_length(category, id);
        if n == 0 {
            None
        } else {
            Some(n - 1)
        }
    }

    /// The global position of the last message, or `None` while the store is empty.
    pub fn latest_global_position(&self) -> (r: Option<u64>)
        requires
            self.wf(),
        ensures
            r == if self@.len() == 0 {
                None::<u64>
            } else {
                Some((self@.len() - 1) as u64)
            },
    {
        if self.events.len() == 0 {
            None
        } else {
            Some((self.events.len() - 1) as u64)
        }
    }

    /// The messages of every instance of `aggregate_type`, or of the one
    /// instance `id`, in ascending global position.
    pub fn load_events(&self, aggregate_type: &str, id: Option<&str>) -> (r: Vec<Message>)
        requires
            self.wf(),
        ensures
            r@ == select(
                self@,
                aggregate_query(
                    aggregate_type@,
                    match id {
                        Some(i) => Some(i@),
                        None => None,
                    },
                ),
            ),
    {
        let q = Query {
            category: Some(String::from_str(aggregate_type)),
            id: match id {
                Some(i) => Some(String::from_str(i)),
                None => None,
            },
            from_stream_position: 0,
            from_global_position: 0,
            command_id: None,
        };
        self.query(&q)
    }

    /// The highest position in the stream of instance `id` of `aggregate_type`.
    pub fn load_aggregate_sequence(&self, aggregate_type: &str, id: &str) -> (r: Option<u64>)
        requires
            self.wf(),
        ensures
            r == version_of(self@, aggregate_type@, id@),
    {
        self.stream_version(aggregate_type, id)
    }

    /// Appends `events` to the stream of instance `id` of `aggregate_type`,
    /// stamped with `time`, as `append` does, and returns their global
    /// positions.
    pub fn save_events(
        &mut self,
        aggregate_type: &str,
        id: &str,
        expected: ExpectedVersion,
        events: &Vec<NewMessage>,
        time: i64,
    ) -> (r: Result<Vec<u64>, AppendError>)
        requires
            old(self).wf(),
        ensures
            final(self).wf(),
            match r {
                Ok(ps) => {
                    &&& version_matches(expected, stream_length(old(self)@, aggregate_type@, id@))
                    &&& ids_fresh(old(self)@, events@)
                    &&& appended(old(self)@, final(self)@, aggregate_type@, id@, events@, time)
                    &&& ps@.len() == events@.len()
                    &&& forall|k: int| 0 <= k < ps@.len() ==> ps@[k] == old(self)@.len() + k
                },
                Err(AppendError::WrongExpectedVersion { actual, supplied }) => {
                    &&& !version_matches(expected, stream_length(old(self)@, aggregate_type@, id@))
                    &&& expected == ExpectedVersion::Exact(supplied)
                    &&& actual == stream_length(old(self)@, aggregate_type@, id@)
                    &&& final(self)@ == old(self)@
                },
                Err(AppendError::DuplicateMessageId) => {
                    &&& version_matches(expected, stream_length(old(self)@, aggregate_type@, id@))
                    &&& !ids_fresh(old(self)@, events@)
                    &&& final(self)@ == old(self)@
                },
                Err(AppendError::StoreFull) => {
                    &&& version_matches(expected, stream_length(old(self)@, aggregate_type@, id@))
                    &&& ids_fresh(old(self)@, events@)
                    &&& old(self)@.len() + events@.len() >= u64::MAX
                    &&& final(self)@ == old(self)@
                },
            },
    {
        match self.append(aggregate_type, id, expected, events, time) {
            Ok(a) => {
                let mut ps: Vec<u64> = Vec::new();
                let mut k: usize = 0;
                while k < events.len()
                    invariant
                        k <= events@.len(),
                        a.first_global_position + events@.len() < u64::MAX,
                        ps@.len() == k,
                        forall|j: int| 0 <= j < k ==> ps@[j] == a.first_global_position + j,
                    decreases events@.len() - k,
                {
                    ps.push(a.first_global_position + k as u64);
                    k = k + 1;
                }
                Ok(ps)
            },
            Err(e) => Err(e),
        }
    }

    fn holds_id(&self, id: MessageId) -> (r: bool)
        ensures
            r == holds_id(self@, id),
    {
        let mut i: usize = 0;
        while i < self.events.len()
            invariant
                i <= self@.len(),
                forall|j: int| 0 <= j < i ==> self@[j].id != Some(id),
            decreases self@.len() - i,
        {
            match self.events[i].id {
                Some(x) => {
                    if x == id {
                        return true;
                    }
                },
                None => {},
            }
            i = i + 1;
        }
        false
    }

    fn ids_fresh(&self, msgs: &Vec<NewMessage>) -> (r: bool)
        ensures
            r == ids_fresh(self@, msgs@),
    {
        let mut k: usize = 0;
        while k < msgs.len()
            invariant
                k <= msgs@.len(),
                forall|a: int|
                    0 <= a < k && #[trigger] msgs@[a].id is Some ==> !holds_id(
                        self@,
                        msgs@[a].id->0,
                    ),
                forall|a: int, b: int|
                    0 <= a < b < msgs@.len() && a < k && msgs@[a].id is Some ==> #[trigger] msgs@[a].id
                        != #[trigger] msgs@[b].id,
            decreases msgs@.len() - k,
        {
            match msgs[k].id {
                Some(x) => {
                    if self.holds_id(x) {
                        return false;
                    }
                    let mut l: usize = k + 1;
                    while l < msgs.len()
                        invariant
                            k < l <= msgs@.len(),
                            msgs@[k as int].id == Some(x),
                            forall|b: int| k < b < l ==> msgs@[b].id != Some(x),
                        decreases msgs@.len() - l,
                    {
                        match msgs[l].id {
                            Some(y) => {
                                if x == y {
                                    return false;
                                }
                            },
                            None => {},
                        }
                        l = l + 1;
                    }
                },
                None => {},
            }
            k = k + 1;
        }
        true
    }

    /// Appends `messages` to the stream (`category`, `id`) at time `time`,
    /// all of them or none: first the version check, then the check for
    /// duplicate ids, then the check for room.
    pub fn append(
        &mut self,
        category: &str,
        id: &str,
        expected: ExpectedVersion,
        messages: &Vec<NewMessage>,
        time: i64,
    ) -> (r: Result<AppendResult, AppendError>)
        requires
            old(self).wf(),
        ensures
            final(self).wf(),
            match r {
                Ok(a) => {
                    &&& version_matches(expected, stream_length(old(self)@, category@, id@))
                    &&& ids_fresh(old(self)@, messages@)
                    &&& a.first_global_position == old(self)@.len()
                    &&& a.first_stream_position == stream_length(old(self)@, category@, id@)
                    &&& old(self)@.len() + messages@.len() < u64::MAX
                    &&& appended(old(self)@, final(self)@, category@, id@, messages@, time)
                },
                Err(AppendError::WrongExpectedVersion { actual, supplied }) => {
                    &&& !version_matches(expected, stream_length(old(self)@, category@, id@))
                    &&& expected == ExpectedVersion::Exact(supplied)
                    &&& actual == stream_length(old(self)@, category@, id@)
                    &&& final(self)@ == old(self)@
                },
                Err(AppendError::DuplicateMessageId) => {
                    &&& version_matches(expected, stream_length(old(self)@, category@, id@))
                    &&& !ids_fresh(old(self)@, messages@)
                    &&& final(self)@ == old(self)@
                },
                Err(AppendError::StoreFull) => {
                    &&& version_matches(expected, stream_length(old(self)@, category@, id@))
                    &&& ids_fresh(old(self)@, messages@)
                    &&& old(self)@.len() + messages@.len() >= u64::MAX
                    &&& final(self)@ == old(self)@
                },
            },
    {
        let s = self.stream_length(category, id);
        match expected {
            ExpectedVersion::Exact(n) => {
                if n != s {
                    return Err(AppendError::WrongExpectedVersion { actual: s, supplied: n });
                }
            },
            ExpectedVersion::Any => {},
        }
        if !self.ids_fresh(messages) {
            return Err(AppendError::DuplicateMessageId);
        }
        if messages.len() as u64 >= u64::MAX - self.events.len() as u64 {
            return Err(AppendError::StoreFull);
        }
        let ghost before = self@;
        proof {
            lemma_select_len(self@, stream_query(category@, id@, 0));
        }
        let n0 = self.events.len();
        let mut k: usize = 0;
        while k < messages.len()
            invariant
                well_formed(self@),
                well_formed(before),
                ids_fresh(before, messages@),
                n0 == before.len(),
                before.len() + messages@.len() < u64::MAX,
                s == stream_length(before, category@, id@),
                s <= n0,
                k <= messages@.len(),
                self@.len() == n0 + k,
                self@.take(n0 as int) == before,
                stream_length(self@, category@, id@) == s + k,
                forall|j: int|
                    0 <= j < k ==> is_record_of(
                        #[trigger] self@[n0 + j],
                        category@,
                        id@,
                        s + j,
                        messages@[j],
                        time,
                    ),
            decreases messages@.len() - k,
        {
            let m = &messages[k];
            let r = EventRecord {
                created_at: time,
                aggregate_type: String::from_str(category),
                aggregate_id: String::from_str(id),
                sequence: s + k as u64,
                id: m.id,
                msg_type: m.msg_type.clone(),
                event_data: m.data.clone(),
                command_id: m.command_id,
            };
            proof {
                if r.id is Some {
                    if holds_id(self@, r.id->0) {
                        let i = choose|i: int| 0 <= i < self@.len() && #[trigger] self@[i].id == Some(r.id->0);
                        if i < n0 {
                            assert(before[i] == self@[i]);
                        } else {
                            let j = i - n0;
                            assert(is_record_of(self@[n0 + j], category@, id@, s + j, messages@[j], time));
                            assert(messages@[j].id != messages@[k as int].id);
                        }
                    }
                }
                lemma_push_well_formed(self@, r);
                lemma_stream_length_push(self@, r, category@, id@);
            }
            self.events.push(r);
            proof {
                assert(self@.take(n0 as int) =~= before);
            }
            k = k + 1;
        }
        Ok(AppendResult { first_global_position: n0 as u64, first_stream_position: s })
    }
}

} // verus!
