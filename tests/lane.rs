use thalo::command_center::{CommandCenter, DEFAULT_MAX_ATTEMPTS};
use thalo::lane::{stamp, Aggregate, ExecuteError, Lane, PendingEvent};
use thalo::schema::{Arg, CommandVariant};
use thalo::store::{ExpectedVersion, InMemoryEventStore, Message, MessageId, NewMessage};

fn number(json: &str, field: &str) -> Option<i64> {
    let v: serde_json::Value = serde_json::from_str(json).ok()?;
    v[field].as_i64()
}

#[derive(Debug, Clone, PartialEq)]
struct Counter {
    count: i64,
}

impl Aggregate for Counter {
    fn initial() -> Self {
        Counter { count: 0 }
    }

    fn new() -> Self {
        Counter { count: 0 }
    }

    fn next(self, event: Message) -> Self {
        let mut s = self;
        s.apply(&event);
        s
    }

    fn decide(&self, command: &str, payload: &str) -> Result<Vec<PendingEvent>, String> {
        self.execute(command, payload)
    }

    fn decodes(msg_type: String, data: String) -> bool {
        Self::decode(&msg_type, &data)
    }

    fn decode(msg_type: &String, data: &String) -> bool {
        msg_type == "Incremented" && number(data, "by").is_some()
    }

    fn apply(&mut self, event: &Message) {
        self.count += number(&event.record.event_data, "by").unwrap_or(0);
    }

    fn execute(&self, command: &str, payload: &str) -> Result<Vec<PendingEvent>, String> {
        match command {
            "Increment" => {
                let by = number(payload, "by").ok_or("\"InvalidPayload\"")?;
                Ok(vec![PendingEvent { msg_type: "Incremented".to_string(), data: format!("{{\"by\":{}}}", by) }])
            }
            "IncrementTwice" => Ok(vec![
                PendingEvent { msg_type: "Incremented".to_string(), data: "{\"by\":1}".to_string() },
                PendingEvent { msg_type: "Incremented".to_string(), data: "{\"by\":1}".to_string() },
            ]),
            _ => Err("\"UnknownCommand\"".to_string()),
        }
    }
}

#[derive(Debug, Clone, PartialEq)]
struct Account {
    balance: i64,
}

impl Aggregate for Account {
    fn initial() -> Self {
        Account { balance: 0 }
    }

    fn new() -> Self {
        Account { balance: 0 }
    }

    fn next(self, event: Message) -> Self {
        let mut s = self;
        s.apply(&event);
        s
    }

    fn decide(&self, command: &str, payload: &str) -> Result<Vec<PendingEvent>, String> {
        self.execute(command, payload)
    }

    fn decodes(msg_type: String, data: String) -> bool {
        Self::decode(&msg_type, &data)
    }

    fn decode(msg_type: &String, data: &String) -> bool {
        (msg_type == "Deposited" || msg_type == "Withdrawn") && number(data, "amount").is_some()
    }

    fn apply(&mut self, event: &Message) {
        let amount = number(&event.record.event_data, "amount").unwrap_or(0);
        match event.record.msg_type.as_str() {
            "Deposited" => self.balance += amount,
            "Withdrawn" => self.balance -= amount,
            _ => {}
        }
    }

    fn execute(&self, command: &str, payload: &str) -> Result<Vec<PendingEvent>, String> {
        let amount = number(payload, "amount").ok_or("\"InvalidPayload\"")?;
        match command {
            "Deposit" => Ok(vec![PendingEvent { msg_type: "Deposited".to_string(), data: format!("{{\"amount\":{}}}", amount) }]),
            "Withdraw" if amount > self.balance => Err(format!(
                "{{\"InsufficientFunds\":{{\"balance\":{},\"requested\":{}}}}}",
                self.balance, amount
            )),
            "Withdraw" => Ok(vec![PendingEvent { msg_type: "Withdrawn".to_string(), data: format!("{{\"amount\":{}}}", amount) }]),
            _ => Err("\"UnknownCommand\"".to_string()),
        }
    }
}

fn variant(wire: &str, fields: &[&str]) -> CommandVariant {
    CommandVariant {
        variant: wire.to_string(),
        wire_name: wire.to_string(),
        method: wire.to_lowercase(),
        fields: fields.iter().map(|f| Arg { ident: f.to_string(), ty: "i64".to_string() }).collect(),
        docs: vec![],
        is_vec: false,
    }
}

fn counter_center() -> CommandCenter<Counter> {
    CommandCenter::new("counter", vec![variant("Increment", &["by"]), variant("IncrementTwice", &[])])
}

#[test]
fn happy_path_first_increment() {
    let mut store = InMemoryEventStore::new();
    let mut center = counter_center();
    let msgs = center
        .execute(&mut store, "counter-a", "Increment", "{\"by\":1}", None, DEFAULT_MAX_ATTEMPTS, 7)
        .unwrap();
    assert_eq!(msgs.len(), 1);
    assert_eq!(msgs[0].global_position, 0);
    assert_eq!(msgs[0].record.sequence, 0);
    assert_eq!(msgs[0].record.aggregate_type, "counter");
    assert_eq!(msgs[0].record.aggregate_id, "a");
    assert_eq!(msgs[0].record.msg_type, "Incremented");
    assert_eq!(number(&msgs[0].record.event_data, "by"), Some(1));
    assert_eq!(store.stream_version("counter", "a"), Some(0));
    assert_eq!(center.state("a").unwrap().count, 1);
}

#[test]
fn serial_increments_on_one_stream() {
    let mut store = InMemoryEventStore::new();
    let mut center = counter_center();
    for _ in 0..100 {
        center.execute(&mut store, "counter-a", "Increment", "{\"by\":1}", None, 5, 0).unwrap();
    }
    assert_eq!(center.state("a").unwrap().count, 100);
    let stream = store.iter_stream("counter", "a", 0);
    assert_eq!(stream.iter().map(|m| m.record.sequence).collect::<Vec<_>>(), (0..100).collect::<Vec<u64>>());
    assert_eq!(stream.iter().map(|m| m.global_position).collect::<Vec<_>>(), (0..100).collect::<Vec<u64>>());
}

#[test]
fn increments_across_two_streams() {
    let mut store = InMemoryEventStore::new();
    let mut center = counter_center();
    for _ in 0..50 {
        center.execute(&mut store, "counter-a", "Increment", "{\"by\":1}", None, 5, 0).unwrap();
        center.execute(&mut store, "counter-b", "Increment", "{\"by\":1}", None, 5, 0).unwrap();
    }
    for id in ["a", "b"] {
        let s = store.iter_stream("counter", id, 0);
        assert_eq!(s.iter().map(|m| m.record.sequence).collect::<Vec<_>>(), (0..50).collect::<Vec<u64>>());
        assert_eq!(center.state(id).unwrap().count, 50);
    }
    let all = store.iter_global(0);
    assert_eq!(all.len(), 100);
    assert!(all.windows(2).all(|w| w[0].global_position < w[1].global_position));
}

#[test]
fn domain_rejection_appends_nothing() {
    let mut store = InMemoryEventStore::new();
    let mut center: CommandCenter<Account> = CommandCenter::new("account", vec![variant("Deposit", &["amount"]), variant("Withdraw", &["amount"])]);
    center.execute(&mut store, "account-1", "Deposit", "{\"amount\":10}", None, 5, 0).unwrap();
    let before = store.stream_version("account", "1");
    match center.execute(&mut store, "account-1", "Withdraw", "{\"amount\":20}", None, 5, 0) {
        Err(ExecuteError::Domain(e)) => {
            let v: serde_json::Value = serde_json::from_str(&e).unwrap();
            assert_eq!(v["InsufficientFunds"]["balance"], 10);
            assert_eq!(v["InsufficientFunds"]["requested"], 20);
        }
        other => panic!("expected a domain error, got {:?}", other),
    }
    assert_eq!(store.stream_version("account", "1"), before);
    assert_eq!(center.state("1").unwrap().balance, 10);
}

#[test]
fn idempotent_retry_returns_first_response() {
    let mut store = InMemoryEventStore::new();
    let mut center = counter_center();
    let first = center.execute(&mut store, "counter-a", "IncrementTwice", "{}", Some(42), 5, 1).unwrap();
    assert_eq!(first.len(), 2);
    assert_eq!(first[1].record.id, Some(MessageId { command_id: 42, index: 1 }));
    assert_eq!(first[0].record.command_id, Some(42));
    let second = center.execute(&mut store, "counter-a", "IncrementTwice", "{}", Some(42), 5, 2).unwrap();
    assert_eq!(
        first.iter().map(|m| (m.global_position, m.record.sequence, m.record.created_at)).collect::<Vec<_>>(),
        second.iter().map(|m| (m.global_position, m.record.sequence, m.record.created_at)).collect::<Vec<_>>()
    );
    assert_eq!(store.iter_stream("counter", "a", 0).len(), 2);
    assert_eq!(center.state("a").unwrap().count, 2);
}

#[test]
fn concurrency_refresh_after_outside_append() {
    let mut store = InMemoryEventStore::new();
    let mut center = counter_center();
    center.execute(&mut store, "counter-a", "Increment", "{\"by\":1}", None, 5, 0).unwrap();
    let outside = vec![
        NewMessage { id: None, msg_type: "Incremented".to_string(), data: "{\"by\":5}".to_string(), command_id: None },
        NewMessage { id: None, msg_type: "Incremented".to_string(), data: "{\"by\":5}".to_string(), command_id: None },
    ];
    store.append("counter", "a", ExpectedVersion::Exact(1), &outside, 1).unwrap();
    let msgs = center.execute(&mut store, "counter-a", "Increment", "{\"by\":1}", None, 5, 2).unwrap();
    assert_eq!(msgs.len(), 1);
    assert_eq!(msgs[0].record.sequence, 3);
    assert_eq!(center.state("a").unwrap().count, 12);
}

#[test]
fn lane_state_equals_replay_of_stream() {
    let mut store = InMemoryEventStore::new();
    let mut lane = Lane::rehydrate(&store, "counter", "a", Counter { count: 0 }).unwrap();
    lane.execute(&mut store, "Increment", "{\"by\":3}", None, 5, 0).unwrap();
    lane.execute(&mut store, "Increment", "{\"by\":4}", None, 5, 0).unwrap();
    let replayed = Lane::rehydrate(&store, "counter", "a", Counter { count: 0 }).unwrap();
    assert_eq!(replayed.state, lane.state);
    assert_eq!(lane.state.count, 7);
    assert_eq!(lane.next_position, 2);
}

#[test]
fn stale_lane_with_one_attempt_is_exhausted() {
    let mut store = InMemoryEventStore::new();
    let mut stale = Lane::rehydrate(&store, "counter", "a", Counter { count: 0 }).unwrap();
    store.save_events("counter", "a", ExpectedVersion::Any, &vec![NewMessage { id: None, msg_type: "Incremented".to_string(), data: "{\"by\":1}".to_string(), command_id: None }], 5).unwrap();
    assert!(matches!(
        stale.execute(&mut store, "Increment", "{\"by\":1}", None, 1, 3),
        Err(ExecuteError::ConcurrencyExhausted)
    ));
    assert_eq!(store.iter_global(0).len(), 1);
    assert!(stale.execute(&mut store, "Increment", "{\"by\":1}", None, 2, 3).is_ok());
}

#[test]
fn invalid_stream_and_unknown_command_are_refused() {
    let mut store = InMemoryEventStore::new();
    let mut center = counter_center();
    assert!(matches!(
        center.execute(&mut store, "countera", "Increment", "{}", None, 5, 0),
        Err(ExecuteError::InvalidStreamName)
    ));
    assert!(matches!(
        center.execute(&mut store, "counter-a", "Decrement", "{}", None, 5, 0),
        Err(ExecuteError::UnknownCommand)
    ));
    assert!(matches!(
        center.execute(&mut store, "counter-a", "Increment", "{\"step\":1}", None, 5, 0),
        Err(ExecuteError::InvalidPayload)
    ));
    assert!(matches!(
        center.execute(&mut store, "counter-a", "Increment", "not json", None, 5, 0),
        Err(ExecuteError::InvalidPayload)
    ));
    assert!(matches!(
        center.execute(&mut store, "counter-a", "Increment", "[1]", None, 5, 0),
        Err(ExecuteError::InvalidPayload)
    ));
    assert!(matches!(
        center.execute(&mut store, "account-a", "Increment", "{}", None, 5, 0),
        Err(ExecuteError::UnknownCommand)
    ));
    assert!(store.iter_global(0).is_empty());
}

#[test]
fn evicted_lane_is_rebuilt_from_store() {
    let mut store = InMemoryEventStore::new();
    let mut center = counter_center();
    center.execute(&mut store, "counter-a", "Increment", "{\"by\":2}", None, 5, 0).unwrap();
    center.evict(&store, "a");
    assert!(center.state("a").is_none());
    center.execute(&mut store, "counter-a", "Increment", "{\"by\":2}", None, 5, 0).unwrap();
    assert_eq!(center.state("a").unwrap().count, 4);
}

#[test]
fn stamp_gives_ids_from_command() {
    let evs = vec![
        PendingEvent { msg_type: "A".to_string(), data: "1".to_string() },
        PendingEvent { msg_type: "B".to_string(), data: "2".to_string() },
    ];
    let s = stamp(&evs, Some(9));
    assert_eq!(s[1].id, Some(MessageId { command_id: 9, index: 1 }));
    assert_eq!(s[1].msg_type, "B");
    assert!(stamp(&evs, None).iter().all(|m| m.id.is_none() && m.command_id.is_none()));
}

#[test]
fn no_attempt_allowed_is_exhausted() {
    let mut store = InMemoryEventStore::new();
    let mut center = counter_center();
    assert!(matches!(
        center.execute(&mut store, "counter-a", "Increment", "{\"by\":1}", None, 0, 0),
        Err(ExecuteError::ConcurrencyExhausted)
    ));
    assert!(store.iter_global(0).is_empty());
}

#[test]
fn stale_lane_decides_on_refreshed_state() {
    let mut store = InMemoryEventStore::new();
    let mut stale = Lane::rehydrate(&store, "account", "1", Account { balance: 0 }).unwrap();
    store
        .save_events("account", "1", ExpectedVersion::Exact(0), &vec![NewMessage {
            id: None,
            msg_type: "Deposited".to_string(),
            data: "{\"amount\":10}".to_string(),
            command_id: None,
        }], 0)
        .unwrap();
    let msgs = stale.execute(&mut store, "Withdraw", "{\"amount\":5}", None, 2, 0).unwrap();
    assert_eq!(msgs.len(), 1);
    assert_eq!(msgs[0].record.sequence, 1);
    assert_eq!(stale.state.balance, 5);
}

#[test]
fn evict_keeps_other_lanes() {
    let mut store = InMemoryEventStore::new();
    let mut center = counter_center();
    center.execute(&mut store, "counter-a", "Increment", "{\"by\":1}", None, 5, 0).unwrap();
    center.execute(&mut store, "counter-b", "Increment", "{\"by\":3}", None, 5, 0).unwrap();
    center.evict(&store, "a");
    assert!(center.state("a").is_none());
    assert_eq!(center.state("b").unwrap().count, 3);
    assert_eq!(center.lanes.len(), 1);
}

fn bad_event() -> NewMessage {
    NewMessage { id: None, msg_type: "Renamed".to_string(), data: "{}".to_string(), command_id: None }
}

#[test]
fn undecodable_history_fails_rehydration() {
    let mut store = InMemoryEventStore::new();
    store.append("counter", "a", ExpectedVersion::Exact(0), &vec![bad_event()], 0).unwrap();
    assert!(matches!(
        Lane::rehydrate(&store, "counter", "a", Counter { count: 0 }),
        Err(ExecuteError::Rehydrate)
    ));
    let mut center = counter_center();
    assert!(matches!(
        center.execute(&mut store, "counter-a", "Increment", "{\"by\":1}", None, 5, 0),
        Err(ExecuteError::Rehydrate)
    ));
    assert!(center.state("a").is_none());
    assert_eq!(store.iter_global(0).len(), 1);
}

#[test]
fn undecodable_event_from_elsewhere_stops_the_lane() {
    let mut store = InMemoryEventStore::new();
    let mut lane = Lane::rehydrate(&store, "counter", "a", Counter { count: 0 }).unwrap();
    store.append("counter", "a", ExpectedVersion::Exact(0), &vec![bad_event()], 0).unwrap();
    assert!(matches!(lane.refresh(&store), Err(ExecuteError::Rehydrate)));
    assert_eq!(lane.next_position, 0);
    assert!(matches!(
        lane.execute(&mut store, "Increment", "{\"by\":1}", None, 5, 0),
        Err(ExecuteError::Rehydrate)
    ));
    assert_eq!(store.iter_global(0).len(), 1);
}
