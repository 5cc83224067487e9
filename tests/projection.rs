use thalo::projection::Subscription;
use thalo::store::{ExpectedVersion, InMemoryEventStore, NewMessage};

fn msg(t: &str) -> NewMessage {
    NewMessage { id: None, msg_type: t.to_string(), data: "{}".to_string(), command_id: None }
}

#[test]
fn subscription_delivers_category_in_global_order() {
    let mut s = InMemoryEventStore::new();
    s.append("counter", "a", ExpectedVersion::Any, &vec![msg("A")], 0).unwrap();
    s.append("account", "1", ExpectedVersion::Any, &vec![msg("B")], 0).unwrap();
    s.append("counter", "b", ExpectedVersion::Any, &vec![msg("C"), msg("D")], 0).unwrap();
    let sub = Subscription::subscribe(Some("counter".to_string()), 0);
    let p = sub.pending(&s);
    assert_eq!(p.iter().map(|m| m.global_position).collect::<Vec<_>>(), vec![0, 2, 3]);
    let all = Subscription::subscribe(None, 1).pending(&s);
    assert_eq!(all.iter().map(|m| m.record.msg_type.as_str()).collect::<Vec<_>>(), vec!["B", "C", "D"]);
}

#[test]
fn ack_advances_cursor_and_skips_redelivered() {
    let mut s = InMemoryEventStore::new();
    s.append("counter", "a", ExpectedVersion::Any, &vec![msg("A"), msg("B"), msg("C")], 0).unwrap();
    let mut sub = Subscription::subscribe(None, 0);
    assert!(sub.ack(0));
    assert!(sub.ack(1));
    assert_eq!(sub.cursor, 2);
    assert!(!sub.is_new(1));
    assert!(sub.is_new(2));
    assert!(!sub.ack(0));
    assert_eq!(sub.cursor, 2);
    assert_eq!(sub.pending(&s).len(), 1);
    assert!(!sub.ack(u64::MAX));
}
