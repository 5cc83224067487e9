use thalo::stream_name::{parse, StreamNameError};

#[test]
fn parse_splits_category_and_id() {
    let n = parse("counter-a").unwrap();
    assert_eq!(n.category, "counter");
    assert_eq!(n.id, "a");
}

#[test]
fn parse_accepts_digits_and_unicode_id() {
    let n = parse("Order42-éclair_1").unwrap();
    assert_eq!(n.category, "Order42");
    assert_eq!(n.id, "éclair_1");
}

#[test]
fn parse_rejects_missing_separator() {
    assert_eq!(parse("counter").unwrap_err(), StreamNameError::InvalidStreamName);
}

#[test]
fn parse_rejects_empty_parts() {
    assert!(parse("-a").is_err());
    assert!(parse("counter-").is_err());
    assert!(parse("").is_err());
    assert!(parse("-").is_err());
}

#[test]
fn parse_rejects_bad_category_and_second_separator() {
    assert!(parse("coun_ter-a").is_err());
    assert!(parse("counter-a-b").is_err());
}

#[test]
fn format_joins_with_separator() {
    assert_eq!(thalo::stream_name::format("counter", "a").unwrap(), "counter-a");
    assert_eq!(thalo::stream_name::format("bad cat", "a").unwrap_err(), StreamNameError::InvalidStreamName);
    assert!(thalo::stream_name::format("counter", "a-b").is_err());
    assert!(thalo::stream_name::format("counter", "").is_err());
}

#[test]
fn parse_of_format_round_trips() {
    for (c, i) in [("counter", "a"), ("Acc0unt", "1"), ("x", "some id with spaces")] {
        let s = thalo::stream_name::format(c, i).unwrap();
        let n = parse(&s).unwrap();
        assert_eq!((n.category.as_str(), n.id.as_str()), (c, i));
        assert_eq!(thalo::stream_name::format(&n.category, &n.id).unwrap(), s);
    }
}
