use event_forwarder::clients_processing::{init_event_source, SourceError};
use event_forwarder::number::parse_u32;

#[test]
fn parses_plain_and_signed_decimals() {
    assert_eq!(parse_u32("0"), Some(0));
    assert_eq!(parse_u32("42"), Some(42));
    assert_eq!(parse_u32("+42"), Some(42));
    assert_eq!(parse_u32("007"), Some(7));
    assert_eq!(parse_u32("4294967295"), Some(u32::MAX));
}

#[test]
fn refuses_what_std_refuses() {
    for bad in ["", "+", "-1", "++1", " 1", "1 ", "1a", "4294967296", "99999999999", "1.0", "٣"] {
        assert_eq!(parse_u32(bad), None, "{:?}", bad);
        assert!(bad.parse::<u32>().is_err(), "{:?}", bad);
    }
}

#[test]
fn agrees_with_std_parsing() {
    for good in ["1", "+0", "12345", "4294967294", "+4294967295", "000000000001"] {
        assert_eq!(parse_u32(good), good.parse::<u32>().ok());
    }
}

#[test]
fn init_event_source_reads_user_count() {
    assert_eq!(init_event_source(Some("2")), Ok(2));
    assert_eq!(init_event_source(Some("two")), Err(SourceError::InvalidUserCount));
    assert_eq!(init_event_source(None), Err(SourceError::NoUserCount));
}
