use sensor_link::ingest::{ingest, ingest_payload, InboundEvent, Intake};

#[test]
fn text_payload_is_forwarded() {
    let event = InboundEvent::Received(b"measure:1,2".to_vec());
    assert_eq!(ingest(&event), Intake::Forward("measure:1,2".to_string()));
}

#[test]
fn payload_outside_ascii_is_decoded() {
    assert_eq!(ingest_payload(&[0x68, 0xc3, 0xa9]), Intake::Forward("h\u{e9}".to_string()));
}

#[test]
fn payload_that_is_not_utf8_is_dropped() {
    assert_eq!(ingest(&InboundEvent::Received(vec![0x6d, 0xff, 0x65])), Intake::Undecodable);
    assert_eq!(ingest_payload(&[0xc3]), Intake::Undecodable);
    assert_eq!(ingest_payload(&[0xed, 0xa0, 0x80]), Intake::Undecodable);
    assert_eq!(ingest_payload(&[0xc0, 0xaf]), Intake::Undecodable);
}

#[test]
fn empty_payload_is_skipped() {
    assert_eq!(ingest(&InboundEvent::Received(Vec::new())), Intake::Skipped);
    assert_eq!(ingest_payload(&[]), Intake::Skipped);
}

#[test]
fn acknowledgements_are_noted() {
    assert_eq!(ingest(&InboundEvent::Connected), Intake::Noted);
    assert_eq!(ingest(&InboundEvent::Subscribed(7)), Intake::Noted);
    assert_eq!(ingest(&InboundEvent::Published(8)), Intake::Noted);
}

#[test]
fn other_events_are_unexpected() {
    assert_eq!(ingest(&InboundEvent::Other), Intake::Unexpected);
}
