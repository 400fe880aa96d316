use threshold_envelope::decimal::{format_decimal, parse_decimal};
use threshold_envelope::envelope::{parse, serialize, FormatError};
use threshold_envelope::stanza::Stanza;

fn stanza(tag: &str, args: &[&str], body: &[u8]) -> Stanza {
    Stanza {
        tag: tag.to_string(),
        args: args.iter().map(|a| a.to_string()).collect(),
        body: body.to_vec(),
    }
}

fn same(a: &Stanza, b: &Stanza) -> bool {
    a.tag == b.tag && a.args == b.args && a.body == b.body
}

fn sample() -> Vec<Stanza> {
    vec![
        stanza("X25519", &["c29tZSBwdWJsaWMga2V5"], &[1, 2, 3, 4, 5]),
        stanza("X25519", &["b3RoZXI"], &[0u8; 80]),
        stanza("scrypt", &["c2FsdA", "18"], &[]),
    ]
}

#[test]
fn decimal_format_values() {
    assert_eq!(format_decimal(0), "0");
    assert_eq!(format_decimal(7), "7");
    assert_eq!(format_decimal(1234), "1234");
    assert_eq!(format_decimal(usize::MAX), usize::MAX.to_string());
}

#[test]
fn decimal_parse_values() {
    assert_eq!(parse_decimal("42"), Some(42));
    assert_eq!(parse_decimal("+7"), Some(7));
    assert_eq!(parse_decimal("007"), Some(7));
    assert_eq!(parse_decimal(""), None);
    assert_eq!(parse_decimal("+"), None);
    assert_eq!(parse_decimal("-1"), None);
    assert_eq!(parse_decimal("4a"), None);
    assert_eq!(parse_decimal(&usize::MAX.to_string()), Some(usize::MAX));
    assert_eq!(parse_decimal("99999999999999999999999"), None);
}

#[test]
fn serialize_exact_bytes_with_no_shares() {
    assert_eq!(serialize(2, &vec![]), b"-> threshold 2\n\n---".to_vec());
}

#[test]
fn serialize_exact_bytes_with_one_share() {
    let s = vec![stanza("X25519", &["abc"], &[0, 0, 0])];
    assert_eq!(serialize(1, &s), b"-> threshold 1\n\n-> X25519 abc\nAAAA\n---".to_vec());
}

#[test]
fn round_trip_keeps_threshold_and_stanzas() {
    let stanzas = sample();
    let bytes = serialize(2, &stanzas);
    let (p, used) = parse(&bytes).unwrap();
    assert_eq!(used, bytes.len());
    assert_eq!(p.threshold, 2);
    assert_eq!(p.stanzas.len(), stanzas.len());
    for (a, b) in p.stanzas.iter().zip(stanzas.iter()) {
        assert!(same(a, b));
    }
}

#[test]
fn round_trip_with_empty_list() {
    let bytes = serialize(5, &vec![]);
    let (p, used) = parse(&bytes).unwrap();
    assert_eq!(used, bytes.len());
    assert_eq!(p.threshold, 5);
    assert!(p.stanzas.is_empty());
}

#[test]
fn parse_leaves_bytes_after_terminator() {
    let mut bytes = serialize(1, &sample());
    let n = bytes.len();
    bytes.extend_from_slice(b"payload");
    let (p, used) = parse(&bytes).unwrap();
    assert_eq!(used, n);
    assert_eq!(p.stanzas.len(), 3);
}

#[test]
fn every_proper_prefix_is_unexpected_eof() {
    let bytes = serialize(2, &sample());
    for cut in 0..bytes.len() {
        match parse(&bytes[..cut]) {
            Err(e) => assert_eq!(e, FormatError::UnexpectedEof, "cut at {}", cut),
            Ok(_) => panic!("prefix of length {} was accepted", cut),
        }
    }
}

#[test]
fn first_stanza_with_other_tag_is_refused() {
    assert_eq!(parse(b"-> X25519 abc\n\n---").err(), Some(FormatError::UnexpectedTag));
    let bytes = serialize(2, &sample());
    let (_, first) = bytes.split_at(b"-> threshold 2\n\n".len());
    assert_eq!(parse(first).err(), Some(FormatError::UnexpectedTag));
}

#[test]
fn threshold_argument_must_be_a_number() {
    assert_eq!(parse(b"-> threshold\n\n---").err(), Some(FormatError::InvalidThreshold));
    assert_eq!(parse(b"-> threshold two\n\n---").err(), Some(FormatError::InvalidThreshold));
    assert_eq!(
        parse(b"-> threshold 99999999999999999999999\n\n---").err(),
        Some(FormatError::InvalidThreshold)
    );
}

#[test]
fn garbage_where_a_stanza_belongs_is_malformed() {
    assert_eq!(parse(b"hello").err(), Some(FormatError::Malformed));
    assert_eq!(parse(b"-> threshold 2\n\nxyz").err(), Some(FormatError::Malformed));
    assert_eq!(parse(b"-> threshold 2\n\n--x").err(), Some(FormatError::Malformed));
}
