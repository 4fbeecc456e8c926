use tailgate::gate::GateError;
use tailgate::gate::GateOutcome;
use tailgate::gate::IntegrityGate;
use tailgate::gate::checksum_matches;
use tailgate::gate::parse_u32_dec;
use tailgate::gate::verify_checksum;
use tailgate::tail::LineRecord;

fn crc_text(payload: &[u8]) -> Vec<u8> {
    format!("{}", crc::crc32::checksum_ieee(payload)).into_bytes()
}

fn record(bytes: &[u8]) -> LineRecord {
    LineRecord { bytes: bytes.to_vec() }
}

#[test]
fn parse_exact_values() {
    assert_eq!(parse_u32_dec(&b"0".to_vec()), Some(0));
    assert_eq!(parse_u32_dec(&b"1234".to_vec()), Some(1234));
    assert_eq!(parse_u32_dec(&b"007".to_vec()), Some(7));
    assert_eq!(parse_u32_dec(&b"4294967295".to_vec()), Some(u32::MAX));
}

#[test]
fn parse_rejects_malformed_and_overflow() {
    assert_eq!(parse_u32_dec(&b"".to_vec()), None);
    assert_eq!(parse_u32_dec(&b"12a4".to_vec()), None);
    assert_eq!(parse_u32_dec(&b"+1".to_vec()), None);
    assert_eq!(parse_u32_dec(&b"-1".to_vec()), None);
    assert_eq!(parse_u32_dec(&b"4294967296".to_vec()), None);
    assert_eq!(parse_u32_dec(&b"99999999999".to_vec()), None);
}

#[test]
fn checksum_matches_compares_parsed_value() {
    assert!(checksum_matches(&b"1234".to_vec(), 1234));
    assert!(!checksum_matches(&b"1234".to_vec(), 1235));
    assert!(!checksum_matches(&b"12x4".to_vec(), 1234));
}

#[test]
fn known_crc_vector_passes_the_gate() {
    // The standard CRC-32 (IEEE) check value: "123456789" hashes to
    // 0xCBF43926, that is 3421780262 in decimal.
    let r = verify_checksum(&b"3421780262".to_vec(), b"123456789".to_vec());
    assert_eq!(r, Ok(b"123456789".to_vec()));
}

#[test]
fn verify_checksum_accepts_matching_pair() {
    let payload = b"hello".to_vec();
    let r = verify_checksum(&crc_text(b"hello"), payload.clone());
    assert_eq!(r, Ok(payload));
}

#[test]
fn verify_checksum_rejects_mismatch() {
    let r = verify_checksum(&b"9999".to_vec(), b"hello".to_vec());
    assert_eq!(r, Err(GateError::ChecksumMismatch));
}

#[test]
fn verify_checksum_rejects_malformed_text() {
    let r = verify_checksum(&b"12x".to_vec(), b"hello".to_vec());
    assert_eq!(r, Err(GateError::MalformedChecksum));
    let r = verify_checksum(&b"".to_vec(), b"hello".to_vec());
    assert_eq!(r, Err(GateError::MalformedChecksum));
}

#[test]
fn gate_alternates_checksum_then_payload() {
    let mut gate = IntegrityGate::new();
    assert_eq!(gate.feed(record(&crc_text(b"hello"))), GateOutcome::Stored);
    assert_eq!(gate.feed(record(b"hello")), GateOutcome::Forward(b"hello".to_vec()));
    assert_eq!(gate.feed(record(b"9999")), GateOutcome::Stored);
    assert_eq!(
        gate.feed(record(b"world")),
        GateOutcome::Reject(GateError::ChecksumMismatch)
    );
    // a refused pair does not desynchronize the pairs after it
    assert_eq!(gate.feed(record(&crc_text(b"again"))), GateOutcome::Stored);
    assert_eq!(gate.feed(record(b"again")), GateOutcome::Forward(b"again".to_vec()));
}

#[test]
fn process_batch_keeps_only_verified_payloads_in_order() {
    let mut gate = IntegrityGate::new();
    let records = vec![
        record(&crc_text(b"first")),
        record(b"first"),
        record(b"12345"),
        record(b"second"),
        record(&crc_text(b"third")),
        record(b"third"),
    ];
    let passed = gate.process_batch(records);
    assert_eq!(passed, vec![b"first".to_vec(), b"third".to_vec()]);
}

#[test]
fn process_batch_holds_odd_checksum_for_next_batch() {
    let mut gate = IntegrityGate::new();
    let first = gate.process_batch(vec![record(&crc_text(b"split"))]);
    assert_eq!(first.len(), 0);
    let second = gate.process_batch(vec![record(b"split")]);
    assert_eq!(second, vec![b"split".to_vec()]);
}
