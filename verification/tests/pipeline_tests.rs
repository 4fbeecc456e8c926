//! End-to-end scenarios: file bytes in, forwarded payloads out.

use tailgate::gate::GateError;
use tailgate::gate::GateOutcome;
use tailgate::gate::IntegrityGate;
use tailgate::tail::TailCursor;
use tailgate::tail::drain;

#[test]
fn matching_pair_is_forwarded() {
    // file contains "<crc>\nhello\n" where <crc> is the decimal CRC-32 of
    // "hello": the forwarder gets exactly the text "hello".
    let crc = crc::crc32::checksum_ieee(b"hello");
    let content = format!("{}\nhello\n", crc).into_bytes();
    let mut cursor = TailCursor::new();
    let records = drain(&mut cursor, &content);
    assert_eq!(records.len(), 2);
    let mut gate = IntegrityGate::new();
    let passed = gate.process_batch(records);
    assert_eq!(passed, vec![b"hello".to_vec()]);
}

#[test]
fn mismatching_pair_is_dropped_and_pipeline_continues() {
    // file contains "9999\nhello\n" with a wrong checksum: nothing is
    // forwarded, a mismatch notice comes back, and a later append is still
    // served.
    let mut content = b"9999\nhello\n".to_vec();
    let mut cursor = TailCursor::new();
    let records = drain(&mut cursor, &content);
    assert_eq!(records.len(), 2);
    let mut gate = IntegrityGate::new();
    let mut outcomes = Vec::new();
    for r in records {
        outcomes.push(gate.feed(r));
    }
    assert_eq!(
        outcomes,
        vec![GateOutcome::Stored, GateOutcome::Reject(GateError::ChecksumMismatch)]
    );

    // a subsequent append with a correct pair still goes through
    let crc = crc::crc32::checksum_ieee(b"next");
    content.extend_from_slice(format!("{}\nnext\n", crc).as_bytes());
    let more = drain(&mut cursor, &content);
    let passed = gate.process_batch(more);
    assert_eq!(passed, vec![b"next".to_vec()]);
}
