use parity_scale_codec::Encode;
use statement_gossip::codec::{decode_statements, encode_statements};
use statement_gossip::protocol::protocol_name;
use statement_gossip::reputation::{
    ANY_STATEMENT, ANY_STATEMENT_REFUND, BAD_STATEMENT, DUPLICATE_STATEMENT, EXCELLENT_STATEMENT,
    GOOD_STATEMENT,
};
use statement_gossip::types::{NetworkPriority, Report, SubmitResult};
use statement_gossip::reputation::statement_import_report;

#[test]
fn encode_then_decode_is_identity() {
    let ss: Vec<Vec<u8>> = vec![vec![], vec![1], vec![2, 3, 4], vec![0; 300]];
    let encoded = encode_statements(&ss);
    let decoded = decode_statements(&encoded).unwrap();
    assert_eq!(decoded, ss);
}

#[test]
fn empty_sequence_round_trips() {
    let ss: Vec<Vec<u8>> = vec![];
    let encoded = encode_statements(&ss);
    assert_eq!(encoded, vec![0u8]);
    assert_eq!(decode_statements(&encoded).unwrap(), ss);
}

#[test]
fn trailing_bytes_are_ignored() {
    let ss: Vec<Vec<u8>> = vec![vec![5, 6]];
    let mut encoded = encode_statements(&ss);
    encoded.push(0xff);
    encoded.push(0xee);
    assert_eq!(decode_statements(&encoded).unwrap(), ss);
}

#[test]
fn truncated_payload_fails_to_decode() {
    let ss: Vec<Vec<u8>> = vec![vec![1, 2, 3]];
    let mut encoded = encode_statements(&ss);
    encoded.pop();
    assert!(decode_statements(&encoded).is_none());
}

#[test]
fn empty_payload_fails_to_decode() {
    let empty: Vec<u8> = vec![];
    assert!(decode_statements(&empty).is_none());
}

#[test]
fn wire_format_matches_scale_encoding() {
    let cases: Vec<Vec<Vec<u8>>> = vec![
        vec![],
        vec![vec![]],
        vec![vec![1, 2, 3]],
        vec![vec![9; 70], vec![8; 5]],
        vec![vec![0]; 80],
        vec![vec![7; 20000]],
    ];
    for ss in cases {
        assert_eq!(encode_statements(&ss), ss.encode());
    }
}

#[test]
fn scale_encoded_payloads_decode() {
    let ss: Vec<Vec<u8>> = vec![vec![1], vec![2, 2], vec![3; 100]];
    let encoded = ss.encode();
    assert_eq!(decode_statements(&encoded).unwrap(), ss);
}

#[test]
fn protocol_name_without_fork() {
    let genesis: Vec<u8> = vec![0xab, 0xcd];
    let name = protocol_name(&genesis, None);
    assert_eq!(name, b"/abcd/statement/1".to_vec());
}

#[test]
fn protocol_name_with_fork() {
    let genesis: Vec<u8> = vec![0x01, 0x9f];
    let fork: Vec<u8> = b"fk7".to_vec();
    let name = protocol_name(&genesis, Some(&fork));
    assert_eq!(name, b"/019f/fk7/statement/1".to_vec());
}

#[test]
fn reputation_constants_hold_their_documented_values() {
    assert_eq!(ANY_STATEMENT, -16);
    assert_eq!(ANY_STATEMENT_REFUND, 16);
    assert_eq!(GOOD_STATEMENT, 128);
    assert_eq!(EXCELLENT_STATEMENT, 256);
    assert_eq!(DUPLICATE_STATEMENT, -128);
    assert_eq!(BAD_STATEMENT, -4096);
}

#[test]
fn settlements_per_submit_result() {
    assert_eq!(
        statement_import_report(1, SubmitResult::New(NetworkPriority::High)),
        Some(Report { peer: 1, change: 256 })
    );
    assert_eq!(
        statement_import_report(1, SubmitResult::New(NetworkPriority::Low)),
        Some(Report { peer: 1, change: 128 })
    );
    assert_eq!(
        statement_import_report(1, SubmitResult::Known),
        Some(Report { peer: 1, change: 16 })
    );
    assert_eq!(statement_import_report(1, SubmitResult::KnownExpired), None);
    assert_eq!(statement_import_report(1, SubmitResult::Ignored), None);
    assert_eq!(
        statement_import_report(1, SubmitResult::Bad),
        Some(Report { peer: 1, change: -4096 })
    );
    assert_eq!(statement_import_report(1, SubmitResult::InternalError), None);
}
