use turbowire::gates::{
    admit_connection, broadcast_key_matches, parse_connection_limit, parse_usize, AdmissionError,
    WsConnectionParams, DEFAULT_CONNECTION_LIMIT,
};
use turbowire::offline_queue::{queue_key, QUEUE_TTL_SECONDS};
use turbowire::signature::sign_room;

fn params(room: &str, signature: &str) -> WsConnectionParams {
    WsConnectionParams { room: room.to_string(), signature: signature.to_string() }
}

#[test]
fn admission_with_valid_signature() {
    let sig = sign_room("k", "r1");
    assert_eq!(admit_connection(Some("k"), &params("r1", &sig), 0, 1000), Ok(()));
}

#[test]
fn admission_with_bad_signature() {
    assert_eq!(
        admit_connection(Some("k"), &params("r1", "zzz"), 0, 1000),
        Err(AdmissionError::InvalidSignature)
    );
    let sig = sign_room("k", "r1");
    assert_eq!(
        admit_connection(None, &params("r1", &sig), 0, 1000),
        Err(AdmissionError::InvalidSignature)
    );
}

#[test]
fn capacity_gate() {
    let sig = sign_room("k", "r1");
    assert_eq!(admit_connection(Some("k"), &params("r1", &sig), 1, 2), Ok(()));
    assert_eq!(
        admit_connection(Some("k"), &params("r1", &sig), 2, 2),
        Err(AdmissionError::ConnectionLimitReached)
    );
    assert_eq!(
        admit_connection(Some("k"), &params("r1", &sig), 3, 2),
        Err(AdmissionError::ConnectionLimitReached)
    );
}

#[test]
fn signature_is_checked_before_capacity() {
    assert_eq!(
        admit_connection(Some("k"), &params("r1", "zzz"), 5, 2),
        Err(AdmissionError::InvalidSignature)
    );
}

#[test]
fn broadcast_key_check() {
    assert!(broadcast_key_matches(Some("bk"), "bk"));
    assert!(!broadcast_key_matches(Some("nope"), "bk"));
    assert!(!broadcast_key_matches(Some(""), "bk"));
    assert!(!broadcast_key_matches(None, "bk"));
}

#[test]
fn connection_limit_parsing() {
    assert_eq!(DEFAULT_CONNECTION_LIMIT, 1000);
    assert_eq!(parse_connection_limit(None), 1000);
    assert_eq!(parse_connection_limit(Some("2")), 2);
    assert_eq!(parse_connection_limit(Some("0")), 0);
    assert_eq!(parse_connection_limit(Some("+5")), 5);
    assert_eq!(parse_connection_limit(Some("007")), 7);
    assert_eq!(parse_connection_limit(Some("")), 1000);
    assert_eq!(parse_connection_limit(Some("+")), 1000);
    assert_eq!(parse_connection_limit(Some("-3")), 1000);
    assert_eq!(parse_connection_limit(Some("12a")), 1000);
    assert_eq!(parse_connection_limit(Some(" 12")), 1000);
    assert_eq!(parse_connection_limit(Some("99999999999999999999999999")), 1000);
}

#[test]
fn parse_usize_agrees_with_std() {
    for s in ["0", "1", "+1", "42", "", "+", "-1", "1.5", "18446744073709551615", "18446744073709551616", "٣"] {
        assert_eq!(parse_usize(s), s.parse::<usize>().ok(), "input {:?}", s);
    }
}

#[test]
fn queue_key_layout() {
    assert_eq!(queue_key("r3"), "messages:r3");
    assert_eq!(queue_key(""), "messages:");
    assert_eq!(QUEUE_TTL_SECONDS, 24 * 60 * 60);
}
