use flatdb::{DBError, ErrorKind};
use serde_json::Value;

fn cause() -> serde_json::Error {
    serde_json::from_str::<Value>("{").unwrap_err()
}

#[test]
fn decode_error_carries_the_cause() {
    let error = DBError::decode(&cause());
    assert_eq!(error.kind(), ErrorKind::Decode);
    assert_eq!(error.to_text(), format!("Serde error: {}", cause()));
}

#[test]
fn encode_error_carries_the_cause() {
    let error = DBError::encode(&cause());
    assert_eq!(error.kind(), ErrorKind::Encode);
    assert_eq!(error.to_text(), format!("Serde error: {}", cause()));
}

#[test]
fn io_error_carries_the_detail() {
    let error = DBError::io("disk full");
    assert_eq!(error.kind(), ErrorKind::Io);
    assert_eq!(error.to_text(), "IO error: disk full");
    assert_eq!(error.message, "IO error: disk full");
}

#[test]
fn new_error_has_the_prefix_of_its_kind() {
    assert_eq!(DBError::new(ErrorKind::Decode, "x").to_text(), "Serde error: x");
    assert_eq!(DBError::new(ErrorKind::Encode, "x").to_text(), "Serde error: x");
    assert_eq!(DBError::new(ErrorKind::Io, "x").to_text(), "IO error: x");
}
