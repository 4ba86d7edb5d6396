use zydecodb_engine::errors::Status;
use zydecodb_engine::frame::{
    Command, KeyPayload, PutPayload, RequestEnvelope, ResponseEnvelope, ENVELOPE_HEADER_LEN,
    PROTO_VERSION,
};

#[test]
fn command_round_trips() {
    for b in [
        0x01, 0x02, 0x03, 0x10, 0x11, 0x12, 0x20, 0x21, 0x22, 0x23, 0x24, 0x25, 0x26, 0x30,
        0x31, 0x40, 0x41, 0xF0, 0xF1,
    ] {
        let c = Command::from_u8(b).unwrap();
        assert_eq!(c.as_u8(), b);
    }
    assert!(Command::from_u8(0x99).is_none());
}

#[test]
fn only_expected_commands_are_v1() {
    assert!(Command::Put.is_kv_command());
    assert!(Command::Get.is_kv_command());
    assert!(Command::Del.is_kv_command());
    assert!(Command::Ping.is_kv_command());
    assert!(Command::Stats.is_kv_command());
    assert!(Command::SessionInit.is_kv_command());
    assert!(Command::SetContext.is_kv_command());
    assert!(Command::AdminDropTenant.is_kv_command());
    assert!(!Command::Begin.is_kv_command());
    assert!(!Command::Query.is_kv_command());
    assert!(Command::Query.is_document_command());
    assert!(Command::Find.is_document_command());
}

#[test]
fn request_envelope_round_trips() {
    let req = RequestEnvelope::new(Command::Put, vec![1, 2, 3, 4]);
    let bytes = req.encode();
    assert_eq!(bytes.len(), ENVELOPE_HEADER_LEN + 4);
    let back = RequestEnvelope::decode(&bytes).unwrap();
    assert_eq!(req, back);
}

#[test]
fn response_envelope_round_trips() {
    let envelope = ResponseEnvelope::ok(b"world".to_vec());
    let bytes = envelope.encode();
    let (status, len) = ResponseEnvelope::parse_header(&bytes).unwrap();
    assert_eq!(status, Status::Okay);
    assert_eq!(len, 5);
    assert_eq!(&bytes[ENVELOPE_HEADER_LEN..], b"world");
}

#[test]
fn bad_version_rejected() {
    let mut bytes = RequestEnvelope::new(Command::Get, vec![]).encode();
    bytes[0] = 0x02;
    assert!(RequestEnvelope::decode(&bytes).is_err());
}

#[test]
fn unknown_command_rejected() {
    let bytes = vec![PROTO_VERSION, 0x99, 0, 0, 0, 0];
    assert!(RequestEnvelope::decode(&bytes).is_err());
}

#[test]
fn truncated_payload_rejected() {
    let mut bytes = RequestEnvelope::new(Command::Put, vec![1, 2, 3, 4]).encode();
    bytes.truncate(ENVELOPE_HEADER_LEN + 2);
    assert!(RequestEnvelope::decode(&bytes).is_err());
}

#[test]
fn put_payload_round_trips() {
    let p = PutPayload {
        routing_key: [0u8; 16],
        txid: 0,
        expires_at: 12345,
        key: b"\x01mykey".to_vec(),
        value: b"myvalue".to_vec(),
    };
    let bytes = p.encode();
    let back = PutPayload::decode(&bytes).unwrap();
    assert_eq!(p, back);
}

#[test]
fn key_payload_round_trips() {
    let p = KeyPayload {
        routing_key: [7u8; 16],
        snapshot_seq: 0,
        key: b"\x01abc".to_vec(),
    };
    let bytes = p.encode();
    let back = KeyPayload::decode(&bytes).unwrap();
    assert_eq!(p, back);
}

#[test]
fn put_payload_length_mismatch_rejected() {
    let p = PutPayload {
        routing_key: [0u8; 16],
        txid: 0,
        expires_at: 0,
        key: b"k".to_vec(),
        value: b"v".to_vec(),
    };
    let mut bytes = p.encode();
    bytes.push(0xFF); // extra trailing byte
    assert!(PutPayload::decode(&bytes).is_err());
}
