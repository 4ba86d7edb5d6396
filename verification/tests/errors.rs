use zydecodb_engine::errors::{EngineError, Status};

#[test]
fn status_round_trips() {
    for b in 0x00u8..=0x0C {
        let s = Status::from_u8(b).expect("known code");
        assert_eq!(s.as_u8(), b);
    }
    assert!(Status::from_u8(0x0D).is_none());
    assert!(Status::from_u8(0xFF).is_none());
}

#[test]
fn error_maps_to_frozen_status() {
    assert_eq!(EngineError::NotFound.status(), Status::NotFound);
    assert_eq!(
        EngineError::InvalidKey("x".into()).status(),
        Status::InvalidKey
    );
    assert_eq!(
        EngineError::InvalidValue("x".into()).status(),
        Status::InvalidValue
    );
    assert_eq!(
        EngineError::EngineBusy("x".into()).status(),
        Status::EngineBusy
    );
    assert_eq!(
        EngineError::Protocol("x".into()).status(),
        Status::ProtocolError
    );
    assert_eq!(EngineError::Conflict.status(), Status::Conflict);
    assert_eq!(EngineError::Io("x".into()).status(), Status::IoError);
    assert_eq!(
        EngineError::PolicyRejected("x".into()).status(),
        Status::PolicyRejected
    );
    assert_eq!(
        EngineError::UnsupportedFormat("x".into()).status(),
        Status::UnsupportedFormat
    );
    assert_eq!(
        EngineError::Unauthorized("x".into()).status(),
        Status::Unauthorized
    );
    assert_eq!(
        EngineError::Forbidden("x".into()).status(),
        Status::Forbidden
    );
    assert_eq!(EngineError::Other("x".into()).status(), Status::Error);
}
