//! The error taxonomy. Status bytes are frozen: new codes are appended and
//! existing codes keep their numbers.

use vstd::prelude::*;
use crate::text::text_of;

verus! {

/// The status byte that every response envelope carries.
#[derive(Debug, Clone, Copy, PartialEq, Eq, Structural)]
pub enum Status {
    Okay,
    NotFound,
    Error,
    Conflict,
    IoError,
    InvalidKey,
    InvalidValue,
    EngineBusy,
    ProtocolError,
    /// A write was rejected by the installed write policy.
    PolicyRejected,
    /// An artifact on disk is intact but in a format this build cannot read.
    UnsupportedFormat,
    /// A missing or invalid API key, or a command before session set-up.
    Unauthorized,
    /// Authenticated, but the operation is not permitted.
    Forbidden,
}

impl Status {
    /// The wire byte of a status.
    pub open spec fn code(self) -> u8 {
        match self {
            Status::Okay => 0x00,
            Status::NotFound => 0x01,
            Status::Error => 0x02,
            Status::Conflict => 0x03,
            Status::IoError => 0x04,
            Status::InvalidKey => 0x05,
            Status::InvalidValue => 0x06,
            Status::EngineBusy => 0x07,
            Status::ProtocolError => 0x08,
            Status::PolicyRejected => 0x09,
            Status::UnsupportedFormat => 0x0A,
            Status::Unauthorized => 0x0B,
            Status::Forbidden => 0x0C,
        }
    }

    pub fn as_u8(self) -> (b: u8)
        ensures
            b == self.code(),
    {
        match self {
            Status::Okay => 0x00,
            Status::NotFound => 0x01,
            Status::Error => 0x02,
            Status::Conflict => 0x03,
            Status::IoError => 0x04,
            Status::InvalidKey => 0x05,
            Status::InvalidValue => 0x06,
            Status::EngineBusy => 0x07,
            Status::ProtocolError => 0x08,
            Status::PolicyRejected => 0x09,
            Status::UnsupportedFormat => 0x0A,
            Status::Unauthorized => 0x0B,
            Status::Forbidden => 0x0C,
        }
    }

    /// The status with wire byte `b`, if there is one.
    pub fn from_u8(b: u8) -> (r: Option<Status>)
        ensures
            match r {
                Some(s) => s.code() == b,
                None => forall|s: Status| s.code() != b,
            },
            r is None <==> b > 0x0C,
    {
        match b {
            0x00 => Some(Status::Okay),
            0x01 => Some(Status::NotFound),
            0x02 => Some(Status::Error),
            0x03 => Some(Status::Conflict),
            0x04 => Some(Status::IoError),
            0x05 => Some(Status::InvalidKey),
            0x06 => Some(Status::InvalidValue),
            0x07 => Some(Status::EngineBusy),
            0x08 => Some(Status::ProtocolError),
            0x09 => Some(Status::PolicyRejected),
            0x0A => Some(Status::UnsupportedFormat),
            0x0B => Some(Status::Unauthorized),
            0x0C => Some(Status::Forbidden),
            _ => None,
        }
    }
}

/// Distinct statuses have distinct wire bytes, so a byte that was written from
/// a status reads back as that status.
pub proof fn status_codes_are_distinct(a: Status, b: Status)
    ensures
        a.code() == b.code() ==> a == b,
{
}

/// What can go wrong in the engine.
#[derive(Debug)]
pub enum EngineError {
    NotFound,
    InvalidKey(String),
    InvalidValue(String),
    EngineBusy(String),
    Protocol(String),
    Conflict,
    Io(String),
    PolicyRejected(String),
    /// A well-formed artifact of an incompatible version: opening fails loudly
    /// and never truncates or misparses.
    UnsupportedFormat(String),
    Unauthorized(String),
    Forbidden(String),
    /// The data directory is held by another live engine.
    Locked(String),
    Other(String),
}

pub type EngineResult<T> = Result<T, EngineError>;

impl EngineError {
    /// The wire status of an error.
    pub open spec fn wire_status(self) -> Status {
        match self {
            EngineError::NotFound => Status::NotFound,
            EngineError::InvalidKey(_) => Status::InvalidKey,
            EngineError::InvalidValue(_) => Status::InvalidValue,
            EngineError::EngineBusy(_) => Status::EngineBusy,
            EngineError::Protocol(_) => Status::ProtocolError,
            EngineError::Conflict => Status::Conflict,
            EngineError::Io(_) => Status::IoError,
            EngineError::PolicyRejected(_) => Status::PolicyRejected,
            EngineError::UnsupportedFormat(_) => Status::UnsupportedFormat,
            EngineError::Unauthorized(_) => Status::Unauthorized,
            EngineError::Forbidden(_) => Status::Forbidden,
            EngineError::Locked(_) => Status::IoError,
            EngineError::Other(_) => Status::Error,
        }
    }

    /// The sentence that describes an error to a person.
    pub open spec fn sentence(self) -> Seq<char> {
        match self {
            EngineError::NotFound => "not found"@,
            EngineError::InvalidKey(m) => "invalid key: "@ + m@,
            EngineError::InvalidValue(m) => "invalid value: "@ + m@,
            EngineError::EngineBusy(m) => "engine busy: "@ + m@,
            EngineError::Protocol(m) => "protocol error: "@ + m@,
            EngineError::Conflict => "conflict"@,
            EngineError::Io(m) => "io error: "@ + m@,
            EngineError::PolicyRejected(m) => "policy rejected: "@ + m@,
            EngineError::UnsupportedFormat(m) => "unsupported on-disk format: "@ + m@,
            EngineError::Unauthorized(m) => "unauthorized: "@ + m@,
            EngineError::Forbidden(m) => "forbidden: "@ + m@,
            EngineError::Locked(m) => "data_dir locked: "@ + m@,
            EngineError::Other(m) => m@,
        }
    }

    /// Maps an error onto its frozen wire status.
    pub fn status(&self) -> (s: Status)
        ensures
            s == self.wire_status(),
    {
        match self {
            EngineError::NotFound => Status::NotFound,
            EngineError::InvalidKey(_) => Status::InvalidKey,
            EngineError::InvalidValue(_) => Status::InvalidValue,
            EngineError::EngineBusy(_) => Status::EngineBusy,
            EngineError::Protocol(_) => Status::ProtocolError,
            EngineError::Conflict => Status::Conflict,
            EngineError::Io(_) => Status::IoError,
            EngineError::PolicyRejected(_) => Status::PolicyRejected,
            EngineError::UnsupportedFormat(_) => Status::UnsupportedFormat,
            EngineError::Unauthorized(_) => Status::Unauthorized,
            EngineError::Forbidden(_) => Status::Forbidden,
            EngineError::Locked(_) => Status::IoError,
            EngineError::Other(_) => Status::Error,
        }
    }

    /// The error as a sentence.
    pub fn describe(&self) -> (s: String)
        ensures
            s@ == self.sentence(),
    {
        match self {
            EngineError::NotFound => text_of("not found"),
            EngineError::InvalidKey(m) => text_of("invalid key: ").concat(m.as_str()),
            EngineError::InvalidValue(m) => text_of("invalid value: ").concat(m.as_str()),
            EngineError::EngineBusy(m) => text_of("engine busy: ").concat(m.as_str()),
            EngineError::Protocol(m) => text_of("protocol error: ").concat(m.as_str()),
            EngineError::Conflict => text_of("conflict"),
            EngineError::Io(m) => text_of("io error: ").concat(m.as_str()),
            EngineError::PolicyRejected(m) => text_of("policy rejected: ").concat(m.as_str()),
            EngineError::UnsupportedFormat(m) => text_of("unsupported on-disk format: ").concat(
                m.as_str(),
            ),
            EngineError::Unauthorized(m) => text_of("unauthorized: ").concat(m.as_str()),
            EngineError::Forbidden(m) => text_of("forbidden: ").concat(m.as_str()),
            EngineError::Locked(m) => text_of("data_dir locked: ").concat(m.as_str()),
            EngineError::Other(m) => text_of(m.as_str()),
        }
    }
}

} // verus!
