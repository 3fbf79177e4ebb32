//! Errors of archive conversion and the status `reason` codes they map to.
use vstd::prelude::*;

use crate::text::{chars_of, push_all, string_of};

verus! {

/// Machine-greppable `reason` codes emitted in status log lines.
#[derive(Debug, Clone, Copy, PartialEq, Eq, Structural)]
pub enum Reason {
    PasswordRequired,
    PasswordInvalid,
    OpenFailed,
    ConvertError,
    AnimatedNotSupported,
    UnsupportedFileType,
    UnsafePath,
    LimitExceeded,
    OutputExists,
}

pub open spec fn reason_code(r: Reason) -> Seq<char> {
    match r {
        Reason::PasswordRequired => "password_required"@,
        Reason::PasswordInvalid => "password_invalid"@,
        Reason::OpenFailed => "open_failed"@,
        Reason::ConvertError => "convert_error"@,
        Reason::AnimatedNotSupported => "animated_not_supported"@,
        Reason::UnsupportedFileType => "unsupported_file_type"@,
        Reason::UnsafePath => "unsafe_path"@,
        Reason::LimitExceeded => "limit_exceeded"@,
        Reason::OutputExists => "output_exists"@,
    }
}

impl Reason {
    pub fn as_str(&self) -> (r: &'static str)
        ensures
            r@ == reason_code(*self),
    {
        match self {
            Reason::PasswordRequired => "password_required",
            Reason::PasswordInvalid => "password_invalid",
            Reason::OpenFailed => "open_failed",
            Reason::ConvertError => "convert_error",
            Reason::AnimatedNotSupported => "animated_not_supported",
            Reason::UnsupportedFileType => "unsupported_file_type",
            Reason::UnsafePath => "unsafe_path",
            Reason::LimitExceeded => "limit_exceeded",
            Reason::OutputExists => "output_exists",
        }
    }
}

/// Errors raised while converting or inspecting an archive or media item.
/// An I/O failure carries the text of the underlying error.
#[derive(Debug, Clone, PartialEq, Eq)]
pub enum ConvertError {
    PasswordRequired,
    PasswordInvalid(String),
    Open(String),
    UnsupportedFileType(String),
    UnsafePath(String),
    LimitExceeded(String),
    AnimatedNotSupported(String),
    OutputExists,
    Convert(String),
    Io(String),
}

/// Reason code of each error.
pub open spec fn reason_of(e: ConvertError) -> Reason {
    match e {
        ConvertError::PasswordRequired => Reason::PasswordRequired,
        ConvertError::PasswordInvalid(_) => Reason::PasswordInvalid,
        ConvertError::Open(_) => Reason::OpenFailed,
        ConvertError::UnsupportedFileType(_) => Reason::UnsupportedFileType,
        ConvertError::UnsafePath(_) => Reason::UnsafePath,
        ConvertError::LimitExceeded(_) => Reason::LimitExceeded,
        ConvertError::AnimatedNotSupported(_) => Reason::AnimatedNotSupported,
        ConvertError::OutputExists => Reason::OutputExists,
        ConvertError::Convert(_) | ConvertError::Io(_) => Reason::ConvertError,
    }
}

/// The message of each error.
pub open spec fn message_of(e: ConvertError) -> Seq<char> {
    match e {
        ConvertError::PasswordRequired => "password required"@,
        ConvertError::PasswordInvalid(m) => "password invalid: "@ + m@,
        ConvertError::Open(m) => "could not open archive: "@ + m@,
        ConvertError::UnsupportedFileType(m) => "unsupported entry type: "@ + m@,
        ConvertError::UnsafePath(m) => "unsafe path in archive: "@ + m@,
        ConvertError::LimitExceeded(m) => "archive limits exceeded: "@ + m@,
        ConvertError::AnimatedNotSupported(m) => "animated image not supported: "@ + m@,
        ConvertError::OutputExists => "output already exists"@,
        ConvertError::Convert(m) => "conversion failed: "@ + m@,
        ConvertError::Io(m) => "io error: "@ + m@,
    }
}

fn prefixed_message(prefix: &str, m: &String) -> (r: String)
    ensures
        r@ == prefix@ + m@,
{
    let mut v = chars_of(prefix);
    push_all(&mut v, &chars_of(m.as_str()));
    string_of(&v)
}

impl ConvertError {
    pub fn reason(&self) -> (r: Reason)
        ensures
            r == reason_of(*self),
    {
        match self {
            ConvertError::PasswordRequired => Reason::PasswordRequired,
            ConvertError::PasswordInvalid(_) => Reason::PasswordInvalid,
            ConvertError::Open(_) => Reason::OpenFailed,
            ConvertError::UnsupportedFileType(_) => Reason::UnsupportedFileType,
            ConvertError::UnsafePath(_) => Reason::UnsafePath,
            ConvertError::LimitExceeded(_) => Reason::LimitExceeded,
            ConvertError::AnimatedNotSupported(_) => Reason::AnimatedNotSupported,
            ConvertError::OutputExists => Reason::OutputExists,
            ConvertError::Convert(_) | ConvertError::Io(_) => Reason::ConvertError,
        }
    }

    /// Human-readable text of the error.
    pub fn message(&self) -> (r: String)
        ensures
            r@ == message_of(*self),
    {
        match self {
            ConvertError::PasswordRequired => "password required".to_owned(),
            ConvertError::PasswordInvalid(m) => prefixed_message("password invalid: ", m),
            ConvertError::Open(m) => prefixed_message("could not open archive: ", m),
            ConvertError::UnsupportedFileType(m) => prefixed_message("unsupported entry type: ", m),
            ConvertError::UnsafePath(m) => prefixed_message("unsafe path in archive: ", m),
            ConvertError::LimitExceeded(m) => prefixed_message("archive limits exceeded: ", m),
            ConvertError::AnimatedNotSupported(m) => prefixed_message("animated image not supported: ", m),
            ConvertError::OutputExists => "output already exists".to_owned(),
            ConvertError::Convert(m) => prefixed_message("conversion failed: ", m),
            ConvertError::Io(m) => prefixed_message("io error: ", m),
        }
    }
}

} // verus!
