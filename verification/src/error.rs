//! The errors of the store.

use vstd::prelude::*;
use vstd::string::{StringExecFns, to_string_from_display_ensures};
use crate::binarylog::BinaryLogError;

verus! {

#[verifier::external_type_specification]
#[verifier::external_body]
pub struct ExIoError(std::io::Error);

#[verifier::external_type_specification]
#[verifier::external_body]
pub struct ExParseIntError(std::num::ParseIntError);

#[verifier::external_type_specification]
#[verifier::external_body]
pub struct ExUtf8Error(std::str::Utf8Error);

/// Why an operation of the store failed.
#[derive(Debug)]
pub enum DBError {
    LogCountNotEnough,
    InvalidSliceLength(std::array::TryFromSliceError),
    KeyNotFound,
    CorruptedValue,
    FailedParseFileId,
    FailedByteKeyConvert,
    KeyAlreadyExists,
    ValueTooLarge,
    IoError(std::io::Error),
}

impl DBError {
    /// The error's message.
    pub fn to_string(&self) -> (s: String)
        ensures
            match self {
                DBError::LogCountNotEnough => s@ == "Log file count not enough for compaction"@,
                DBError::InvalidSliceLength(err) => exists|t: String|
                    to_string_from_display_ensures(err, t) && s@
                        == "Invalid slice length to convert: "@ + t@,
                DBError::KeyNotFound => s@ == "Key not found"@,
                DBError::CorruptedValue => s@ == "Corrupted value"@,
                DBError::FailedParseFileId => s@ == "Failed parsing file into id"@,
                DBError::FailedByteKeyConvert => s@ == "Failed converting key bytes into String"@,
                DBError::KeyAlreadyExists => s@ == "Key already exists"@,
                DBError::ValueTooLarge => s@ == "First value exceeds the byte limit"@,
                DBError::IoError(err) => exists|t: String|
                    to_string_from_display_ensures(err, t) && s@ == "IO Error: "@ + t@,
            },
    {
        match self {
            DBError::LogCountNotEnough => String::from_str(
                "Log file count not enough for compaction",
            ),
            DBError::InvalidSliceLength(err) => {
                let t = err.to_string();
                String::from_str("Invalid slice length to convert: ").concat(t.as_str())
            },
            DBError::KeyNotFound => String::from_str("Key not found"),
            DBError::CorruptedValue => String::from_str("Corrupted value"),
            DBError::FailedParseFileId => String::from_str("Failed parsing file into id"),
            DBError::FailedByteKeyConvert => String::from_str(
                "Failed converting key bytes into String",
            ),
            DBError::KeyAlreadyExists => String::from_str("Key already exists"),
            DBError::ValueTooLarge => String::from_str("First value exceeds the byte limit"),
            DBError::IoError(err) => {
                let t = err.to_string();
                String::from_str("IO Error: ").concat(t.as_str())
            },
        }
    }
}

impl From<std::io::Error> for DBError {
    fn from(value: std::io::Error) -> (r: DBError) {
        DBError::IoError(value)
    }
}

impl vstd::std_specs::convert::FromSpecImpl<std::io::Error> for DBError {
    open spec fn obeys_from_spec() -> bool {
        true
    }

    open spec fn from_spec(value: std::io::Error) -> DBError {
        DBError::IoError(value)
    }
}

impl From<std::array::TryFromSliceError> for DBError {
    fn from(err: std::array::TryFromSliceError) -> (r: DBError) {
        DBError::InvalidSliceLength(err)
    }
}

impl vstd::std_specs::convert::FromSpecImpl<std::array::TryFromSliceError> for DBError {
    open spec fn obeys_from_spec() -> bool {
        true
    }

    open spec fn from_spec(err: std::array::TryFromSliceError) -> DBError {
        DBError::InvalidSliceLength(err)
    }
}

impl From<BinaryLogError> for DBError {
    fn from(err: BinaryLogError) -> (r: DBError) {
        DBError::CorruptedValue
    }
}

impl vstd::std_specs::convert::FromSpecImpl<BinaryLogError> for DBError {
    open spec fn obeys_from_spec() -> bool {
        true
    }

    open spec fn from_spec(err: BinaryLogError) -> DBError {
        DBError::CorruptedValue
    }
}

impl From<std::num::ParseIntError> for DBError {
    fn from(err: std::num::ParseIntError) -> (r: DBError) {
        DBError::FailedParseFileId
    }
}

impl vstd::std_specs::convert::FromSpecImpl<std::num::ParseIntError> for DBError {
    open spec fn obeys_from_spec() -> bool {
        true
    }

    open spec fn from_spec(err: std::num::ParseIntError) -> DBError {
        DBError::FailedParseFileId
    }
}

impl From<std::str::Utf8Error> for DBError {
    fn from(err: std::str::Utf8Error) -> (r: DBError) {
        DBError::FailedByteKeyConvert
    }
}

impl vstd::std_specs::convert::FromSpecImpl<std::str::Utf8Error> for DBError {
    open spec fn obeys_from_spec() -> bool {
        true
    }

    open spec fn from_spec(err: std::str::Utf8Error) -> DBError {
        DBError::FailedByteKeyConvert
    }
}

/// Calls `std::io::Error::new` with kind `UnexpectedEof` and the message
/// "failed to fill whole buffer": the error that `std::io::Read::read_exact`
/// gives when the input ends before the buffer is full. Nothing is claimed
/// of the value, which is opaque here.
#[verifier::external_body]
pub(crate) fn unexpected_eof_error() -> (e: std::io::Error) {
    std::io::Error::new(std::io::ErrorKind::UnexpectedEof, "failed to fill whole buffer")
}

} // verus!
