//! The binary log record: its byte layout, how a record is written, and how
//! it is read back and checked.
//!
//! A frame on disk is `len: u32` followed by `len` record bytes. A record is
//! `crc: u32, timestamp: i64, op: u8, key_len: u32, val_len: u32, key, val`,
//! every integer little-endian, and `crc` is the CRC-32 of all record bytes
//! after it (the record's body).

use vstd::prelude::*;
use vstd::slice::{slice_subrange, slice_to_vec};
use vstd::string::{StringExecFns, to_string_from_display_ensures};
use vstd::utf8::{decode_utf8, valid_utf8};
use crate::codec::{
    le_bytes_i64, le_bytes_u32, le_i64, le_u32, lemma_le_i64_roundtrip, lemma_le_u32_roundtrip,
    push_all, push_i64_le, push_u32_le, read_i64_le, read_u32_le,
};
use crate::crc::{crc32, crc32_of};

verus! {

#[verifier::external_type_specification]
#[verifier::external_body]
pub struct ExTryFromSliceError(std::array::TryFromSliceError);

/// What a record does to its key.
#[derive(Debug, Clone, Copy, PartialEq, Eq, Structural)]
pub enum OperationType {
    Put,
    Remove,
}

impl OperationType {
    /// The byte that stands for the operation in a record.
    pub open spec fn spec_code(self) -> u8 {
        match self {
            OperationType::Put => 1,
            OperationType::Remove => 2,
        }
    }

    /// The byte that stands for the operation in a record.
    pub fn code(&self) -> (c: u8)
        ensures
            c == self.spec_code(),
    {
        match self {
            OperationType::Put => 1,
            OperationType::Remove => 2,
        }
    }
}

/// The operation that a record byte stands for, if any.
pub open spec fn op_from_code(b: u8) -> Option<OperationType> {
    if b == 1 {
        Some(OperationType::Put)
    } else if b == 2 {
        Some(OperationType::Remove)
    } else {
        None
    }
}

/// Why a record could not be read back.
#[derive(Debug)]
pub enum BinaryLogError {
    InvalidOperationType,
    InvalidCRC,
    InvalidSliceLength(std::array::TryFromSliceError),
}

impl TryFrom<u8> for OperationType {
    type Error = BinaryLogError;

    fn try_from(value: u8) -> (r: Result<OperationType, BinaryLogError>) {
        if value == 1 {
            Ok(OperationType::Put)
        } else if value == 2 {
            Ok(OperationType::Remove)
        } else {
            Err(BinaryLogError::InvalidOperationType)
        }
    }
}

impl vstd::std_specs::convert::TryFromSpecImpl<u8> for OperationType {
    open spec fn obeys_try_from_spec() -> bool {
        true
    }

    open spec fn try_from_spec(v: u8) -> Result<OperationType, BinaryLogError> {
        match op_from_code(v) {
            Some(op) => Ok(op),
            None => Err(BinaryLogError::InvalidOperationType),
        }
    }
}

impl From<std::array::TryFromSliceError> for BinaryLogError {
    fn from(err: std::array::TryFromSliceError) -> (r: BinaryLogError) {
        BinaryLogError::InvalidSliceLength(err)
    }
}

impl vstd::std_specs::convert::FromSpecImpl<std::array::TryFromSliceError> for BinaryLogError {
    open spec fn obeys_from_spec() -> bool {
        true
    }

    open spec fn from_spec(err: std::array::TryFromSliceError) -> BinaryLogError {
        BinaryLogError::InvalidSliceLength(err)
    }
}

impl BinaryLogError {
    /// The error's message.
    pub fn to_string(&self) -> (s: String)
        ensures
            match self {
                BinaryLogError::InvalidOperationType => s@ == "Invalid operation type"@,
                BinaryLogError::InvalidCRC => s@ == "Invalid CRC"@,
                BinaryLogError::InvalidSliceLength(err) => exists|t: String|
                    to_string_from_display_ensures(err, t) && s@
                        == "Invalid slice length to convert: "@ + t@,
            },
    {
        match self {
            BinaryLogError::InvalidOperationType => String::from_str("Invalid operation type"),
            BinaryLogError::InvalidCRC => String::from_str("Invalid CRC"),
            BinaryLogError::InvalidSliceLength(err) => {
                let t = err.to_string();
                String::from_str("Invalid slice length to convert: ").concat(t.as_str())
            },
        }
    }
}

/// Calls `std::str::from_utf8`, which gives the text that the bytes encode
/// when they are valid UTF-8 and an error otherwise. The contract takes
/// vstd's `valid_utf8` and `decode_utf8` as the meaning of UTF-8, as the
/// function's documentation does; nothing is claimed of the error's content.
#[verifier::external_body]
fn str_from_utf8(bytes: &[u8]) -> (r: Result<&str, std::str::Utf8Error>)
    ensures
        r is Ok <==> valid_utf8(bytes@),
        r matches Ok(t) ==> t@ == decode_utf8(bytes@),
{
    std::str::from_utf8(bytes)
}

/// The content of a record, as values.
pub struct LogEntry {
    pub crc: u32,
    pub timestamp: i64,
    pub op: OperationType,
    pub key: Seq<u8>,
    pub val: Seq<u8>,
}

/// One operation of the log, as it is written and read back.
pub struct BinaryLog {
    crc: u32,
    timestamp: i64,
    operation_type: OperationType,
    key: Vec<u8>,
    val: Vec<u8>,
}

impl View for BinaryLog {
    type V = LogEntry;

    closed spec fn view(&self) -> LogEntry {
        LogEntry {
            crc: self.crc,
            timestamp: self.timestamp,
            op: self.operation_type,
            key: self.key@,
            val: self.val@,
        }
    }
}

/// Byte offset of the key within a record; the fixed-size header ends there.
pub open spec fn header_len() -> nat {
    21
}

/// The record bytes after the CRC.
pub open spec fn body_bytes(timestamp: i64, op: OperationType, key: Seq<u8>, val: Seq<u8>) -> Seq<
    u8,
> {
    le_bytes_i64(timestamp) + seq![op.spec_code()] + le_bytes_u32(key.len() as u32)
        + le_bytes_u32(val.len() as u32) + key + val
}

/// A record: its CRC, then its body.
pub open spec fn record_bytes(crc: u32, body: Seq<u8>) -> Seq<u8> {
    le_bytes_u32(crc) + body
}

/// A frame: the record's length as a `u32`, then the record.
pub open spec fn frame_bytes(record: Seq<u8>) -> Seq<u8> {
    le_bytes_u32(record.len() as u32) + record
}

/// The frame that a record with this content is written as.
pub open spec fn encoded_log(timestamp: i64, op: OperationType, key: Seq<u8>, val: Seq<u8>) -> Seq<
    u8,
> {
    let body = body_bytes(timestamp, op, key, val);
    frame_bytes(record_bytes(crc32(body), body))
}

/// The CRC that a record carries in its first four bytes.
pub open spec fn stored_crc(r: Seq<u8>) -> u32 {
    le_u32(r.subrange(0, 4))
}

/// The CRC of a record's body, as a reader computes it.
pub open spec fn record_crc(r: Seq<u8>) -> u32 {
    crc32(r.subrange(4, r.len() as int))
}

/// The timestamp field of a record.
pub open spec fn timestamp_field(r: Seq<u8>) -> i64 {
    le_i64(r.subrange(4, 12))
}

/// The key length field of a record.
pub open spec fn key_len_field(r: Seq<u8>) -> nat {
    le_u32(r.subrange(13, 17)) as nat
}

/// The value length field of a record.
pub open spec fn val_len_field(r: Seq<u8>) -> nat {
    le_u32(r.subrange(17, 21)) as nat
}

/// The header is complete and the key and value it announces lie within the record.
pub open spec fn fields_fit(r: Seq<u8>) -> bool {
    &&& r.len() >= header_len()
    &&& header_len() + key_len_field(r) + val_len_field(r) <= r.len()
}

/// Reading the record against this computed CRC never runs past its end:
/// the CRC is there, and where it matches, so are all the fields.
pub open spec fn decodable(r: Seq<u8>, computed_crc: u32) -> bool {
    &&& r.len() >= 4
    &&& stored_crc(r) == computed_crc ==> fields_fit(r)
}

/// What reading a record gives when its body's CRC is `computed_crc`.
pub open spec fn decode_spec(r: Seq<u8>, computed_crc: u32) -> Result<LogEntry, BinaryLogError> {
    if stored_crc(r) != computed_crc {
        Err(BinaryLogError::InvalidCRC)
    } else {
        let k = key_len_field(r) as int;
        let v = val_len_field(r) as int;
        match op_from_code(r[12]) {
            Some(op) => Ok(
                LogEntry {
                    crc: computed_crc,
                    timestamp: timestamp_field(r),
                    op,
                    key: r.subrange(21, 21 + k),
                    val: r.subrange(21 + k, 21 + k + v),
                },
            ),
            None => Err(BinaryLogError::InvalidOperationType),
        }
    }
}

/// A read result, with the record taken by its content.
pub open spec fn result_view(r: Result<BinaryLog, BinaryLogError>) -> Result<
    LogEntry,
    BinaryLogError,
> {
    match r {
        Ok(log) => Ok(log@),
        Err(e) => Err(e),
    }
}

/// Reading back the record of a written frame gives the content that was
/// written, with the CRC of its body; and the frame's length field counts the
/// record's bytes. This holds whenever the record's length fits in a `u32`.
pub proof fn lemma_encoded_log_roundtrip(timestamp: i64, op: OperationType, key: Seq<u8>, val: Seq<u8>)
    requires
        key.len() + val.len() + 21 <= u32::MAX,
    ensures
        ({
            let frame = encoded_log(timestamp, op, key, val);
            let record = frame.subrange(4, frame.len() as int);
            let body = body_bytes(timestamp, op, key, val);
            &&& frame.len() == key.len() + val.len() + 25
            &&& le_u32(frame.subrange(0, 4)) == record.len()
            &&& record == record_bytes(crc32(body), body)
            &&& record_crc(record) == crc32(body)
            &&& decodable(record, record_crc(record))
            &&& decode_spec(record, record_crc(record)) == Ok::<LogEntry, BinaryLogError>(
                LogEntry { crc: crc32(body), timestamp, op, key, val },
            )
        }),
{
    let body = body_bytes(timestamp, op, key, val);
    let c = crc32(body);
    let record = record_bytes(c, body);
    let frame = encoded_log(timestamp, op, key, val);
    let k = key.len() as int;
    let v = val.len() as int;
    lemma_le_u32_roundtrip(c);
    lemma_le_u32_roundtrip(record.len() as u32);
    lemma_le_u32_roundtrip(key.len() as u32);
    lemma_le_u32_roundtrip(val.len() as u32);
    lemma_le_i64_roundtrip(timestamp);
    assert(body.len() == 17 + k + v);
    assert(frame =~= le_bytes_u32(record.len() as u32) + record);
    assert(frame.subrange(0, 4) =~= le_bytes_u32(record.len() as u32));
    assert(frame.subrange(4, frame.len() as int) =~= record);
    assert(record.subrange(0, 4) =~= le_bytes_u32(c));
    assert(record.subrange(4, record.len() as int) =~= body);
    assert(record.subrange(4, 12) =~= le_bytes_i64(timestamp));
    assert(record[12] == op.spec_code());
    assert(record.subrange(13, 17) =~= le_bytes_u32(key.len() as u32));
    assert(record.subrange(17, 21) =~= le_bytes_u32(val.len() as u32));
    assert(record.subrange(21, 21 + k) =~= key);
    assert(record.subrange(21 + k, 21 + k + v) =~= val);
    assert(op_from_code(op.spec_code()) == Some(op));
}

/// A written frame starts with its record's length, the 21 header bytes and
/// the key and value, as a `u32`.
pub proof fn lemma_encoded_log_len_field(
    timestamp: i64,
    op: OperationType,
    key: Seq<u8>,
    val: Seq<u8>,
)
    ensures
        encoded_log(timestamp, op, key, val).len() == key.len() + val.len() + 25,
        le_u32(encoded_log(timestamp, op, key, val).subrange(0, 4)) == (key.len() + val.len()
            + 21) as u32,
{
    let body = body_bytes(timestamp, op, key, val);
    let record = record_bytes(crc32(body), body);
    let frame = encoded_log(timestamp, op, key, val);
    lemma_le_u32_roundtrip(crc32(body));
    lemma_le_u32_roundtrip(record.len() as u32);
    lemma_le_u32_roundtrip(key.len() as u32);
    lemma_le_u32_roundtrip(val.len() as u32);
    lemma_le_i64_roundtrip(timestamp);
    assert(body.len() == 17 + key.len() + val.len());
    assert(frame.subrange(0, 4) =~= le_bytes_u32(record.len() as u32));
}

impl BinaryLog {
    /// A record with this content and a zero CRC, as it stands before it is written.
    pub fn new(timestamp: i64, operation_type: OperationType, key: &[u8], val: &[u8]) -> (log:
        BinaryLog)
        ensures
            log@ == (LogEntry { crc: 0, timestamp, op: operation_type, key: key@, val: val@ }),
    {
        BinaryLog { crc: 0, timestamp, operation_type, key: slice_to_vec(key), val: slice_to_vec(val) }
    }

    /// The frame that records setting `key` to `value`, stamped with
    /// `timestamp` (the caller reads the clock).
    pub fn set(key: &[u8], value: &[u8], timestamp: i64) -> (out: Vec<u8>)
        ensures
            out@ == encoded_log(timestamp, OperationType::Put, key@, value@),
    {
        BinaryLog::serialize(BinaryLog::new(timestamp, OperationType::Put, key, value))
    }

    /// The frame that records removing `key`, stamped with `timestamp`
    /// (the caller reads the clock).
    pub fn remove(key: &[u8], timestamp: i64) -> (out: Vec<u8>)
        ensures
            out@ == encoded_log(timestamp, OperationType::Remove, key@, Seq::empty()),
    {
        let empty: Vec<u8> = Vec::new();
        BinaryLog::serialize(BinaryLog::new(timestamp, OperationType::Remove, key, empty.as_slice()))
    }

    /// The frame of a record: its timestamp, operation, key and value laid
    /// out, the CRC of that body placed in front, and the length in front of all.
    /// The CRC the record held before is not used.
    pub fn serialize(log: BinaryLog) -> (out: Vec<u8>)
        ensures
            out@ == encoded_log(log@.timestamp, log@.op, log@.key, log@.val),
    {
        let ghost body = body_bytes(log.timestamp, log.operation_type, log.key@, log.val@);
        let mut bytes: Vec<u8> = Vec::new();
        push_u32_le(&mut bytes, log.crc);
        push_i64_le(&mut bytes, log.timestamp);
        bytes.push(log.operation_type.code());
        push_u32_le(&mut bytes, log.key.len() as u32);
        push_u32_le(&mut bytes, log.val.len() as u32);
        push_all(&mut bytes, log.key.as_slice());
        push_all(&mut bytes, log.val.as_slice());
        assert(bytes@ =~= le_bytes_u32(log.crc) + body);
        assert(bytes@.subrange(4, bytes@.len() as int) =~= body);
        let crc = BinaryLog::compute_crc(bytes.as_slice());
        BinaryLog::seal(bytes.as_slice(), crc)
    }

    /// Puts `crc` in place of the first four bytes and the length of the
    /// result in front: the frame of the record whose body is `bytes[4..]`.
    pub fn seal(bytes: &[u8], crc: u32) -> (out: Vec<u8>)
        requires
            bytes@.len() >= 4,
        ensures
            out@ == frame_bytes(record_bytes(crc, bytes@.subrange(4, bytes@.len() as int))),
    {
        let ghost record = record_bytes(crc, bytes@.subrange(4, bytes@.len() as int));
        let mut out: Vec<u8> = Vec::new();
        push_u32_le(&mut out, bytes.len() as u32);
        push_u32_le(&mut out, crc);
        push_all(&mut out, slice_subrange(bytes, 4, bytes.len()));
        assert(out@ =~= frame_bytes(record));
        out
    }

    /// The CRC of everything after the first four bytes.
    fn compute_crc(bytes: &[u8]) -> (c: u32)
        requires
            bytes@.len() >= 4,
        ensures
            c == crc32(bytes@.subrange(4, bytes@.len() as int)),
    {
        crc32_of(slice_subrange(bytes, 4, bytes.len()))
    }

    /// Reads a record back against the CRC that was computed over its body.
    pub fn decode(record: &[u8], computed_crc: u32) -> (res: Result<BinaryLog, BinaryLogError>)
        requires
            decodable(record@, computed_crc),
        ensures
            result_view(res) == decode_spec(record@, computed_crc),
    {
        let stored = read_u32_le(record, 0);
        if computed_crc != stored {
            return Err(BinaryLogError::InvalidCRC);
        }
        let timestamp = read_i64_le(record, 4);
        let operation = record[12];
        let key_len = read_u32_le(record, 13) as usize;
        let val_len = read_u32_le(record, 17) as usize;
        let key = slice_to_vec(slice_subrange(record, 21, 21 + key_len));
        let val = slice_to_vec(slice_subrange(record, 21 + key_len, 21 + key_len + val_len));
        let operation_type = match OperationType::try_from(operation) {
            Ok(op) => op,
            Err(e) => {
                return Err(e);
            },
        };
        Ok(BinaryLog { crc: computed_crc, timestamp, operation_type, key, val })
    }

    /// Reads a record back: its CRC must match the CRC of its body, and its
    /// operation byte must name an operation.
    pub fn deserialize(record: &[u8]) -> (res: Result<BinaryLog, BinaryLogError>)
        requires
            decodable(record@, record_crc(record@)),
        ensures
            result_view(res) == decode_spec(record@, record_crc(record@)),
    {
        let computed_crc = BinaryLog::compute_crc(record);
        BinaryLog::decode(record, computed_crc)
    }

    /// Reads a record back as `deserialize` does, or gives `None` where
    /// `deserialize` cannot read it: where it is shorter than its CRC, or its
    /// CRC matches and the fields run past its end.
    pub fn try_deserialize(record: &[u8]) -> (res: Option<Result<BinaryLog, BinaryLogError>>)
        ensures
            res is None <== !decodable(record@, record_crc(record@)),
            res is None ==> !decodable(record@, record_crc(record@)),
            res matches Some(r) ==> result_view(r) == decode_spec(record@, record_crc(record@)),
    {
        if record.len() < 4 {
            return None;
        }
        let computed_crc = BinaryLog::compute_crc(record);
        if read_u32_le(record, 0) == computed_crc {
            if record.len() < 21 {
                return None;
            }
            let key_len = read_u32_le(record, 13) as usize;
            let val_len = read_u32_le(record, 17) as usize;
            if key_len > record.len() - 21 || val_len > record.len() - 21 - key_len {
                return None;
            }
        }
        Some(BinaryLog::deserialize(record))
    }

    /// How the record shows: its value as text where it is valid UTF-8,
    /// else `Error: ` and the decoding error's message.
    pub fn to_string(&self) -> (s: String)
        ensures
            valid_utf8(self@.val) ==> s@ == decode_utf8(self@.val),
            !valid_utf8(self@.val) ==> exists|e: std::str::Utf8Error, m: String|
                to_string_from_display_ensures(&e, m) && s@ == "Error: "@ + m@,
    {
        match str_from_utf8(self.val.as_slice()) {
            Ok(t) => String::from_str(t),
            Err(e) => {
                let m = e.to_string();
                String::from_str("Error: ").concat(m.as_str())
            },
        }
    }

    /// The record's operation.
    pub fn get_op_type(&self) -> (op: OperationType)
        ensures
            op == self@.op,
    {
        self.operation_type
    }

    /// The record's key.
    pub fn get_key(self) -> (key: Vec<u8>)
        ensures
            key@ == self@.key,
    {
        self.key
    }
}

} // verus!
