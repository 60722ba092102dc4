use chloedb::binarylog::{BinaryLog, BinaryLogError, OperationType};
use chloedb::codec::{push_all, push_i64_le, push_u32_le, read_i64_le, read_u32_le};

fn expected_frame(ts: i64, op: u8, key: &[u8], val: &[u8]) -> Vec<u8> {
    let mut body = Vec::new();
    body.extend_from_slice(&ts.to_le_bytes());
    body.push(op);
    body.extend_from_slice(&(key.len() as u32).to_le_bytes());
    body.extend_from_slice(&(val.len() as u32).to_le_bytes());
    body.extend_from_slice(key);
    body.extend_from_slice(val);
    let crc = crc32fast::hash(&body);
    let mut out = Vec::new();
    out.extend_from_slice(&((body.len() + 4) as u32).to_le_bytes());
    out.extend_from_slice(&crc.to_le_bytes());
    out.extend_from_slice(&body);
    out
}

#[test]
fn codec_matches_std_le_bytes() {
    let mut v = Vec::new();
    push_u32_le(&mut v, 0xDEADBEEF);
    assert_eq!(v, 0xDEADBEEFu32.to_le_bytes().to_vec());
    let mut w = Vec::new();
    push_i64_le(&mut w, -2);
    assert_eq!(w, (-2i64).to_le_bytes().to_vec());
    assert_eq!(read_u32_le(&[0, 1, 2, 3, 4], 1), u32::from_le_bytes([1, 2, 3, 4]));
    let bytes = 1_700_000_000i64.to_le_bytes();
    assert_eq!(read_i64_le(&bytes, 0), 1_700_000_000);
    assert_eq!(read_i64_le(&i64::MIN.to_le_bytes(), 0), i64::MIN);
    let mut x = vec![9u8];
    push_all(&mut x, &[1, 2]);
    assert_eq!(x, vec![9, 1, 2]);
}

#[test]
fn operation_type_from_byte() {
    assert_eq!(OperationType::try_from(1u8).unwrap(), OperationType::Put);
    assert_eq!(OperationType::try_from(2u8).unwrap(), OperationType::Remove);
    assert!(matches!(OperationType::try_from(0u8), Err(BinaryLogError::InvalidOperationType)));
    assert!(matches!(OperationType::try_from(3u8), Err(BinaryLogError::InvalidOperationType)));
    assert_eq!(OperationType::Put.code(), 1);
    assert_eq!(OperationType::Remove.code(), 2);
}

#[test]
fn serialize_lays_out_frame() {
    let log = BinaryLog::new(1_700_000_000, OperationType::Put, b"name", b"example");
    let out = BinaryLog::serialize(log);
    assert_eq!(out, expected_frame(1_700_000_000, 1, b"name", b"example"));
    assert_eq!(out.len(), 25 + 4 + 7);
    assert_eq!(read_u32_le(&out, 0), 21 + 4 + 7);
}

#[test]
fn serialize_remove_frame() {
    let log = BinaryLog::new(-5, OperationType::Remove, b"k", b"");
    let out = BinaryLog::serialize(log);
    assert_eq!(out, expected_frame(-5, 2, b"k", b""));
}

#[test]
fn seal_places_crc_and_length() {
    let out = BinaryLog::seal(&[0, 0, 0, 0, 9, 8], 0xAABBCCDD);
    assert_eq!(out, vec![6, 0, 0, 0, 0xDD, 0xCC, 0xBB, 0xAA, 9, 8]);
    let out = BinaryLog::seal(&[1, 2, 3, 4], 7);
    assert_eq!(out, vec![4, 0, 0, 0, 7, 0, 0, 0]);
}

#[test]
fn set_stamps_the_given_time() {
    let out = BinaryLog::set(b"name", b"example", 1_700_000_123);
    assert_eq!(read_i64_le(&out, 8), 1_700_000_123);
    assert_eq!(out, expected_frame(1_700_000_123, 1, b"name", b"example"));
}

#[test]
fn remove_stamps_the_given_time() {
    let out = BinaryLog::remove(b"name", -3);
    assert_eq!(read_i64_le(&out, 8), -3);
    assert_eq!(out, expected_frame(-3, 2, b"name", b""));
}

#[test]
fn deserialize_reads_back_what_serialize_wrote() {
    let out = BinaryLog::serialize(BinaryLog::new(42, OperationType::Put, b"name", b"example"));
    let log = BinaryLog::deserialize(&out[4..]).unwrap();
    assert_eq!(log.get_op_type(), OperationType::Put);
    assert_eq!(log.to_string(), "example");
    assert_eq!(log.get_key(), b"name".to_vec());

    let out = BinaryLog::remove(b"gone", 9);
    let log = BinaryLog::deserialize(&out[4..]).unwrap();
    assert_eq!(log.get_op_type(), OperationType::Remove);
    assert_eq!(log.to_string(), "");
    assert_eq!(log.get_key(), b"gone".to_vec());
}

#[test]
fn deserialize_rejects_bad_crc() {
    let out = BinaryLog::serialize(BinaryLog::new(42, OperationType::Put, b"name", b"example"));
    let mut record = out[4..].to_vec();
    let last = record.len() - 1;
    record[last] ^= 1;
    assert!(matches!(BinaryLog::deserialize(&record), Err(BinaryLogError::InvalidCRC)));
}

#[test]
fn deserialize_rejects_bad_operation() {
    let mut body = Vec::new();
    body.extend_from_slice(&7i64.to_le_bytes());
    body.push(9);
    body.extend_from_slice(&1u32.to_le_bytes());
    body.extend_from_slice(&0u32.to_le_bytes());
    body.push(b'k');
    let mut record = crc32fast::hash(&body).to_le_bytes().to_vec();
    record.extend_from_slice(&body);
    assert!(matches!(
        BinaryLog::deserialize(&record),
        Err(BinaryLogError::InvalidOperationType)
    ));
}

#[test]
fn decode_takes_the_computed_crc() {
    let out = BinaryLog::serialize(BinaryLog::new(3, OperationType::Put, b"a", b"b"));
    let record = &out[4..];
    let stored = read_u32_le(record, 0);
    assert!(BinaryLog::decode(record, stored).is_ok());
    assert!(matches!(
        BinaryLog::decode(record, stored.wrapping_add(1)),
        Err(BinaryLogError::InvalidCRC)
    ));
    // a record with a matching stored CRC and a bad operation byte
    let mut r = vec![5, 0, 0, 0];
    r.extend_from_slice(&0i64.to_le_bytes());
    r.push(0);
    r.extend_from_slice(&0u32.to_le_bytes());
    r.extend_from_slice(&0u32.to_le_bytes());
    assert!(matches!(BinaryLog::decode(&r, 5), Err(BinaryLogError::InvalidOperationType)));
    let log = BinaryLog::decode(&{ let mut x = r.clone(); x[12] = 1; x }, 5).unwrap();
    assert_eq!(log.get_op_type(), OperationType::Put);
    assert_eq!(log.get_key(), Vec::<u8>::new());
}

#[test]
fn try_deserialize_refuses_what_cannot_be_read() {
    assert!(BinaryLog::try_deserialize(&[1, 2, 3]).is_none());
    // a matching CRC over a body too short for the header
    let body = [1u8, 2, 3];
    let mut record = crc32fast::hash(&body).to_le_bytes().to_vec();
    record.extend_from_slice(&body);
    assert!(BinaryLog::try_deserialize(&record).is_none());
    // a matching CRC with a key length past the end
    let mut body = Vec::new();
    body.extend_from_slice(&0i64.to_le_bytes());
    body.push(1);
    body.extend_from_slice(&100u32.to_le_bytes());
    body.extend_from_slice(&0u32.to_le_bytes());
    let mut record = crc32fast::hash(&body).to_le_bytes().to_vec();
    record.extend_from_slice(&body);
    assert!(BinaryLog::try_deserialize(&record).is_none());
    // a mismatched CRC is read, and refused
    let mut bad = record.clone();
    bad[0] ^= 1;
    assert!(matches!(
        BinaryLog::try_deserialize(&bad),
        Some(Err(BinaryLogError::InvalidCRC))
    ));
    let out = BinaryLog::set(b"k", b"v", 9);
    let log = BinaryLog::try_deserialize(&out[4..]).unwrap().unwrap();
    assert_eq!(log.get_key(), b"k".to_vec());
}

#[test]
fn value_shows_as_text_or_error() {
    let out = BinaryLog::serialize(BinaryLog::new(1, OperationType::Put, b"k", "héllo".as_bytes()));
    let log = BinaryLog::deserialize(&out[4..]).unwrap();
    assert_eq!(log.to_string(), "héllo");
    let out = BinaryLog::serialize(BinaryLog::new(1, OperationType::Put, b"k", &[0x66, 0xff]));
    let log = BinaryLog::deserialize(&out[4..]).unwrap();
    let err = std::str::from_utf8(&[0x66, 0xff]).unwrap_err();
    assert_eq!(log.to_string(), format!("Error: {}", err));
}

#[test]
fn binary_log_error_messages() {
    assert_eq!(BinaryLogError::InvalidOperationType.to_string(), "Invalid operation type");
    assert_eq!(BinaryLogError::InvalidCRC.to_string(), "Invalid CRC");
    let e: Result<[u8; 4], _> = <[u8; 4]>::try_from(&[1u8, 2][..]);
    let e = e.unwrap_err();
    let msg = format!("Invalid slice length to convert: {}", e);
    assert_eq!(BinaryLogError::from(e).to_string(), msg);
}
