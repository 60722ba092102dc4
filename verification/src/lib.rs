//! ChloeDB: an append-only key-value store whose index is rebuilt from
//! framed binary log records.

pub mod codec;
pub mod binarylog;
pub mod crc;
pub mod index;
pub mod file;
pub mod error;
pub mod db;
