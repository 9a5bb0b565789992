//! A durable key-value core: a write-ahead log of framed records, an
//! in-memory committed map, staged transactions, and the recovery
//! procedure that replays the committed prefix of a log and truncates
//! everything behind the last commit boundary.

pub mod bytes;
pub mod checksum;
pub mod command;
pub mod command_parser;
pub mod database;
pub mod kvmap;
pub mod replay;
pub mod text;
pub mod wal;
