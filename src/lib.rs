//! Decoder for recorded game-session captures ("demos"): a bit cursor, the
//! frame/command stream, packets and their protocol messages, the networked
//! class schema with its property flattening, and the replicated string tables.

pub mod error;
pub mod cursor;
pub mod send_table;
pub mod data_tables;
pub mod pb;
pub mod message;
pub mod string_tables;
pub mod packet;
pub mod frame;
pub mod demo;
