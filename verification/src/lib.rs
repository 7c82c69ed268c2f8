//! kavakava: a minimal key-value store with a wire protocol, a command
//! dispatcher, and a delimited-file codec for bulk import and export.
//!
//! The store maps string keys to string values and keeps its entries in
//! lexicographic key order. Commands arrive as a fixed-layout byte buffer:
//! a six-byte task identifier, one separator byte, and a semicolon-separated
//! argument payload. The dispatcher turns one command into a response string,
//! or into a file action that the caller performs before finishing the
//! command.

pub mod codec;
pub mod dispatch;
pub mod order;
pub mod store;
pub mod text;
pub mod wire;
