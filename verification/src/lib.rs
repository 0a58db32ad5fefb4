//! Append-only structured log storage over a fixed-capacity memory-mapped
//! file: severity levels with bitmask filtering, a structured entry model,
//! a binary header describing the store, and a ring-buffer append engine.

pub mod log_error;
pub mod log_level;
pub mod msgpack;
pub mod log_entry;
pub mod value;
pub mod log_file;
