//! The stores a journal can be kept in.

pub mod crc;
pub mod file;
pub mod frame;
pub mod memory;
pub mod number;
