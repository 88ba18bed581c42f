//! The store's parts: byte formats, the key directory, data files, and the
//! handler that ties them together.

pub mod byte_buf;
pub mod crc;
pub mod disk_row;
pub mod encoding;
pub mod handler;
pub mod in_memory;
pub mod io_error;
pub mod key_dir;
pub mod merge;
pub mod replay;
pub mod segments;
