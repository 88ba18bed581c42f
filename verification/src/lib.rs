//! A log-structured key-value store in the style of Bitcask: every write is
//! appended to a data file as a self-describing row, and an in-memory key
//! directory remembers where the latest value of each key lives.

pub mod models;
