//! Byte-exact serializers for the on-disk records: each type has a spec
//! encoding, an executable writer proved to lay down exactly that
//! encoding through the buffer manager, and a reader proved to return a
//! value whose encoding matches the bytes it consumed. Together with
//! the encodings' injectivity, writing then reading gives the value
//! back bit for bit.

pub mod encoding;
pub mod metric_distance;
pub mod storage;
pub mod versioned_vec;
