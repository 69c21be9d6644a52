//! Frames of the Redis serialization protocol (RESP2).
use vstd::prelude::*;

verus! {

/// One protocol frame.
pub enum Frame {
    SimpleString(String),
    Error(String),
    Integer(i64),
    BulkString(Vec<u8>),
    Array(Vec<Frame>),
}

/// Whether `f` is a bulk string holding exactly `b`.
pub open spec fn is_bulk(f: Frame, b: Seq<u8>) -> bool {
    f matches Frame::BulkString(v) && v@ == b
}

} // verus!
