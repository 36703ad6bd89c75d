//! The framing decisions of the TCP server's length-prefixed protocol.
use crate::codec::{be_u32_value, le_u32_value};
use vstd::prelude::*;

verus! {

/// The largest query the length-prefixed protocol accepts, in bytes.
pub const MAX_QUERY_LEN: u32 = 16777216;

/// What the first four bytes of a message announce.
#[derive(Debug, Clone, Copy, PartialEq, Eq)]
pub enum FrameStart {
    /// A PostgreSQL client: read as a big-endian signed length, they lie in 8..=10000.
    Postgres,
    /// A query of this many bytes (a little-endian length).
    Query(u32),
    /// A query longer than `MAX_QUERY_LEN`: the connection is dropped.
    Oversized,
}

/// The big-endian signed value of four bytes lies in 8..=10000 exactly when its unsigned
/// value does.
pub open spec fn starts_postgres(b: Seq<u8>) -> bool {
    8 <= be_u32_value(b) <= 10000
}

/// Reads the first four bytes of a message.
pub fn classify_frame(len_buf: [u8; 4]) -> (r: FrameStart)
    ensures
        starts_postgres(len_buf@) ==> r == FrameStart::Postgres,
        !starts_postgres(len_buf@) && le_u32_value(len_buf@) > MAX_QUERY_LEN ==> r == FrameStart::Oversized,
        !starts_postgres(len_buf@) && le_u32_value(len_buf@) <= MAX_QUERY_LEN ==> r == FrameStart::Query(le_u32_value(len_buf@)),
{
    let be = crate::codec::read_u32_be(&len_buf, 0);
    let le = crate::codec::read_u32_le(&len_buf, 0);
    proof {
        assert(len_buf@.subrange(0, 4) =~= len_buf@);
    }
    if 8 <= be && be <= 10000 {
        FrameStart::Postgres
    } else if le > MAX_QUERY_LEN {
        FrameStart::Oversized
    } else {
        FrameStart::Query(le)
    }
}

} // verus!
