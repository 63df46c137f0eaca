use vstd::prelude::*;

verus! {

/// Bytes in a packet's header: the check code, then the body's length.
pub const PACKET_HEAD_SIZE: usize = 4;

/// The code every packet starts with.
pub const PACKET_CHECK: u16 = 50000;

/// The id of the server end.
pub const SERVER: u32 = 1;

/// The id of the (first) client end.
pub const CLIENT: u32 = 2;

} // verus!
