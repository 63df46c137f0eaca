use vstd::prelude::*;

verus! {

pub const USER_EVENT: u32 = 0x00010000;

} // verus!
