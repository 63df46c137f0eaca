use vstd::prelude::*;

verus! {

/// The id under which a module receives messages.
pub type ID = u32;

pub const APP_CONFIG: u32 = 0x00000001;

pub const LOGGING: u32 = 0x00000002;

} // verus!
