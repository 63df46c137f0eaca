use vstd::prelude::*;

verus! {

/// An operating system, by number.
pub type OS = u8;

pub const UNKNOWN: u8 = 0;

pub const LINUX: u8 = 1;

pub const WINDOW: u8 = 2;

} // verus!
