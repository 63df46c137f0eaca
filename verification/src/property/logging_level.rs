use vstd::prelude::*;

verus! {

pub const NONE: u16 = 0x0000;

pub const ERROR: u16 = 0x0001;

pub const WARN: u16 = 0x0010;

pub const INFO: u16 = 0x0100;

pub const DEBUG: u16 = 0x1000;

} // verus!
