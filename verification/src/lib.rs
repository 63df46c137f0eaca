use vstd::prelude::*;

pub mod communication_unit;
pub mod data_buffer;
pub mod date_time;
pub mod file_cursor;
pub mod json;
pub mod json_laws;
pub mod log_sink;
pub mod log_system;
pub mod multi_threading;
pub mod property;
pub mod text;

pub use data_buffer::DataBuffer;
pub use date_time::DateTime;
pub use multi_threading::Worker;

verus! {

/// Sum of two integers.
pub fn add(a: i32, b: i32) -> (sum: i32)
    requires
        i32::MIN <= a + b <= i32::MAX,
    ensures
        sum == a + b,
{
    a + b
}

} // verus!
