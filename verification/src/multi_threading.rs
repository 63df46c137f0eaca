use crate::data_buffer::DataBuffer;
use vstd::prelude::*;

verus! {

/// A module that runs on a thread of its own and receives buffers as events.
pub trait Worker {
    /// Runs one step; false when the worker is done.
    fn update(&mut self) -> bool;

    /// Handles one event.
    fn recv_event(&mut self, buffer: DataBuffer);

    /// Called once, when the worker's thread is set up.
    fn initialize(&mut self);

    /// Called once, when the worker stops.
    fn shutdown(&mut self);
}

/// What a worker's thread does with what it took from its queue.
pub enum Delivery {
    /// A message from module 0: stop the worker.
    Stop,
    /// Hand the buffer to the worker as an event.
    Event(DataBuffer),
    /// Nothing was waiting.
    Nothing,
}

/// What a worker's thread does with `message`, the message it took from its queue, if any:
/// one from module 0 asks it to stop, any other is an event for the worker.
pub fn delivery(message: Option<(u32, DataBuffer)>) -> (r: Delivery)
    ensures
        message is None ==> r is Nothing,
        message matches Some(m) ==> (m.0 == 0 ==> r is Stop) && (m.0 != 0 ==> r == Delivery::Event(
            m.1,
        )),
{
    match message {
        Some((id, buffer)) => if id == 0 {
            Delivery::Stop
        } else {
            Delivery::Event(buffer)
        },
        None => Delivery::Nothing,
    }
}

/// A worker's thread runs on after a step when the worker's update asked for more and no
/// stop was asked for.
pub fn runs_on(updated: bool, is_running: bool) -> (r: bool)
    ensures
        r == (updated && is_running),
{
    if updated {
        is_running
    } else {
        false
    }
}

/// A message taken from the application's queue goes on to the queue of its module when
/// its id is above 0.
pub fn is_routed(id: u32) -> (r: bool)
    ensures
        r == (id > 0),
{
    id > 0
}

} // verus!
