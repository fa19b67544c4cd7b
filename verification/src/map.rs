//! Values that come out of ring buffers.
use crate::event::{decodes_to, native_order, Event, EventDecodeError};
use vstd::prelude::*;

verus! {

/// A value that a record of a ring buffer holds.
pub trait FromRecord: Sized {
    type Error;

    /// The value that `record` holds.
    fn from_record(record: &[u8]) -> Result<Self, Self::Error>;
}

impl FromRecord for Event {
    type Error = EventDecodeError;

    /// Decodes a record that was written on this machine, with or without a source location.
    fn from_record(record: &[u8]) -> (r: Result<Event, EventDecodeError>)
        ensures
            decodes_to(record@, native_order(), false, r),
    {
        Event::try_from(record)
    }
}

} // verus!
