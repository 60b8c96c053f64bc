//! The classes into which the stream classifier sorts updates.
//!
//! The classifier itself compares a record's float size against the last
//! size seen at its price, arithmetic the library does not do; the
//! embedder runs it and names each class with this enum.

use vstd::prelude::*;

verus! {

/// One of the three classes of book activity.
#[derive(Clone, Copy, Debug, PartialEq, Eq, Structural)]
pub enum EventType {
    CancelEvent,
    TradeEvent,
    CreateEvent,
}

} // verus!
