//! The core of a small key-value server: the wire-frame codec, the receiving
//! half of a connection, the command layer, what a client makes of replies,
//! and an arena-backed recency list for eviction.

pub mod buf;
pub mod client;
pub mod command;
pub mod connection;
pub mod display;
pub mod frame;
pub mod linked_list;
pub mod round_trip;
pub mod server;

pub use client::{ClientError, echo_reply, get_reply, read_response, set_reply};
pub use command::{Command, CommandParseError, CommandParser, Echo, Get, Put};
pub use connection::{ReadBuffer, ReadError, BUFFER_SIZE};
pub use frame::{Cursor, Frame, FrameError, parse_decimal, write_scalar};
pub use linked_list::{Index, LinkedList, LinkedListIter};
pub use server::{next_backoff, MAX_BACKOFF};

use vstd::prelude::*;

verus! {

/// The sum of two sizes.
pub fn add(left: usize, right: usize) -> (r: usize)
    requires
        left + right <= usize::MAX,
    ensures
        r == left + right,
{
    left + right
}

} // verus!
