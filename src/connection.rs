//! The receiving half of a connection: the bytes read so far and the
//! decisions that turn them into frames. The socket itself is the caller's:
//! it hands over what it reads and reports the end of the stream.

use vstd::prelude::*;
use bytes::BytesMut;
use crate::buf::{bytes_mut_advance, bytes_mut_as_slice, bytes_mut_extend, bytes_mut_view, bytes_mut_with_capacity};
use crate::frame::{Cursor, Frame, FrameError, FrameModel, frame_at, lemma_frame_end_bounds};

verus! {

/// The capacity that a new read buffer starts with.
pub const BUFFER_SIZE: usize = 4 * 1024;

/// Why reading a frame failed.
#[derive(Clone, Copy, Debug, PartialEq, Eq, Structural)]
pub enum ReadError {
    /// The peer closed the stream in the middle of a frame.
    ConnectionReset,
}

/// Whether decoding found a frame, or must wait for more bytes.
pub open spec fn needs_more(d: Result<Option<(FrameModel, int)>, FrameError>) -> bool {
    d == Ok::<Option<(FrameModel, int)>, FrameError>(None) || d == Err::<Option<(FrameModel, int)>, FrameError>(
        FrameError::Incomplete,
    )
}

/// Bytes received and not yet handed out as frames.
pub struct ReadBuffer {
    buffer: BytesMut,
}

impl ReadBuffer {
    pub closed spec fn buffered(&self) -> Seq<u8> {
        bytes_mut_view(self.buffer)
    }

    pub fn new() -> (r: ReadBuffer)
        ensures
            r.buffered() == Seq::<u8>::empty(),
    {
        ReadBuffer { buffer: bytes_mut_with_capacity(BUFFER_SIZE) }
    }

    /// Appends bytes read from the stream.
    pub fn receive(&mut self, data: &[u8])
        requires
            old(self).buffered().len() + data@.len() <= isize::MAX,
        ensures
            final(self).buffered() == old(self).buffered() + data@,
    {
        bytes_mut_extend(&mut self.buffer, data);
    }

    /// The number of bytes waiting.
    pub fn buffered_len(&self) -> (r: usize)
        ensures
            r == self.buffered().len(),
    {
        bytes_mut_as_slice(&self.buffer).len()
    }

    /// Whether no byte is waiting.
    pub fn is_empty(&self) -> (r: bool)
        ensures
            r == (self.buffered().len() == 0),
    {
        bytes_mut_as_slice(&self.buffer).len() == 0
    }

    /// The frame at the front of the buffer, which is then dropped from it;
    /// `None` while the bytes there are not yet a whole frame, in which case
    /// the buffer is left as it is. Bytes after the frame stay for the next.
    pub fn parse_frame(&mut self) -> (r: Result<Option<Frame>, FrameError>)
        ensures
            match frame_at(old(self).buffered(), 0) {
                Ok(Some((m, q))) => {
                    &&& r is Ok && r->Ok_0 is Some && r->Ok_0->0@ == m
                    &&& final(self).buffered() == old(self).buffered().skip(q)
                },
                Err(e) => if e == FrameError::Incomplete {
                    r is Ok && r->Ok_0 is None && final(self).buffered() == old(self).buffered()
                } else {
                    r == Err::<Option<Frame>, FrameError>(e) && final(self).buffered() == old(self).buffered()
                },
                Ok(None) => r is Ok && r->Ok_0 is None && final(self).buffered() == old(self).buffered(),
            },
    {
        proof {
            lemma_frame_end_bounds(self.buffered(), 0);
        }
        let mut buf = Cursor::new(bytes_mut_as_slice(&self.buffer));
        match Frame::check(&mut buf) {
            Ok(None) => Ok(None),
            Ok(Some(())) => {
                let len = buf.position();
                buf.set_position(0);
                match Frame::parse(&mut buf) {
                    Ok(Some(frame)) => {
                        bytes_mut_advance(&mut self.buffer, len);
                        Ok(Some(frame))
                    },
                    _ => {
                        proof {
                            assert(false);
                        }
                        Ok(None)
                    },
                }
            },
            Err(FrameError::Incomplete) => Ok(None),
            Err(e) => Err(e),
        }
    }

    /// What reading a frame comes to when the stream has ended: nothing,
    /// when no byte is left over, else a connection reset.
    pub fn end_of_stream(&self) -> (r: Result<Option<Frame>, ReadError>)
        ensures
            self.buffered().len() == 0 ==> r is Ok && r->Ok_0 is None,
            self.buffered().len() > 0 ==> r == Err::<Option<Frame>, ReadError>(ReadError::ConnectionReset),
    {
        if self.is_empty() {
            Ok(None)
        } else {
            Err(ReadError::ConnectionReset)
        }
    }
}

} // verus!
