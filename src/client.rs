//! What a client makes of the server's replies.

use vstd::prelude::*;
use vstd::string::*;
use vstd::utf8::*;
use bytes::Bytes;
use crate::buf::{bytes_copy_from_slice, bytes_view};
use crate::command::same_text;
use crate::display::display;
use crate::frame::{Frame, FrameModel};

verus! {

/// Why a request got no usable reply.
#[derive(Debug, PartialEq, Eq)]
pub enum ClientError {
    /// The server closed the connection instead of replying.
    ConnectionReset,
    /// The reply is not of the kind the request calls for.
    BadResponse,
    /// The reply is not of the kind the request calls for; it reads as given.
    UnexpectedFrame(String),
    /// The server turned the request down with this message.
    Server(String),
}

/// The reply frame, if the server sent one that is no error. An error frame
/// is the request's failure, not the connection's.
pub fn read_response(response: Option<Frame>) -> (r: Result<Frame, ClientError>)
    ensures
        match response {
            None => r matches Err(ClientError::ConnectionReset),
            Some(f) => match f@ {
                FrameModel::Error(e) => r matches Err(ClientError::Server(s)) && s@ == e,
                _ => r == Ok::<Frame, ClientError>(f),
            },
        },
{
    match response {
        Some(Frame::Error(err)) => Err(ClientError::Server(err)),
        Some(frame) => Ok(frame),
        None => Err(ClientError::ConnectionReset),
    }
}

/// The text an echo comes back with.
pub fn echo_reply(frame: Frame) -> (r: Result<String, ClientError>)
    ensures
        match frame@ {
            FrameModel::Text(t) => r is Ok && r->Ok_0@ == t,
            _ => r matches Err(ClientError::BadResponse),
        },
{
    match frame {
        Frame::Text(txt) => Ok(txt),
        _ => Err(ClientError::BadResponse),
    }
}

/// The value a get comes back with: text or binary data, or nothing for
/// `Null`; any other frame is unexpected.
pub fn get_reply(frame: Frame) -> (r: Result<Option<Bytes>, ClientError>)
    ensures
        match frame@ {
            FrameModel::Text(t) => r is Ok && r->Ok_0 is Some && bytes_view(r->Ok_0->0) == encode_utf8(t),
            FrameModel::Binary(b) => r is Ok && r->Ok_0 is Some && bytes_view(r->Ok_0->0) == b,
            FrameModel::Null => r is Ok && r->Ok_0 is None,
            _ => r matches Err(ClientError::UnexpectedFrame(s)) && s@ == display(frame@),
        },
{
    match frame {
        Frame::Text(txt) => Ok(Some(bytes_copy_from_slice(txt.as_str().as_bytes()))),
        Frame::Binary(binary) => Ok(Some(binary)),
        Frame::Null => Ok(None),
        frame => Err(ClientError::UnexpectedFrame(frame.to_display_string())),
    }
}

/// A set succeeds on the reply `OK`; any other frame is unexpected.
pub fn set_reply(frame: Frame) -> (r: Result<(), ClientError>)
    ensures
        frame@ == FrameModel::Text("OK"@) ==> r is Ok,
        frame@ != FrameModel::Text("OK"@) ==> (r matches Err(ClientError::UnexpectedFrame(s)) && s@ == display(frame@)),
{
    if let Frame::Text(txt) = &frame {
        if same_text(txt.as_str(), "OK") {
            return Ok(());
        }
    }
    Err(ClientError::UnexpectedFrame(frame.to_display_string()))
}

} // verus!
