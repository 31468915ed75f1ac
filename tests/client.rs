use bytes::Bytes;
use uranus::{
    echo_reply, get_reply, read_response, set_reply, ClientError, Command, Echo, Frame, ReadBuffer,
};

fn text(s: &str) -> Frame {
    Frame::Text(s.to_string())
}

#[test]
fn echo_exchange_over_the_wire() {
    let request = Echo::new("hello").into_frame();
    assert_eq!(request, Frame::Array(vec![text("echo"), text("hello")]));
    let mut server_in = ReadBuffer::new();
    server_in.receive(&request.encode().unwrap());
    let received = server_in.parse_frame().unwrap().unwrap();
    let reply = Command::from_frame(received).unwrap().apply().unwrap();
    assert_eq!(reply, text("hello"));
    let mut client_in = ReadBuffer::new();
    client_in.receive(&reply.encode().unwrap());
    let response = read_response(client_in.parse_frame().unwrap()).unwrap();
    assert_eq!(echo_reply(response), Ok("hello".to_string()));
}

#[test]
fn responses() {
    assert_eq!(read_response(None), Err(ClientError::ConnectionReset));
    assert_eq!(
        read_response(Some(Frame::Error("nope".to_string()))),
        Err(ClientError::Server("nope".to_string()))
    );
    assert_eq!(read_response(Some(Frame::Null)), Ok(Frame::Null));
}

#[test]
fn echo_replies() {
    assert_eq!(echo_reply(text("x")), Ok("x".to_string()));
    assert_eq!(echo_reply(Frame::Null), Err(ClientError::BadResponse));
}

#[test]
fn get_replies() {
    assert_eq!(get_reply(text("v")), Ok(Some(Bytes::from_static(b"v"))));
    assert_eq!(get_reply(Frame::Binary(Bytes::from_static(b"\x01"))), Ok(Some(Bytes::from_static(b"\x01"))));
    assert_eq!(get_reply(Frame::Null), Ok(None));
    assert_eq!(
        get_reply(Frame::Array(vec![text("a"), text("b")])),
        Err(ClientError::UnexpectedFrame("a b".to_string()))
    );
}

#[test]
fn set_replies() {
    assert_eq!(set_reply(text("OK")), Ok(()));
    assert_eq!(set_reply(text("ok")), Err(ClientError::UnexpectedFrame("ok".to_string())));
    assert_eq!(set_reply(Frame::Null), Err(ClientError::UnexpectedFrame("(nil)".to_string())));
}
