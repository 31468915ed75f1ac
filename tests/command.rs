use bytes::Bytes;
use uranus::{Command, CommandParseError, CommandParser, Echo, Frame, Get, Put};

fn text(s: &str) -> Frame {
    Frame::Text(s.to_string())
}

fn bin(b: &'static [u8]) -> Frame {
    Frame::Binary(Bytes::from_static(b))
}

#[test]
fn set_with_too_few_arguments_ends_early() {
    let r = Command::from_frame(Frame::Array(vec![text("set")]));
    assert!(matches!(r, Err(CommandParseError::UnexpectedEOF)));
    let r = Command::from_frame(Frame::Array(vec![text("set"), text("k")]));
    assert!(matches!(r, Err(CommandParseError::UnexpectedEOF)));
}

#[test]
fn set_with_too_many_arguments_is_refused() {
    let r = Command::from_frame(Frame::Array(vec![text("set"), text("k"), text("v"), text("x")]));
    assert!(matches!(r, Err(CommandParseError::UnexpectedFrame)));
}

#[test]
fn set_with_three_elements_round_trips() {
    let r = Command::from_frame(Frame::Array(vec![text("set"), text("k"), bin(b"v\x00")]));
    let put = match r {
        Ok(Command::Put(p)) => p,
        other => panic!("unexpected {:?}", other),
    };
    assert_eq!(put.key, "k");
    assert_eq!(put.value, Bytes::from_static(b"v\x00"));
    let frame = put.into_frame();
    assert_eq!(frame, Frame::Array(vec![text("set"), text("k"), bin(b"v\x00")]));
    match Command::from_frame(frame) {
        Ok(Command::Put(p)) => {
            assert_eq!(p.key, "k");
            assert_eq!(p.value, Bytes::from_static(b"v\x00"));
        },
        other => panic!("unexpected {:?}", other),
    }
}

#[test]
fn command_names_are_matched_in_lowercase() {
    match Command::from_frame(Frame::Array(vec![text("EcHo"), text("Hi")])) {
        Ok(Command::Echo(e)) => assert_eq!(e.echo, "Hi"),
        other => panic!("unexpected {:?}", other),
    }
    match Command::from_frame(Frame::Array(vec![bin(b"GET"), text("key")])) {
        Ok(Command::Get(g)) => assert_eq!(g.key, "key"),
        other => panic!("unexpected {:?}", other),
    }
}

#[test]
fn parse_named_takes_the_lowercase_name() {
    let mut parser = CommandParser::new(Frame::Array(vec![text("a")])).unwrap();
    assert!(matches!(Command::parse_named("ECHO", &mut parser), Err(CommandParseError::UnknownCommand)));
    let mut parser = CommandParser::new(Frame::Array(vec![text("a")])).unwrap();
    match Command::parse_named("echo", &mut parser) {
        Ok(Command::Echo(e)) => assert_eq!(e.echo, "a"),
        other => panic!("unexpected {:?}", other),
    }
}

#[test]
fn unknown_and_malformed_commands() {
    assert!(matches!(
        Command::from_frame(Frame::Array(vec![text("del"), text("k")])),
        Err(CommandParseError::UnknownCommand)
    ));
    assert!(matches!(Command::from_frame(text("echo")), Err(CommandParseError::ArgNotArray)));
    assert!(matches!(Command::from_frame(Frame::Array(vec![])), Err(CommandParseError::UnexpectedEOF)));
    assert!(matches!(
        Command::from_frame(Frame::Array(vec![Frame::Null])),
        Err(CommandParseError::ArgNotText)
    ));
    assert!(matches!(
        Command::from_frame(Frame::Array(vec![text("get"), Frame::Null])),
        Err(CommandParseError::ArgNotText)
    ));
    assert!(matches!(
        Command::from_frame(Frame::Array(vec![text("set"), text("k"), Frame::Null])),
        Err(CommandParseError::ArgNotBinary)
    ));
    assert!(matches!(
        Command::from_frame(Frame::Array(vec![text("get"), bin(b"\xff")])),
        Err(CommandParseError::InvalidUtf8)
    ));
    assert!(matches!(
        Command::from_frame(Frame::Array(vec![text("echo"), text("a"), text("b")])),
        Err(CommandParseError::UnexpectedFrame)
    ));
}

#[test]
fn parser_reads_in_order() {
    let mut p = CommandParser::new(Frame::Array(vec![text("a"), bin(b"b"), text("c")])).unwrap();
    assert_eq!(p.next_string().unwrap(), Some("a".to_string()));
    assert_eq!(p.next_string().unwrap(), Some("b".to_string()));
    assert_eq!(p.next_bytes().unwrap(), Some(Bytes::from_static(b"c")));
    assert_eq!(p.next_bytes().unwrap(), None);
    assert_eq!(p.next_string().unwrap(), None);
    assert!(p.exhausted().is_ok());
    assert!(matches!(CommandParser::new(Frame::Null), Err(CommandParseError::ArgNotArray)));
}

#[test]
fn command_frames() {
    assert_eq!(Get::new("k").into_frame(), Frame::Array(vec![text("get"), text("k")]));
    assert_eq!(Echo::new("hey").into_frame(), Frame::Array(vec![text("echo"), text("hey")]));
    let p = Put::new("k", Bytes::from_static(b"v"));
    assert_eq!(p.into_frame(), Frame::Array(vec![text("set"), text("k"), bin(b"v")]));
}

#[test]
fn only_echo_has_a_reply() {
    assert_eq!(Echo::new("x").apply(), text("x"));
    let echo = Command::from_frame(Frame::Array(vec![text("echo"), text("x")])).unwrap();
    assert_eq!(echo.apply(), Some(text("x")));
    let get = Command::from_frame(Frame::Array(vec![text("get"), text("x")])).unwrap();
    assert_eq!(get.apply(), None);
}
