use mini_redis::cmd::{Command, Get, Ping, Publish, SetCmd, Subscribe, Unknown};
use mini_redis::parse::{Parse, ParseError};
use mini_redis::Frame;

fn bulk(s: &str) -> Frame {
    Frame::Bulk(s.as_bytes().to_vec())
}

fn command(frame: Frame) -> Result<(String, String), ParseError> {
    match Command::from_frame(frame)? {
        Command::Get(get) => Ok(("get".to_string(), get.key().clone())),
        Command::Unknown(unknown) => Ok(("unknown".to_string(), unknown.get_name().to_string())),
    }
}

#[test]
fn reads_a_get() {
    assert_eq!(command(Frame::Array(vec![bulk("get"), bulk("foo")])), Ok(("get".into(), "foo".into())));
    assert_eq!(
        command(Frame::Array(vec![Frame::Simple("GeT".into()), Frame::Simple("k".into())])),
        Ok(("get".into(), "k".into()))
    );
}

#[test]
fn get_frames_need_exactly_one_key() {
    assert_eq!(command(Frame::Array(vec![bulk("get")])), Err(ParseError::EndOfStream));
    assert_eq!(command(Frame::Array(vec![bulk("get"), bulk("a"), bulk("b")])), Err(ParseError::TrailingData));
    assert_eq!(command(Frame::Array(vec![bulk("get"), Frame::Integer(1)])), Err(ParseError::UnexpectedFrame));
    assert_eq!(command(Frame::Array(vec![bulk("get"), Frame::Bulk(vec![0xff])])), Err(ParseError::InvalidString));
}

#[test]
fn other_names_are_unknown_commands() {
    assert_eq!(
        command(Frame::Array(vec![bulk("SET"), bulk("a"), bulk("b")])),
        Ok(("unknown".into(), "set".into()))
    );
    assert_eq!(command(Frame::Array(vec![bulk("\u{c4}BC")])), Ok(("unknown".into(), "\u{e4}bc".into())));
}

#[test]
fn malformed_commands() {
    assert_eq!(command(Frame::Integer(3)), Err(ParseError::NotAnArray));
    assert_eq!(command(Frame::Array(vec![])), Err(ParseError::EndOfStream));
    assert_eq!(command(Frame::Array(vec![Frame::Null])), Err(ParseError::UnexpectedFrame));
}

#[test]
fn the_server_reads_the_get_the_client_sends() {
    let frame = Get::new("my key").into_frame();
    assert_eq!(frame, Frame::Array(vec![bulk("get"), bulk("my key")]));
    assert_eq!(command(frame), Ok(("get".into(), "my key".into())));
}

#[test]
fn parse_cursor() {
    let mut parse = Parse::new(Frame::Array(vec![Frame::Simple("a".into()), bulk("b")])).ok().unwrap();
    assert_eq!(parse.finish(), Err(ParseError::TrailingData));
    assert_eq!(parse.next_string(), Ok("a".to_string()));
    assert_eq!(parse.next_string(), Ok("b".to_string()));
    assert_eq!(parse.next_string(), Err(ParseError::EndOfStream));
    assert_eq!(parse.finish(), Ok(()));
    assert!(Parse::new(Frame::Null).is_err());
}

fn subscribe_channels(entries: Vec<Frame>) -> Result<Vec<String>, ParseError> {
    let mut parse = Parse::new(Frame::Array(entries)).ok().unwrap();
    let sub = Subscribe::parse_frames(&mut parse)?;
    match sub.into_frame() {
        Frame::Array(parts) => Ok(parts[1..]
            .iter()
            .map(|p| match p {
                Frame::Bulk(b) => String::from_utf8(b.clone()).unwrap(),
                _ => panic!("channel is not a bulk string"),
            })
            .collect()),
        _ => panic!("not an array"),
    }
}

#[test]
fn subscribe_reads_every_channel() {
    assert_eq!(subscribe_channels(vec![bulk("a"), Frame::Simple("b".into())]), Ok(vec!["a".to_string(), "b".to_string()]));
    assert_eq!(subscribe_channels(vec![]), Err(ParseError::EndOfStream));
    assert_eq!(subscribe_channels(vec![bulk("a"), Frame::Integer(2), bulk("c")]), Err(ParseError::UnexpectedFrame));
}

#[test]
fn the_server_reads_the_subscribe_the_client_sends() {
    let frame = Subscribe::new(vec!["news".to_string(), "sport".to_string()]).into_frame();
    assert_eq!(frame, Frame::Array(vec![bulk("subscribe"), bulk("news"), bulk("sport")]));
    let mut parse = Parse::new(frame).ok().unwrap();
    assert_eq!(parse.next_string(), Ok("subscribe".to_string()));
    let sub = Subscribe::parse_frames(&mut parse).ok().unwrap();
    assert_eq!(sub.into_frame(), Frame::Array(vec![bulk("subscribe"), bulk("news"), bulk("sport")]));
}

#[test]
fn request_frames() {
    assert_eq!(Ping::new(None).into_frame(), Frame::Array(vec![bulk("ping")]));
    assert_eq!(Ping::new(Some(b"hi".to_vec())).into_frame(), Frame::Array(vec![bulk("ping"), bulk("hi")]));
    assert_eq!(
        SetCmd::new("k", b"v".to_vec(), None).into_frame(),
        Frame::Array(vec![bulk("set"), bulk("k"), bulk("v")])
    );
    assert_eq!(
        SetCmd::new("k", b"v".to_vec(), Some(500)).into_frame(),
        Frame::Array(vec![bulk("set"), bulk("k"), bulk("v"), bulk("px"), Frame::Integer(500)])
    );
    assert_eq!(
        Publish::new("ch", b"msg".to_vec()).into_frame(),
        Frame::Array(vec![bulk("publish"), bulk("ch"), bulk("msg")])
    );
}

#[test]
fn replies_of_the_server() {
    assert_eq!(Get::reply(Some(b"v".to_vec())), Frame::Bulk(b"v".to_vec()));
    assert_eq!(Get::reply(None), Frame::Null);
    assert_eq!(Unknown::new("foo".to_string()).reply(), Frame::Error("ERR unknown command 'foo'".to_string()));
}
