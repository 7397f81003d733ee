use mini_redis::clients::{Client, ClientError};
use mini_redis::server::{after_accept_error, handler_step, AcceptStep, HandlerStep, INITIAL_BACKOFF};
use mini_redis::parse::ParseError;
use mini_redis::cmd::{Command, Get};
use mini_redis::Frame;

fn bulk(s: &str) -> Frame {
    Frame::Bulk(s.as_bytes().to_vec())
}

fn unexpected<T: std::fmt::Debug>(r: Result<T, ClientError>) -> Frame {
    match r {
        Err(ClientError::UnexpectedFrame(f)) => f,
        other => panic!("expected an unexpected-frame error, got {:?}", other),
    }
}

#[test]
fn responses_are_checked() {
    assert_eq!(Client::check_response(Some(Frame::Integer(1))).ok(), Some(Frame::Integer(1)));
    match Client::check_response(Some(Frame::Error("ERR boom".into()))) {
        Err(ClientError::Server(msg)) => assert_eq!(msg, "ERR boom"),
        other => panic!("{:?}", other),
    }
    assert!(matches!(Client::check_response(None), Err(ClientError::ConnectionReset)));
}

#[test]
fn ping_replies() {
    assert_eq!(Client::ping_reply(Frame::Simple("PONG".into())).ok(), Some(b"PONG".to_vec()));
    assert_eq!(Client::ping_reply(bulk("hello")).ok(), Some(b"hello".to_vec()));
    assert_eq!(unexpected(Client::ping_reply(Frame::Integer(1))), Frame::Integer(1));
}

#[test]
fn get_replies() {
    assert_eq!(Client::get_reply(Frame::Simple("bar".into())).ok(), Some(Some(b"bar".to_vec())));
    assert_eq!(Client::get_reply(bulk("bar")).ok(), Some(Some(b"bar".to_vec())));
    assert_eq!(Client::get_reply(Frame::Null).ok(), Some(None));
    assert_eq!(unexpected(Client::get_reply(Frame::Array(vec![]))), Frame::Array(vec![]));
}

#[test]
fn the_client_reads_the_get_reply_of_the_server() {
    assert_eq!(Client::get_reply(Get::reply(Some(b"v".to_vec()))).ok(), Some(Some(b"v".to_vec())));
    assert_eq!(Client::get_reply(Get::reply(None)).ok(), Some(None));
}

#[test]
fn set_replies() {
    assert!(Client::set_reply(Frame::Simple("OK".into())).is_ok());
    assert_eq!(unexpected(Client::set_reply(Frame::Simple("ok".into()))), Frame::Simple("ok".into()));
    assert_eq!(unexpected(Client::set_reply(bulk("OK"))), bulk("OK"));
}

#[test]
fn publish_replies() {
    assert_eq!(Client::publish_reply(Frame::Integer(3)).ok(), Some(3));
    assert_eq!(unexpected(Client::publish_reply(Frame::Simple("3".into()))), Frame::Simple("3".into()));
}

#[test]
fn subscription_confirmations() {
    let ok = Frame::Array(vec![bulk("subscribe"), bulk("news"), Frame::Integer(1)]);
    assert!(Client::subscribe_reply(ok, "news").is_ok());
    let simple = Frame::Array(vec![Frame::Simple("subscribe".into()), Frame::Simple("news".into())]);
    assert!(Client::subscribe_reply(simple, "news").is_ok());
    let other_channel = Frame::Array(vec![bulk("subscribe"), bulk("sport"), Frame::Integer(1)]);
    assert_eq!(unexpected(Client::subscribe_reply(other_channel, "news")), Frame::Array(vec![bulk("subscribe"), bulk("sport"), Frame::Integer(1)]));
    let short = Frame::Array(vec![bulk("subscribe")]);
    assert!(Client::subscribe_reply(short, "news").is_err());
    assert!(Client::subscribe_reply(Frame::Null, "news").is_err());
}

#[test]
fn subscriber_keeps_its_channels() {
    let sub = Client::new().into_subscriber(vec!["a".to_string(), "b".to_string()]);
    assert_eq!(sub.subscribed_channels, vec!["a".to_string(), "b".to_string()]);
}

#[test]
fn accept_backoff_schedule() {
    let mut backoff = INITIAL_BACKOFF;
    let mut waits = Vec::new();
    loop {
        match after_accept_error(backoff) {
            AcceptStep::Retry { wait_secs, next_backoff } => {
                waits.push(wait_secs);
                backoff = next_backoff;
            }
            AcceptStep::GiveUp => break,
        }
    }
    assert_eq!(waits, vec![1, 2, 4, 8, 16, 32, 64]);
    assert_eq!(waits.iter().sum::<u64>(), 127);
    assert_eq!(after_accept_error(65), AcceptStep::GiveUp);
}

#[test]
fn handler_steps() {
    assert!(matches!(handler_step(None), HandlerStep::Close));
    match handler_step(Some(Frame::Array(vec![bulk("GET"), bulk("k")]))) {
        HandlerStep::Execute(Command::Get(get)) => assert_eq!(get.key(), "k"),
        _ => panic!("expected a GET"),
    }
    match handler_step(Some(Frame::Array(vec![bulk("ping")]))) {
        HandlerStep::Execute(Command::Unknown(u)) => assert_eq!(u.get_name(), "ping"),
        _ => panic!("expected an unknown command"),
    }
    assert!(matches!(handler_step(Some(Frame::Simple("get".into()))), HandlerStep::Fail(ParseError::NotAnArray)));
}
