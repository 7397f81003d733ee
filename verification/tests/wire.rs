use mini_redis::clients::{Client, ClientError};
use mini_redis::cmd::{Command, Get, Unknown};
use mini_redis::connection::Connection;
use mini_redis::server::{handler_step, HandlerStep};

#[test]
fn a_get_sent_by_the_client_is_executed_by_the_server() {
    let bytes = Connection::frame_bytes(&Get::new("k\r\ney").into_frame());
    let mut server_side = Connection::new();
    server_side.receive(&bytes[..3]);
    assert_eq!(server_side.parse_frame(), Ok(None));
    server_side.receive(&bytes[3..]);
    let frame = server_side.parse_frame().unwrap();
    match handler_step(frame) {
        HandlerStep::Execute(Command::Get(get)) => assert_eq!(get.key(), "k\r\ney"),
        _ => panic!("expected a GET"),
    }
}

#[test]
fn the_get_reply_of_the_server_is_read_by_the_client() {
    for value in [Some(b"value".to_vec()), Some(Vec::new()), None] {
        let bytes = Connection::frame_bytes(&Get::reply(value.clone()));
        let mut client = Client::new();
        client.connection.receive(&bytes);
        let frame = client.connection.parse_frame().unwrap();
        let response = Client::check_response(frame).ok().unwrap();
        assert_eq!(Client::get_reply(response).ok(), Some(value));
    }
}

#[test]
fn the_unknown_command_error_is_read_by_the_client() {
    let bytes = Connection::frame_bytes(&Unknown::new("ping".to_string()).reply());
    assert_eq!(bytes, b"-ERR unknown command 'ping'\r\n".to_vec());
    let mut client = Client::new();
    client.connection.receive(&bytes);
    match Client::check_response(client.connection.parse_frame().unwrap()) {
        Err(ClientError::Server(msg)) => assert_eq!(msg, "ERR unknown command 'ping'"),
        other => panic!("{:?}", other),
    }
}

#[test]
fn an_unknown_command_name_with_a_line_break_garbles_the_error() {
    let bytes = Connection::frame_bytes(&Unknown::new("a\r\nb".to_string()).reply());
    let mut client = Client::new();
    client.connection.receive(&bytes);
    match Client::check_response(client.connection.parse_frame().unwrap()) {
        Err(ClientError::Server(msg)) => assert_eq!(msg, "ERR unknown command 'a"),
        other => panic!("{:?}", other),
    }
}
