use cachex::client::{delete_reply, get_reply, read_reply, request_line, set_reply, unexpected, ClientError};
use cachex::protocol::{Command, ProtocolError, Response};

fn remote(r: Result<impl std::fmt::Debug, ClientError>) -> String {
    match r {
        Err(ClientError::Remote(message)) => message,
        other => panic!("expected a remote error, got {other:?}"),
    }
}

#[test]
fn get_replies_map_to_values() {
    assert_eq!(get_reply(Response::Value(b"v".to_vec())).unwrap(), Some(b"v".to_vec()));
    assert_eq!(get_reply(Response::NotFound).unwrap(), None);
    assert_eq!(remote(get_reply(Response::Error("boom".into()))), "boom");
    assert_eq!(remote(get_reply(Response::Okay)), "unexpected response Ok");
    assert_eq!(remote(get_reply(Response::Pong)), "unexpected response Pong");
}

#[test]
fn set_and_delete_replies() {
    assert!(set_reply(Response::Okay).is_ok());
    assert_eq!(remote(set_reply(Response::Error("full".into()))), "full");
    assert_eq!(remote(set_reply(Response::NotFound)), "unexpected response NotFound");
    assert_eq!(delete_reply(Response::Okay).unwrap(), true);
    assert_eq!(delete_reply(Response::NotFound).unwrap(), false);
    assert_eq!(remote(delete_reply(Response::Value(vec![1, 2, 30]))), "unexpected response Value([1, 2, 30])");
}

#[test]
fn unexpected_replies_read_like_their_variant() {
    assert_eq!(unexpected(&Response::Value(vec![])), "unexpected response Value([])");
    assert_eq!(unexpected(&Response::Info("a=1 \"b\"".into())), "unexpected response Info(\"a=1 \\\"b\\\"\")");
    assert_eq!(unexpected(&Response::Error("x".into())), "unexpected response Error(\"x\")");
}

#[test]
fn client_errors_read_as_sentences() {
    assert_eq!(ClientError::Remote("busy".into()).message(), "remote error: busy");
    let io = ClientError::from(std::io::Error::new(std::io::ErrorKind::Other, "refused"));
    assert_eq!(io.message(), "io error: refused");
}

#[test]
fn request_and_reply_lines() {
    assert_eq!(request_line(&Command::Get { key: "k".into() }), "GET k\n");
    assert_eq!(request_line(&Command::SetKey { key: "k".into(), value: b"v".to_vec(), ttl: Some(5) }), "SET k v 5\n");
    assert_eq!(read_reply(b"PONG\r\n"), Ok(Response::Pong));
    assert_eq!(read_reply(b"VALUE hi\r\n"), Ok(Response::Value(b"hi".to_vec())));
    assert_eq!(read_reply(b"WHAT\r\n"), Err(ProtocolError::InvalidResponse));
}

#[test]
fn prompt_lines_parse_as_commands() {
    assert_eq!(cachex::client::parse_command_line("get user:1"), Ok(Command::Get { key: "user:1".into() }));
    assert_eq!(cachex::client::parse_command_line(""), Err(ProtocolError::Empty));
}
