use cachex::protocol::{
    encode_command, encode_response, parse_command, parse_response, Command, ProtocolError, Response,
};

#[test]
fn parse_set_without_ttl() {
    let cmd = parse_command("SET user:101 Jill").unwrap();
    assert_eq!(
        cmd,
        Command::SetKey { key: "user:101".to_string(), value: b"Jill".to_vec(), ttl: None }
    );
}

#[test]
fn parse_set_with_ttl() {
    let cmd = parse_command("SET session:123 abc123 60").unwrap();
    assert_eq!(
        cmd,
        Command::SetKey { key: "session:123".to_string(), value: b"abc123".to_vec(), ttl: Some(60) }
    );
}

#[test]
fn parse_set_value_with_spaces() {
    let cmd = parse_command("SET note hello world").unwrap();
    assert_eq!(
        cmd,
        Command::SetKey { key: "note".to_string(), value: b"hello world".to_vec(), ttl: None }
    );
}

#[test]
fn parse_get_delete_ping_info() {
    assert_eq!(parse_command("GET user:101").unwrap(), Command::Get { key: "user:101".into() });
    assert_eq!(parse_command("DELETE user:101").unwrap(), Command::Delete { key: "user:101".into() });
    assert_eq!(parse_command("PING").unwrap(), Command::Ping);
    assert_eq!(parse_command("INFO").unwrap(), Command::Info);
    assert_eq!(parse_command("ping").unwrap(), Command::Ping);
}

#[test]
fn parse_errors() {
    assert_eq!(parse_command(""), Err(ProtocolError::Empty));
    assert!(matches!(parse_command("BOGUS x"), Err(ProtocolError::UnknownCommand(_))));
    assert!(matches!(parse_command("GET a b"), Err(ProtocolError::WrongArity(_))));
    assert!(matches!(parse_command("SET onlykey"), Err(ProtocolError::WrongArity(_))));
}

#[test]
fn command_round_trip() {
    let commands = vec![
        Command::Ping,
        Command::Info,
        Command::SetKey { key: "k1".into(), value: b"v1".to_vec(), ttl: None },
        Command::SetKey { key: "k2".into(), value: b"v2".to_vec(), ttl: Some(42) },
        Command::Get { key: "k1".into() },
        Command::Delete { key: "k1".into() },
    ];
    for command in commands {
        let line = encode_command(&command);
        assert_eq!(parse_command(&line).unwrap(), command, "round trip failed for {line}");
    }
}

#[test]
fn response_round_trip() {
    let responses = vec![
        Response::Pong,
        Response::Okay,
        Response::Value(b"Jill".to_vec()),
        Response::NotFound,
        Response::Error("something broke".to_string()),
        Response::Info("keys=0 hits=0".to_string()),
    ];
    for response in responses {
        let line = String::from_utf8(encode_response(&response)).unwrap();
        assert_eq!(parse_response(&line).unwrap(), response, "round trip failed for {line}");
    }
}

#[test]
fn whitespace_only_request_is_empty() {
    assert_eq!(parse_command(" \t\r\n"), Err(ProtocolError::Empty));
}

#[test]
fn unknown_command_is_upper_cased() {
    assert_eq!(parse_command("bogus x"), Err(ProtocolError::UnknownCommand("BOGUS".to_string())));
    assert_eq!(parse_command("GET"), Err(ProtocolError::WrongArity("GET".to_string())));
    assert_eq!(parse_command("delete a b"), Err(ProtocolError::WrongArity("DELETE".to_string())));
}

#[test]
fn set_ttl_rules() {
    // Only a third or later argument can be a TTL, and it must read as a u64.
    assert_eq!(
        parse_command("SET k 5").unwrap(),
        Command::SetKey { key: "k".into(), value: b"5".to_vec(), ttl: None }
    );
    assert_eq!(
        parse_command("SET k a b -5").unwrap(),
        Command::SetKey { key: "k".into(), value: b"a b -5".to_vec(), ttl: None }
    );
    assert_eq!(
        parse_command("SET k a +7").unwrap(),
        Command::SetKey { key: "k".into(), value: b"a".to_vec(), ttl: Some(7) }
    );
    assert_eq!(
        parse_command("SET k a 18446744073709551616").unwrap(),
        Command::SetKey { key: "k".into(), value: b"a 18446744073709551616".to_vec(), ttl: None }
    );
    assert_eq!(
        parse_command("  SET   k   a\tb  ").unwrap(),
        Command::SetKey { key: "k".into(), value: b"a b".to_vec(), ttl: None }
    );
}

#[test]
fn encode_writes_the_wire_format() {
    assert_eq!(encode_command(&Command::SetKey { key: "k".into(), value: b"v w".to_vec(), ttl: Some(9) }), "SET k v w 9");
    assert_eq!(encode_command(&Command::SetKey { key: "k".into(), value: vec![0xff], ttl: None }), "SET k \u{fffd}");
    assert_eq!(encode_response(&Response::Value(b"x".to_vec())), b"VALUE x\n".to_vec());
    assert_eq!(encode_response(&Response::Okay), b"OK\n".to_vec());
    assert_eq!(encode_response(&Response::NotFound), b"NOTFOUND\n".to_vec());
}

#[test]
fn parse_response_edges() {
    assert_eq!(parse_response("VALUE a b\r\n").unwrap(), Response::Value(b"a b".to_vec()));
    assert_eq!(parse_response("ERROR\n").unwrap(), Response::Error(String::new()));
    assert_eq!(parse_response("INFO  x").unwrap(), Response::Info(" x".to_string()));
    assert_eq!(parse_response("pong"), Err(ProtocolError::InvalidResponse));
    assert_eq!(parse_response(""), Err(ProtocolError::InvalidResponse));
}

#[test]
fn error_messages() {
    assert_eq!(ProtocolError::Empty.message(), "empty request");
    assert_eq!(ProtocolError::UnknownCommand("X".into()).message(), "unknown command: X");
    assert_eq!(ProtocolError::WrongArity("GET".into()).message(), "wrong argument count for GET");
    assert_eq!(ProtocolError::InvalidResponse.message(), "malformed response");
}
