use resp_kv::command::{Command, CommandError};
use resp_kv::resp::Resp;

fn bulk(s: &[u8]) -> Resp {
    Resp::BulkString(Some(s.to_vec()))
}

fn array(items: Vec<Resp>) -> Resp {
    Resp::Array(Some(items))
}

#[test]
fn parses_bare_ping() {
    assert!(matches!(Command::parse(&Resp::SimpleString(b"PING".to_vec())), Ok(Command::Ping)));
    assert!(matches!(Command::parse(&Resp::SimpleString(b"pInG".to_vec())), Ok(Command::Ping)));
    assert_eq!(
        Command::parse(&Resp::SimpleString(b"PONG".to_vec())).unwrap_err(),
        CommandError::UnknownCommand
    );
}

#[test]
fn parses_commands_in_any_case() {
    assert!(matches!(Command::parse(&array(vec![bulk(b"ping")])), Ok(Command::Ping)));
    match Command::parse(&array(vec![bulk(b"eChO"), Resp::Integer(4)])) {
        Ok(Command::Echo(v)) => assert_eq!(v, Resp::Integer(4)),
        _ => panic!("expected ECHO"),
    }
    match Command::parse(&array(vec![bulk(b"get"), bulk(b"k")])) {
        Ok(Command::Get(k)) => assert_eq!(k, "k"),
        _ => panic!("expected GET"),
    }
    match Command::parse(&array(vec![bulk(b"Set"), bulk(b"k"), Resp::Array(None)])) {
        Ok(Command::SetKey(k, v)) => {
            assert_eq!(k, "k");
            assert_eq!(v, Resp::Array(None));
        }
        _ => panic!("expected SET"),
    }
}

#[test]
fn empty_request_is_missing_argument() {
    assert_eq!(Command::parse(&array(Vec::new())).unwrap_err(), CommandError::MissingArgument);
}

#[test]
fn missing_arguments() {
    assert_eq!(Command::parse(&array(vec![bulk(b"ECHO")])).unwrap_err(), CommandError::MissingArgument);
    assert_eq!(Command::parse(&array(vec![bulk(b"GET")])).unwrap_err(), CommandError::MissingArgument);
    assert_eq!(
        Command::parse(&array(vec![bulk(b"SET"), bulk(b"k")])).unwrap_err(),
        CommandError::MissingArgument
    );
}

#[test]
fn extra_arguments() {
    assert_eq!(
        Command::parse(&array(vec![bulk(b"ECHO"), bulk(b"a"), bulk(b"b")])).unwrap_err(),
        CommandError::ExtraArgument
    );
    assert_eq!(
        Command::parse(&array(vec![bulk(b"SET"), bulk(b"k"), bulk(b"v"), bulk(b"w")])).unwrap_err(),
        CommandError::ExtraArgument
    );
}

#[test]
fn key_must_be_bulk_string() {
    assert_eq!(
        Command::parse(&array(vec![bulk(b"GET"), Resp::Integer(1)])).unwrap_err(),
        CommandError::WrongArgumentType
    );
    assert_eq!(
        Command::parse(&array(vec![bulk(b"SET"), Resp::BulkString(None), bulk(b"v")])).unwrap_err(),
        CommandError::WrongArgumentType
    );
}

#[test]
fn key_must_be_utf8() {
    assert_eq!(
        Command::parse(&array(vec![bulk(b"GET"), bulk(&[0xff, 0xfe])])).unwrap_err(),
        CommandError::InvalidUtf8
    );
}

#[test]
fn name_must_be_bulk_string() {
    assert_eq!(
        Command::parse(&array(vec![Resp::SimpleString(b"PING".to_vec())])).unwrap_err(),
        CommandError::UnknownCommand
    );
    assert_eq!(Command::parse(&Resp::Integer(3)).unwrap_err(), CommandError::UnknownCommand);
    assert_eq!(Command::parse(&Resp::Array(None)).unwrap_err(), CommandError::UnknownCommand);
}

#[test]
fn unknown_name() {
    assert_eq!(Command::parse(&array(vec![bulk(b"UNKNOWN")])).unwrap_err(), CommandError::UnknownCommand);
    assert_eq!(Command::parse(&array(vec![bulk(b"PINGS")])).unwrap_err(), CommandError::UnknownCommand);
}
