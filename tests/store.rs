use resp_kv::command::{Command, CommandError};
use resp_kv::database::{Database, Step};
use resp_kv::resp::{DecodeError, Resp};

fn bulk(s: &[u8]) -> Resp {
    Resp::BulkString(Some(s.to_vec()))
}

fn request(parts: &[&[u8]]) -> Resp {
    Resp::Array(Some(parts.iter().map(|p| bulk(p)).collect()))
}

fn reply(step: Step) -> Vec<u8> {
    match step {
        Step::Reply(bytes) => bytes,
        other => panic!("expected a reply, got {:?}", other),
    }
}

#[test]
fn ping_scenario() {
    let mut db = Database::new("main");
    assert_eq!(reply(db.handle_request(b"*1\r\n$4\r\nPING\r\n")), b"+PONG\r\n".to_vec());
}

#[test]
fn echo_scenario() {
    let mut db = Database::new("main");
    assert_eq!(
        reply(db.handle_request(b"*2\r\n$4\r\nECHO\r\n$3\r\nhey\r\n")),
        b"$3\r\nhey\r\n".to_vec()
    );
}

#[test]
fn set_then_get_scenario() {
    let mut db = Database::new("main");
    assert_eq!(
        reply(db.handle_request(b"*3\r\n$3\r\nSET\r\n$3\r\nfoo\r\n$3\r\nbar\r\n")),
        b"+OK\r\n".to_vec()
    );
    assert_eq!(
        reply(db.handle_request(b"*2\r\n$3\r\nGET\r\n$3\r\nfoo\r\n")),
        b"$3\r\nbar\r\n".to_vec()
    );
}

#[test]
fn get_absent_scenario() {
    let mut db = Database::new("main");
    assert_eq!(
        reply(db.handle_request(b"*2\r\n$3\r\nGET\r\n$6\r\nabsent\r\n")),
        b"$-1\r\n".to_vec()
    );
}

#[test]
fn unknown_command_scenario() {
    let mut db = Database::new("main");
    match db.handle_request(b"*1\r\n$7\r\nUNKNOWN\r\n") {
        Step::Refused(e, bytes) => {
            assert_eq!(e, CommandError::UnknownCommand);
            assert_eq!(bytes, b"-ERR unknown command\r\n".to_vec());
        }
        other => panic!("expected a refusal, got {:?}", other),
    }
    // The connection stays usable.
    assert_eq!(reply(db.handle_request(b"*1\r\n$4\r\nping\r\n")), b"+PONG\r\n".to_vec());
}

#[test]
fn step_asks_for_more_or_closes() {
    let mut db = Database::new("main");
    assert!(matches!(db.handle_request(b""), Step::NeedMore));
    assert!(matches!(db.handle_request(b"?x\r\n"), Step::Close(DecodeError::UnknownType)));
}

#[test]
fn concurrent_sets_leave_one_whole_value() {
    let rt = tokio::runtime::Builder::new_multi_thread().worker_threads(2).build().unwrap();
    for _ in 0..20 {
        let db = std::sync::Arc::new(tokio::sync::Mutex::new(Database::new("shared")));
        let (d1, d2) = (db.clone(), db.clone());
        let a = bulk(b"AAAA");
        let b = bulk(b"BBBB");
        let (a2, b2) = (a.clone(), b.clone());
        let got = rt.block_on(async move {
            let t1 = tokio::spawn(async move { d1.lock().await.set("x".to_string(), a2) });
            let t2 = tokio::spawn(async move { d2.lock().await.set("x".to_string(), b2) });
            t1.await.unwrap();
            t2.await.unwrap();
            let guard = db.lock().await;
            guard.get("x")
        });
        let got = got.unwrap();
        assert!(got == a || got == b);
    }
}

#[test]
fn second_set_replaces_first() {
    let mut db = Database::new("main");
    db.set("k".to_string(), bulk(b"v1"));
    db.set("k".to_string(), bulk(b"v2"));
    assert_eq!(db.get("k"), Some(bulk(b"v2")));
}

#[test]
fn missing_key_gives_none_and_null_reply() {
    let mut db = Database::new("main");
    assert_eq!(db.get("nope"), None);
    assert_eq!(db.execute(Command::Get("nope".to_string())), Resp::BulkString(None));
}

#[test]
fn keys_are_distinct() {
    let mut db = Database::new("main");
    db.set("a".to_string(), Resp::Integer(1));
    db.set("b".to_string(), Resp::Integer(2));
    assert_eq!(db.get("a"), Some(Resp::Integer(1)));
    assert_eq!(db.get("b"), Some(Resp::Integer(2)));
    assert_eq!(db.name(), "main");
}

#[test]
fn stored_values_are_opaque() {
    let mut db = Database::new("main");
    let v = Resp::Array(Some(vec![Resp::Integer(5), bulk(b"12")]));
    reply(db.handle_request(b"*3\r\n$3\r\nset\r\n$1\r\nn\r\n*2\r\n:5\r\n$2\r\n12\r\n"));
    assert_eq!(db.get("n"), Some(v.clone()));
    assert_eq!(reply(db.handle_request(b"*2\r\n$3\r\nget\r\n$1\r\nn\r\n")), v.encode());
}

#[test]
fn utf8_keys_are_decoded() {
    let mut db = Database::new("main");
    let key = "cl\u{e9}";
    let cmd = Command::parse(&request(&[b"SET", key.as_bytes(), b"1"])).unwrap();
    assert!(matches!(&cmd, Command::SetKey(k, _) if k == key));
    assert_eq!(reply(db.handle_request(b"*3\r\n$3\r\nSET\r\n$4\r\ncl\xc3\xa9\r\n$1\r\n1\r\n")), b"+OK\r\n".to_vec());
    assert_eq!(db.get(key), Some(bulk(b"1")));
    assert_eq!(db.get("cle"), None);
}

#[test]
fn respond_executes_and_encodes() {
    let mut db = Database::new("main");
    assert_eq!(Command::SetKey("k".to_string(), Resp::Integer(9)).respond(&mut db), b"+OK\r\n".to_vec());
    assert_eq!(Command::Get("k".to_string()).respond(&mut db), b":9\r\n".to_vec());
    assert_eq!(Command::Echo(Resp::Array(None)).respond(&mut db), b"*-1\r\n".to_vec());
    assert_eq!(Command::Ping.respond(&mut db), b"+PONG\r\n".to_vec());
}
