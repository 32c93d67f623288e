use kvs::engine::choose_engine;
use kvs::server::{decode_reply, encode_request, read_request, serve_request, KvsServer,
    Reply, Request, RequestParse, ServeOutcome};
use kvs::KvStore;

fn fresh() -> KvStore {
    KvStore::open(Vec::new()).unwrap()
}

fn roundtrip(engine: &mut KvStore, rq: Request) -> Reply {
    let mut wire: Vec<char> = Vec::new();
    encode_request(&rq, &mut wire);
    let mut out: Vec<char> = Vec::new();
    let used = match serve_request(engine, &wire, 0, &mut out) {
        ServeOutcome::Served { used } => used,
        _ => panic!("request not served"),
    };
    assert_eq!(used, wire.len());
    let (reply, rused) = decode_reply(&out, 0).unwrap();
    assert_eq!(rused, out.len());
    reply
}

#[test]
fn server_session_like_a_client() {
    let mut engine = fresh();
    // get of a missing key: the client prints "Key not found" on Missing
    let r = roundtrip(&mut engine, Request::Get { key: "x".to_string() });
    assert!(matches!(r, Reply::Missing));
    // set x y -> ok
    let r = roundtrip(&mut engine, Request::Put {
        key: "x".to_string(),
        value: "y".to_string(),
    });
    assert!(matches!(r, Reply::Done));
    // get x -> "y"
    let r = roundtrip(&mut engine, Request::Get { key: "x".to_string() });
    match r {
        Reply::Value { value } => assert_eq!(value, "y"),
        _ => panic!("expected a value"),
    }
    // rm x -> ok
    let r = roundtrip(&mut engine, Request::Remove { key: "x".to_string() });
    assert!(matches!(r, Reply::Done));
    // rm x again -> error, and the client exits non-zero on it
    let r = roundtrip(&mut engine, Request::Remove { key: "x".to_string() });
    match r {
        Reply::Error { msg } => assert_eq!(msg, "Key not found"),
        _ => panic!("expected an error"),
    }
}

#[test]
fn malformed_request_gets_an_error_reply() {
    let mut engine = fresh();
    let wire: Vec<char> = "Z 1\nq".chars().collect();
    let mut out: Vec<char> = Vec::new();
    assert!(matches!(serve_request(&mut engine, &wire, 0, &mut out), ServeOutcome::Malformed));
    // the connection still hears why, as a string-encoded error reply
    let (reply, used) = decode_reply(&out, 0).unwrap();
    assert_eq!(used, out.len());
    match reply {
        Reply::Error { msg } => assert_eq!(msg, "Decode error"),
        _ => panic!("expected an error reply"),
    }
}

#[test]
fn truncated_request_waits_for_more() {
    let mut engine = fresh();
    let mut wire: Vec<char> = Vec::new();
    encode_request(&Request::Put { key: "abc".to_string(), value: "xyz".to_string() },
        &mut wire);
    // every strict prefix is incomplete, never malformed
    for cut in 0..wire.len() {
        let part: Vec<char> = wire[..cut].to_vec();
        let mut out: Vec<char> = Vec::new();
        assert!(
            matches!(serve_request(&mut engine, &part, 0, &mut out), ServeOutcome::Incomplete),
            "prefix of {} chars",
            cut
        );
        assert!(out.is_empty());
    }
    assert_eq!(engine.get("abc".to_string()).unwrap(), None);
}

#[test]
fn request_wire_round_trip() {
    let rq = Request::Get { key: "hello".to_string() };
    let mut wire: Vec<char> = Vec::new();
    encode_request(&rq, &mut wire);
    let text: String = wire.iter().collect();
    assert_eq!(text, "G 5\nhello");
    match read_request(&wire, 0) {
        RequestParse::Parsed { req, used } => {
            assert_eq!(used, wire.len());
            assert!(matches!(req, Request::Get { key } if key == "hello"));
        }
        _ => panic!("expected a parsed request"),
    }
}

#[test]
fn several_requests_on_one_stream() {
    let mut engine = fresh();
    let mut wire: Vec<char> = Vec::new();
    encode_request(&Request::Put { key: "a".to_string(), value: "1".to_string() }, &mut wire);
    encode_request(&Request::Get { key: "a".to_string() }, &mut wire);
    let mut out: Vec<char> = Vec::new();
    let mut pos = 0;
    while pos < wire.len() {
        pos += match serve_request(&mut engine, &wire, pos, &mut out) {
            ServeOutcome::Served { used } => used,
            _ => panic!("request not served"),
        };
    }
    let (r1, u1) = decode_reply(&out, 0).unwrap();
    assert!(matches!(r1, Reply::Done));
    let (r2, _) = decode_reply(&out, u1).unwrap();
    assert!(matches!(r2, Reply::Value { value } if value == "1"));
}

#[test]
fn server_struct_serves() {
    let mut server = KvsServer::new(fresh());
    let mut wire: Vec<char> = Vec::new();
    encode_request(&Request::Put { key: "k".to_string(), value: "v".to_string() }, &mut wire);
    let mut out: Vec<char> = Vec::new();
    let used = match server.serve(&wire, 0, &mut out) {
        ServeOutcome::Served { used } => used,
        _ => panic!("request not served"),
    };
    assert_eq!(used, wire.len());
    assert!(matches!(decode_reply(&out, 0).unwrap().0, Reply::Done));
}

#[test]
fn error_messages() {
    assert_eq!(kvs::KvsError::KeyNotFound.message(), "Key not found");
    assert_eq!(kvs::KvsError::Decode.message(), "Decode error");
    assert_eq!(kvs::KvsError::UnexpectedCommandType.message(), "Unexpected command type");
}

#[test]
fn engine_choice() {
    assert_eq!(choose_engine(None, None), Ok("kvs".to_string()));
    assert_eq!(choose_engine(Some("kvs".to_string()), None), Ok("kvs".to_string()));
    assert_eq!(choose_engine(None, Some("sled".to_string())), Ok("sled".to_string()));
    assert_eq!(
        choose_engine(Some("kvs".to_string()), Some("kvs".to_string())),
        Ok("kvs".to_string())
    );
    assert!(choose_engine(Some("sled".to_string()), Some("kvs".to_string())).is_err());
}
