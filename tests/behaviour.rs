use resp_kv::{
    error_to_resp, execute_command, get_command, handle_request, parse_dispatcher, process,
    read_integer, read_line, serializer, CommandError, Commands, ParseError, RespValue,
    ServerError, Store,
};

fn bulk(s: &str) -> RespValue {
    RespValue::BulkString(Some(s.as_bytes().to_vec()))
}

fn request(words: &[&str]) -> RespValue {
    RespValue::Arrays(Some(words.iter().map(|w| bulk(w)).collect()))
}

fn samples() -> Vec<RespValue> {
    vec![
        RespValue::SimpleString(b"OK".to_vec()),
        RespValue::SimpleString(vec![]),
        RespValue::SimpleString(b"a\rb\nc\r".to_vec()),
        RespValue::Error(b"ERR bad".to_vec()),
        RespValue::Integer(0),
        RespValue::Integer(-42),
        RespValue::Integer(i64::MIN),
        RespValue::Integer(i64::MAX),
        RespValue::BulkString(None),
        RespValue::BulkString(Some(vec![])),
        RespValue::BulkString(Some(b"with\r\ninside".to_vec())),
        RespValue::Arrays(None),
        RespValue::Arrays(Some(vec![])),
        RespValue::Arrays(Some(vec![
            RespValue::Arrays(Some(vec![RespValue::Arrays(None), RespValue::Integer(-1)])),
            RespValue::BulkString(None),
            RespValue::BulkString(Some(vec![])),
            RespValue::Arrays(Some(vec![])),
            RespValue::SimpleString(b"x".to_vec()),
        ])),
    ]
}

#[test]
fn round_trip_on_samples() {
    for v in samples() {
        let bytes = serializer(&v).unwrap();
        let decoded = parse_dispatcher(&bytes).unwrap();
        assert_eq!(decoded.result, v);
        assert_eq!(decoded.bytes_read, bytes.len());
    }
}

#[test]
fn every_strict_prefix_fails() {
    for v in samples() {
        let bytes = serializer(&v).unwrap();
        assert_eq!(parse_dispatcher(&bytes[..0]).unwrap_err(), ParseError::InvalidInput);
        for j in 1..bytes.len() {
            let e = parse_dispatcher(&bytes[..j]).unwrap_err();
            assert!(matches!(
                e,
                ParseError::UnexpectedEof | ParseError::MissingCRLF | ParseError::InvalidLength
            ));
        }
    }
}

#[test]
fn trailing_bytes_are_not_read() {
    let res = parse_dispatcher(b"+OK\r\n:1\r\n").unwrap();
    assert_eq!(res.result, RespValue::SimpleString(b"OK".to_vec()));
    assert_eq!(res.bytes_read, 5);
}

#[test]
fn decode_error_kinds() {
    assert_eq!(parse_dispatcher(b"").unwrap_err(), ParseError::InvalidInput);
    assert_eq!(parse_dispatcher(b"!x\r\n").unwrap_err(), ParseError::InvalidInput);
    assert_eq!(parse_dispatcher(b"+OK").unwrap_err(), ParseError::MissingCRLF);
    assert_eq!(parse_dispatcher(b":12a\r\n").unwrap_err(), ParseError::InvalidLength);
    assert_eq!(parse_dispatcher(b":\r\n").unwrap_err(), ParseError::UnexpectedEof);
    assert_eq!(parse_dispatcher(b":-\r\n").unwrap_err(), ParseError::UnexpectedEof);
    assert_eq!(parse_dispatcher(b"$3\r\nabcd\r\n").unwrap_err(), ParseError::InvalidLength);
    assert_eq!(parse_dispatcher(b"$3\r\nab").unwrap_err(), ParseError::MissingCRLF);
    assert_eq!(parse_dispatcher(b"*2\r\n:1\r\n").unwrap_err(), ParseError::UnexpectedEof);
}

#[test]
fn integer_bounds() {
    let min = parse_dispatcher(b":-9223372036854775808\r\n").unwrap();
    assert_eq!(min.result, RespValue::Integer(i64::MIN));
    let max = parse_dispatcher(b":+9223372036854775807\r\n").unwrap();
    assert_eq!(max.result, RespValue::Integer(i64::MAX));
    assert_eq!(
        parse_dispatcher(b":9223372036854775808\r\n").unwrap_err(),
        ParseError::InvalidLength
    );
    assert_eq!(
        parse_dispatcher(b":-9223372036854775809\r\n").unwrap_err(),
        ParseError::InvalidLength
    );
    assert_eq!(read_integer(b"007").unwrap(), (7, 3));
    assert_eq!(read_integer(b"99999999999999999999").unwrap_err(), ParseError::InvalidLength);
}

#[test]
fn negative_lengths_are_null() {
    let b = parse_dispatcher(b"$-5\r\n").unwrap();
    assert_eq!(b.result, RespValue::BulkString(None));
    assert_eq!(b.bytes_read, 5);
    let a = parse_dispatcher(b"*-3\r\nrest").unwrap();
    assert_eq!(a.result, RespValue::Arrays(None));
    assert_eq!(a.bytes_read, 5);
    assert_ne!(RespValue::BulkString(None), RespValue::BulkString(Some(vec![])));
    assert_ne!(RespValue::Arrays(None), RespValue::Arrays(Some(vec![])));
}

#[test]
fn read_line_splits_at_first_crlf() {
    let (line, rest) = read_line(b"ab\r\ncd\r\n", 0).unwrap();
    assert_eq!(line, b"ab");
    assert_eq!(rest, b"cd\r\n");
    let (line, rest) = read_line(b"ab\r\ncd\r\n", 3).unwrap();
    assert_eq!(line, b"ab\r\ncd");
    assert_eq!(rest, b"");
    assert_eq!(read_line(b"ab\n", 0).unwrap_err(), ParseError::MissingCRLF);
}

#[test]
fn encode_exact_bytes() {
    assert_eq!(serializer(&RespValue::Integer(i64::MIN)).unwrap(), b":-9223372036854775808\r\n".to_vec());
    assert_eq!(serializer(&RespValue::Integer(1234567890)).unwrap(), b":1234567890\r\n".to_vec());
    let long = RespValue::BulkString(Some(vec![b'z'; 12]));
    assert_eq!(serializer(&long).unwrap(), b"$12\r\nzzzzzzzzzzzz\r\n".to_vec());
}

#[test]
fn resolve_is_case_insensitive() {
    assert_eq!(get_command(&request(&["echo", "x"])).unwrap(), Commands::ECHO);
    assert_eq!(get_command(&request(&["sEt"])).unwrap(), Commands::SET);
    assert_eq!(get_command(&request(&["gEt"])).unwrap(), Commands::GET);
    assert_eq!(Commands::from_bytes(b"PINGS"), None);
    assert_eq!(Commands::from_bytes(b""), None);
    assert_eq!(get_command(&RespValue::Arrays(None)).unwrap_err(), CommandError::InvalidRequest);
    assert_eq!(
        get_command(&RespValue::Arrays(Some(vec![RespValue::BulkString(None)]))).unwrap_err(),
        CommandError::InvalidRequest
    );
}

#[test]
fn arity_is_enforced() {
    let mut store = Store::new();
    let cases = vec![
        (Commands::ECHO, request(&["ECHO"])),
        (Commands::ECHO, request(&["ECHO", "a", "b"])),
        (Commands::SET, request(&["SET"])),
        (Commands::SET, request(&["SET", "k"])),
        (Commands::SET, request(&["SET", "k", "v", "extra"])),
        (Commands::GET, request(&["GET"])),
        (Commands::GET, request(&["GET", "k", "extra"])),
        (Commands::GET, bulk("GET")),
    ];
    for (c, req) in cases {
        assert_eq!(execute_command(c, &req, &mut store).unwrap_err(), CommandError::InvalidRequest);
    }
    let got = execute_command(Commands::GET, &request(&["GET", "k"]), &mut store).unwrap();
    assert_eq!(got, RespValue::BulkString(None));
}

#[test]
fn echo_returns_any_value_unchanged() {
    let mut store = Store::new();
    let arg = RespValue::Arrays(Some(vec![RespValue::Integer(-7), RespValue::Arrays(None)]));
    let req = RespValue::Arrays(Some(vec![bulk("ECHO"), arg.clone()]));
    assert_eq!(execute_command(Commands::ECHO, &req, &mut store).unwrap(), arg);
}

#[test]
fn last_write_wins() {
    let mut store = Store::new();
    let key = RespValue::Integer(5);
    for v in ["one", "two"] {
        let req = RespValue::Arrays(Some(vec![bulk("SET"), key.clone(), bulk(v)]));
        let ok = execute_command(Commands::SET, &req, &mut store).unwrap();
        assert_eq!(ok, RespValue::SimpleString(b"OK".to_vec()));
    }
    let req = RespValue::Arrays(Some(vec![bulk("GET"), key.clone()]));
    assert_eq!(execute_command(Commands::GET, &req, &mut store).unwrap(), bulk("two"));
    assert_eq!(store.get(&RespValue::Integer(6)).ok().unwrap(), RespValue::BulkString(None));
}

#[test]
fn keys_compare_by_value_and_null_differs_from_empty() {
    let mut store = Store::new();
    store.set(&RespValue::BulkString(None), &bulk("null")).ok().unwrap();
    store.set(&RespValue::BulkString(Some(vec![])), &bulk("empty")).ok().unwrap();
    assert_eq!(store.get(&RespValue::BulkString(None)).ok().unwrap(), bulk("null"));
    assert_eq!(store.get(&RespValue::BulkString(Some(vec![]))).ok().unwrap(), bulk("empty"));
}

#[test]
fn distinct_keys_all_kept() {
    let mut store = Store::default();
    let n = 50;
    for i in 0..n {
        let k = format!("key{}", i);
        store.set(&bulk(&k), &RespValue::Integer(i)).ok().unwrap();
    }
    for i in 0..n {
        let k = format!("key{}", i);
        assert_eq!(store.get(&bulk(&k)).ok().unwrap(), RespValue::Integer(i));
    }
}

#[test]
fn error_replies() {
    let unknown = RespValue::Error(b"ERR unknown command".to_vec());
    let protocol = RespValue::Error(b"ERR protocol error".to_vec());
    assert_eq!(error_to_resp(ServerError::Command(CommandError::UnknownCommand)), unknown);
    assert_eq!(error_to_resp(ServerError::Command(CommandError::InvalidRequest)), unknown);
    assert_eq!(error_to_resp(ServerError::Command(CommandError::ParseFailed)), protocol);
    assert_eq!(error_to_resp(ServerError::Parse(ParseError::MissingCRLF)), protocol);
    assert_eq!(
        error_to_resp(ServerError::PoolCreationError),
        RespValue::Error(b"Thread pool could not be created".to_vec())
    );
}

#[test]
fn process_reports_errors() {
    let mut store = Store::new();
    assert_eq!(
        process(b"$3\r\nab", &mut store).unwrap_err(),
        ServerError::Parse(ParseError::MissingCRLF)
    );
    assert_eq!(
        process(b"*1\r\n$3\r\nFOO\r\n", &mut store).unwrap_err(),
        ServerError::Command(CommandError::UnknownCommand)
    );
    assert_eq!(process(b"*1\r\n$4\r\nping\r\n", &mut store).unwrap(), b"+PONG\r\n".to_vec());
}

#[test]
fn scenario_ping() {
    let mut store = Store::new();
    assert_eq!(handle_request(b"*1\r\n$4\r\nPING\r\n", &mut store), b"+PONG\r\n".to_vec());
}

#[test]
fn scenario_echo() {
    let mut store = Store::new();
    assert_eq!(
        handle_request(b"*2\r\n$4\r\nECHO\r\n$5\r\nhello\r\n", &mut store),
        b"$5\r\nhello\r\n".to_vec()
    );
}

#[test]
fn scenario_set_then_get() {
    let mut store = Store::new();
    assert_eq!(
        handle_request(b"*3\r\n$3\r\nSET\r\n$3\r\nfoo\r\n$3\r\nbar\r\n", &mut store),
        b"+OK\r\n".to_vec()
    );
    assert_eq!(
        handle_request(b"*2\r\n$3\r\nGET\r\n$3\r\nfoo\r\n", &mut store),
        b"$3\r\nbar\r\n".to_vec()
    );
}

#[test]
fn scenario_get_missing() {
    let mut store = Store::new();
    assert_eq!(handle_request(b"*2\r\n$3\r\nGET\r\n$7\r\nmissing\r\n", &mut store), b"$-1\r\n".to_vec());
}

#[test]
fn scenario_set_missing_value() {
    let mut store = Store::new();
    assert_eq!(
        handle_request(b"*2\r\n$3\r\nSET\r\n$3\r\nfoo\r\n", &mut store),
        b"-ERR unknown command\r\n".to_vec()
    );
}

#[test]
fn scenario_unknown_verb() {
    let mut store = Store::new();
    assert_eq!(handle_request(b"*1\r\n$3\r\nFOO\r\n", &mut store), b"-ERR unknown command\r\n".to_vec());
}

#[test]
fn scenario_protocol_error() {
    let mut store = Store::new();
    assert_eq!(handle_request(b"*1\r\n$9\r\nPING\r\n", &mut store), b"-ERR protocol error\r\n".to_vec());
    assert_eq!(handle_request(b"", &mut store), b"-ERR protocol error\r\n".to_vec());
}

#[test]
fn server_error_conversions() {
    assert_eq!(
        ServerError::from(CommandError::InvalidRequest),
        ServerError::Command(CommandError::InvalidRequest)
    );
    assert_eq!(
        ServerError::from(ParseError::UnexpectedEof),
        ServerError::Parse(ParseError::UnexpectedEof)
    );
}
