use resp_kv::{execute_command, get_command, CommandError, Commands, RespValue, Store};

fn bulk(v: &str) -> RespValue {
    RespValue::BulkString(Some(v.as_bytes().to_vec()))
}

fn array(v: Vec<RespValue>) -> RespValue {
    RespValue::Arrays(Some(v))
}

#[test]
fn ping_returns_pong() {
    let mut store = Store::new();
    let result = execute_command(
        Commands::PING,
        &RespValue::SimpleString(vec![]),
        &mut store,
    )
    .unwrap();

    assert_eq!(result, RespValue::SimpleString(b"PONG".to_vec()));
}

#[test]
fn echo_returns_same_value() {
    let mut store = Store::new();

    let input = array(vec![
        RespValue::SimpleString(b"ECHO".to_vec()),
        bulk("hello"),
    ]);

    let result = execute_command(Commands::ECHO, &input, &mut store).unwrap();
    assert_eq!(result, bulk("hello"));
}

#[test]
fn set_then_get_returns_value() {
    let mut store = Store::new();

    let set_cmd = array(vec![
        RespValue::SimpleString(b"SET".to_vec()),
        bulk("key"),
        bulk("value"),
    ]);

    let set_res = execute_command(Commands::SET, &set_cmd, &mut store).unwrap();
    assert_eq!(set_res, RespValue::SimpleString(b"OK".to_vec()));

    let get_cmd = array(vec![
        RespValue::SimpleString(b"GET".to_vec()),
        bulk("key"),
    ]);

    let get_res = execute_command(Commands::GET, &get_cmd, &mut store).unwrap();
    assert_eq!(get_res, bulk("value"));
}

#[test]
fn get_non_existing_key_returns_null() {
    let mut store = Store::new();

    let get_cmd = array(vec![
        RespValue::SimpleString(b"GET".to_vec()),
        bulk("missing"),
    ]);

    let result = execute_command(Commands::GET, &get_cmd, &mut store).unwrap();
    assert_eq!(result, RespValue::BulkString(None));
}

#[test]
fn set_with_invalid_args_fails() {
    let mut store = Store::new();

    let bad_set = array(vec![
        RespValue::SimpleString(b"SET".to_vec()),
        bulk("only_key"),
    ]);

    let result = execute_command(Commands::SET, &bad_set, &mut store);
    assert!(result.is_err());
}

#[test]
fn from_bytes_ping_case_insensitive() {
    assert_eq!(Commands::from_bytes(b"PING"), Some(Commands::PING));
    assert_eq!(Commands::from_bytes(b"ping"), Some(Commands::PING));
    assert_eq!(Commands::from_bytes(b"PiNg"), Some(Commands::PING));
}

#[test]
fn from_bytes_unknown_command() {
    assert_eq!(Commands::from_bytes(b"FOO"), None);
}

#[test]
fn get_command_ping() {
    let input = array(vec![bulk("PING")]);
    let cmd = get_command(&input).unwrap();
    assert_eq!(cmd, Commands::PING);
}

#[test]
fn get_command_echo() {
    let input = array(vec![bulk("ECHO"), bulk("hello")]);
    let cmd = get_command(&input).unwrap();
    assert_eq!(cmd, Commands::ECHO);
}

#[test]
fn get_command_set() {
    let input = array(vec![bulk("SET"), bulk("key"), bulk("value")]);
    let cmd = get_command(&input).unwrap();
    assert_eq!(cmd, Commands::SET);
}

#[test]
fn get_command_get() {
    let input = array(vec![bulk("GET"), bulk("key")]);
    let cmd = get_command(&input).unwrap();
    assert_eq!(cmd, Commands::GET);
}

#[test]
fn get_command_unknown_command() {
    let input = array(vec![bulk("UNKNOWN")]);
    let err = get_command(&input).unwrap_err();
    assert_eq!(err, CommandError::UnknownCommand);
}

#[test]
fn get_command_empty_array() {
    let input = RespValue::Arrays(Some(vec![]));
    let err = get_command(&input).unwrap_err();
    assert_eq!(err, CommandError::InvalidRequest);
}

#[test]
fn get_command_non_array_input() {
    let input = bulk("PING");
    let err = get_command(&input).unwrap_err();
    assert_eq!(err, CommandError::InvalidRequest);
}

#[test]
fn get_command_non_bulkstring_command() {
    let input = array(vec![RespValue::Integer(1)]);
    let err = get_command(&input).unwrap_err();
    assert_eq!(err, CommandError::InvalidRequest);
}
