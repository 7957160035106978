use redis_raw::{command_line, command_result, ParseFrom, RedisResult, ReplyReader, Value};

#[test]
fn unit_extraction_accepts_only_okay() {
    assert_eq!(Value::Okay.try_into::<()>(), Ok(()));
    assert!(Value::Nil.try_into::<()>().is_err());
    assert!(Value::Status("OK".to_string()).try_into::<()>().is_err());
}

#[test]
fn integer_extraction_accepts_only_int() {
    assert_eq!(Value::Int(-7).try_into::<i64>(), Ok(-7));
    assert!(Value::Status("7".to_string()).try_into::<i64>().is_err());
    assert!(Value::Bulk(b"7".to_vec()).try_into::<i64>().is_err());
    assert!(Value::Nil.try_into::<i64>().is_err());
    assert!(Value::Okay.try_into::<i64>().is_err());
    assert!(Value::Array(vec![Value::Int(7)]).try_into::<i64>().is_err());
}

#[test]
fn byte_extraction_accepts_only_bulk() {
    assert_eq!(
        Value::Bulk(vec![0xff, 1]).try_into::<Vec<u8>>(),
        Ok(vec![0xff, 1])
    );
    assert!(Value::Status("x".to_string()).try_into::<Vec<u8>>().is_err());
    assert!(Value::Nil.try_into::<Vec<u8>>().is_err());
}

#[test]
fn text_extraction_is_lenient() {
    assert_eq!(Value::Okay.try_into::<String>(), Ok("Ok".to_string()));
    assert_eq!(Value::Nil.try_into::<String>(), Ok(String::new()));
    assert_eq!(Value::Int(-42).try_into::<String>(), Ok("-42".to_string()));
    assert_eq!(Value::Int(1000).try_into::<String>(), Ok("1000".to_string()));
    assert_eq!(
        Value::Status("PONG".to_string()).try_into::<String>(),
        Ok("PONG".to_string())
    );
    assert_eq!(
        Value::Bulk("héllo".as_bytes().to_vec()).try_into::<String>(),
        Ok("héllo".to_string())
    );
    assert!(Value::Bulk(vec![0xff]).try_into::<String>().is_err());
    assert!(Value::Array(Vec::new()).try_into::<String>().is_err());
}

#[test]
fn sequence_extraction_converts_every_element() {
    let (array, _) = redis_raw::decode(b"*2\r\n:1\r\n:2\r\n").unwrap();
    assert_eq!(array.try_into::<Vec<i64>>(), Ok(vec![1, 2]));
    let (mixed, _) = redis_raw::decode(b"*2\r\n:1\r\n+x\r\n").unwrap();
    assert!(mixed.try_into::<Vec<i64>>().is_err());
    assert!(Value::Int(1).try_into::<Vec<i64>>().is_err());
    assert_eq!(
        Value::Array(vec![
            Value::Array(vec![Value::Bulk(b"a".to_vec())]),
            Value::Array(Vec::new())
        ])
        .try_into::<Vec<Vec<String>>>(),
        Ok(vec![vec!["a".to_string()], Vec::new()])
    );
}

#[test]
fn parse_from_matches_try_into() {
    assert_eq!(<i64 as ParseFrom<Value>>::parse_from(Value::Int(3)), Ok(3));
    assert!(<String as ParseFrom<Value>>::parse_from(Value::Array(Vec::new())).is_err());
}

#[test]
fn command_line_appends_the_terminator() {
    assert_eq!(command_line("set k v"), "set k v\r\n");
    assert_eq!(command_line(""), "\r\n");
}

fn exchange<T: ParseFrom<Value>>(command: &str, server_reply: &[u8]) -> RedisResult<T> {
    let line = command_line(command);
    let mut reader = ReplyReader::new();
    reader.feed(server_reply);
    let reply = match reader.next_reply() {
        Ok(Some(value)) => Ok(value),
        Ok(None) => Err("unexpected end of stream".to_string()),
        Err(e) => Err(e.message()),
    };
    command_result(line, reply)
}

#[test]
fn set_then_get_returns_the_value() {
    assert!(exchange::<()>("set k v", b"+OK\r\n").is_ok());
    assert_eq!(exchange::<String>("get k", b"$1\r\nv\r\n").unwrap(), "v");
    assert_eq!(exchange::<String>("get missing", b"$-1\r\n").unwrap(), "");
}

#[test]
fn server_error_names_the_command() {
    let err = exchange::<String>("get", b"-ERR bad arg\r\n").unwrap_err();
    assert_eq!(err.message, "ERR bad arg");
    assert_eq!(err.command, "get\r\n");
}

#[test]
fn extraction_mismatch_names_the_command() {
    let err = exchange::<i64>("get k", b"+PONG\r\n").unwrap_err();
    assert_eq!(err.command, "get k\r\n");
    assert!(err.message.starts_with("Failed parsing"));
}

#[test]
fn reply_reader_waits_for_a_whole_frame() {
    let mut reader = ReplyReader::new();
    reader.feed(b"*2\r\n:1\r\n");
    assert_eq!(reader.next_reply(), Ok(None));
    reader.feed(b":2\r\n+OK\r\n");
    assert_eq!(
        reader.next_reply(),
        Ok(Some(Value::Array(vec![Value::Int(1), Value::Int(2)])))
    );
    assert_eq!(reader.next_reply(), Ok(Some(Value::Okay)));
    assert_eq!(reader.next_reply(), Ok(None));
    reader.feed(b"?\r\n");
    assert!(reader.next_reply().is_err());
}

#[test]
fn reply_reader_takes_off_a_server_error() {
    let mut reader = ReplyReader::new();
    reader.feed(b"-ERR x\r\n+OK\r\n");
    assert_eq!(
        reader.next_reply(),
        Err(redis_raw::DecodeError::Server("ERR x".to_string(), 8))
    );
    assert_eq!(reader.next_reply(), Ok(Some(Value::Okay)));
    assert_eq!(reader.next_reply(), Ok(None));
}

#[test]
fn reply_reader_takes_off_an_array_holding_a_server_error() {
    let mut reader = ReplyReader::new();
    reader.feed(b"*2\r\n-ERR y\r\n:2\r\n:5\r\n");
    assert_eq!(
        reader.next_reply(),
        Err(redis_raw::DecodeError::Server("ERR y".to_string(), 12))
    );
    assert_eq!(reader.next_reply(), Ok(Some(Value::Int(2))));
    assert_eq!(reader.next_reply(), Ok(Some(Value::Int(5))));
}

#[test]
fn extraction_errors_name_the_value() {
    assert_eq!(Value::Nil.try_into::<()>(), Err("Failed parsing Nil".to_string()));
    assert_eq!(
        Value::Okay.try_into::<i64>(),
        Err("Failed parsing Okay".to_string())
    );
    assert_eq!(
        Value::Int(3).try_into::<Vec<u8>>(),
        Err("Failed parsing Int(3)".to_string())
    );
    assert_eq!(
        Value::Bulk(vec![0xff]).try_into::<String>(),
        Err("invalid utf-8 sequence".to_string())
    );
    assert_eq!(
        Value::Array(Vec::new()).try_into::<String>(),
        Err("Failed parsing Array([])".to_string())
    );
    assert_eq!(
        redis_raw::failed_parsing_message("Nil"),
        "Failed parsing Nil"
    );
}

#[test]
fn sequence_extraction_reports_the_first_failing_element() {
    let v = Value::Array(vec![
        Value::Int(1),
        Value::Status("x".to_string()),
        Value::Nil,
    ]);
    assert_eq!(
        v.try_into::<Vec<i64>>(),
        Err("Failed parsing Status(\"x\")".to_string())
    );
    let w = Value::Array(vec![Value::Bulk(vec![0xff]), Value::Array(Vec::new())]);
    assert_eq!(
        w.try_into::<Vec<String>>(),
        Err("invalid utf-8 sequence".to_string())
    );
}

#[test]
fn extraction_failure_keeps_the_extraction_message() {
    let err = exchange::<i64>("ping", b"+PONG\r\n").unwrap_err();
    assert_eq!(err.message, "Failed parsing Status(\"PONG\")");
    assert_eq!(err.command, "ping\r\n");
}

#[test]
fn values_clone_to_equal_values() {
    let v = Value::Array(vec![
        Value::Bulk(vec![1, 2]),
        Value::Array(vec![Value::Status("s".to_string()), Value::Int(-1)]),
        Value::Nil,
        Value::Okay,
    ]);
    assert_eq!(v.clone(), v);
}
