use parsekit::redis::db::{eq_ignore_ascii_case, normalize_range, parse_integer, RedisMiniDb};
use parsekit::redis::reply::RespReply;
use parsekit::redis::resp::Command;
use parsekit::redis::session::RedisMiniClientSession;

fn run(db: &mut RedisMiniDb, args: &[&[u8]]) -> RespReply {
    db.execute(Command::new(args.iter().map(|a| a.to_vec()).collect()))
}

#[test]
fn get_reads_back_what_set_wrote() {
    let mut db = RedisMiniDb::new();
    assert_eq!(run(&mut db, &[b"SET", b"k", b"v1"]), RespReply::SimpleString("OK"));
    assert_eq!(run(&mut db, &[b"get", b"k"]), RespReply::BulkString(b"v1".to_vec()));
    assert_eq!(run(&mut db, &[b"SET", b"k", b"v2"]), RespReply::SimpleString("OK"));
    assert_eq!(run(&mut db, &[b"GET", b"k"]), RespReply::BulkString(b"v2".to_vec()));
    assert_eq!(run(&mut db, &[b"GET", b"missing"]), RespReply::NullBulkString);
}

#[test]
fn del_removes_keys_and_counts_them() {
    let mut db = RedisMiniDb::new();
    run(&mut db, &[b"SET", b"a", b"1"]);
    run(&mut db, &[b"SET", b"b", b"2"]);
    assert_eq!(run(&mut db, &[b"DEL", b"a", b"b", b"c"]), RespReply::Integer(2));
    assert_eq!(run(&mut db, &[b"GET", b"a"]), RespReply::NullBulkString);
    assert_eq!(run(&mut db, &[b"EXISTS", b"a", b"b"]), RespReply::Integer(0));
}

#[test]
fn counters_and_their_errors() {
    let mut db = RedisMiniDb::new();
    assert_eq!(run(&mut db, &[b"INCR", b"n"]), RespReply::Integer(1));
    assert_eq!(run(&mut db, &[b"INCRBY", b"n", b"41"]), RespReply::Integer(42));
    assert_eq!(run(&mut db, &[b"DECR", b"n"]), RespReply::Integer(41));
    assert_eq!(run(&mut db, &[b"GET", b"n"]), RespReply::BulkString(b"41".to_vec()));
    run(&mut db, &[b"SET", b"s", b"abc"]);
    assert!(matches!(run(&mut db, &[b"INCR", b"s"]), RespReply::Error(_)));
    run(&mut db, &[b"SET", b"max", b"9223372036854775807"]);
    assert!(matches!(run(&mut db, &[b"INCR", b"max"]), RespReply::Error(_)));
}

#[test]
fn lists_push_pop_and_range() {
    let mut db = RedisMiniDb::new();
    assert_eq!(run(&mut db, &[b"RPUSH", b"l", b"a", b"b"]), RespReply::Integer(2));
    assert_eq!(run(&mut db, &[b"LPUSH", b"l", b"z"]), RespReply::Integer(3));
    assert_eq!(
        run(&mut db, &[b"LRANGE", b"l", b"0", b"-1"]),
        RespReply::Array(vec![
            RespReply::BulkString(b"z".to_vec()),
            RespReply::BulkString(b"a".to_vec()),
            RespReply::BulkString(b"b".to_vec()),
        ])
    );
    assert_eq!(run(&mut db, &[b"LPOP", b"l"]), RespReply::BulkString(b"z".to_vec()));
    assert_eq!(run(&mut db, &[b"RPOP", b"l"]), RespReply::BulkString(b"b".to_vec()));
    assert!(matches!(run(&mut db, &[b"GET", b"l"]), RespReply::Error(_)));
    assert!(matches!(run(&mut db, &[b"SET", b"l", b"x"]), RespReply::Error(_)));
}

#[test]
fn ping_echo_and_unknown_commands() {
    let mut db = RedisMiniDb::new();
    assert_eq!(run(&mut db, &[b"PING"]), RespReply::SimpleString("PONG"));
    assert_eq!(run(&mut db, &[b"ECHO", b"hi"]), RespReply::BulkString(b"hi".to_vec()));
    assert_eq!(
        run(&mut db, &[b"FLY", b"x"]),
        RespReply::Error("ERR unknown command 'FLY'".to_owned())
    );
    assert_eq!(
        run(&mut db, &[b"NO\xffPE"]),
        RespReply::Error("ERR unknown command 'NO\u{fffd}PE'".to_owned())
    );
}

#[test]
fn replies_encode_as_resp() {
    assert_eq!(RespReply::SimpleString("OK").encode(), b"+OK\r\n".to_vec());
    assert_eq!(RespReply::Integer(-12).encode(), b":-12\r\n".to_vec());
    assert_eq!(RespReply::NullBulkString.encode(), b"$-1\r\n".to_vec());
    assert_eq!(RespReply::BulkString(b"ab".to_vec()).encode(), b"$2\r\nab\r\n".to_vec());
    assert_eq!(
        RespReply::Array(vec![RespReply::Integer(1)]).encode(),
        b"*1\r\n:1\r\n".to_vec()
    );
    assert_eq!(RespReply::Error("ERR x".to_owned()).encode(), b"-ERR x\r\n".to_vec());
}

#[test]
fn session_answers_pipelined_requests() {
    let mut session = RedisMiniClientSession::new();
    assert_eq!(
        session.process_input(b"*3\r\n$3\r\nSET\r\n$1\r\nk\r\n$1\r\nv\r\nGET k\r\n*1\r\n$4\r\nPI"),
        Ok(b"+OK\r\n$1\r\nv\r\n".to_vec())
    );
    assert_eq!(session.process_input(b"NG\r\n"), Ok(b"+PONG\r\n".to_vec()));
}

#[test]
fn helpers_parse_and_compare() {
    assert_eq!(parse_integer(b"-42"), Some(-42));
    assert_eq!(parse_integer(b"4x"), None);
    assert_eq!(parse_integer(b"9223372036854775808"), None);
    assert!(eq_ignore_ascii_case(b"LrAnGe", b"lrange"));
    assert!(!eq_ignore_ascii_case(b"lrange", b"lrang"));
    assert_eq!(normalize_range(5, 1, -2), Some((1, 3)));
    assert_eq!(normalize_range(5, 4, 1), None);
}

#[test]
fn refused_commands_leave_the_key_space_as_it_was() {
    let mut db = RedisMiniDb::new();
    run(&mut db, &[b"RPUSH", b"l", b"x", b"y"]);
    run(&mut db, &[b"SET", b"s", b"7"]);
    assert!(matches!(run(&mut db, &[b"SET", b"l", b"v"]), RespReply::Error(_)));
    assert!(matches!(run(&mut db, &[b"LPUSH", b"s", b"z"]), RespReply::Error(_)));
    assert!(matches!(run(&mut db, &[b"INCRBY", b"s", b"nope"]), RespReply::Error(_)));
    assert!(matches!(run(&mut db, &[b"GET"]), RespReply::Error(_)));
    assert_eq!(
        run(&mut db, &[b"LRANGE", b"l", b"0", b"-1"]),
        RespReply::Array(vec![RespReply::BulkString(b"x".to_vec()), RespReply::BulkString(b"y".to_vec())])
    );
    assert_eq!(run(&mut db, &[b"GET", b"s"]), RespReply::BulkString(b"7".to_vec()));
    assert_eq!(run(&mut db, &[b"EXISTS", b"l", b"s"]), RespReply::Integer(2));
}
