use in_memory_cache::aof::replay;
use in_memory_cache::cmd::{Command, PubSubCmd};
use in_memory_cache::db::Db;
use in_memory_cache::frame::{parse_frame, Frame};

fn bulk(s: &str) -> Frame {
    Frame::Bulk(s.as_bytes().to_vec())
}

fn req(parts: &[&str]) -> Frame {
    Frame::Array(parts.iter().map(|p| bulk(p)).collect())
}

fn run(db: &mut Db, parts: &[&str]) -> Frame {
    match Command::from_frame(req(parts)) {
        Ok(cmd) => cmd.apply(db),
        Err(e) => Frame::Error(e),
    }
}

fn run_at(db: &mut Db, parts: &[&str], now: u64) -> Frame {
    match Command::from_frame(req(parts)) {
        Ok(cmd) => cmd.apply_at(db, now),
        Err(e) => Frame::Error(e),
    }
}

#[test]
fn test_ping() {
    let mut db = Db::new();
    assert_eq!(run(&mut db, &["PING"]), Frame::Simple("PONG".to_string()));
    assert_eq!(run(&mut db, &["ping", "hi"]), bulk("hi"));
}

#[test]
fn test_echo() {
    let mut db = Db::new();
    assert_eq!(run(&mut db, &["ECHO", "rust-cache"]), bulk("rust-cache"));
    assert_eq!(
        run(&mut db, &["ECHO"]),
        Frame::Error("ERR wrong number of arguments for 'echo' command".to_string())
    );
}

#[test]
fn test_set_and_get() {
    let mut db = Db::new();
    assert_eq!(run(&mut db, &["GET", "missing_key"]), Frame::Null);
    assert_eq!(run(&mut db, &["SET", "foo", "bar"]), Frame::Simple("OK".to_string()));
    assert_eq!(run(&mut db, &["GET", "foo"]), bulk("bar"));
    assert_eq!(run(&mut db, &["SET", "foo", "baz"]), Frame::Simple("OK".to_string()));
    assert_eq!(run(&mut db, &["get", "foo"]), bulk("baz"));
}

#[test]
fn test_del() {
    let mut db = Db::new();
    run(&mut db, &["SET", "d1", "v1"]);
    assert_eq!(run(&mut db, &["DEL", "d1", "d2"]), Frame::Integer(1));
    assert_eq!(run(&mut db, &["GET", "d1"]), Frame::Null);
    assert_eq!(
        run(&mut db, &["DEL"]),
        Frame::Error("ERR wrong number of arguments for 'del' command".to_string())
    );
}

#[test]
fn test_set_ex_and_ttl() {
    let mut db = Db::new();
    assert_eq!(run_at(&mut db, &["SET", "temp", "val", "EX", "2"], 1000), Frame::Simple("OK".to_string()));
    assert_eq!(run_at(&mut db, &["TTL", "temp"], 1000), Frame::Integer(2));
    assert_eq!(run_at(&mut db, &["PTTL", "temp"], 1500), Frame::Integer(1500));
    assert_eq!(run_at(&mut db, &["GET", "temp"], 2999), bulk("val"));
    assert_eq!(run_at(&mut db, &["GET", "temp"], 3000), Frame::Null);
    assert_eq!(run_at(&mut db, &["TTL", "temp"], 3000), Frame::Integer(-2));
    assert_eq!(run_at(&mut db, &["SET", "p", "v", "px", "250"], 0), Frame::Simple("OK".to_string()));
    assert_eq!(run_at(&mut db, &["PTTL", "p"], 50), Frame::Integer(200));
    assert_eq!(run_at(&mut db, &["SET", "forever", "v"], 0), Frame::Simple("OK".to_string()));
    assert_eq!(run_at(&mut db, &["TTL", "forever"], 0), Frame::Integer(-1));
}

#[test]
fn test_expire_and_pexpire() {
    let mut db = Db::new();
    run_at(&mut db, &["SET", "exp_key", "exp_val"], 0);
    assert_eq!(run_at(&mut db, &["EXPIRE", "exp_key", "10"], 0), Frame::Integer(1));
    assert_eq!(run_at(&mut db, &["PEXPIRE", "exp_key", "60"], 0), Frame::Integer(1));
    assert_eq!(run_at(&mut db, &["GET", "exp_key"], 80), Frame::Null);
    assert_eq!(run_at(&mut db, &["TTL", "exp_key"], 80), Frame::Integer(-2));
    assert_eq!(run_at(&mut db, &["EXPIRE", "exp_key", "10"], 80), Frame::Integer(0));
    assert_eq!(
        run_at(&mut db, &["EXPIRE", "k", "ten"], 0),
        Frame::Error("ERR value is not an integer or out of range".to_string())
    );
    assert_eq!(
        run_at(&mut db, &["EXPIRE", "k", "1", "x"], 0),
        Frame::Error("ERR syntax error".to_string())
    );
}

#[test]
fn test_pipelining() {
    let mut db = Db::new();
    let raw = b"*1\r\n$4\r\nPING\r\n*3\r\n$3\r\nSET\r\n$1\r\na\r\n$1\r\nb\r\n";
    let mut pos = 0;
    let mut out = Vec::new();
    while let Some((frame, len)) = parse_frame(&raw[pos..]).unwrap() {
        let reply = match Command::from_frame(frame) {
            Ok(cmd) => cmd.apply(&mut db),
            Err(e) => Frame::Error(e),
        };
        reply.write_to_buf(&mut out);
        pos += len;
    }
    assert_eq!(out, b"+PONG\r\n+OK\r\n");
}

#[test]
fn integration_test_test_inline_command() {
    let mut db = Db::new();
    let (frame, _) = parse_frame(b"PING\r\n").unwrap().unwrap();
    let reply = Command::from_frame(frame).unwrap().apply(&mut db);
    let mut out = Vec::new();
    reply.write_to_buf(&mut out);
    assert_eq!(out, b"+PONG\r\n");
}

#[test]
fn test_list_commands() {
    let mut db = Db::new();
    assert_eq!(run(&mut db, &["RPUSH", "mylist", "world"]), Frame::Integer(1));
    assert_eq!(run(&mut db, &["LPUSH", "mylist", "hello"]), Frame::Integer(2));
    assert_eq!(
        run(&mut db, &["LRANGE", "mylist", "0", "-1"]),
        Frame::Array(vec![bulk("hello"), bulk("world")])
    );
    assert_eq!(run(&mut db, &["LPOP", "mylist"]), bulk("hello"));
    assert_eq!(run(&mut db, &["RPOP", "mylist"]), bulk("world"));
    assert_eq!(run(&mut db, &["RPOP", "mylist"]), Frame::Null);
    assert_eq!(
        run(&mut db, &["LRANGE", "mylist", "zero", "1"]),
        Frame::Error("ERR value is not an integer or out of range".to_string())
    );
}

#[test]
fn test_hash_commands() {
    let mut db = Db::new();
    assert_eq!(
        run(&mut db, &["HSET", "user:1", "name", "cagdas", "role", "engineer"]),
        Frame::Integer(2)
    );
    assert_eq!(run(&mut db, &["HGET", "user:1", "name"]), bulk("cagdas"));
    assert_eq!(run(&mut db, &["HDEL", "user:1", "role"]), Frame::Integer(1));
    assert_eq!(
        run(&mut db, &["HGETALL", "user:1"]),
        Frame::Array(vec![bulk("name"), bulk("cagdas")])
    );
    assert_eq!(
        run(&mut db, &["HSET", "user:1", "name"]),
        Frame::Error("ERR wrong number of arguments for 'hset' command".to_string())
    );
}

#[test]
fn test_set_commands() {
    let mut db = Db::new();
    assert_eq!(run(&mut db, &["SADD", "tags", "rust", "cache", "memory"]), Frame::Integer(3));
    assert_eq!(run(&mut db, &["SISMEMBER", "tags", "rust"]), Frame::Integer(1));
    assert_eq!(run(&mut db, &["SREM", "tags", "memory"]), Frame::Integer(1));
    assert_eq!(run(&mut db, &["SISMEMBER", "tags", "memory"]), Frame::Integer(0));
    assert_eq!(
        run(&mut db, &["SMEMBERS", "tags"]),
        Frame::Array(vec![bulk("rust"), bulk("cache")])
    );
}

#[test]
fn test_keys_command() {
    let mut db = Db::new();
    for (k, v) in &[("user:101", "Alice"), ("user:102", "Bob"), ("order:501", "Widget")] {
        assert_eq!(run(&mut db, &["SET", k, v]), Frame::Simple("OK".to_string()));
    }
    match run(&mut db, &["KEYS", "*"]) {
        Frame::Array(arr) => assert_eq!(arr.len(), 3),
        other => panic!("expected array, got {:?}", other),
    }
    match run(&mut db, &["KEYS", "user:*"]) {
        Frame::Array(arr) => assert_eq!(arr.len(), 2),
        other => panic!("expected array, got {:?}", other),
    }
    assert_eq!(run(&mut db, &["KEYS", "nonexistent:*"]), Frame::Array(vec![]));
}

#[test]
fn test_scan_command() {
    let mut db = Db::new();
    for i in 0..15 {
        let k = format!("item:{}", i);
        let v = format!("val:{}", i);
        run(&mut db, &["SET", &k, &v]);
    }
    match run(&mut db, &["SCAN", "0", "COUNT", "100"]) {
        Frame::Array(parts) => {
            assert_eq!(parts.len(), 2);
            assert_eq!(parts[0], bulk("0"));
            match &parts[1] {
                Frame::Array(keys) => assert_eq!(keys.len(), 15),
                other => panic!("expected keys, got {:?}", other),
            }
        }
        other => panic!("expected array, got {:?}", other),
    }
    match run(&mut db, &["SCAN", "0", "MATCH", "item:1*", "COUNT", "100"]) {
        Frame::Array(parts) => match &parts[1] {
            Frame::Array(keys) => assert_eq!(keys.len(), 6),
            other => panic!("expected keys, got {:?}", other),
        },
        other => panic!("expected array, got {:?}", other),
    }
    match run(&mut db, &["SCAN", "0", "TYPE", "STRING", "COUNT", "100"]) {
        Frame::Array(parts) => match &parts[1] {
            Frame::Array(keys) => assert_eq!(keys.len(), 15),
            other => panic!("expected keys, got {:?}", other),
        },
        other => panic!("expected array, got {:?}", other),
    }
    assert_eq!(run(&mut db, &["SCAN", "x"]), Frame::Error("ERR invalid cursor".to_string()));
}

#[test]
fn test_pubsub() {
    match Command::from_frame(req(&["SUBSCRIBE", "news", "sport"])).unwrap() {
        Command::PubSub(PubSubCmd::Subscribe { channels }) => {
            assert_eq!(channels, vec!["news".to_string(), "sport".to_string()])
        }
        other => panic!("unexpected {:?}", other),
    }
    match Command::from_frame(req(&["PUBLISH", "news", "Rust 2026 Released"])).unwrap() {
        Command::PubSub(p) => assert_eq!(p.apply_publish(1), Frame::Integer(1)),
        other => panic!("unexpected {:?}", other),
    }
    assert_eq!(
        Command::from_frame(req(&["SUBSCRIBE"])).unwrap_err(),
        "ERR wrong number of arguments for 'subscribe' command"
    );
}

#[test]
fn cmd_unknown_and_malformed_requests() {
    assert_eq!(
        Command::from_frame(req(&["frobnicate"])).unwrap_err(),
        "ERR unknown command 'FROBNICATE'"
    );
    assert_eq!(
        Command::from_frame(Frame::Array(vec![])).unwrap_err(),
        "protocol error; empty command array"
    );
    assert_eq!(
        Command::from_frame(Frame::Array(vec![Frame::Integer(1)])).unwrap_err(),
        "protocol error; command name must be a string"
    );
    assert!(Command::from_frame(Frame::Integer(3))
        .unwrap_err()
        .starts_with("protocol error; expected array, got "));
    assert_eq!(
        Command::from_frame(req(&["SET", "k", "v", "NX"])).unwrap_err(),
        "ERR syntax error"
    );
}

#[test]
fn test_aof_recovery() {
    let mut log = Vec::new();
    req(&["SET", "saved_key", "persisted_val"]).write_to_buf(&mut log);
    req(&["RPUSH", "saved_list", "item1", "item2"]).write_to_buf(&mut log);
    req(&["NOSUCH"]).write_to_buf(&mut log);
    log.extend_from_slice(b"*2\r\n$3\r\nGET");
    let mut fresh = Db::new();
    let count = replay(&mut fresh, &log).unwrap();
    assert_eq!(count, 2);
    assert_eq!(fresh.get(b"saved_key").unwrap(), Some(b"persisted_val".to_vec()));
    assert_eq!(
        fresh.lrange(b"saved_list", 0, -1).unwrap(),
        vec![b"item1".to_vec(), b"item2".to_vec()]
    );
}

#[test]
fn cmd_non_array_request_quotes_the_frame() {
    assert_eq!(
        Command::from_frame(Frame::Integer(3)).unwrap_err(),
        "protocol error; expected array, got Integer(3)"
    );
    assert_eq!(
        Command::from_frame(Frame::Simple("PING".to_string())).unwrap_err(),
        "protocol error; expected array, got Simple(\"PING\")"
    );
}

#[test]
fn set_command_evicts_only_for_room() {
    // Each entry is 1 + 10 + 64 = 75 bytes; two fit under 200, a third does not.
    let mut db = Db::with_options(1, 200);
    assert_eq!(run_at(&mut db, &["SET", "a", "0123456789"], 1), Frame::Simple("OK".to_string()));
    assert_eq!(run_at(&mut db, &["SET", "b", "0123456789"], 2), Frame::Simple("OK".to_string()));
    assert_eq!(db.len(), 2);
    assert_eq!(run_at(&mut db, &["SET", "c", "0123456789"], 3), Frame::Simple("OK".to_string()));
    assert_eq!(db.len(), 2);
    assert_eq!(db.current_memory(), 150);
    assert_eq!(run_at(&mut db, &["GET", "c"], 4), bulk("0123456789"));
    // Other commands never evict.
    let mut db = Db::with_options(1, 200);
    run_at(&mut db, &["SET", "a", "0123456789"], 1);
    run_at(&mut db, &["SET", "b", "0123456789"], 2);
    run_at(&mut db, &["RPUSH", "l", "0123456789", "0123456789"], 3);
    assert_eq!(db.len(), 3);
}

#[test]
fn replay_under_a_limit_stays_within_it() {
    let mut log = Vec::new();
    req(&["SET", "a", "0123456789"]).write_to_buf(&mut log);
    req(&["SET", "b", "0123456789"]).write_to_buf(&mut log);
    req(&["SET", "c", "0123456789"]).write_to_buf(&mut log);
    let mut db = Db::with_options(1, 200);
    assert_eq!(replay(&mut db, &log).unwrap(), 3);
    assert_eq!(db.len(), 2);
    assert_eq!(db.current_memory(), 150);
    assert_eq!(db.get(b"c").unwrap(), Some(b"0123456789".to_vec()));
}
