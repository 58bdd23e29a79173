use in_memory_cache::db::{Db, WRONG_TYPE_ERR};
use in_memory_cache::glob::glob_match;

fn b(s: &str) -> Vec<u8> {
    s.as_bytes().to_vec()
}

#[test]
fn test_list_operations() {
    let mut db = Db::new();
    let key = b("mylist");

    // RPUSH mylist 1 2 3
    let count = db.rpush(key.clone(), vec![b("1"), b("2"), b("3")]).unwrap();
    assert_eq!(count, 3);

    // LPUSH mylist 0
    let count = db.lpush(key.clone(), vec![b("0")]).unwrap();
    assert_eq!(count, 4);

    // LRANGE mylist 0 -1
    let range = db.lrange(&key, 0, -1).unwrap();
    assert_eq!(range, vec![b("0"), b("1"), b("2"), b("3")]);

    // LPOP
    let popped = db.lpop(&key).unwrap();
    assert_eq!(popped, Some(b("0")));

    // RPOP
    let popped = db.rpop(&key).unwrap();
    assert_eq!(popped, Some(b("3")));
}

#[test]
fn test_hash_operations() {
    let mut db = Db::new();
    let key = b("myhash");

    // HSET myhash f1 v1 f2 v2
    let added = db
        .hset(key.clone(), vec![(b("f1"), b("v1")), (b("f2"), b("v2"))])
        .unwrap();
    assert_eq!(added, 2);

    // HGET myhash f1
    let val = db.hget(&key, b"f1").unwrap();
    assert_eq!(val, Some(b("v1")));

    // HDEL myhash f1
    let del_count = db.hdel(&key, &[b("f1")]).unwrap();
    assert_eq!(del_count, 1);
    assert_eq!(db.hget(&key, b"f1").unwrap(), None);

    // HGETALL
    let all = db.hgetall(&key).unwrap();
    assert_eq!(all, vec![(b("f2"), b("v2"))]);
}

#[test]
fn test_set_operations() {
    let mut db = Db::new();
    let key = b("myset");

    // SADD myset a b c a
    let added = db
        .sadd(key.clone(), vec![b("a"), b("b"), b("c"), b("a")])
        .unwrap();
    assert_eq!(added, 3);

    // SISMEMBER
    assert!(db.sismember(&key, b"a").unwrap());
    assert!(!db.sismember(&key, b"z").unwrap());

    // SREM
    let rem = db.srem(&key, &[b("a")]).unwrap();
    assert_eq!(rem, 1);
    assert!(!db.sismember(&key, b"a").unwrap());

    // SMEMBERS
    let members = db.smembers(&key).unwrap();
    assert_eq!(members.len(), 2);
}

#[test]
fn test_wrong_type_error() {
    let mut db = Db::new();
    let key = b("str_key");
    db.set(key.clone(), b("value"), None);

    // Try list op on string
    assert_eq!(db.lpush(key.clone(), vec![b("1")]).unwrap_err(), WRONG_TYPE_ERR);
    // Try hash op on string
    assert_eq!(db.hget(&key, b"f").unwrap_err(), WRONG_TYPE_ERR);
    // Try set op on string
    assert_eq!(db.smembers(&key).unwrap_err(), WRONG_TYPE_ERR);
}

#[test]
fn test_glob_match() {
    assert!(glob_match(b"*", b""));
    assert!(glob_match(b"*", b"anything"));
    assert!(glob_match(b"h?llo", b"hello"));
    assert!(!glob_match(b"h?llo", b"hllo"));
    assert!(glob_match(b"h*o", b"hello"));
    assert!(glob_match(b"h*o", b"ho"));
    assert!(glob_match(b"user:*", b"user:100"));
    assert!(!glob_match(b"user:*", b"profile:100"));
    assert!(glob_match(b"h[ae]llo", b"hello"));
    assert!(glob_match(b"h[ae]llo", b"hallo"));
    assert!(!glob_match(b"h[ae]llo", b"hillo"));
    assert!(glob_match(b"h[a-z]llo", b"hello"));
    assert!(!glob_match(b"h[^e]llo", b"hello"));
    assert!(glob_match(b"h[^e]llo", b"hallo"));
    assert!(glob_match(b"foo\\*bar", b"foo*bar"));
    assert!(!glob_match(b"foo\\*bar", b"foobar"));
}

#[test]
fn test_keys_and_scan() {
    let mut db = Db::new();
    db.set(b("user:1"), b("Alice"), None);
    db.set(b("user:2"), b("Bob"), None);
    db.set(b("admin:1"), b("Super"), None);

    // KEYS *
    let all_keys = db.keys(b"*");
    assert_eq!(all_keys.len(), 3);

    // KEYS user:*
    let user_keys = db.keys(b"user:*");
    assert_eq!(user_keys.len(), 2);

    // KEYS admin:*
    let admin_keys = db.keys(b"admin:*");
    assert_eq!(admin_keys.len(), 1);
    assert_eq!(admin_keys[0], b("admin:1"));

    // SCAN
    let (mut cur, mut collected) = db.scan(0, None, 10, None);
    while cur != 0 {
        let (next_cur, items) = db.scan(cur, None, 10, None);
        collected.extend(items);
        cur = next_cur;
    }
    assert_eq!(collected.len(), 3);

    // SCAN with MATCH
    let (mut cur, mut collected_users) = db.scan(0, Some(b"user:*"), 10, None);
    while cur != 0 {
        let (next_cur, items) = db.scan(cur, Some(b"user:*"), 10, None);
        collected_users.extend(items);
        cur = next_cur;
    }
    assert_eq!(collected_users.len(), 2);
}
