use in_memory_cache::db::{parse_memory_limit, Db};
use in_memory_cache::db_keys::eq_ignore_ascii_case;
use in_memory_cache::glob::glob_match;

fn b(s: &str) -> Vec<u8> {
    s.as_bytes().to_vec()
}

#[test]
fn memory_limit_settings() {
    assert_eq!(parse_memory_limit("512mb"), Some(512 * 1024 * 1024));
    assert_eq!(parse_memory_limit(" 2GB "), Some(2 * 1024 * 1024 * 1024));
    assert_eq!(parse_memory_limit("100kb"), Some(100 * 1024));
    assert_eq!(parse_memory_limit("10 Mb"), Some(10 * 1024 * 1024));
    assert_eq!(parse_memory_limit("1048576"), Some(1048576));
    assert_eq!(parse_memory_limit("+7"), Some(7));
    assert_eq!(parse_memory_limit("abc"), None);
    assert_eq!(parse_memory_limit(""), None);
    assert_eq!(parse_memory_limit("gb"), None);
    assert_eq!(parse_memory_limit("-1kb"), None);
}

#[test]
fn set_get_and_memory_estimate() {
    let mut db = Db::new();
    assert!(db.is_empty());
    db.set_at(b("a"), b("xyz"), None, 0);
    assert_eq!(db.current_memory(), 1 + 3 + 64);
    assert_eq!(db.len(), 1);
    db.set_at(b("a"), b("xy"), None, 0);
    assert_eq!(db.current_memory(), 1 + 2 + 64);
    assert_eq!(db.get_at(b"a", 0).unwrap(), Some(b("xy")));
    assert_eq!(db.del(&[b("a"), b("a")]), 1);
    assert_eq!(db.current_memory(), 0);
    assert!(db.is_empty());
}

#[test]
fn other_keys_are_left_alone() {
    let mut db = Db::with_options(3, 0);
    db.set_at(b("k1"), b("v1"), None, 0);
    db.set_at(b("k2"), b("v2"), None, 0);
    db.set_at(b("k1"), b("w1"), None, 0);
    assert_eq!(db.del(&[b("k1")]), 1);
    assert_eq!(db.get_at(b"k2", 0).unwrap(), Some(b("v2")));
    assert_eq!(db.get_at(b"k1", 0).unwrap(), None);
}

#[test]
fn expiry_and_time_to_live() {
    let mut db = Db::new();
    db.set_at(b("k"), b("v"), None, 100);
    assert_eq!(db.ttl_at(b"k", 100), -1);
    assert!(db.expire_at(b"k", 2500, 100));
    assert_eq!(db.pttl_at(b"k", 100), 2500);
    assert_eq!(db.ttl_at(b"k", 100), 2);
    assert_eq!(db.get_at(b"k", 2599).unwrap(), Some(b("v")));
    assert_eq!(db.get_at(b"k", 2600).unwrap(), None);
    assert_eq!(db.pttl_at(b"k", 2600), -2);
    assert!(!db.expire_at(b"missing", 10, 0));
}

#[test]
fn list_ranges_and_pops() {
    let mut db = Db::new();
    assert_eq!(db.rpush_at(b("l"), vec![b("a"), b("b"), b("c"), b("d")], 0).unwrap(), 4);
    assert_eq!(db.lrange_at(b"l", -2, -1, 0).unwrap(), vec![b("c"), b("d")]);
    assert_eq!(db.lrange_at(b"l", 1, 100, 0).unwrap(), vec![b("b"), b("c"), b("d")]);
    assert_eq!(db.lrange_at(b"l", 3, 1, 0).unwrap(), Vec::<Vec<u8>>::new());
    assert_eq!(db.lrange_at(b"l", -100, 0, 0).unwrap(), vec![b("a")]);
    assert_eq!(db.lrange_at(b"nope", 0, -1, 0).unwrap(), Vec::<Vec<u8>>::new());
    assert_eq!(db.lpush_at(b("l"), vec![b("x"), b("y")], 0).unwrap(), 6);
    assert_eq!(db.lpop_at(b"l", 0).unwrap(), Some(b("y")));
    assert_eq!(db.rpop_at(b"l", 0).unwrap(), Some(b("d")));
    for _ in 0..4 {
        assert!(db.lpop_at(b"l", 0).unwrap().is_some());
    }
    assert_eq!(db.lpop_at(b"l", 0).unwrap(), None);
    assert!(db.is_empty());
}

#[test]
fn hash_replace_and_delete() {
    let mut db = Db::new();
    assert_eq!(db.hset_at(b("h"), vec![(b("f"), b("1"))], 0).unwrap(), 1);
    assert_eq!(db.hset_at(b("h"), vec![(b("f"), b("22")), (b("g"), b("3"))], 0).unwrap(), 1);
    assert_eq!(db.hget_at(b"h", b"f", 0).unwrap(), Some(b("22")));
    assert_eq!(db.hdel_at(b"h", &[b("f"), b("f"), b("zz")], 0).unwrap(), 1);
    assert_eq!(db.hdel_at(b"h", &[b("g")], 0).unwrap(), 1);
    assert!(db.is_empty());
    assert_eq!(db.hgetall_at(b"h", 0).unwrap(), Vec::<(Vec<u8>, Vec<u8>)>::new());
}

#[test]
fn set_members_are_distinct() {
    let mut db = Db::new();
    assert_eq!(db.sadd_at(b("s"), vec![b("a"), b("a"), b("b")], 0).unwrap(), 2);
    assert_eq!(db.sadd_at(b("s"), vec![b("b"), b("c")], 0).unwrap(), 1);
    assert_eq!(db.smembers_at(b"s", 0).unwrap(), vec![b("a"), b("b"), b("c")]);
    assert_eq!(db.srem_at(b"s", &[b("a"), b("b"), b("c")], 0).unwrap(), 3);
    assert!(db.is_empty());
}

#[test]
fn wrong_kind_is_refused_and_kept() {
    let mut db = Db::new();
    db.sadd_at(b("s"), vec![b("a")], 0).unwrap();
    assert!(db.get_at(b"s", 0).is_err());
    assert!(db.rpop_at(b"s", 0).is_err());
    assert!(db.hset_at(b("s"), vec![(b("f"), b("v"))], 0).is_err());
    assert_eq!(db.sismember_at(b"s", b"a", 0).unwrap(), true);
}

#[test]
fn lru_victim_is_least_recently_used() {
    let mut db = Db::with_options(1, 0);
    db.set_at(b("a"), b("1"), None, 1);
    db.set_at(b("b"), b("2"), None, 2);
    assert_eq!(db.get_at(b"a", 5).unwrap(), Some(b("1")));
    assert!(db.evict_lru_with(&vec![(0, 0), (0, 1)]));
    assert_eq!(db.get_at(b"b", 6).unwrap(), None);
    assert_eq!(db.get_at(b"a", 6).unwrap(), Some(b("1")));
    assert!(!db.evict_lru_with(&vec![]));
}

#[test]
fn memory_limit_evicts() {
    let mut db = Db::with_options(1, 200);
    for i in 0..10u64 {
        db.set_at(format!("k{}", i).into_bytes(), b("0123456789"), None, i);
    }
    assert!(db.len() <= 3);
    assert_eq!(db.get_at(b"k9", 20).unwrap(), Some(b("0123456789")));
    assert!(db.current_memory() <= 200);
}

#[test]
fn expired_keys_are_swept() {
    let mut db = Db::with_options(1, 0);
    for i in 0..10u64 {
        db.set_at(format!("e{}", i).into_bytes(), b("v"), Some(0), 0);
    }
    db.set_at(b("live"), b("v"), None, 0);
    let (sampled, expired) = db.purge_expired_with(0, &vec![0, 0, 10], 0);
    assert_eq!((sampled, expired), (3, 2));
    assert_eq!(db.len(), 10);
    db.active_expire_cycle();
    assert!(db.len() < 10);
    assert_eq!(db.get_at(b"live", 0).unwrap(), Some(b("v")));
}

#[test]
fn keys_skip_expired_entries() {
    let mut db = Db::new();
    db.set_at(b("a1"), b("v"), Some(10), 0);
    db.set_at(b("a2"), b("v"), None, 0);
    assert_eq!(db.keys_at(b"a*", 5).len(), 2);
    assert_eq!(db.keys_at(b"a*", 10), vec![b("a2")]);
    let (cursor, keys) = db.scan_at(0, None, 1000, None, 10);
    assert_eq!(cursor, 0);
    assert_eq!(keys, vec![b("a2")]);
}

#[test]
fn scan_walks_every_key_once() {
    let mut db = Db::with_options(4, 0);
    for i in 0..25 {
        db.set_at(format!("key:{}", i).into_bytes(), b("v"), None, 0);
    }
    let mut seen = Vec::new();
    let mut cursor = 0;
    let mut calls = 0;
    loop {
        let (next, keys) = db.scan_at(cursor, Some(b"key:*"), 3, Some("string"), 0);
        seen.extend(keys);
        calls += 1;
        if next == 0 {
            break;
        }
        cursor = next;
    }
    seen.sort();
    seen.dedup();
    assert_eq!(seen.len(), 25);
    assert!(calls >= 9);
    let (_, none) = db.scan_at(0, None, 100, Some("hash"), 0);
    assert!(none.is_empty());
    assert_eq!(db.scan_at(99u64 << 32, None, 10, None, 0), (0, vec![]));
}

#[test]
fn glob_classes_and_escapes() {
    assert!(glob_match(b"[!a]x", b"bx"));
    assert!(!glob_match(b"[!a]x", b"ax"));
    assert!(!glob_match(b"h[ab", b"ha"));
    assert!(glob_match(b"a\\?", b"a?"));
    assert!(!glob_match(b"a\\?", b"ab"));
    assert!(glob_match(b"*.*", b"x.y"));
    assert!(glob_match(b"**", b""));
    assert!(!glob_match(b"", b"x"));
    assert!(glob_match(b"", b""));
}

#[test]
fn ascii_case_folding() {
    assert!(eq_ignore_ascii_case(b"StRiNg", b"string"));
    assert!(!eq_ignore_ascii_case(b"strin", b"string"));
    assert!(!eq_ignore_ascii_case(b"str1ng", b"string"));
}

#[test]
fn collection_memory_estimate() {
    let mut db = Db::new();
    db.set_at(b("s"), b("v"), None, 0);
    let base = 1 + 1 + 64;
    assert_eq!(db.current_memory(), base);
    // A new list counts its key and the overhead as well as its elements.
    assert_eq!(db.lpush_at(b("k"), vec![b("ab"), b("c")], 0).unwrap(), 2);
    assert_eq!(db.current_memory(), base + (1 + 64) + (2 + 16) + (1 + 16));
    // Pushing onto it and popping from it move the estimate by the elements.
    assert_eq!(db.lpush_at(b("k"), vec![b("xyz")], 0).unwrap(), 3);
    assert_eq!(db.current_memory(), base + (1 + 64) + (2 + 16) + (1 + 16) + (3 + 16));
    assert_eq!(db.lpop_at(b"k", 0).unwrap(), Some(b("xyz")));
    assert_eq!(db.current_memory(), base + (1 + 64) + (2 + 16) + (1 + 16));
    // Emptying it takes off the whole entry.
    db.lpop_at(b"k", 0).unwrap();
    db.lpop_at(b"k", 0).unwrap();
    assert_eq!(db.current_memory(), base);
    // One element on a one-byte key: 1 + 17 + 64; popping it leaves nothing.
    let mut db = Db::with_options(1, 0);
    assert_eq!(db.rpush_at(b("k"), vec![b("a")], 0).unwrap(), 1);
    assert_eq!(db.current_memory(), 82);
    assert_eq!(db.lpop_at(b"k", 0).unwrap(), Some(b("a")));
    assert_eq!(db.current_memory(), 0);
    // Hashes and sets count their key and overhead too.
    let mut db = Db::new();
    db.hset_at(b("h"), vec![(b("f"), b("vv"))], 0).unwrap();
    assert_eq!(db.current_memory(), (1 + 64) + (1 + 2 + 32));
    db.hset_at(b("h"), vec![(b("f"), b("v")), (b("g"), b("w"))], 0).unwrap();
    assert_eq!(db.current_memory(), (1 + 64) + (1 + 1 + 32) + (1 + 1 + 32));
    assert_eq!(db.hdel_at(b"h", &[b("f")], 0).unwrap(), 1);
    assert_eq!(db.current_memory(), (1 + 64) + (1 + 1 + 32));
    db.sadd_at(b("t"), vec![b("m"), b("m"), b("nn")], 0).unwrap();
    assert_eq!(db.current_memory(), (1 + 64) + (1 + 1 + 32) + (1 + 64) + (1 + 16) + (2 + 16));
    assert_eq!(db.srem_at(b"t", &[b("nn")], 0).unwrap(), 1);
    assert_eq!(db.current_memory(), (1 + 64) + (1 + 1 + 32) + (1 + 64) + (1 + 16));
    assert_eq!(db.hdel_at(b"h", &[b("g")], 0).unwrap(), 1);
    assert_eq!(db.srem_at(b"t", &[b("m")], 0).unwrap(), 1);
    assert_eq!(db.current_memory(), 0);
}

#[test]
fn set_under_a_limit_evicts_one_older_key() {
    let mut db = Db::with_options(1, 200);
    db.set_at(b("a"), b("0123456789"), None, 1);
    db.set_at(b("b"), b("0123456789"), None, 2);
    assert_eq!(db.current_memory(), 150);
    db.set_at(b("c"), b("0123456789"), None, 3);
    assert_eq!(db.len(), 2);
    assert_eq!(db.current_memory(), 150);
    assert_eq!(db.get_at(b"c", 4).unwrap(), Some(b("0123456789")));
    let a_gone = db.get_at(b"a", 4).unwrap().is_none();
    let b_gone = db.get_at(b"b", 4).unwrap().is_none();
    assert!(a_gone != b_gone);
    // Within the limit nothing is evicted.
    let mut db = Db::with_options(1, 200);
    db.set_at(b("a"), b("0123456789"), None, 1);
    db.set_at(b("b"), b("0123456789"), None, 2);
    assert_eq!(db.len(), 2);
}

#[test]
fn lru_step_evicts_where_every_shard_holds_keys() {
    let mut db = Db::with_options(1, 0);
    assert!(!db.evict_lru_step(3));
    db.set_at(b("k"), b("v"), None, 5);
    assert!(!db.evict_lru_step(0));
    assert_eq!(db.len(), 1);
    assert!(db.evict_lru_step(1));
    assert_eq!(db.len(), 0);
    assert_eq!(db.current_memory(), 0);
}

#[test]
fn expiry_cycle_removes_only_expired_keys() {
    let mut db = Db::with_options(1, 0);
    for i in 0..10 {
        db.set_at(format!("t{}", i).into_bytes(), b("v"), Some(1), 0);
    }
    db.set_at(b("live"), b("v"), None, 0);
    db.active_expire_cycle();
    assert_eq!(db.get_at(b"live", 0).unwrap(), Some(b("v")));
    assert!(db.len() >= 1 && db.len() <= 11);
}

#[test]
fn reading_an_expired_key_drops_it() {
    let mut db = Db::with_options(2, 0);
    db.lpush_at(b("l"), vec![b("x")], 0).unwrap();
    assert!(db.expire_at(b"l", 10, 0));
    db.set_at(b("other"), b("v"), None, 0);
    assert_eq!(db.len(), 2);
    assert_eq!(db.get_at(b"l", 10).unwrap(), None);
    assert_eq!(db.len(), 1);
    assert_eq!(db.ttl_at(b"l", 20), -2);
    assert_eq!(db.pttl_at(b"l", 0), -2);
    assert_eq!(db.get_at(b"other", 20).unwrap(), Some(b("v")));
}

#[test]
fn push_pop_and_read_later() {
    let mut db = Db::with_options(2, 0);
    db.rpush_at(b("k"), vec![b("old")], 0).unwrap();
    assert_eq!(db.lpush_at(b("k"), vec![b("a"), b("b")], 5).unwrap(), 3);
    assert_eq!(db.lrange_at(b"k", 0, -1, 900).unwrap(), vec![b("b"), b("a"), b("old")]);
    assert_eq!(db.lpop_at(b"k", 1000).unwrap(), Some(b("b")));
    assert_eq!(db.lrange_at(b"k", 0, -1, 2000).unwrap(), vec![b("a"), b("old")]);
    assert_eq!(db.len(), 1);
    db.lpop_at(b"k", 3000).unwrap();
    assert_eq!(db.lpop_at(b"k", 3000).unwrap(), Some(b("old")));
    assert_eq!(db.len(), 0);
    assert_eq!(db.get_at(b"k", 4000).unwrap(), None);
}

#[test]
fn del_counts_distinct_stored_keys() {
    let mut db = Db::with_options(2, 0);
    db.set_at(b("a"), b("1"), None, 0);
    db.set_at(b("b"), b("2"), None, 0);
    db.set_at(b("c"), b("3"), None, 0);
    assert_eq!(db.del(&[b("a"), b("a"), b("b"), b("zz")]), 2);
    assert_eq!(db.len(), 1);
    assert_eq!(db.del(&[b("a")]), 0);
    assert_eq!(db.get_at(b"c", 0).unwrap(), Some(b("3")));
}

#[test]
fn ttl_after_expire_later() {
    let mut db = Db::with_options(1, 0);
    db.set_at(b("k"), b("v"), None, 0);
    assert!(db.expire_at(b"k", 5000, 100));
    assert_eq!(db.ttl_at(b"k", 2100), 3);
    assert_eq!(db.ttl_at(b"k", 5099), 0);
    assert_eq!(db.ttl_at(b"k", 5100), -2);
}

#[test]
fn sweep_step_counts() {
    let mut db = Db::with_options(1, 0);
    for i in 0..6 {
        db.set_at(format!("e{}", i).into_bytes(), b("v"), Some(1), 0);
    }
    db.set_at(b("live"), b("v"), None, 0);
    let n = db.len();
    let (sampled, expired) = db.purge_expired_step(4);
    assert_eq!(sampled, 4);
    assert!(expired <= sampled);
    assert!(db.len() + expired >= n && db.len() <= n);
    assert_eq!(db.get_at(b"live", 0).unwrap(), Some(b("v")));
}

#[test]
fn scan_across_instants() {
    let mut db = Db::with_options(3, 0);
    for i in 0..7 {
        db.set_at(format!("s{}", i).into_bytes(), b("v"), Some(1_000_000), 0);
    }
    let mut cursor = 0u64;
    let mut seen: Vec<Vec<u8>> = Vec::new();
    let mut t = 10u64;
    loop {
        let (next, keys) = db.scan_at(cursor, None, 2, None, t);
        seen.extend(keys);
        t += 1000;
        if next == 0 {
            break;
        }
        cursor = next;
    }
    seen.sort();
    let mut want: Vec<Vec<u8>> = (0..7).map(|i| format!("s{}", i).into_bytes()).collect();
    want.sort();
    assert_eq!(seen, want);
}

#[test]
fn glob_literal_star_patterns() {
    // A plain pattern matches only itself.
    assert!(glob_match(b"user:1", b"user:1"));
    assert!(!glob_match(b"user:1", b"user:10"));
    assert!(!glob_match(b"user:1", b"user:"));
    // `s*`, `*s` and `*s*`: prefix, suffix and substring.
    assert!(glob_match(b"user:*", b"user:"));
    assert!(glob_match(b"user:*", b"user:42"));
    assert!(!glob_match(b"user:*", b"use"));
    assert!(glob_match(b"*:42", b"user:42"));
    assert!(!glob_match(b"*:42", b"user:421"));
    assert!(glob_match(b"*er:4*", b"user:42"));
    assert!(glob_match(b"*er:4*", b"er:4"));
    assert!(!glob_match(b"*er:4*", b"user:5"));
}

#[test]
fn glob_single_byte_patterns() {
    // `?` repeated n times matches exactly n bytes.
    assert!(glob_match(b"???", b"abc"));
    assert!(!glob_match(b"???", b"ab"));
    assert!(!glob_match(b"???", b"abcd"));
    assert!(glob_match(b"", b""));
    // An escaped byte matches only itself, even `*`.
    assert!(glob_match(b"\\*", b"*"));
    assert!(!glob_match(b"\\*", b"x"));
    assert!(!glob_match(b"\\*", b"**"));
    // Classes, negated classes and ranges match one byte.
    assert!(glob_match(b"[abc]", b"b"));
    assert!(!glob_match(b"[abc]", b"d"));
    assert!(!glob_match(b"[abc]", b"ab"));
    assert!(!glob_match(b"[^abc]", b"a"));
    assert!(glob_match(b"[^abc]", b"z"));
    assert!(glob_match(b"[a-f]", b"c"));
    assert!(glob_match(b"[a-f]", b"f"));
    assert!(!glob_match(b"[a-f]", b"g"));
}
