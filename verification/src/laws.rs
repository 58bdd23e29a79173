//! What holds of the keyspace across operations: a read gives back what a write
//! stored, a removal is seen by every later read, other keys are left alone, and the
//! eviction victim is the least recently used of the sampled entries.
use crate::db::{
    is_expired, lemma_key_index, lemma_put, lemma_remove, lru_choice, valid_picks, DataModel,
    DbModel, EntryModel,
};
use crate::db_hash::{field_value, hset_all, hdel_all, lemma_distinct_push, lemma_distinct_update,
    Pairs};
use crate::db_list::{pushed, range_bounds};
use crate::db_members::{lemma_member_index, member_index, sadd_all, srem_all};
use crate::db::{key_index, keys_distinct, distinct_members};
use vstd::prelude::*;

verus! {

/// A live entry at `now`.
pub open spec fn live_at(m: DbModel, key: Seq<u8>, now: u64) -> bool {
    m.lookup(key) is Some && !is_expired(m.lookup(key).unwrap(), now)
}

/// Storing a string under `key` keeps the database well formed, and leaves every
/// other key with what it held.
pub proof fn law_set_keeps_others(
    m: DbModel,
    key: Seq<u8>,
    value: Seq<u8>,
    expires_at: Option<u64>,
    now: u64,
    other: Seq<u8>,
)
    requires
        m.wf(),
        other != key,
    ensures
        m.store_string(key, value, expires_at, now).wf(),
        m.store_string(key, value, expires_at, now).lookup(other) == m.lookup(other),
{
    let e = EntryModel { data: DataModel::String(value), expires_at, last_accessed: now };
    lemma_put(m, key, e, other);
}

/// GET gives back the value that SET stored, while its expiry has not come (the
/// stored value replaces whatever kind of value the key held).
pub proof fn law_set_then_get(
    m: DbModel,
    key: Seq<u8>,
    value: Seq<u8>,
    expires_at: Option<u64>,
    now: u64,
    t: u64,
)
    requires
        m.wf(),
        match expires_at {
            Some(x) => t < x,
            None => true,
        },
    ensures
        m.store_string(key, value, expires_at, now).get_op(key, t).1 == Ok::<Option<Seq<u8>>, ()>(
            Some(value),
        ),
{
    let e = EntryModel { data: DataModel::String(value), expires_at, last_accessed: now };
    lemma_put(m, key, e, key);
}

/// Once the expiry of a stored value has come, GET reads nothing and drops the key.
pub proof fn law_set_then_get_expired(
    m: DbModel,
    key: Seq<u8>,
    value: Seq<u8>,
    x: u64,
    now: u64,
    t: u64,
)
    requires
        m.wf(),
        t >= x,
    ensures
        m.store_string(key, value, Some(x), now).get_op(key, t).1 == Ok::<Option<Seq<u8>>, ()>(None),
        m.store_string(key, value, Some(x), now).get_op(key, t).0.lookup(key) is None,
{
    let e = EntryModel { data: DataModel::String(value), expires_at: Some(x), last_accessed: now };
    lemma_put(m, key, e, key);
    let m1 = m.store_string(key, value, Some(x), now);
    lemma_remove(m1, key, key);
}

/// DEL of a key counts it where it was there, and afterwards GET reads nothing.
pub proof fn law_del_then_get(m: DbModel, key: Seq<u8>, t: u64)
    requires
        m.wf(),
    ensures
        m.del_op(seq![key]).1 == (if m.lookup(key) is Some {
            1nat
        } else {
            0nat
        }),
        m.del_op(seq![key]).0.get_op(key, t).1 == Ok::<Option<Seq<u8>>, ()>(None),
{
    assert(seq![key].drop_last() =~= Seq::<Seq<u8>>::empty());
    reveal_with_fuel(DbModel::del_op, 2);
    assert(m.del_op(Seq::<Seq<u8>>::empty()) == (m, 0nat));
    assert(m.del_op(seq![key]) == (m.remove_key(key), if m.lookup(key) is Some { 1nat } else { 0nat }));
    lemma_remove(m, key, key);
}

/// EXPIRE on a live key answers true, and right after it the remaining time to live
/// is the duration given (where it fits the reply); on an absent or expired key it
/// answers false.
pub proof fn law_expire_then_pttl(m: DbModel, key: Seq<u8>, d: u64, now: u64)
    requires
        m.wf(),
        0 < d <= i64::MAX,
        now + d <= u64::MAX,
    ensures
        m.expire_op(key, d, now).1 == live_at(m, key, now),
        live_at(m, key, now) ==> m.expire_op(key, d, now).0.pttl_op(key, now) == d,
        live_at(m, key, now) ==> m.expire_op(key, d, now).0.ttl_op(key, now) == d / 1000,
        live_at(m, key, now) ==> m.expire_op(key, d, now).0.get_op(key, (now + d) as u64).1 == Ok::<
            Option<Seq<u8>>,
            (),
        >(None),
{
    if live_at(m, key, now) {
        let e = m.lookup(key).unwrap();
        let e2 = EntryModel { expires_at: Some((now + d) as u64), ..e };
        assert(crate::db::data_wf(e.data)) by {
            let s = m.shard_for(key);
            lemma_key_index(m.shards[s], key, -1);
            assert(0 <= s < m.shards.len()) by {
                assert((crate::db::default_hash(key) as usize) as int % (m.shards.len() as int) < m.shards.len());
            }
        }
        lemma_put(m, key, e2, key);
        assert(((d as u64) as i64) as int == d);
    }
}

/// A key without expiry has time to live -1; an absent key has -2.
pub proof fn law_ttl_without_expiry(m: DbModel, key: Seq<u8>, now: u64)
    ensures
        m.lookup(key) is None ==> m.pttl_op(key, now) == -2 && m.ttl_op(key, now) == -2,
        m.lookup(key) matches Some(e) && e.expires_at is None ==> m.pttl_op(key, now) == -1
            && m.ttl_op(key, now) == -1,
{
}

/// The list under `key` after a push.
pub open spec fn list_after_push(m: DbModel, key: Seq<u8>, elems: Seq<Seq<u8>>, front: bool, now: u64) -> Seq<Seq<u8>> {
    match m.drop_expired(key, now).lookup(key) {
        Some(e) => match e.data {
            DataModel::List(l) => pushed(l, elems, front),
            _ => Seq::empty(),
        },
        None => pushed(Seq::empty(), elems, front),
    }
}

/// The entry under a key is well formed.
pub proof fn lemma_lookup_wf(m: DbModel, key: Seq<u8>)
    requires
        m.wf(),
    ensures
        m.lookup(key) matches Some(e) ==> crate::db::data_wf(e.data),
{
    let s = m.shard_for(key);
    assert(0 <= s < m.shards.len()) by {
        assert((crate::db::default_hash(key) as usize) as int % (m.shards.len() as int) < m.shards.len());
    }
    lemma_key_index(m.shards[s], key, -1);
}

/// Dropping an expired entry keeps the database well formed; afterwards the key holds
/// nothing or a live entry.
pub proof fn lemma_drop_expired(m: DbModel, key: Seq<u8>, now: u64)
    requires
        m.wf(),
    ensures
        m.drop_expired(key, now).wf(),
        m.drop_expired(key, now).lookup(key) matches Some(e) ==> !is_expired(e, now) && m.lookup(key) == Some(e),
{
    if m.lookup(key) is Some && is_expired(m.lookup(key).unwrap(), now) {
        lemma_remove(m, key, key);
    }
}

/// A key that holds a list (or nothing) holds, after LPUSH or RPUSH, the list with
/// the elements pushed at that end; the answer is its length, and LRANGE 0 -1 reads
/// it whole.
pub proof fn law_push_then_range(m: DbModel, key: Seq<u8>, elems: Seq<Seq<u8>>, front: bool, now: u64)
    requires
        m.wf(),
        m.drop_expired(key, now).lookup(key) matches Some(e) ==> e.data is List,
    ensures
        m.push_op(key, elems, front, now).1 == Ok::<nat, ()>(list_after_push(m, key, elems, front, now).len()),
        m.push_op(key, elems, front, now).0.lrange_op(key, 0i64, -1i64, now).1 == Ok::<Seq<Seq<u8>>, ()>(
            list_after_push(m, key, elems, front, now),
        ),
{
    let m1 = m.drop_expired(key, now);
    lemma_drop_expired(m, key, now);
    let l = list_after_push(m, key, elems, front, now);
    let e2 = match m1.lookup(key) {
        Some(e) => EntryModel { data: DataModel::List(l), last_accessed: now, ..e },
        None => EntryModel { data: DataModel::List(l), expires_at: None, last_accessed: now },
    };
    lemma_put(m1, key, e2, key);
    let m2 = m.push_op(key, elems, front, now).0;
    assert(m2.lookup(key) == Some(e2));
    assert(!is_expired(e2, now));
    let (lo, hi) = range_bounds(l.len() as int, 0, -1);
    if l.len() > 0 {
        assert(lo == 0 && hi == l.len());
    }
    assert(l.subrange(lo, hi) =~= l);
}

/// LPUSH of one element onto a list (or nothing) and then LPOP gives that element back.
pub proof fn law_lpush_then_lpop(m: DbModel, key: Seq<u8>, x: Seq<u8>, now: u64)
    requires
        m.wf(),
        m.drop_expired(key, now).lookup(key) matches Some(e) ==> e.data is List,
    ensures
        m.push_op(key, seq![x], true, now).0.pop_op(key, true, now).1 == Ok::<Option<Seq<u8>>, ()>(Some(x)),
{
    let m1 = m.drop_expired(key, now);
    lemma_drop_expired(m, key, now);
    let l = list_after_push(m, key, seq![x], true, now);
    assert(seq![x].reverse() =~= seq![x]);
    let e2 = match m1.lookup(key) {
        Some(e) => EntryModel { data: DataModel::List(l), last_accessed: now, ..e },
        None => EntryModel { data: DataModel::List(l), expires_at: None, last_accessed: now },
    };
    lemma_put(m1, key, e2, key);
    let m2 = m.push_op(key, seq![x], true, now).0;
    assert(m2.lookup(key) == Some(e2));
    assert(!is_expired(e2, now));
    assert(m2.drop_expired(key, now) == m2);
    assert(l[0] == x);
}

/// RPUSH of elements onto an absent key and then LPOP gives the first of them: the
/// list is a queue in that direction.
pub proof fn law_rpush_then_lpop(m: DbModel, key: Seq<u8>, elems: Seq<Seq<u8>>, now: u64)
    requires
        m.wf(),
        m.lookup(key) is None,
        elems.len() > 0,
    ensures
        m.push_op(key, elems, false, now).0.pop_op(key, true, now).1 == Ok::<Option<Seq<u8>>, ()>(
            Some(elems[0]),
        ),
{
    let l = pushed(Seq::empty(), elems, false);
    assert(l =~= elems);
    let e2 = EntryModel { data: DataModel::List(l), expires_at: None, last_accessed: now };
    lemma_put(m, key, e2, key);
}

/// A list operation on a key that holds another kind of live value answers the type
/// error and changes nothing.
pub proof fn law_wrong_type_changes_nothing(m: DbModel, key: Seq<u8>, elems: Seq<Seq<u8>>, front: bool, now: u64)
    requires
        live_at(m, key, now),
        !(m.lookup(key).unwrap().data is List),
    ensures
        m.push_op(key, elems, front, now) == (m, Err::<nat, ()>(())),
        m.pop_op(key, front, now) == (m, Err::<Option<Seq<u8>>, ()>(())),
{
}

/// After setting a field, the pairs hold it with its new value, with no field twice.
pub proof fn lemma_hset_one(h: Pairs, f: Seq<u8>, v: Seq<u8>, memory: usize)
    requires
        keys_distinct(h),
    ensures
        keys_distinct(hset_all(h, seq![(f, v)], memory).0),
        field_value(hset_all(h, seq![(f, v)], memory).0, f) == Some(v),
{
    let fs = seq![(f, v)];
    assert(fs.drop_last() =~= Seq::<(Seq<u8>, Seq<u8>)>::empty());
    reveal_with_fuel(hset_all, 2);
    let h2 = hset_all(h, fs, memory).0;
    lemma_key_index(h, f, -1);
    let i = key_index(h, f);
    assert(h2 == if i >= 0 { h.update(i, (f, v)) } else { h.push((f, v)) });
    if i >= 0 {
        lemma_distinct_update(h, i, (f, v));
        lemma_key_index(h2, f, i);
    } else {
        lemma_distinct_push(h, (f, v));
        lemma_key_index(h2, f, h.len() as int);
    }
}

/// HGET gives back the value that HSET set (on a key that holds a hash or nothing).
pub proof fn law_hset_then_hget(m: DbModel, key: Seq<u8>, f: Seq<u8>, v: Seq<u8>, now: u64)
    requires
        m.wf(),
        m.drop_expired(key, now).lookup(key) matches Some(e) ==> e.data is Hash,
    ensures
        m.hset_op(key, seq![(f, v)], now).0.hget_op(key, f, now).1 == Ok::<Option<Seq<u8>>, ()>(Some(v)),
{
    let m1 = m.drop_expired(key, now);
    lemma_drop_expired(m, key, now);
    lemma_lookup_wf(m1, key);
    let fs = seq![(f, v)];
    match m1.lookup(key) {
        Some(e) => {
            let h0 = e.data->Hash_0;
            lemma_hset_one(h0, f, v, m1.memory);
            let (h, mem, c) = hset_all(h0, fs, m1.memory);
            let e2 = EntryModel { data: DataModel::Hash(h), last_accessed: now, ..e };
            lemma_put(m1, key, e2, key);
            assert(m.hset_op(key, fs, now).0.lookup(key) == Some(e2));
        },
        None => {
            let w1 = crate::db::wadd(m1.memory, crate::db::base_size(key));
            lemma_hset_one(Seq::empty(), f, v, w1);
            let (h, mem, c) = hset_all(Seq::empty(), fs, w1);
            let e2 = EntryModel { data: DataModel::Hash(h), expires_at: None, last_accessed: now };
            lemma_put(m1, key, e2, key);
            assert(m.hset_op(key, fs, now).0.lookup(key) == Some(e2));
        },
    }
}

/// SISMEMBER finds a member that SADD added (on a key that holds a set or nothing).
pub proof fn law_sadd_then_sismember(m: DbModel, key: Seq<u8>, x: Seq<u8>, now: u64)
    requires
        m.wf(),
        m.drop_expired(key, now).lookup(key) matches Some(e) ==> e.data is Members,
    ensures
        m.sadd_op(key, seq![x], now).0.sismember_op(key, x, now).1 == Ok::<bool, ()>(true),
{
    let m1 = m.drop_expired(key, now);
    lemma_drop_expired(m, key, now);
    lemma_lookup_wf(m1, key);
    let xs = seq![x];
    assert(xs.drop_last() =~= Seq::<Seq<u8>>::empty());
    reveal_with_fuel(sadd_all, 2);
    match m1.lookup(key) {
        Some(e) => {
            let s0 = e.data->Members_0;
            let (s, mem, c) = sadd_all(s0, xs, m1.memory);
            assert(s == if s0.contains(x) { s0 } else { s0.push(x) });
            if !s0.contains(x) {
                assert(s[s.len() - 1] == x);
            }
            assert(s.contains(x));
            assert(distinct_members(s)) by {
                if !s0.contains(x) {
                    assert forall|a: int, b: int| 0 <= a < s.len() && 0 <= b < s.len() && a != b implies s[a] != s[b] by {
                        if a < s0.len() && b < s0.len() {
                            assert(s[a] == s0[a] && s[b] == s0[b]);
                        } else if a < s0.len() {
                            assert(s[a] == s0[a]);
                            assert(s0.contains(s0[a]));
                        } else {
                            assert(s[b] == s0[b]);
                            assert(s0.contains(s0[b]));
                        }
                    }
                }
            }
            let e2 = EntryModel { data: DataModel::Members(s), last_accessed: now, ..e };
            lemma_put(m1, key, e2, key);
            assert(m.sadd_op(key, xs, now).0.lookup(key) == Some(e2));
        },
        None => {
            let (s, mem, c) = sadd_all(Seq::empty(), xs, m1.memory);
            assert(s =~= seq![x]);
            assert(s[0] == x);
            let e2 = EntryModel { data: DataModel::Members(s), expires_at: None, last_accessed: now };
            lemma_put(m1, key, e2, key);
            assert(m.sadd_op(key, xs, now).0.lookup(key) == Some(e2));
        },
    }
}

/// The entry that LRU eviction picks among the sampled slots was used no later than
/// any other sampled entry; where it picks none, every sampled entry was last used
/// at `u64::MAX`.
pub proof fn law_lru_victim_is_oldest(m: DbModel, picks: Seq<(usize, usize)>)
    requires
        valid_picks(m, picks),
    ensures
        lru_choice(m, picks) matches Some((s, i)) ==> forall|j: int|
            0 <= j < picks.len() ==> m.shards[s as int][i as int].1.last_accessed <= #[trigger] m.shards[picks[j].0 as int][picks[j].1 as int].1.last_accessed,
        lru_choice(m, picks) is None ==> forall|j: int|
            0 <= j < picks.len() ==> #[trigger] m.shards[picks[j].0 as int][picks[j].1 as int].1.last_accessed == u64::MAX,
    decreases picks.len(),
{
    if picks.len() > 0 {
        let d = picks.drop_last();
        assert(valid_picks(m, d)) by {
            assert forall|j: int| 0 <= j < d.len() implies (#[trigger] d[j]).0 < m.shards.len() && d[j].1
                < m.shards[d[j].0 as int].len() by {
                assert(d[j] == picks[j]);
            }
        }
        law_lru_victim_is_oldest(m, d);
        assert forall|j: int| 0 <= j < d.len() implies d[j] == picks[j] by {}
    }
}


/// After HDEL of a field, HGET of it reads nothing (the hash may be gone as well).
pub proof fn law_hdel_then_hget(m: DbModel, key: Seq<u8>, f: Seq<u8>, now: u64)
    requires
        m.wf(),
        m.drop_expired(key, now).lookup(key) matches Some(e) ==> e.data is Hash,
    ensures
        m.hdel_op(key, seq![f], now).0.hget_op(key, f, now).1 == Ok::<Option<Seq<u8>>, ()>(None),
{
    let m1 = m.drop_expired(key, now);
    lemma_drop_expired(m, key, now);
    lemma_lookup_wf(m1, key);
    let fs = seq![f];
    assert(fs.drop_last() =~= Seq::<Seq<u8>>::empty());
    reveal_with_fuel(hdel_all, 2);
    match m1.lookup(key) {
        Some(e) => {
            let h0 = e.data->Hash_0;
            let (h, mem, c) = hdel_all(h0, fs, m1.memory);
            lemma_key_index(h0, f, -1);
            let i = key_index(h0, f);
            assert(h == if i >= 0 { h0.remove(i) } else { h0 });
            assert(keys_distinct(h)) by {
                if i >= 0 {
                    crate::db_hash::lemma_distinct_remove(h0, i);
                }
            }
            assert(key_index(h, f) < 0) by {
                lemma_key_index(h, f, -1);
                if i >= 0 {
                    assert forall|j: int| 0 <= j < h.len() implies h[j].0 != f by {
                        let oj = if j < i { j } else { j + 1 };
                        assert(h[j] == h0[oj]);
                    }
                }
            }
            let e2 = if h.len() == 0 {
                EntryModel { data: DataModel::Hash(h), ..e }
            } else {
                EntryModel { data: DataModel::Hash(h), last_accessed: now, ..e }
            };
            lemma_put(m1, key, e2, key);
            let m2 = m1.put(key, e2).with_memory(mem);
            if h.len() == 0 {
                lemma_remove(m2, key, key);
            }
        },
        None => {},
    }
}

/// After SREM of a member, SISMEMBER of it answers false (the set may be gone as well).
pub proof fn law_srem_then_sismember(m: DbModel, key: Seq<u8>, x: Seq<u8>, now: u64)
    requires
        m.wf(),
        m.drop_expired(key, now).lookup(key) matches Some(e) ==> e.data is Members,
    ensures
        m.srem_op(key, seq![x], now).0.sismember_op(key, x, now).1 == Ok::<bool, ()>(false),
{
    let m1 = m.drop_expired(key, now);
    lemma_drop_expired(m, key, now);
    lemma_lookup_wf(m1, key);
    let xs = seq![x];
    assert(xs.drop_last() =~= Seq::<Seq<u8>>::empty());
    reveal_with_fuel(srem_all, 2);
    match m1.lookup(key) {
        Some(e) => {
            let s0 = e.data->Members_0;
            let (s, mem, c) = srem_all(s0, xs, m1.memory);
            lemma_member_index(s0, x, -1);
            let i = member_index(s0, x);
            assert(s == if i >= 0 { s0.remove(i) } else { s0 });
            assert(distinct_members(s)) by {
                if i >= 0 {
                    assert forall|a: int, b: int| 0 <= a < s.len() && 0 <= b < s.len() && a != b implies s[a] != s[b] by {
                        let oa = if a < i { a } else { a + 1 };
                        let ob = if b < i { b } else { b + 1 };
                        assert(s[a] == s0[oa] && s[b] == s0[ob]);
                    }
                }
            }
            assert(!s.contains(x)) by {
                if s.contains(x) {
                    let w = choose|w: int| 0 <= w < s.len() && s[w] == x;
                    if i >= 0 {
                        let ow = if w < i { w } else { w + 1 };
                        assert(s[w] == s0[ow]);
                        assert(s0[i] == x);
                    } else {
                        assert(s0.contains(x));
                    }
                }
            }
            let e2 = if s.len() == 0 {
                EntryModel { data: DataModel::Members(s), ..e }
            } else {
                EntryModel { data: DataModel::Members(s), last_accessed: now, ..e }
            };
            lemma_put(m1, key, e2, key);
            let m2 = m1.put(key, e2).with_memory(mem);
            if s.len() == 0 {
                lemma_remove(m2, key, key);
            }
        },
        None => {},
    }
}

/// KEYS `*` answers every key that has not expired, shard by shard: the pattern of a
/// single star matches every key.
pub proof fn law_keys_star(shards: Seq<crate::db::ShardModel>, now: u64)
    ensures
        crate::db_keys::all_keys(shards, seq![42u8], now) == live_keys(shards, now),
    decreases shards.len(),
{
    if shards.len() > 0 {
        law_keys_star(shards.drop_last(), now);
        lemma_shard_keys_star(shards.last(), now);
    }
}

/// The keys of a shard whose entries have not expired, in order.
pub open spec fn live_shard_keys(shard: crate::db::ShardModel, now: u64) -> Seq<Seq<u8>>
    decreases shard.len(),
{
    if shard.len() == 0 {
        Seq::empty()
    } else if !is_expired(shard.last().1, now) {
        live_shard_keys(shard.drop_last(), now).push(shard.last().0)
    } else {
        live_shard_keys(shard.drop_last(), now)
    }
}

/// The keys of all shards whose entries have not expired, shard by shard.
pub open spec fn live_keys(shards: Seq<crate::db::ShardModel>, now: u64) -> Seq<Seq<u8>>
    decreases shards.len(),
{
    if shards.len() == 0 {
        Seq::empty()
    } else {
        live_keys(shards.drop_last(), now) + live_shard_keys(shards.last(), now)
    }
}

proof fn lemma_shard_keys_star(shard: crate::db::ShardModel, now: u64)
    ensures
        crate::db_keys::shard_keys(shard, seq![42u8], now) == live_shard_keys(shard, now),
    decreases shard.len(),
{
    if shard.len() > 0 {
        lemma_shard_keys_star(shard.drop_last(), now);
        crate::glob::law_star_matches_all(shard.last().0);
    }
}

/// A command's name is matched whatever its case: two requests whose names have the
/// same upper case and whose arguments are the same decode alike.
pub proof fn law_command_name_case(n1: Seq<char>, n2: Seq<char>, args: Seq<crate::frame::FrameModel>)
    requires
        crate::cmd::uppercase(n1) == crate::cmd::uppercase(n2),
    ensures
        crate::cmd::parse_command(
            crate::frame::FrameModel::Array(seq![crate::frame::FrameModel::Simple(n1)] + args),
        ) == crate::cmd::parse_command(
            crate::frame::FrameModel::Array(seq![crate::frame::FrameModel::Simple(n2)] + args),
        ),
{
    let a1 = seq![crate::frame::FrameModel::Simple(n1)] + args;
    let a2 = seq![crate::frame::FrameModel::Simple(n2)] + args;
    assert(a1.skip(1) =~= args);
    assert(a2.skip(1) =~= args);
    assert(a1[0] == crate::frame::FrameModel::Simple(n1));
    assert(a2[0] == crate::frame::FrameModel::Simple(n2));
}


// ---------------------------------------------------------------------------
// A full SCAN iteration
// ---------------------------------------------------------------------------
/// The keys of a shard's entries from offset `o` on that pass SCAN's filters.
pub open spec fn shard_hits_from(
    sh: crate::db::ShardModel,
    o: int,
    pattern: Option<Seq<u8>>,
    type_filter: Option<Seq<u8>>,
    now: u64,
) -> Seq<Seq<u8>>
    decreases sh.len() - o,
{
    if o < 0 || o >= sh.len() {
        Seq::empty()
    } else {
        let rest = shard_hits_from(sh, o + 1, pattern, type_filter, now);
        if crate::db_keys::scan_hit(sh[o].0, sh[o].1, pattern, type_filter, now) {
            seq![sh[o].0] + rest
        } else {
            rest
        }
    }
}

/// The keys from shard `s`, offset `o` on, that pass SCAN's filters, in order.
pub open spec fn hits_from(
    shards: Seq<crate::db::ShardModel>,
    s: int,
    o: int,
    pattern: Option<Seq<u8>>,
    type_filter: Option<Seq<u8>>,
    now: u64,
) -> Seq<Seq<u8>>
    decreases shards.len() - s,
{
    if s < 0 || s >= shards.len() {
        Seq::empty()
    } else {
        shard_hits_from(shards[s], o, pattern, type_filter, now) + hits_from(
            shards,
            s + 1,
            0,
            pattern,
            type_filter,
            now,
        )
    }
}

/// The number of entries from shard `s`, offset `o` on.
pub open spec fn entries_from(shards: Seq<crate::db::ShardModel>, s: int, o: int) -> nat
    decreases shards.len() - s,
{
    if s < 0 || s >= shards.len() {
        0
    } else {
        (if o < 0 {
            shards[s].len() as int
        } else if o < shards[s].len() {
            shards[s].len() - o
        } else {
            0
        }) as nat + entries_from(shards, s + 1, 0)
    }
}

/// SCAN called from `cursor`, then again with each cursor it answers, until it
/// answers 0 (at most `calls` times): the keys of all the answers, in order.
pub open spec fn scan_iteration(
    shards: Seq<crate::db::ShardModel>,
    cursor: u64,
    pattern: Option<Seq<u8>>,
    count: usize,
    type_filter: Option<Seq<u8>>,
    now: u64,
    calls: nat,
) -> Seq<Seq<u8>>
    decreases calls,
{
    if calls == 0 {
        Seq::empty()
    } else {
        let (next, keys) = crate::db_keys::scan_op(shards, cursor, pattern, count, type_filter, now);
        if next == 0 {
            keys
        } else {
            keys + scan_iteration(shards, next, pattern, count, type_filter, now, (calls - 1) as nat)
        }
    }
}

proof fn lemma_walk(
    shards: Seq<crate::db::ShardModel>,
    s: int,
    o: int,
    budget: nat,
    pattern: Option<Seq<u8>>,
    type_filter: Option<Seq<u8>>,
    now: u64,
)
    requires
        0 <= s,
        0 <= o,
        s < shards.len() ==> o <= shards[s].len(),
    ensures
        ({
            let (s1, o1, hits) = crate::db_keys::scan_walk(shards, s, o, budget, pattern, type_filter, now);
            &&& hits + hits_from(shards, s1, o1, pattern, type_filter, now) == hits_from(
                shards,
                s,
                o,
                pattern,
                type_filter,
                now,
            )
            &&& entries_from(shards, s1, o1) <= entries_from(shards, s, o)
            &&& (budget >= 1 && s1 < shards.len() ==> entries_from(shards, s1, o1) < entries_from(
                shards,
                s,
                o,
            ))
            &&& s <= s1
            &&& 0 <= o1
            &&& (s1 < shards.len() ==> o1 <= shards[s1].len())
        }),
    decreases budget, shards.len() - s,
{
    let w = crate::db_keys::scan_walk(shards, s, o, budget, pattern, type_filter, now);
    if s >= shards.len() || budget == 0 {
        assert(Seq::<Seq<u8>>::empty() + hits_from(shards, s, o, pattern, type_filter, now) =~= hits_from(
            shards,
            s,
            o,
            pattern,
            type_filter,
            now,
        ));
    } else if o >= shards[s].len() {
        lemma_walk(shards, s + 1, 0, budget, pattern, type_filter, now);
        assert(shard_hits_from(shards[s], o, pattern, type_filter, now) =~= Seq::<Seq<u8>>::empty());
        assert(hits_from(shards, s, o, pattern, type_filter, now) =~= hits_from(
            shards,
            s + 1,
            0,
            pattern,
            type_filter,
            now,
        ));
    } else {
        lemma_walk(shards, s, o + 1, (budget - 1) as nat, pattern, type_filter, now);
        let (s1, o1, hits) = w;
        let (s2, o2, rest) = crate::db_keys::scan_walk(shards, s, o + 1, (budget - 1) as nat, pattern, type_filter, now);
        let k = shards[s][o].0;
        let tail = hits_from(shards, s1, o1, pattern, type_filter, now);
        let sh = shards[s];
        let after = hits_from(shards, s + 1, 0, pattern, type_filter, now);
        if crate::db_keys::scan_hit(k, shards[s][o].1, pattern, type_filter, now) {
            assert(hits + tail =~= seq![k] + (rest + tail));
            assert(hits_from(shards, s, o, pattern, type_filter, now) =~= seq![k] + (shard_hits_from(
                sh,
                o + 1,
                pattern,
                type_filter,
                now,
            ) + after));
        } else {
            assert(hits == rest);
        }
    }
}


proof fn lemma_cursor_bits(s: u64, o: u64)
    requires
        s < 0x1_0000_0000u64,
        o < 0x1_0000_0000u64,
    ensures
        ((s << 32u64) | o) >> 32u64 == s,
        ((s << 32u64) | o) & 0xFFFF_FFFFu64 == o,
        (((s << 32u64) | o) == 0u64) == (s == 0u64 && o == 0u64),
{
    assert(((s << 32u64) | o) >> 32u64 == s) by (bit_vector)
        requires
            s < 0x1_0000_0000u64,
            o < 0x1_0000_0000u64,
    ;
    assert(((s << 32u64) | o) & 0xFFFF_FFFFu64 == o) by (bit_vector)
        requires
            s < 0x1_0000_0000u64,
            o < 0x1_0000_0000u64,
    ;
    assert((((s << 32u64) | o) == 0u64) == (s == 0u64 && o == 0u64)) by (bit_vector)
        requires
            s < 0x1_0000_0000u64,
            o < 0x1_0000_0000u64,
    ;
}

proof fn lemma_entries_mono(shards: Seq<crate::db::ShardModel>, t: int, s: int, o: int)
    requires
        0 <= t <= s,
        0 <= o,
    ensures
        entries_from(shards, t, 0) >= entries_from(shards, s, o),
    decreases s - t,
{
    if t < s {
        lemma_entries_mono(shards, t + 1, s, o);
    }
}

proof fn lemma_iteration(
    shards: Seq<crate::db::ShardModel>,
    s: int,
    o: int,
    pattern: Option<Seq<u8>>,
    count: usize,
    type_filter: Option<Seq<u8>>,
    now: u64,
    calls: nat,
)
    requires
        0 < shards.len() < 0x1_0000_0000,
        forall|t: int| 0 <= t < shards.len() ==> #[trigger] shards[t].len() < 0x1_0000_0000,
        0 <= s < shards.len(),
        0 <= o <= shards[s].len(),
        calls > entries_from(shards, s, o),
    ensures
        scan_iteration(
            shards,
            crate::db_keys::make_cursor(s, o),
            pattern,
            count,
            type_filter,
            now,
            calls,
        ) == hits_from(shards, s, o, pattern, type_filter, now),
    decreases calls,
{
    let n = shards.len() as int;
    lemma_cursor_bits(s as u64, o as u64);
    let cursor = crate::db_keys::make_cursor(s, o);
    assert((cursor >> 32u64) as int == s);
    assert((cursor & 0xFFFF_FFFFu64) as int == o);
    let budget: nat = if count == 0 {
        10
    } else {
        count as nat
    };
    lemma_walk(shards, s, o, budget, pattern, type_filter, now);
    let (s1, o1, hits) = crate::db_keys::scan_walk(shards, s, o, budget, pattern, type_filter, now);
    let (s2, o2) = if s1 < n && o1 >= shards[s1].len() {
        (s1 + 1, 0)
    } else {
        (s1, o1)
    };
    assert(hits_from(shards, s2, o2, pattern, type_filter, now) == hits_from(shards, s1, o1, pattern, type_filter, now));
    assert(entries_from(shards, s2, o2) == entries_from(shards, s1, o1));
    if s2 >= n {
        assert(hits_from(shards, s2, o2, pattern, type_filter, now) =~= Seq::<Seq<u8>>::empty());
        assert(hits + Seq::<Seq<u8>>::empty() =~= hits);
    } else {
        lemma_cursor_bits(s2 as u64, o2 as u64);
        lemma_entries_mono(shards, 0, s, o);
        lemma_entries_mono(shards, 0, s2, o2);
        let next = crate::db_keys::make_cursor(s2, o2);
        assert(next != 0) by {
            if next == 0 {
                assert(s2 == 0 && o2 == 0);
            }
        }
        lemma_iteration(shards, s2, o2, pattern, count, type_filter, now, (calls - 1) as nat);
    }
}

/// A full SCAN iteration on an unchanged keyspace (from cursor 0, each answered
/// cursor passed back, until 0 comes back) answers every key that passes the
/// filters exactly once, shard by shard in order; it takes at most one call more
/// than there are entries. (The cursor holds the shard and the offset in 32 bits
/// each, so shards and their entries are counted below 2^32.)
pub proof fn law_scan_complete(
    shards: Seq<crate::db::ShardModel>,
    pattern: Option<Seq<u8>>,
    count: usize,
    type_filter: Option<Seq<u8>>,
    now: u64,
)
    requires
        0 < shards.len() < 0x1_0000_0000,
        forall|t: int| 0 <= t < shards.len() ==> #[trigger] shards[t].len() < 0x1_0000_0000,
    ensures
        scan_iteration(shards, 0, pattern, count, type_filter, now, entries_from(shards, 0, 0) + 1)
            == hits_from(shards, 0, 0, pattern, type_filter, now),
{
    lemma_cursor_bits(0, 0);
    assert(crate::db_keys::make_cursor(0, 0) == 0);
    lemma_iteration(shards, 0, 0, pattern, count, type_filter, now, entries_from(shards, 0, 0) + 1);
}

/// SET makes room only while it must and whenever it can: where the estimate plus the
/// new entry's size is within a (non-zero) limit, nothing is evicted; where it is over
/// the limit while every shard holds keys used before `u64::MAX`, at least one key is
/// evicted; and every eviction takes a key that was there.
pub proof fn law_eviction_only_when_needed(m: DbModel, keys: Seq<Seq<u8>>, needed: usize)
    requires
        crate::db::evicted_for(m, keys, needed),
        crate::db::eviction_done(m.remove_all(keys), needed),
    ensures
        m.memory + needed <= m.maxmemory ==> keys.len() == 0,
        m.maxmemory > 0 && m.memory + needed > m.maxmemory && crate::db::all_shards_hold_keys(m)
            && crate::db::all_used_before_end(m) ==> keys.len() > 0,
        forall|j: int| 0 <= j < keys.len() ==> m.remove_all(#[trigger] keys.take(j)).lookup(keys[j]) is Some,
{
    if keys.len() > 0 {
        assert(keys.take(0) =~= Seq::<Seq<u8>>::empty());
        assert(m.remove_all(keys.take(0)) == m);
    } else {
        assert(m.remove_all(keys) == m);
    }
}

} // verus!
