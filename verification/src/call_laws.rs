//! What holds over several calls, each at its own instant: reads of expired keys,
//! pushes and pops followed by reads, DEL's count, the time to live after EXPIRE, the
//! sweep's effect on the key count, and SCAN iterations across instants.
use crate::db::{
    count_keys, is_expired, key_index, lemma_count_update, lemma_key_index, lemma_put, lemma_remove, DataModel,
    DbModel, EntryModel,
};
use crate::db_list::{pushed, range_bounds};
use crate::laws::{lemma_drop_expired, lemma_lookup_wf, list_after_push};
use vstd::prelude::*;

verus! {

proof fn lemma_shard_in_range(m: DbModel, key: Seq<u8>)
    requires
        m.wf(),
    ensures
        0 <= m.shard_for(key) < m.shards.len(),
{
    assert((crate::db::default_hash(key) as usize) as int % (m.shards.len() as int) < m.shards.len());
}

/// Removing a key takes one from the count of keys where it was there.
pub proof fn lemma_remove_count(m: DbModel, key: Seq<u8>)
    requires
        m.wf(),
    ensures
        count_keys(m.remove_key(key).shards) + (if m.lookup(key) is Some {
            1int
        } else {
            0int
        }) == count_keys(m.shards),
{
    lemma_shard_in_range(m, key);
    let s = m.shard_for(key);
    lemma_key_index(m.shards[s], key, -1);
    let i = m.index_for(key);
    if i >= 0 {
        lemma_count_update(m.shards, s, m.shards[s].remove(i));
    }
}

/// Storing under a key adds one to the count of keys where it was not there.
pub proof fn lemma_put_count(m: DbModel, key: Seq<u8>, e: EntryModel)
    requires
        m.wf(),
    ensures
        count_keys(m.put(key, e).shards) == count_keys(m.shards) + (if m.lookup(key) is Some {
            0int
        } else {
            1int
        }),
{
    lemma_shard_in_range(m, key);
    let s = m.shard_for(key);
    lemma_key_index(m.shards[s], key, -1);
    let i = m.index_for(key);
    if i >= 0 {
        lemma_count_update(m.shards, s, m.shards[s].update(i, (key, e)));
    } else {
        lemma_count_update(m.shards, s, m.shards[s].push((key, e)));
    }
}

/// Reading a key whose expiry has come, whatever kind of value it holds, answers
/// nothing and drops it: the key count falls by one, and afterwards, at any instant,
/// GET reads nothing and TTL and PTTL answer -2; every other key keeps what it held.
pub proof fn law_read_expired_drops(m: DbModel, key: Seq<u8>, now: u64, t: u64)
    requires
        m.wf(),
        m.lookup(key) is Some,
        is_expired(m.lookup(key).unwrap(), now),
    ensures
        m.get_op(key, now).1 == Ok::<Option<Seq<u8>>, ()>(None),
        m.get_op(key, now).0.lookup(key) is None,
        count_keys(m.get_op(key, now).0.shards) + 1 == count_keys(m.shards),
        m.get_op(key, now).0.get_op(key, t).1 == Ok::<Option<Seq<u8>>, ()>(None),
        m.get_op(key, now).0.ttl_op(key, t) == -2,
        m.get_op(key, now).0.pttl_op(key, t) == -2,
        forall|k: Seq<u8>| k != key ==> #[trigger] m.get_op(key, now).0.lookup(k) == m.lookup(k),
{
    lemma_remove(m, key, key);
    lemma_remove_count(m, key);
    assert forall|k: Seq<u8>| k != key implies #[trigger] m.get_op(key, now).0.lookup(k) == m.lookup(k) by {
        lemma_remove(m, key, k);
    }
}

/// Dropping an expired key leaves every other key as it was.
proof fn lemma_drop_expired_others(m: DbModel, key: Seq<u8>, now: u64)
    requires
        m.wf(),
    ensures
        forall|k: Seq<u8>| k != key ==> #[trigger] m.drop_expired(key, now).lookup(k) == m.lookup(k),
{
    assert forall|k: Seq<u8>| k != key implies #[trigger] m.drop_expired(key, now).lookup(k) == m.lookup(k) by {
        lemma_remove(m, key, k);
    }
}

/// LPUSH or RPUSH at one instant, then LRANGE 0 -1 at a later one (before the list's
/// expiry, if it has one): the answer is the length of the new list, LRANGE reads that
/// list (the elements pushed in turn at that end of the old list, or of an empty one),
/// and no other key changes.
pub proof fn law_push_then_range_later(
    m: DbModel,
    key: Seq<u8>,
    elems: Seq<Seq<u8>>,
    front: bool,
    t1: u64,
    t2: u64,
)
    requires
        m.wf(),
        m.drop_expired(key, t1).lookup(key) matches Some(e) ==> e.data is List && !is_expired(e, t2),
    ensures
        m.push_op(key, elems, front, t1).1 == Ok::<nat, ()>(list_after_push(m, key, elems, front, t1).len()),
        m.push_op(key, elems, front, t1).0.lrange_op(key, 0i64, -1i64, t2).1 == Ok::<Seq<Seq<u8>>, ()>(
            list_after_push(m, key, elems, front, t1),
        ),
        forall|k: Seq<u8>| k != key ==> #[trigger] m.push_op(key, elems, front, t1).0.lookup(k) == m.lookup(k),
{
    let m1 = m.drop_expired(key, t1);
    lemma_drop_expired(m, key, t1);
    lemma_drop_expired_others(m, key, t1);
    let l = list_after_push(m, key, elems, front, t1);
    let e2 = match m1.lookup(key) {
        Some(e) => EntryModel { data: DataModel::List(l), last_accessed: t1, ..e },
        None => EntryModel { data: DataModel::List(l), expires_at: None, last_accessed: t1 },
    };
    lemma_put(m1, key, e2, key);
    let m2 = m.push_op(key, elems, front, t1).0;
    assert(m2.lookup(key) == Some(e2));
    assert(!is_expired(e2, t2));
    let (lo, hi) = range_bounds(l.len() as int, 0, -1);
    if l.len() > 0 {
        assert(lo == 0 && hi == l.len());
    }
    assert(l.subrange(lo, hi) =~= l);
    assert forall|k: Seq<u8>| k != key implies #[trigger] m2.lookup(k) == m.lookup(k) by {
        lemma_put(m1, key, e2, k);
    }
}

/// LPOP at one instant on a live list, then reads at a later instant (before its
/// expiry): LPOP answers the list's head; LRANGE 0 -1 reads the rest, with the key
/// count unchanged, where some is left; where none is, the key is gone, the key count
/// falls by one and GET reads nothing. No other key changes.
pub proof fn law_pop_then_read(m: DbModel, key: Seq<u8>, t1: u64, t2: u64)
    requires
        m.wf(),
        m.lookup(key) matches Some(e) && e.data is List && e.data->List_0.len() >= 1,
        !is_expired(m.lookup(key).unwrap(), t1),
        !is_expired(m.lookup(key).unwrap(), t2),
    ensures
        ({
            let l = m.lookup(key).unwrap().data->List_0;
            let r = m.pop_op(key, true, t1);
            &&& r.1 == Ok::<Option<Seq<u8>>, ()>(Some(l[0]))
            &&& l.len() > 1 ==> r.0.lrange_op(key, 0i64, -1i64, t2).1 == Ok::<Seq<Seq<u8>>, ()>(l.drop_first())
                && count_keys(r.0.shards) == count_keys(m.shards)
            &&& l.len() == 1 ==> r.0.lookup(key) is None && count_keys(r.0.shards) + 1 == count_keys(m.shards)
                && r.0.get_op(key, t2).1 == Ok::<Option<Seq<u8>>, ()>(None)
            &&& forall|k: Seq<u8>| k != key ==> #[trigger] r.0.lookup(k) == m.lookup(k)
        }),
{
    let e = m.lookup(key).unwrap();
    let l = e.data->List_0;
    let rest = l.drop_first();
    let r = m.pop_op(key, true, t1);
    assert(m.drop_expired(key, t1) == m);
    if rest.len() == 0 {
        let e2 = EntryModel { data: DataModel::List(rest), ..e };
        lemma_put(m, key, e2, key);
        lemma_put_count(m, key, e2);
        let mem = r.0.memory;
        let p = m.put(key, e2).with_memory(crate::db::wsub(m.memory, crate::db::wadd(l[0].len() as usize, 16)));
        assert(p.shards == m.put(key, e2).shards);
        lemma_remove(p, key, key);
        lemma_remove_count(p, key);
        assert forall|k: Seq<u8>| k != key implies #[trigger] r.0.lookup(k) == m.lookup(k) by {
            lemma_put(m, key, e2, k);
            lemma_remove(p, key, k);
        }
    } else {
        let e2 = EntryModel { data: DataModel::List(rest), last_accessed: t1, ..e };
        lemma_put(m, key, e2, key);
        lemma_put_count(m, key, e2);
        assert(r.0.lookup(key) == Some(e2));
        let (lo, hi) = range_bounds(rest.len() as int, 0, -1);
        assert(lo == 0 && hi == rest.len());
        assert(rest.subrange(lo, hi) =~= rest);
        assert forall|k: Seq<u8>| k != key implies #[trigger] r.0.lookup(k) == m.lookup(k) by {
            lemma_put(m, key, e2, k);
        }
    }
}

/// How many distinct keys among `keys` `m` holds: each key counted at its first
/// occurrence, where `m` holds it.
pub open spec fn distinct_stored(m: DbModel, keys: Seq<Seq<u8>>) -> nat
    decreases keys.len(),
{
    if keys.len() == 0 {
        0
    } else {
        distinct_stored(m, keys.drop_last()) + if m.lookup(keys.last()) is Some && !keys.drop_last().contains(
            keys.last(),
        ) {
            1nat
        } else {
            0nat
        }
    }
}

/// DEL counts each distinct key that was there once (an expired one not yet dropped
/// included), and the key count falls by exactly that; afterwards none of the keys is
/// there, and every other key holds what it held.
pub proof fn law_del_counts_distinct(m: DbModel, keys: Seq<Seq<u8>>)
    requires
        m.wf(),
    ensures
        m.del_op(keys).1 == distinct_stored(m, keys),
        count_keys(m.del_op(keys).0.shards) + distinct_stored(m, keys) == count_keys(m.shards),
        forall|k: Seq<u8>| #[trigger] m.del_op(keys).0.lookup(k) == if keys.contains(k) {
            None
        } else {
            m.lookup(k)
        },
        m.del_op(keys).0.wf(),
    decreases keys.len(),
{
    if keys.len() > 0 {
        let ks = keys.drop_last();
        let x = keys.last();
        law_del_counts_distinct(m, ks);
        let m1 = m.del_op(ks).0;
        lemma_remove(m1, x, x);
        lemma_remove_count(m1, x);
        assert(m1.lookup(x) == if ks.contains(x) { None } else { m.lookup(x) });
        assert forall|k: Seq<u8>| #[trigger] m.del_op(keys).0.lookup(k) == if keys.contains(k) {
            None
        } else {
            m.lookup(k)
        } by {
            lemma_remove(m1, x, k);
            assert(m1.lookup(k) == if ks.contains(k) { None } else { m.lookup(k) });
            if ks.contains(k) {
                let w = choose|w: int| 0 <= w < ks.len() && ks[w] == k;
                assert(keys[w] == k);
            }
            if keys.contains(k) && k != x {
                let w = choose|w: int| 0 <= w < keys.len() && keys[w] == k;
                assert(ks[w] == k);
            }
            if k == x {
                assert(keys[keys.len() - 1] == k);
            }
        }
    }
}

/// EXPIRE on a live key at `t1`, then TTL at a later `t2`: the key is there with its
/// value and the new expiry, and TTL is -2 (the expiry has come) or between 0 and the
/// duration in whole seconds; before the expiry comes (and before the clock's last
/// instant, where a saturated expiry falls) it is not -2.
pub proof fn law_expire_then_ttl_later(m: DbModel, key: Seq<u8>, d: u64, t1: u64, t2: u64)
    requires
        m.wf(),
        crate::laws::live_at(m, key, t1),
        t1 <= t2,
    ensures
        m.expire_op(key, d, t1).1,
        m.expire_op(key, d, t1).0.lookup(key) matches Some(e) && e.data == m.lookup(key).unwrap().data,
        m.expire_op(key, d, t1).0.ttl_op(key, t2) == -2 || 0 <= m.expire_op(key, d, t1).0.ttl_op(key, t2)
            <= d / 1000,
        t2 < t1 + d && t2 < u64::MAX ==> 0 <= m.expire_op(key, d, t1).0.ttl_op(key, t2) <= d / 1000,
{
    let e = m.lookup(key).unwrap();
    let at = if t1 + d > u64::MAX { u64::MAX } else { (t1 + d) as u64 };
    let e2 = EntryModel { expires_at: Some(at), ..e };
    lemma_lookup_wf(m, key);
    lemma_put(m, key, e2, key);
    let r = m.expire_op(key, d, t1).0;
    assert(r.lookup(key) == Some(e2));
    if t2 < at {
        assert(at - t2 <= d);
        assert((at - t2) / 1000 <= d / 1000) by (nonlinear_arith)
            requires
                at - t2 <= d,
                0 <= at - t2,
        ;
    }
}

/// Removing keys one after another takes at most as many from the key count.
pub proof fn lemma_remove_all_count(m: DbModel, keys: Seq<Seq<u8>>)
    requires
        m.wf(),
    ensures
        count_keys(m.shards) - keys.len() <= count_keys(m.remove_all(keys).shards) <= count_keys(m.shards),
    decreases keys.len(),
{
    if keys.len() > 0 {
        lemma_remove_all_count(m, keys.drop_last());
        crate::db::lemma_remove_all_wf(m, keys.drop_last());
        lemma_remove_count(m.remove_all(keys.drop_last()), keys.last());
    }
}

/// A sweep round samples at most its sample size, finds at most as many expired, and
/// leaves between the key count less the expired ones and the key count.
pub proof fn law_sweep_round_counts(m: DbModel, sample: usize, after: DbModel, sampled: nat, expired: nat)
    requires
        m.wf(),
        crate::db_keys::sweep_round(m, sample, after, sampled, expired),
    ensures
        expired <= sampled <= sample,
        count_keys(m.shards) - expired <= count_keys(after.shards) <= count_keys(m.shards),
{
    let (s, picks, now) = choose|s: int, picks: Seq<usize>, now: u64|
        {
            &&& 0 <= s < m.shards.len()
            &&& picks.len() == if m.shards[s].len() < sample {
                m.shards[s].len()
            } else {
                sample as nat
            }
            &&& forall|j: int| 0 <= j < picks.len() ==> #[trigger] picks[j] < m.shards[s].len()
            &&& after == m.remove_all(crate::db_keys::expired_picks(m.shards[s], picks, now))
            &&& sampled == picks.len()
            &&& expired == crate::db_keys::expired_picks(m.shards[s], picks, now).len()
            &&& forall|q: int|
                0 <= q < crate::db_keys::expired_picks(m.shards[s], picks, now).len() ==> (m.lookup(
                    #[trigger] crate::db_keys::expired_picks(m.shards[s], picks, now)[q],
                ) is Some && is_expired(
                    m.lookup(crate::db_keys::expired_picks(m.shards[s], picks, now)[q]).unwrap(),
                    now,
                ))
        };
    crate::db_keys::lemma_expired_picks_len(m.shards[s], picks, now);
    lemma_remove_all_count(m, crate::db_keys::expired_picks(m.shards[s], picks, now));
}

/// No entry turns from live to expired (or back) between `t0` and `t`.
pub open spec fn same_expiry(shards: Seq<crate::db::ShardModel>, t0: u64, t: u64) -> bool {
    forall|s: int, i: int|
        0 <= s < shards.len() && 0 <= i < shards[s].len() ==> is_expired(#[trigger] shards[s][i].1, t)
            == is_expired(shards[s][i].1, t0)
}

/// SCAN called from `cursor`, the j-th call at `times[j]`, each time with the cursor
/// the call before answered, until one answers 0 or the instants run out: the keys of
/// all the answers, in order.
pub open spec fn scan_iteration_at(
    shards: Seq<crate::db::ShardModel>,
    cursor: u64,
    pattern: Option<Seq<u8>>,
    count: usize,
    type_filter: Option<Seq<u8>>,
    times: Seq<u64>,
) -> Seq<Seq<u8>>
    decreases times.len(),
{
    if times.len() == 0 {
        Seq::empty()
    } else {
        let (next, keys) = crate::db_keys::scan_op(shards, cursor, pattern, count, type_filter, times[0]);
        if next == 0 {
            keys
        } else {
            keys + scan_iteration_at(shards, next, pattern, count, type_filter, times.drop_first())
        }
    }
}

proof fn lemma_walk_same(
    shards: Seq<crate::db::ShardModel>,
    s: int,
    off: int,
    budget: nat,
    pattern: Option<Seq<u8>>,
    type_filter: Option<Seq<u8>>,
    t0: u64,
    t: u64,
)
    requires
        same_expiry(shards, t0, t),
    ensures
        crate::db_keys::scan_walk(shards, s, off, budget, pattern, type_filter, t)
            == crate::db_keys::scan_walk(shards, s, off, budget, pattern, type_filter, t0),
    decreases budget, shards.len() - s,
{
    if s < 0 || s >= shards.len() || budget == 0 {
    } else if off < 0 || off >= shards[s].len() {
        lemma_walk_same(shards, s + 1, 0, budget, pattern, type_filter, t0, t);
    } else {
        lemma_walk_same(shards, s, off + 1, (budget - 1) as nat, pattern, type_filter, t0, t);
        assert(is_expired(shards[s][off].1, t) == is_expired(shards[s][off].1, t0));
    }
}

proof fn lemma_iteration_same(
    shards: Seq<crate::db::ShardModel>,
    cursor: u64,
    pattern: Option<Seq<u8>>,
    count: usize,
    type_filter: Option<Seq<u8>>,
    t0: u64,
    times: Seq<u64>,
)
    requires
        forall|j: int| 0 <= j < times.len() ==> same_expiry(shards, t0, #[trigger] times[j]),
    ensures
        scan_iteration_at(shards, cursor, pattern, count, type_filter, times)
            == crate::laws::scan_iteration(shards, cursor, pattern, count, type_filter, t0, times.len()),
    decreases times.len(),
{
    if times.len() > 0 {
        let s0 = (cursor >> 32u64) as int;
        let o0 = (cursor & 0xFFFF_FFFFu64) as int;
        let budget: nat = if count == 0 { 10 } else { count as nat };
        assert(same_expiry(shards, t0, times[0]));
        lemma_walk_same(shards, s0, o0, budget, pattern, type_filter, t0, times[0]);
        let rest = times.drop_first();
        assert forall|j: int| 0 <= j < rest.len() implies same_expiry(shards, t0, #[trigger] rest[j]) by {
            assert(rest[j] == times[j + 1]);
        }
        let (next, keys) = crate::db_keys::scan_op(shards, cursor, pattern, count, type_filter, t0);
        lemma_iteration_same(shards, next, pattern, count, type_filter, t0, rest);
    }
}

/// A full SCAN iteration whose calls each run at their own instant, on an unchanged
/// keyspace in which no entry's expiry comes between the first instant `t0` and any
/// call: from cursor 0, each answered cursor passed back until 0 comes back, it answers
/// every key that passes the filters (live at `t0`) exactly once, shard by shard in
/// order, within one call more than there are entries. (Shards and their entries are
/// counted below 2^32, as the cursor holds each in 32 bits.)
pub proof fn law_scan_complete_over_time(
    shards: Seq<crate::db::ShardModel>,
    pattern: Option<Seq<u8>>,
    count: usize,
    type_filter: Option<Seq<u8>>,
    t0: u64,
    times: Seq<u64>,
)
    requires
        0 < shards.len() < 0x1_0000_0000,
        forall|t: int| 0 <= t < shards.len() ==> #[trigger] shards[t].len() < 0x1_0000_0000,
        times.len() == crate::laws::entries_from(shards, 0, 0) + 1,
        forall|j: int| 0 <= j < times.len() ==> same_expiry(shards, t0, #[trigger] times[j]),
    ensures
        scan_iteration_at(shards, 0, pattern, count, type_filter, times) == crate::laws::hits_from(
            shards,
            0,
            0,
            pattern,
            type_filter,
            t0,
        ),
{
    lemma_iteration_same(shards, 0, pattern, count, type_filter, t0, times);
    crate::laws::law_scan_complete(shards, pattern, count, type_filter, t0);
}

} // verus!
