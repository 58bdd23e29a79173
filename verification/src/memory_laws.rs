//! The memory estimate: what the operations do to it, against the sum of the
//! entries' estimated sizes, in the wrapping arithmetic of `usize`.
use crate::db::{is_expired, lemma_key_index, lemma_remove, DataModel, DbModel, EntryModel};
use vstd::prelude::*;

verus! {

// ---------------------------------------------------------------------------
// The memory estimate
// ---------------------------------------------------------------------------
/// The number of values of `usize`.
pub open spec fn modulus() -> int {
    usize::MAX as int + 1
}

/// `k` times the number of values of `usize`.
pub open spec fn multiple(k: int) -> int {
    k * modulus()
}

/// `a` and `b` are equal up to a multiple of the number of values of `usize`.
pub open spec fn congruent(a: int, b: int) -> bool {
    exists|k: int| a - b == #[trigger] multiple(k)
}

/// The sizes of a shard's entries, added up.
pub open spec fn shard_total(sh: crate::db::ShardModel) -> int
    decreases sh.len(),
{
    if sh.len() == 0 {
        0
    } else {
        shard_total(sh.drop_last()) + crate::db::entry_size(sh.last().0, sh.last().1.data) as int
    }
}

/// The sizes of all entries, added up.
pub open spec fn size_total(shards: Seq<crate::db::ShardModel>) -> int
    decreases shards.len(),
{
    if shards.len() == 0 {
        0
    } else {
        size_total(shards.drop_last()) + shard_total(shards.last())
    }
}

/// The memory estimate is the sum of the entries' sizes (in the wrapping arithmetic
/// of `usize`).
pub open spec fn memory_tracks(m: DbModel) -> bool {
    congruent(m.memory as int, size_total(m.shards))
}

proof fn lemma_congruent_step(a: int, b: int, c: int, d: int)
    requires
        congruent(a, b + c),
        congruent(b, d),
    ensures
        congruent(a, d + c),
{
    let k1 = choose|k: int| a - (b + c) == #[trigger] multiple(k);
    let k2 = choose|k: int| b - d == #[trigger] multiple(k);
    let m = modulus();
    assert((k1 + k2) * m == k1 * m + k2 * m) by (nonlinear_arith);
    assert(a - (d + c) == multiple(k1 + k2));
}

proof fn lemma_wadd_congruent(x: usize, y: usize)
    ensures
        congruent(crate::db::wadd(x, y) as int, x + y),
{
    if x + y > usize::MAX {
        assert(crate::db::wadd(x, y) as int - (x + y) == multiple(-1));
    } else {
        assert(crate::db::wadd(x, y) as int - (x + y) == multiple(0));
    }
}

proof fn lemma_wsub_congruent(x: usize, y: usize)
    ensures
        congruent(crate::db::wsub(x, y) as int, x - y),
{
    if x - y < 0 {
        assert(crate::db::wsub(x, y) as int - (x - y) == multiple(1));
    } else {
        assert(crate::db::wsub(x, y) as int - (x - y) == multiple(0));
    }
}

proof fn lemma_shard_total_update(sh: crate::db::ShardModel, i: int, x: (Seq<u8>, EntryModel))
    requires
        0 <= i < sh.len(),
    ensures
        shard_total(sh.update(i, x)) == shard_total(sh) - crate::db::entry_size(sh[i].0, sh[i].1.data)
            + crate::db::entry_size(x.0, x.1.data),
    decreases sh.len(),
{
    let u = sh.update(i, x);
    if i == sh.len() - 1 {
        assert(u.drop_last() =~= sh.drop_last());
    } else {
        assert(u.drop_last() =~= sh.drop_last().update(i, x));
        lemma_shard_total_update(sh.drop_last(), i, x);
    }
}

proof fn lemma_shard_total_remove(sh: crate::db::ShardModel, i: int)
    requires
        0 <= i < sh.len(),
    ensures
        shard_total(sh.remove(i)) == shard_total(sh) - crate::db::entry_size(sh[i].0, sh[i].1.data),
    decreases sh.len(),
{
    let r = sh.remove(i);
    if i == sh.len() - 1 {
        assert(r =~= sh.drop_last());
    } else {
        assert(r.drop_last() =~= sh.drop_last().remove(i));
        assert(r.last() == sh.last());
        lemma_shard_total_remove(sh.drop_last(), i);
    }
}

proof fn lemma_size_total_update(shards: Seq<crate::db::ShardModel>, s: int, x: crate::db::ShardModel)
    requires
        0 <= s < shards.len(),
    ensures
        size_total(shards.update(s, x)) == size_total(shards) - shard_total(shards[s]) + shard_total(x),
    decreases shards.len(),
{
    let u = shards.update(s, x);
    if s == shards.len() - 1 {
        assert(u.drop_last() =~= shards.drop_last());
    } else {
        assert(u.drop_last() =~= shards.drop_last().update(s, x));
        lemma_size_total_update(shards.drop_last(), s, x);
    }
}

/// The size of what `key` holds, or 0.
pub open spec fn held_size(m: DbModel, key: Seq<u8>) -> int {
    match m.lookup(key) {
        Some(e) => crate::db::entry_size(key, e.data) as int,
        None => 0,
    }
}

proof fn lemma_put_total(m: DbModel, key: Seq<u8>, e: EntryModel)
    requires
        m.wf(),
    ensures
        size_total(m.put(key, e).shards) == size_total(m.shards) - held_size(m, key) + crate::db::entry_size(key, e.data),
{
    let s = m.shard_for(key);
    assert(0 <= s < m.shards.len()) by {
        assert((crate::db::default_hash(key) as usize) as int % (m.shards.len() as int) < m.shards.len());
    }
    let sh = m.shards[s];
    lemma_key_index(sh, key, -1);
    let i = m.index_for(key);
    if i < 0 {
        assert(sh.push((key, e)).drop_last() =~= sh);
        lemma_size_total_update(m.shards, s, sh.push((key, e)));
    } else {
        lemma_shard_total_update(sh, i, (key, e));
        lemma_size_total_update(m.shards, s, sh.update(i, (key, e)));
    }
}

proof fn lemma_remove_total(m: DbModel, key: Seq<u8>)
    requires
        m.wf(),
    ensures
        size_total(m.remove_key(key).shards) == size_total(m.shards) - held_size(m, key),
{
    let s = m.shard_for(key);
    assert(0 <= s < m.shards.len()) by {
        assert((crate::db::default_hash(key) as usize) as int % (m.shards.len() as int) < m.shards.len());
    }
    let sh = m.shards[s];
    lemma_key_index(sh, key, -1);
    let i = m.index_for(key);
    if i >= 0 {
        lemma_shard_total_remove(sh, i);
        lemma_size_total_update(m.shards, s, sh.remove(i));
    }
}

/// Removing a key keeps the estimate tracking the entries.
pub proof fn lemma_remove_tracks(m: DbModel, key: Seq<u8>)
    requires
        m.wf(),
        memory_tracks(m),
    ensures
        memory_tracks(m.remove_key(key)),
{
    lemma_remove_total(m, key);
    if m.lookup(key) is Some {
        let sz = crate::db::entry_size(key, m.lookup(key).unwrap().data);
        lemma_wsub_congruent(m.memory, sz);
        lemma_congruent_step(
            crate::db::wsub(m.memory, sz) as int,
            m.memory as int,
            -(sz as int),
            size_total(m.shards),
        );
    }
}

/// Removing keys one after another (as DEL, eviction and expiry sweeps do) keeps the
/// memory estimate equal to the sum of the entries' sizes.
pub proof fn law_removals_track_memory(m: DbModel, keys: Seq<Seq<u8>>)
    requires
        m.wf(),
        memory_tracks(m),
    ensures
        memory_tracks(m.remove_all(keys)),
    decreases keys.len(),
{
    if keys.len() > 0 {
        law_removals_track_memory(m, keys.drop_last());
        crate::db::lemma_remove_all_wf(m, keys.drop_last());
        lemma_remove_tracks(m.remove_all(keys.drop_last()), keys.last());
    }
}

proof fn lemma_same_size_put_tracks(m: DbModel, key: Seq<u8>, e: EntryModel)
    requires
        m.wf(),
        memory_tracks(m),
        m.lookup(key) matches Some(o) && o.data == e.data,
    ensures
        memory_tracks(m.put(key, e)),
{
    lemma_put_total(m, key, e);
}

proof fn lemma_store_string_tracks(m: DbModel, key: Seq<u8>, value: Seq<u8>, exp: Option<u64>, now: u64)
    requires
        m.wf(),
        memory_tracks(m),
    ensures
        memory_tracks(m.store_string(key, value, exp, now)),
{
    let e = EntryModel { data: DataModel::String(value), expires_at: exp, last_accessed: now };
    let ns = crate::db::entry_size(key, e.data);
    lemma_put_total(m, key, e);
    match m.lookup(key) {
        Some(o) => {
            let os = crate::db::entry_size(key, o.data);
            let w = crate::db::wsub(m.memory, os);
            lemma_wsub_congruent(m.memory, os);
            lemma_wadd_congruent(w, ns);
            lemma_congruent_step(w as int, m.memory as int, -(os as int), size_total(m.shards));
            lemma_congruent_step(
                crate::db::wadd(w, ns) as int,
                w as int,
                ns as int,
                size_total(m.shards) - os,
            );
        },
        None => {
            lemma_wadd_congruent(m.memory, ns);
            lemma_congruent_step(
                crate::db::wadd(m.memory, ns) as int,
                m.memory as int,
                ns as int,
                size_total(m.shards),
            );
        },
    }
}

proof fn lemma_del_tracks(m: DbModel, keys: Seq<Seq<u8>>)
    requires
        m.wf(),
        memory_tracks(m),
    ensures
        memory_tracks(m.del_op(keys).0),
        m.del_op(keys).0.wf(),
    decreases keys.len(),
{
    if keys.len() > 0 {
        lemma_del_tracks(m, keys.drop_last());
        let m1 = m.del_op(keys.drop_last()).0;
        lemma_remove_tracks(m1, keys.last());
        lemma_remove(m1, keys.last(), keys.last());
    }
}

/// Commands on string values, and those that only read, keep the memory estimate
/// equal to the sum of the entries' sizes (in the wrapping arithmetic of `usize`),
/// whatever SET evicts; a new database (no entries, estimate 0) starts so.
pub proof fn law_string_commands_track_memory(
    m: DbModel,
    c: crate::cmd::CommandModel,
    now: u64,
    evicted: Seq<Seq<u8>>,
)
    requires
        m.wf(),
        memory_tracks(m),
        c is Ping || c is Echo || c is Get || c is SetString || c is Del || c is Expire || c is Ttl
            || c is Keys || c is Scan || c is Publish || c is Subscribe || c is Handshake,
    ensures
        memory_tracks(crate::cmd::apply_op(m, c, now, evicted).0),
{
    reveal(crate::cmd::apply_op);
    match c {
        crate::cmd::CommandModel::Get(k) => {
            match m.lookup(k) {
                Some(e) => {
                    if is_expired(e, now) {
                        lemma_remove_tracks(m, k);
                    } else {
                        lemma_same_size_put_tracks(m, k, EntryModel { last_accessed: now, ..e });
                    }
                },
                None => {},
            }
        },
        crate::cmd::CommandModel::SetString { key, value, expire_ms } => {
            law_removals_track_memory(m, evicted);
            crate::db::lemma_remove_all_wf(m, evicted);
            lemma_store_string_tracks(
                m.remove_all(evicted),
                key,
                value,
                crate::cmd::expiry_after(now, expire_ms),
                now,
            );
        },
        crate::cmd::CommandModel::Del(keys) => {
            lemma_del_tracks(m, keys);
        },
        crate::cmd::CommandModel::Expire { key, duration_ms } => {
            match m.lookup(key) {
                Some(e) => {
                    if is_expired(e, now) {
                        lemma_remove_tracks(m, key);
                    } else {
                        let at = if now + duration_ms > u64::MAX {
                            u64::MAX
                        } else {
                            (now + duration_ms) as u64
                        };
                        lemma_same_size_put_tracks(m, key, EntryModel { expires_at: Some(at), ..e });
                    }
                },
                None => {},
            }
        },
        _ => {},
    }
}

/// A new database tracks its memory: no entries and an estimate of 0.
pub proof fn law_empty_tracks_memory(m: DbModel)
    requires
        m.memory == 0,
        forall|s: int| 0 <= s < m.shards.len() ==> #[trigger] m.shards[s].len() == 0,
    ensures
        memory_tracks(m),
{
    lemma_empty_total(m.shards);
    assert(m.memory as int - size_total(m.shards) == multiple(0));
}

proof fn lemma_empty_total(shards: Seq<crate::db::ShardModel>)
    requires
        forall|s: int| 0 <= s < shards.len() ==> #[trigger] shards[s].len() == 0,
    ensures
        size_total(shards) == 0,
    decreases shards.len(),
{
    if shards.len() > 0 {
        assert(shards[shards.len() - 1].len() == 0);
        lemma_empty_total(shards.drop_last());
    }
}

// ---------------------------------------------------------------------------
// Sizes as sums
// ---------------------------------------------------------------------------
/// The weights of the items of `s`, added up.
pub open spec fn weighted<T>(s: Seq<T>, w: spec_fn(T) -> int) -> int
    decreases s.len(),
{
    if s.len() == 0 {
        0
    } else {
        weighted(s.drop_last(), w) + w(s.last())
    }
}

/// The estimated size of a list or set member: its length (as a `usize`) and 16.
pub open spec fn member_weight() -> spec_fn(Seq<u8>) -> int {
    |x: Seq<u8>| (x.len() as usize) as int + 16
}

/// The estimated size of a hash pair: both lengths (as `usize`) and 32.
pub open spec fn pair_weight() -> spec_fn((Seq<u8>, Seq<u8>)) -> int {
    |p: (Seq<u8>, Seq<u8>)| (p.0.len() as usize) as int + (p.1.len() as usize) as int + 32
}

/// The estimated size of a value, without wrapping.
pub open spec fn data_total(d: DataModel) -> int {
    match d {
        DataModel::String(b) => (b.len() as usize) as int,
        DataModel::List(l) => weighted(l, member_weight()),
        DataModel::Members(l) => weighted(l, member_weight()),
        DataModel::Hash(h) => weighted(h, pair_weight()),
    }
}

/// The fixed part of an entry's size: its key's length and the overhead.
pub open spec fn entry_base(key: Seq<u8>) -> int {
    (key.len() as usize) as int + crate::db::ESTIMATED_ENTRY_OVERHEAD as int
}

proof fn lemma_cong_refl(a: int)
    ensures
        congruent(a, a),
{
    assert(a - a == multiple(0));
}

/// Sums and differences of congruent numbers are congruent.
proof fn lemma_cong_add(a: int, b: int, c: int, d: int)
    requires
        congruent(a, b),
        congruent(c, d),
    ensures
        congruent(a + c, b + d),
        congruent(a - c, b - d),
{
    let k1 = choose|k: int| a - b == #[trigger] multiple(k);
    let k2 = choose|k: int| c - d == #[trigger] multiple(k);
    let m = modulus();
    assert((k1 + k2) * m == k1 * m + k2 * m) by (nonlinear_arith);
    assert((k1 - k2) * m == k1 * m - k2 * m) by (nonlinear_arith);
    assert((a + c) - (b + d) == multiple(k1 + k2));
    assert((a - c) - (b - d) == multiple(k1 - k2));
}

proof fn lemma_cong_trans(a: int, b: int, c: int)
    requires
        congruent(a, b),
        congruent(b, c),
    ensures
        congruent(a, c),
{
    lemma_cong_add(a, b, b, c);
    lemma_cong_refl(b);
    lemma_cong_add(a + b, b + c, b, b);
    assert(a + b - b == a);
    assert(b + c - b == c);
}

proof fn lemma_weighted_push<T>(s: Seq<T>, x: T, w: spec_fn(T) -> int)
    ensures
        weighted(s.push(x), w) == weighted(s, w) + w(x),
{
    assert(s.push(x).drop_last() =~= s);
}

proof fn lemma_weighted_update<T>(s: Seq<T>, i: int, x: T, w: spec_fn(T) -> int)
    requires
        0 <= i < s.len(),
    ensures
        weighted(s.update(i, x), w) == weighted(s, w) - w(s[i]) + w(x),
    decreases s.len(),
{
    let u = s.update(i, x);
    if i == s.len() - 1 {
        assert(u.drop_last() =~= s.drop_last());
    } else {
        assert(u.drop_last() =~= s.drop_last().update(i, x));
        lemma_weighted_update(s.drop_last(), i, x, w);
    }
}

proof fn lemma_weighted_remove<T>(s: Seq<T>, i: int, w: spec_fn(T) -> int)
    requires
        0 <= i < s.len(),
    ensures
        weighted(s.remove(i), w) == weighted(s, w) - w(s[i]),
    decreases s.len(),
{
    let r = s.remove(i);
    if i == s.len() - 1 {
        assert(r =~= s.drop_last());
    } else {
        assert(r.drop_last() =~= s.drop_last().remove(i));
        assert(r.last() == s.last());
        lemma_weighted_remove(s.drop_last(), i, w);
    }
}

proof fn lemma_weighted_concat<T>(a: Seq<T>, b: Seq<T>, w: spec_fn(T) -> int)
    ensures
        weighted(a + b, w) == weighted(a, w) + weighted(b, w),
    decreases b.len(),
{
    if b.len() == 0 {
        assert(a + b =~= a);
    } else {
        assert((a + b).drop_last() =~= a + b.drop_last());
        lemma_weighted_concat(a, b.drop_last(), w);
    }
}

proof fn lemma_weighted_reverse<T>(a: Seq<T>, w: spec_fn(T) -> int)
    ensures
        weighted(a.reverse(), w) == weighted(a, w),
    decreases a.len(),
{
    if a.len() > 0 {
        assert(a.reverse() =~= seq![a.last()] + a.drop_last().reverse());
        lemma_weighted_concat(seq![a.last()], a.drop_last().reverse(), w);
        lemma_weighted_reverse(a.drop_last(), w);
        let one = seq![a.last()];
        assert(one.drop_last() =~= Seq::<T>::empty());
        assert(weighted(one, w) == weighted(one.drop_last(), w) + w(one.last()));
        assert(weighted(Seq::<T>::empty(), w) == 0);
    } else {
        assert(a.reverse() =~= a);
    }
}

proof fn lemma_members_size(s: Seq<Seq<u8>>)
    ensures
        congruent(crate::db::members_size(s) as int, weighted(s, member_weight())),
    decreases s.len(),
{
    if s.len() == 0 {
        lemma_cong_refl(0);
    } else {
        let d = s.drop_last();
        let l = s.last().len() as usize;
        let w1 = crate::db::wadd(l, 16);
        lemma_members_size(d);
        lemma_wadd_congruent(crate::db::members_size(d), w1);
        lemma_wadd_congruent(l, 16);
        lemma_cong_add(
            crate::db::members_size(d) as int,
            weighted(d, member_weight()),
            w1 as int,
            l + 16,
        );
        lemma_cong_trans(
            crate::db::members_size(s) as int,
            crate::db::members_size(d) + w1,
            weighted(d, member_weight()) + l + 16,
        );
    }
}

proof fn lemma_pairs_size(h: Seq<(Seq<u8>, Seq<u8>)>)
    ensures
        congruent(crate::db::pairs_size(h) as int, weighted(h, pair_weight())),
    decreases h.len(),
{
    if h.len() == 0 {
        lemma_cong_refl(0);
    } else {
        let d = h.drop_last();
        let a = h.last().0.len() as usize;
        let b = h.last().1.len() as usize;
        let ab = crate::db::wadd(a, b);
        let w1 = crate::db::wadd(ab, 32);
        lemma_pairs_size(d);
        lemma_wadd_congruent(crate::db::pairs_size(d), w1);
        lemma_wadd_congruent(ab, 32);
        lemma_wadd_congruent(a, b);
        lemma_cong_refl(32);
        lemma_cong_add(ab as int, a + b, 32, 32);
        lemma_cong_trans(w1 as int, ab + 32, a + b + 32);
        lemma_cong_add(
            crate::db::pairs_size(d) as int,
            weighted(d, pair_weight()),
            w1 as int,
            a + b + 32,
        );
        lemma_cong_trans(
            crate::db::pairs_size(h) as int,
            crate::db::pairs_size(d) + w1,
            weighted(d, pair_weight()) + a + b + 32,
        );
    }
}

/// An entry's estimated size is its fixed part and its value's size.
proof fn lemma_entry_size(key: Seq<u8>, d: DataModel)
    ensures
        congruent(crate::db::entry_size(key, d) as int, entry_base(key) + data_total(d)),
{
    let k = key.len() as usize;
    let ds = crate::db::data_size(d);
    match d {
        DataModel::String(b) => lemma_cong_refl(ds as int),
        DataModel::List(l) => lemma_members_size(l),
        DataModel::Members(l) => lemma_members_size(l),
        DataModel::Hash(h) => lemma_pairs_size(h),
    }
    let kd = crate::db::wadd(k, ds);
    lemma_wadd_congruent(k, ds);
    lemma_wadd_congruent(kd, crate::db::ESTIMATED_ENTRY_OVERHEAD);
    lemma_cong_refl(k as int);
    lemma_cong_add(k as int, k as int, ds as int, data_total(d));
    lemma_cong_trans(kd as int, k + ds, k + data_total(d));
    lemma_cong_refl(crate::db::ESTIMATED_ENTRY_OVERHEAD as int);
    lemma_cong_add(
        kd as int,
        k + data_total(d),
        crate::db::ESTIMATED_ENTRY_OVERHEAD as int,
        crate::db::ESTIMATED_ENTRY_OVERHEAD as int,
    );
    lemma_cong_trans(
        crate::db::entry_size(key, d) as int,
        kd + crate::db::ESTIMATED_ENTRY_OVERHEAD,
        k + data_total(d) + crate::db::ESTIMATED_ENTRY_OVERHEAD,
    );
}

proof fn lemma_cong_sym(a: int, b: int)
    requires
        congruent(a, b),
    ensures
        congruent(b, a),
{
    let k = choose|k: int| a - b == #[trigger] multiple(k);
    let m = modulus();
    assert((-k) * m == -(k * m)) by (nonlinear_arith);
    assert(b - a == multiple(-k));
}

/// A step of an estimate: `new` is `old + delta` up to wrapping, and `old` had moved
/// from `start` as the sizes moved from `w0` to `w`.
proof fn lemma_cong_step(new: int, old: int, delta: int, start: int, w: int, w0: int)
    requires
        congruent(new, old + delta),
        congruent(old - start, w - w0),
    ensures
        congruent(new - start, w + delta - w0),
{
    lemma_cong_refl(start);
    lemma_cong_add(new, old + delta, start, start);
    lemma_cong_refl(delta);
    lemma_cong_add(old - start, w - w0, delta, delta);
    lemma_cong_trans(new - start, old - start + delta, w - w0 + delta);
}

proof fn lemma_key_index_hit<V>(h: Seq<(Seq<u8>, V)>, k: Seq<u8>)
    ensures
        -1 <= crate::db::key_index(h, k) < h.len(),
        crate::db::key_index(h, k) >= 0 ==> h[crate::db::key_index(h, k)].0 == k,
    decreases h.len(),
{
    if h.len() > 0 {
        lemma_key_index_hit(h.drop_last(), k);
    }
}

proof fn lemma_member_index_hit(s: Seq<Seq<u8>>, x: Seq<u8>)
    ensures
        -1 <= crate::db_members::member_index(s, x) < s.len(),
        crate::db_members::member_index(s, x) >= 0 ==> s[crate::db_members::member_index(s, x)] == x,
    decreases s.len(),
{
    if s.len() > 0 {
        lemma_member_index_hit(s.drop_last(), x);
    }
}

/// HSET moves the estimate as it moves the pairs' sizes.
proof fn lemma_hset_all(h0: Seq<(Seq<u8>, Seq<u8>)>, fields: Seq<(Seq<u8>, Seq<u8>)>, mem: usize)
    ensures
        congruent(
            crate::db_hash::hset_all(h0, fields, mem).1 - mem,
            weighted(crate::db_hash::hset_all(h0, fields, mem).0, pair_weight()) - weighted(h0, pair_weight()),
        ),
    decreases fields.len(),
{
    let w = pair_weight();
    if fields.len() == 0 {
        lemma_cong_refl(0);
    } else {
        let (h1, m1, c1) = crate::db_hash::hset_all(h0, fields.drop_last(), mem);
        lemma_hset_all(h0, fields.drop_last(), mem);
        let (f, v) = fields.last();
        let i = crate::db::key_index(h1, f);
        lemma_key_index_hit(h1, f);
        let vl = v.len() as usize;
        if i >= 0 {
            let ov = h1[i].1.len() as usize;
            let ws = crate::db::wsub(m1, ov);
            let nm = crate::db::wadd(ws, vl);
            lemma_wadd_congruent(ws, vl);
            lemma_wsub_congruent(m1, ov);
            lemma_cong_refl(vl as int);
            lemma_cong_add(ws as int, m1 - ov, vl as int, vl as int);
            lemma_cong_trans(nm as int, ws + vl, m1 - ov + vl);
            lemma_weighted_update(h1, i, (f, v), w);
            lemma_cong_step(nm as int, m1 as int, vl - ov, mem as int, weighted(h1, w), weighted(h0, w));
        } else {
            let fl = f.len() as usize;
            let ab = crate::db::wadd(fl, vl);
            let x = crate::db::wadd(ab, 32);
            let nm = crate::db::wadd(m1, x);
            lemma_wadd_congruent(m1, x);
            lemma_wadd_congruent(ab, 32);
            lemma_wadd_congruent(fl, vl);
            lemma_cong_refl(32);
            lemma_cong_add(ab as int, fl + vl, 32, 32);
            lemma_cong_trans(x as int, ab + 32, fl + vl + 32);
            lemma_cong_refl(m1 as int);
            lemma_cong_add(m1 as int, m1 as int, x as int, fl + vl + 32);
            lemma_cong_trans(nm as int, m1 + x, m1 + (fl + vl + 32));
            lemma_weighted_push(h1, (f, v), w);
            lemma_cong_step(nm as int, m1 as int, fl + vl + 32, mem as int, weighted(h1, w), weighted(h0, w));
        }
    }
}

/// HDEL moves the estimate as it moves the pairs' sizes.
proof fn lemma_hdel_all(h0: Seq<(Seq<u8>, Seq<u8>)>, fields: Seq<Seq<u8>>, mem: usize)
    ensures
        congruent(
            crate::db_hash::hdel_all(h0, fields, mem).1 - mem,
            weighted(crate::db_hash::hdel_all(h0, fields, mem).0, pair_weight()) - weighted(h0, pair_weight()),
        ),
    decreases fields.len(),
{
    let w = pair_weight();
    if fields.len() == 0 {
        lemma_cong_refl(0);
    } else {
        let (h1, m1, c1) = crate::db_hash::hdel_all(h0, fields.drop_last(), mem);
        lemma_hdel_all(h0, fields.drop_last(), mem);
        let f = fields.last();
        let i = crate::db::key_index(h1, f);
        lemma_key_index_hit(h1, f);
        if i >= 0 {
            let fl = f.len() as usize;
            let ov = h1[i].1.len() as usize;
            let ab = crate::db::wadd(fl, ov);
            let x = crate::db::wadd(ab, 32);
            let nm = crate::db::wsub(m1, x);
            lemma_wsub_congruent(m1, x);
            lemma_wadd_congruent(ab, 32);
            lemma_wadd_congruent(fl, ov);
            lemma_cong_refl(32);
            lemma_cong_add(ab as int, fl + ov, 32, 32);
            lemma_cong_trans(x as int, ab + 32, fl + ov + 32);
            lemma_cong_refl(m1 as int);
            lemma_cong_add(m1 as int, m1 as int, x as int, fl + ov + 32);
            lemma_cong_trans(nm as int, m1 - x, m1 + (-(fl + ov + 32)));
            lemma_weighted_remove(h1, i, w);
            lemma_cong_step(nm as int, m1 as int, -(fl + ov + 32), mem as int, weighted(h1, w), weighted(h0, w));
        } else {
            lemma_cong_refl(0);
        }
    }
}

/// SADD moves the estimate as it moves the members' sizes.
proof fn lemma_sadd_all(s0: Seq<Seq<u8>>, members: Seq<Seq<u8>>, mem: usize)
    ensures
        congruent(
            crate::db_members::sadd_all(s0, members, mem).1 - mem,
            weighted(crate::db_members::sadd_all(s0, members, mem).0, member_weight()) - weighted(s0, member_weight()),
        ),
    decreases members.len(),
{
    let w = member_weight();
    if members.len() == 0 {
        lemma_cong_refl(0);
    } else {
        let (s1, m1, c1) = crate::db_members::sadd_all(s0, members.drop_last(), mem);
        lemma_sadd_all(s0, members.drop_last(), mem);
        let x = members.last();
        if !s1.contains(x) {
            let xl = x.len() as usize;
            let y = crate::db::wadd(xl, 16);
            let nm = crate::db::wadd(m1, y);
            lemma_wadd_congruent(m1, y);
            lemma_wadd_congruent(xl, 16);
            lemma_cong_refl(m1 as int);
            lemma_cong_add(m1 as int, m1 as int, y as int, xl + 16);
            lemma_cong_trans(nm as int, m1 + y, m1 + (xl + 16));
            lemma_weighted_push(s1, x, w);
            lemma_cong_step(nm as int, m1 as int, xl + 16, mem as int, weighted(s1, w), weighted(s0, w));
        }
    }
}

/// SREM moves the estimate as it moves the members' sizes.
proof fn lemma_srem_all(s0: Seq<Seq<u8>>, members: Seq<Seq<u8>>, mem: usize)
    ensures
        congruent(
            crate::db_members::srem_all(s0, members, mem).1 - mem,
            weighted(crate::db_members::srem_all(s0, members, mem).0, member_weight()) - weighted(s0, member_weight()),
        ),
    decreases members.len(),
{
    let w = member_weight();
    if members.len() == 0 {
        lemma_cong_refl(0);
    } else {
        let (s1, m1, c1) = crate::db_members::srem_all(s0, members.drop_last(), mem);
        lemma_srem_all(s0, members.drop_last(), mem);
        let x = members.last();
        let i = crate::db_members::member_index(s1, x);
        lemma_member_index_hit(s1, x);
        if i >= 0 {
            let xl = x.len() as usize;
            let y = crate::db::wadd(xl, 16);
            let nm = crate::db::wsub(m1, y);
            lemma_wsub_congruent(m1, y);
            lemma_wadd_congruent(xl, 16);
            lemma_cong_refl(m1 as int);
            lemma_cong_add(m1 as int, m1 as int, y as int, xl + 16);
            lemma_cong_trans(nm as int, m1 - y, m1 + (-(xl + 16)));
            lemma_weighted_remove(s1, i, w);
            lemma_cong_step(nm as int, m1 as int, -(xl + 16), mem as int, weighted(s1, w), weighted(s0, w));
        }
    }
}

/// Replacing what `key` holds, with the estimate moved as the value's size moved,
/// keeps the estimate tracking the entries.
proof fn lemma_replace_tracks(m: DbModel, key: Seq<u8>, e: EntryModel, mem: usize)
    requires
        m.wf(),
        memory_tracks(m),
        m.lookup(key) is Some,
        congruent(mem - m.memory, data_total(e.data) - data_total(m.lookup(key).unwrap().data)),
    ensures
        memory_tracks(m.put(key, e).with_memory(mem)),
{
    let old = m.lookup(key).unwrap();
    lemma_put_total(m, key, e);
    lemma_entry_size(key, old.data);
    lemma_entry_size(key, e.data);
    let eo = crate::db::entry_size(key, old.data) as int;
    let en = crate::db::entry_size(key, e.data) as int;
    lemma_cong_add(en, entry_base(key) + data_total(e.data), eo, entry_base(key) + data_total(old.data));
    lemma_cong_sym(en - eo, data_total(e.data) - data_total(old.data));
    lemma_cong_trans(mem - m.memory, data_total(e.data) - data_total(old.data), en - eo);
    lemma_cong_add(mem - m.memory, en - eo, m.memory as int, size_total(m.shards));
    assert(mem - m.memory + m.memory == mem);
}

/// A new entry under an absent `key`, with the estimate grown by its whole size,
/// keeps the estimate tracking the entries.
proof fn lemma_create_tracks(m: DbModel, key: Seq<u8>, e: EntryModel, mem: usize)
    requires
        m.wf(),
        memory_tracks(m),
        m.lookup(key) is None,
        congruent(mem - m.memory, entry_base(key) + data_total(e.data)),
    ensures
        memory_tracks(m.put(key, e).with_memory(mem)),
{
    lemma_put_total(m, key, e);
    lemma_entry_size(key, e.data);
    let en = crate::db::entry_size(key, e.data) as int;
    lemma_cong_sym(en, entry_base(key) + data_total(e.data));
    lemma_cong_trans(mem - m.memory, entry_base(key) + data_total(e.data), en);
    lemma_cong_add(mem - m.memory, en, m.memory as int, size_total(m.shards));
    assert(mem - m.memory + m.memory == mem);
}

/// Adding the fixed part of an entry's size moves the estimate by that part.
proof fn lemma_base_grow(mem: usize, key: Seq<u8>)
    ensures
        congruent(crate::db::wadd(mem, crate::db::base_size(key)) - mem, entry_base(key)),
{
    let b = crate::db::base_size(key);
    lemma_wadd_congruent(mem, b);
    lemma_wadd_congruent(key.len() as usize, crate::db::ESTIMATED_ENTRY_OVERHEAD);
    lemma_cong_refl(mem as int);
    lemma_cong_add(crate::db::wadd(mem, b) as int, mem + b, mem as int, mem as int);
    lemma_cong_trans(crate::db::wadd(mem, b) - mem, b as int, entry_base(key));
}

/// Dropping an expired key keeps the estimate tracking the entries.
proof fn lemma_drop_expired_tracks(m: DbModel, key: Seq<u8>, now: u64)
    requires
        m.wf(),
        memory_tracks(m),
    ensures
        memory_tracks(m.drop_expired(key, now)),
        m.drop_expired(key, now).wf(),
        m.drop_expired(key, now).lookup(key) matches Some(e) ==> !is_expired(e, now) && m.lookup(key)
            == Some(e),
{
    crate::laws::lemma_drop_expired(m, key, now);
    if m.lookup(key) is Some && is_expired(m.lookup(key).unwrap(), now) {
        lemma_remove_tracks(m, key);
    }
}

/// `mem` moved from `start` by `members_size(elems)`, up to wrapping.
proof fn lemma_grow_by_members(mem: usize, start: usize, elems: Seq<Seq<u8>>)
    requires
        mem == crate::db::wadd(start, crate::db::members_size(elems)),
    ensures
        congruent(mem - start, weighted(elems, member_weight())),
{
    let ms = crate::db::members_size(elems);
    lemma_wadd_congruent(start, ms);
    lemma_cong_refl(start as int);
    lemma_cong_add(mem as int, start + ms, start as int, start as int);
    lemma_members_size(elems);
    lemma_cong_trans(mem - start, ms as int, weighted(elems, member_weight()));
}

/// What a list becomes when `elems` are pushed weighs what both weighed.
proof fn lemma_pushed_weight(l: Seq<Seq<u8>>, elems: Seq<Seq<u8>>, front: bool)
    ensures
        weighted(crate::db_list::pushed(l, elems, front), member_weight()) == weighted(l, member_weight())
            + weighted(elems, member_weight()),
{
    let w = member_weight();
    if front {
        lemma_weighted_concat(elems.reverse(), l, w);
        lemma_weighted_reverse(elems, w);
    } else {
        lemma_weighted_concat(l, elems, w);
    }
}

/// A value that stays the same size, under a live key or none, keeps the estimate
/// tracking (reads that mark the key used).
proof fn lemma_touch_tracks(m: DbModel, key: Seq<u8>, now: u64)
    requires
        m.wf(),
        memory_tracks(m),
    ensures
        memory_tracks(m.touch(key, now)),
{
    if let Some(e) = m.lookup(key) {
        lemma_same_size_put_tracks(m, key, EntryModel { last_accessed: now, ..e });
    }
}

/// Emptied values are dropped; the estimate keeps tracking either way.
proof fn lemma_replace_or_drop_tracks(m: DbModel, key: Seq<u8>, e: EntryModel, mem: usize, drop: bool)
    requires
        m.wf(),
        memory_tracks(m),
        m.lookup(key) is Some,
        congruent(mem - m.memory, data_total(e.data) - data_total(m.lookup(key).unwrap().data)),
        drop ==> crate::db::data_wf(e.data),
    ensures
        memory_tracks(
            if drop {
                m.put(key, e).with_memory(mem).remove_key(key)
            } else {
                m.put(key, e).with_memory(mem)
            },
        ),
{
    lemma_replace_tracks(m, key, e, mem);
    if drop {
        crate::db::lemma_put(m, key, e, key);
        let r = m.put(key, e).with_memory(mem);
        assert(r.wf()) by {
            assert(r.shards == m.put(key, e).shards);
        }
        lemma_remove_tracks(r, key);
    }
}

proof fn lemma_push_tracks(m: DbModel, key: Seq<u8>, elems: Seq<Seq<u8>>, front: bool, now: u64)
    requires
        m.wf(),
        memory_tracks(m),
    ensures
        memory_tracks(m.push_op(key, elems, front, now).0),
{
    let m1 = m.drop_expired(key, now);
    lemma_drop_expired_tracks(m, key, now);
    let mem = crate::db::wadd(m1.memory, crate::db::members_size(elems));
    lemma_grow_by_members(mem, m1.memory, elems);
    match m1.lookup(key) {
        None => {
            let l = crate::db_list::pushed(Seq::empty(), elems, front);
            lemma_pushed_weight(Seq::empty(), elems, front);
            let e = EntryModel { data: DataModel::List(l), expires_at: None, last_accessed: now };
            let w1 = crate::db::wadd(m1.memory, crate::db::base_size(key));
            let mem2 = crate::db::wadd(w1, crate::db::members_size(elems));
            lemma_base_grow(m1.memory, key);
            lemma_grow_by_members(mem2, w1, elems);
            lemma_cong_add(mem2 - w1, weighted(elems, member_weight()), w1 - m1.memory, entry_base(key));
            lemma_create_tracks(m1, key, e, mem2);
        },
        Some(e) => match e.data {
            DataModel::List(l) => {
                lemma_pushed_weight(l, elems, front);
                let nl = crate::db_list::pushed(l, elems, front);
                lemma_replace_tracks(m1, key, EntryModel { data: DataModel::List(nl), last_accessed: now, ..e }, mem);
            },
            _ => {},
        },
    }
}

proof fn lemma_pop_tracks(m: DbModel, key: Seq<u8>, front: bool, now: u64)
    requires
        m.wf(),
        memory_tracks(m),
    ensures
        memory_tracks(m.pop_op(key, front, now).0),
{
    let m1 = m.drop_expired(key, now);
    lemma_drop_expired_tracks(m, key, now);
    let w = member_weight();
    if let Some(e) = m1.lookup(key) {
        if let DataModel::List(l) = e.data {
            if l.len() == 0 {
                lemma_cong_refl(0);
                lemma_replace_or_drop_tracks(m1, key, EntryModel { data: DataModel::List(l), ..e }, m1.memory, true);
            } else {
                let p = if front {
                    l[0]
                } else {
                    l.last()
                };
                let rest = if front {
                    l.drop_first()
                } else {
                    l.drop_last()
                };
                if front {
                    assert(l.drop_first() =~= l.remove(0));
                    lemma_weighted_remove(l, 0, w);
                }
                let pl = p.len() as usize;
                let y = crate::db::wadd(pl, 16);
                let mem = crate::db::wsub(m1.memory, y);
                lemma_wsub_congruent(m1.memory, y);
                lemma_wadd_congruent(pl, 16);
                lemma_cong_refl(m1.memory as int);
                lemma_cong_add(mem as int, m1.memory - y, m1.memory as int, m1.memory as int);
                lemma_cong_add(0, 0, y as int, pl + 16);
                lemma_cong_trans(mem - m1.memory, -(y as int), -(pl + 16));
                let ne = if rest.len() == 0 {
                    EntryModel { data: DataModel::List(rest), ..e }
                } else {
                    EntryModel { data: DataModel::List(rest), last_accessed: now, ..e }
                };
                lemma_replace_or_drop_tracks(m1, key, ne, mem, rest.len() == 0);
            }
        }
    }
}

proof fn lemma_hset_tracks(m: DbModel, key: Seq<u8>, fields: Seq<(Seq<u8>, Seq<u8>)>, now: u64)
    requires
        m.wf(),
        memory_tracks(m),
    ensures
        memory_tracks(m.hset_op(key, fields, now).0),
{
    let m1 = m.drop_expired(key, now);
    lemma_drop_expired_tracks(m, key, now);
    match m1.lookup(key) {
        None => {
            let w1 = crate::db::wadd(m1.memory, crate::db::base_size(key));
            let (h, mem, c) = crate::db_hash::hset_all(Seq::empty(), fields, w1);
            lemma_hset_all(Seq::empty(), fields, w1);
            lemma_base_grow(m1.memory, key);
            lemma_cong_add(mem - w1, weighted(h, pair_weight()) - 0, w1 - m1.memory, entry_base(key));
            let e = EntryModel { data: DataModel::Hash(h), expires_at: None, last_accessed: now };
            lemma_create_tracks(m1, key, e, mem);
        },
        Some(e) => match e.data {
            DataModel::Hash(h0) => {
                let (h, mem, c) = crate::db_hash::hset_all(h0, fields, m1.memory);
                lemma_hset_all(h0, fields, m1.memory);
                lemma_replace_tracks(m1, key, EntryModel { data: DataModel::Hash(h), last_accessed: now, ..e }, mem);
            },
            _ => {},
        },
    }
}

proof fn lemma_hdel_tracks(m: DbModel, key: Seq<u8>, fields: Seq<Seq<u8>>, now: u64)
    requires
        m.wf(),
        memory_tracks(m),
    ensures
        memory_tracks(m.hdel_op(key, fields, now).0),
{
    let m1 = m.drop_expired(key, now);
    lemma_drop_expired_tracks(m, key, now);
    if let Some(e) = m1.lookup(key) {
        if let DataModel::Hash(h0) = e.data {
            let (h, mem, c) = crate::db_hash::hdel_all(h0, fields, m1.memory);
            lemma_hdel_all(h0, fields, m1.memory);
            let ne = if h.len() == 0 {
                EntryModel { data: DataModel::Hash(h), ..e }
            } else {
                EntryModel { data: DataModel::Hash(h), last_accessed: now, ..e }
            };
            lemma_replace_or_drop_tracks(m1, key, ne, mem, h.len() == 0);
        }
    }
}

proof fn lemma_sadd_tracks(m: DbModel, key: Seq<u8>, members: Seq<Seq<u8>>, now: u64)
    requires
        m.wf(),
        memory_tracks(m),
    ensures
        memory_tracks(m.sadd_op(key, members, now).0),
{
    let m1 = m.drop_expired(key, now);
    lemma_drop_expired_tracks(m, key, now);
    match m1.lookup(key) {
        None => {
            let w1 = crate::db::wadd(m1.memory, crate::db::base_size(key));
            let (st, mem, c) = crate::db_members::sadd_all(Seq::empty(), members, w1);
            lemma_sadd_all(Seq::empty(), members, w1);
            lemma_base_grow(m1.memory, key);
            lemma_cong_add(mem - w1, weighted(st, member_weight()) - 0, w1 - m1.memory, entry_base(key));
            let e = EntryModel { data: DataModel::Members(st), expires_at: None, last_accessed: now };
            lemma_create_tracks(m1, key, e, mem);
        },
        Some(e) => match e.data {
            DataModel::Members(s0) => {
                let (st, mem, c) = crate::db_members::sadd_all(s0, members, m1.memory);
                lemma_sadd_all(s0, members, m1.memory);
                lemma_replace_tracks(m1, key, EntryModel { data: DataModel::Members(st), last_accessed: now, ..e }, mem);
            },
            _ => {},
        },
    }
}

proof fn lemma_srem_tracks(m: DbModel, key: Seq<u8>, members: Seq<Seq<u8>>, now: u64)
    requires
        m.wf(),
        memory_tracks(m),
    ensures
        memory_tracks(m.srem_op(key, members, now).0),
{
    let m1 = m.drop_expired(key, now);
    lemma_drop_expired_tracks(m, key, now);
    if let Some(e) = m1.lookup(key) {
        if let DataModel::Members(s0) = e.data {
            let (st, mem, c) = crate::db_members::srem_all(s0, members, m1.memory);
            lemma_srem_all(s0, members, m1.memory);
            let ne = if st.len() == 0 {
                EntryModel { data: DataModel::Members(st), ..e }
            } else {
                EntryModel { data: DataModel::Members(st), last_accessed: now, ..e }
            };
            lemma_replace_or_drop_tracks(m1, key, ne, mem, st.len() == 0);
        }
    }
}

/// Commands on lists, hashes and sets keep the memory estimate equal to the sum of
/// the entries' sizes (in the wrapping arithmetic of `usize`): a new list, hash or set
/// counts its key, the overhead and its items, and one that empties is taken off whole.
pub proof fn law_collection_commands_track_memory(
    m: DbModel,
    c: crate::cmd::CommandModel,
    now: u64,
    evicted: Seq<Seq<u8>>,
)
    requires
        m.wf(),
        memory_tracks(m),
        c is Lpush || c is Rpush || c is Lpop || c is Rpop || c is Lrange || c is Hset || c is Hget
            || c is Hdel || c is Hgetall || c is Sadd || c is Smembers || c is Srem || c is Sismember,
    ensures
        memory_tracks(crate::cmd::apply_op(m, c, now, evicted).0),
{
    reveal(crate::cmd::apply_op);
    match c {
        crate::cmd::CommandModel::Lpush { key, elements } => lemma_push_tracks(m, key, elements, true, now),
        crate::cmd::CommandModel::Rpush { key, elements } => lemma_push_tracks(m, key, elements, false, now),
        crate::cmd::CommandModel::Lpop(key) => lemma_pop_tracks(m, key, true, now),
        crate::cmd::CommandModel::Rpop(key) => lemma_pop_tracks(m, key, false, now),
        crate::cmd::CommandModel::Lrange { key, start, stop } => lemma_touch_tracks(m, key, now),
        crate::cmd::CommandModel::Hset { key, fields } => lemma_hset_tracks(m, key, fields, now),
        crate::cmd::CommandModel::Hget { key, field } => lemma_touch_tracks(m, key, now),
        crate::cmd::CommandModel::Hdel { key, fields } => lemma_hdel_tracks(m, key, fields, now),
        crate::cmd::CommandModel::Hgetall(key) => lemma_touch_tracks(m, key, now),
        crate::cmd::CommandModel::Sadd { key, members } => lemma_sadd_tracks(m, key, members, now),
        crate::cmd::CommandModel::Smembers(key) => lemma_touch_tracks(m, key, now),
        crate::cmd::CommandModel::Srem { key, members } => lemma_srem_tracks(m, key, members, now),
        crate::cmd::CommandModel::Sismember { key, member } => lemma_touch_tracks(m, key, now),
        _ => {},
    }
}

/// Every command keeps the memory estimate equal to the sum of the entries' sizes (in
/// the wrapping arithmetic of `usize`), whatever SET evicts.
pub proof fn law_commands_track_memory(
    m: DbModel,
    c: crate::cmd::CommandModel,
    now: u64,
    evicted: Seq<Seq<u8>>,
)
    requires
        m.wf(),
        memory_tracks(m),
    ensures
        memory_tracks(crate::cmd::apply_op(m, c, now, evicted).0),
{
    if c is Lpush || c is Rpush || c is Lpop || c is Rpop || c is Lrange || c is Hset || c is Hget
        || c is Hdel || c is Hgetall || c is Sadd || c is Smembers || c is Srem || c is Sismember {
        law_collection_commands_track_memory(m, c, now, evicted);
    } else {
        law_string_commands_track_memory(m, c, now, evicted);
    }
}

} // verus!
