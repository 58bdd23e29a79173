//! Hash values: HSET, HGET, HDEL and HGETALL.
use crate::db::{
    agrees_opt_bytes, bytes_eq, copy_bytes, is_expired, key_index, keys_distinct, lemma_key_index,
    lemma_put, pair_seqs, wadd, base_size, ESTIMATED_ENTRY_OVERHEAD, wrong_type, wrong_type_error, wsub, CacheEntry, DataModel, DataType,
    Db, DbModel, EntryModel,
};
use crate::db_list::agrees_count;
use vstd::prelude::*;

verus! {

/// Field-value pairs.
pub type Pairs = Seq<(Seq<u8>, Seq<u8>)>;

/// The value of `field`, if the pairs have it.
pub open spec fn field_value(h: Pairs, field: Seq<u8>) -> Option<Seq<u8>> {
    let i = key_index(h, field);
    if i < 0 {
        None
    } else {
        Some(h[i].1)
    }
}

/// HSET of `fields`, one after another, on the pairs `h` with the memory estimate
/// `memory`: the pairs after, the estimate after, and how many fields were new. A new
/// field adds its length, its value's length and 32; a replaced value moves the
/// estimate by the difference of the values' lengths.
pub open spec fn hset_all(h: Pairs, fields: Pairs, memory: usize) -> (Pairs, usize, nat)
    decreases fields.len(),
{
    if fields.len() == 0 {
        (h, memory, 0)
    } else {
        let (h1, m1, c1) = hset_all(h, fields.drop_last(), memory);
        let (f, v) = fields.last();
        let i = key_index(h1, f);
        if i >= 0 {
            (h1.update(i, (f, v)), wadd(wsub(m1, h1[i].1.len() as usize), v.len() as usize), c1)
        } else {
            (
                h1.push((f, v)),
                wadd(m1, wadd(wadd(f.len() as usize, v.len() as usize), 32)),
                c1 + 1,
            )
        }
    }
}

/// HDEL of `fields`, one after another: the pairs after, the estimate after (down by
/// each removed pair's lengths and 32), and how many were there.
pub open spec fn hdel_all(h: Pairs, fields: Seq<Seq<u8>>, memory: usize) -> (Pairs, usize, nat)
    decreases fields.len(),
{
    if fields.len() == 0 {
        (h, memory, 0)
    } else {
        let (h1, m1, c1) = hdel_all(h, fields.drop_last(), memory);
        let f = fields.last();
        let i = key_index(h1, f);
        if i >= 0 {
            (
                h1.remove(i),
                wsub(m1, wadd(wadd(f.len() as usize, h1[i].1.len() as usize), 32)),
                c1 + 1,
            )
        } else {
            (h1, m1, c1)
        }
    }
}

/// A list of pairs and its model agree (or both are the type error).
pub open spec fn agrees_pairs(r: Result<Vec<(Vec<u8>, Vec<u8>)>, String>, s: Result<Pairs, ()>) -> bool {
    match (r, s) {
        (Ok(v), Ok(h)) => pair_seqs(v@) == h,
        (Err(msg), Err(())) => msg@ == wrong_type(),
        _ => false,
    }
}

impl DbModel {
    /// HSET at `now`: an expired key is dropped first; an absent key gets a new hash
    /// (the estimate grows by the key's length and the overhead); the fields are set
    /// one after another and the hash is marked used. Answers how
    /// many fields were new, or the type error for another kind of value.
    pub open spec fn hset_op(self, key: Seq<u8>, fields: Pairs, now: u64) -> (DbModel, Result<nat, ()>) {
        let m = self.drop_expired(key, now);
        match m.lookup(key) {
            None => {
                let (h, memory, c) = hset_all(Seq::empty(), fields, wadd(m.memory, base_size(key)));
                (
                    m.put(
                        key,
                        EntryModel { data: DataModel::Hash(h), expires_at: None, last_accessed: now },
                    ).with_memory(memory),
                    Ok(c),
                )
            },
            Some(e) => match e.data {
                DataModel::Hash(h0) => {
                    let (h, memory, c) = hset_all(h0, fields, m.memory);
                    (
                        m.put(key, EntryModel { data: DataModel::Hash(h), last_accessed: now, ..e }).with_memory(
                            memory,
                        ),
                        Ok(c),
                    )
                },
                _ => (m, Err(())),
            },
        }
    }

    /// HGET at `now`: the value of `field` in a live hash (which is marked used);
    /// nothing for an absent or expired key, which stays.
    pub open spec fn hget_op(self, key: Seq<u8>, field: Seq<u8>, now: u64) -> (
        DbModel,
        Result<Option<Seq<u8>>, ()>,
    ) {
        match self.lookup(key) {
            None => (self, Ok(None)),
            Some(e) => if is_expired(e, now) {
                (self, Ok(None))
            } else {
                match e.data {
                    DataModel::Hash(h) => (self.touch(key, now), Ok(field_value(h, field))),
                    _ => (self, Err(())),
                }
            },
        }
    }

    /// HDEL at `now`: an expired key is dropped and counts nothing; the fields leave a
    /// hash one after another, and the hash is dropped where it is then empty, else
    /// marked used. Answers how many were removed, or the type error.
    pub open spec fn hdel_op(self, key: Seq<u8>, fields: Seq<Seq<u8>>, now: u64) -> (
        DbModel,
        Result<nat, ()>,
    ) {
        let m = self.drop_expired(key, now);
        match m.lookup(key) {
            None => (m, Ok(0)),
            Some(e) => match e.data {
                DataModel::Hash(h0) => {
                    let (h, memory, c) = hdel_all(h0, fields, m.memory);
                    if h.len() == 0 {
                        (
                            m.put(key, EntryModel { data: DataModel::Hash(h), ..e }).with_memory(
                                memory,
                            ).remove_key(key),
                            Ok(c),
                        )
                    } else {
                        (
                            m.put(
                                key,
                                EntryModel { data: DataModel::Hash(h), last_accessed: now, ..e },
                            ).with_memory(memory),
                            Ok(c),
                        )
                    }
                },
                _ => (m, Err(())),
            },
        }
    }

    /// HGETALL at `now`: the pairs of a live hash (which is marked used); nothing for
    /// an absent or expired key, which stays.
    pub open spec fn hgetall_op(self, key: Seq<u8>, now: u64) -> (DbModel, Result<Pairs, ()>) {
        match self.lookup(key) {
            None => (self, Ok(Seq::empty())),
            Some(e) => if is_expired(e, now) {
                (self, Ok(Seq::empty()))
            } else {
                match e.data {
                    DataModel::Hash(h) => (self.touch(key, now), Ok(h)),
                    _ => (self, Err(())),
                }
            },
        }
    }
}

pub proof fn lemma_distinct_push<V>(h: Seq<(Seq<u8>, V)>, x: (Seq<u8>, V))
    requires
        keys_distinct(h),
        key_index(h, x.0) < 0,
    ensures
        keys_distinct(h.push(x)),
{
    lemma_key_index(h, x.0, -1);
    let n = h.push(x);
    assert forall|a: int, b: int| 0 <= a < n.len() && 0 <= b < n.len() && a != b implies #[trigger] n[a].0
        != #[trigger] n[b].0 by {
        if a < h.len() && b < h.len() {
            assert(n[a] == h[a] && n[b] == h[b]);
        } else if a < h.len() {
            assert(n[a] == h[a]);
        } else {
            assert(n[b] == h[b]);
        }
    }
}

pub proof fn lemma_distinct_update<V>(h: Seq<(Seq<u8>, V)>, i: int, x: (Seq<u8>, V))
    requires
        keys_distinct(h),
        0 <= i < h.len(),
        h[i].0 == x.0,
    ensures
        keys_distinct(h.update(i, x)),
{
    let n = h.update(i, x);
    assert forall|a: int, b: int| 0 <= a < n.len() && 0 <= b < n.len() && a != b implies #[trigger] n[a].0
        != #[trigger] n[b].0 by {
        assert(n[a].0 == h[a].0 && n[b].0 == h[b].0);
    }
}

pub proof fn lemma_distinct_remove<V>(h: Seq<(Seq<u8>, V)>, i: int)
    requires
        keys_distinct(h),
        0 <= i < h.len(),
    ensures
        keys_distinct(h.remove(i)),
{
    let n = h.remove(i);
    assert forall|a: int, b: int| 0 <= a < n.len() && 0 <= b < n.len() && a != b implies #[trigger] n[a].0
        != #[trigger] n[b].0 by {
        let oa = if a < i {
            a
        } else {
            a + 1
        };
        let ob = if b < i {
            b
        } else {
            b + 1
        };
        assert(n[a] == h[oa] && n[b] == h[ob]);
    }
}

/// The index of `field` among the pairs.
fn find_field(h: &Vec<(Vec<u8>, Vec<u8>)>, field: &[u8]) -> (r: Option<usize>)
    requires
        keys_distinct(pair_seqs(h@)),
    ensures
        match r {
            Some(i) => i == key_index(pair_seqs(h@), field@) && i < h@.len(),
            None => key_index(pair_seqs(h@), field@) < 0,
        },
{
    let ghost ps = pair_seqs(h@);
    proof {
        lemma_key_index(ps, field@, -1);
    }
    let mut i: usize = 0;
    while i < h.len()
        invariant
            i <= h@.len(),
            ps == pair_seqs(h@),
            keys_distinct(ps),
            forall|j: int| 0 <= j < i ==> ps[j].0 != field@,
        decreases h@.len() - i,
    {
        if bytes_eq(h[i].0.as_slice(), field) {
            proof {
                lemma_key_index(ps, field@, i as int);
            }
            return Some(i);
        }
        i = i + 1;
    }
    None
}

/// Sets the fields one after another.
fn hset_into(h: &mut Vec<(Vec<u8>, Vec<u8>)>, fields: &Vec<(Vec<u8>, Vec<u8>)>, memory: usize) -> (r:
    (usize, usize))
    requires
        keys_distinct(pair_seqs(old(h)@)),
    ensures
        keys_distinct(pair_seqs(final(h)@)),
        (pair_seqs(final(h)@), r.0, r.1 as nat) == hset_all(
            pair_seqs(old(h)@),
            pair_seqs(fields@),
            memory,
        ),
{
    let ghost h0 = pair_seqs(h@);
    let ghost fs = pair_seqs(fields@);
    let mut mem = memory;
    let mut count: usize = 0;
    let mut j: usize = 0;
    assert(fs.take(0) =~= Seq::<(Seq<u8>, Seq<u8>)>::empty());
    while j < fields.len()
        invariant
            j <= fields@.len(),
            count <= j,
            fs == pair_seqs(fields@),
            keys_distinct(pair_seqs(h@)),
            (pair_seqs(h@), mem, count as nat) == hset_all(h0, fs.take(j as int), memory),
        decreases fields@.len() - j,
    {
        assert(fs.take(j + 1).drop_last() =~= fs.take(j as int));
        assert(fs.take(j + 1).last() == fs[j as int]);
        let ghost before = pair_seqs(h@);
        let f = fields[j].0.as_slice();
        let v = fields[j].1.as_slice();
        match find_field(h, f) {
            Some(i) => {
                let old_len = h[i].1.len();
                proof {
                    lemma_key_index(before, f@, -1);
                }
                h[i].1 = copy_bytes(v);
                proof {
                    lemma_distinct_update(before, i as int, (f@, v@));
                    assert(pair_seqs(h@) =~= before.update(i as int, (f@, v@)));
                }
                mem = mem.wrapping_sub(old_len).wrapping_add(v.len());
            },
            None => {
                h.push((copy_bytes(f), copy_bytes(v)));
                proof {
                    lemma_distinct_push(before, (f@, v@));
                    assert(pair_seqs(h@) =~= before.push((f@, v@)));
                }
                mem = mem.wrapping_add(f.len().wrapping_add(v.len()).wrapping_add(32));
                count = count + 1;
            },
        }
        j = j + 1;
    }
    assert(fs.take(j as int) =~= fs);
    (mem, count)
}

/// Removes the fields one after another.
fn hdel_from(h: &mut Vec<(Vec<u8>, Vec<u8>)>, fields: &[Vec<u8>], memory: usize) -> (r: (
    usize,
    usize,
))
    requires
        keys_distinct(pair_seqs(old(h)@)),
    ensures
        keys_distinct(pair_seqs(final(h)@)),
        (pair_seqs(final(h)@), r.0, r.1 as nat) == hdel_all(
            pair_seqs(old(h)@),
            crate::db::byte_seqs(fields@),
            memory,
        ),
{
    let ghost h0 = pair_seqs(h@);
    let ghost fs = crate::db::byte_seqs(fields@);
    let mut mem = memory;
    let mut count: usize = 0;
    let mut j: usize = 0;
    assert(fs.take(0) =~= Seq::<Seq<u8>>::empty());
    while j < fields.len()
        invariant
            j <= fields@.len(),
            count <= j,
            fs == crate::db::byte_seqs(fields@),
            keys_distinct(pair_seqs(h@)),
            (pair_seqs(h@), mem, count as nat) == hdel_all(h0, fs.take(j as int), memory),
        decreases fields@.len() - j,
    {
        assert(fs.take(j + 1).drop_last() =~= fs.take(j as int));
        assert(fs.take(j + 1).last() == fs[j as int]);
        let ghost before = pair_seqs(h@);
        let f = fields[j].as_slice();
        match find_field(h, f) {
            Some(i) => {
                let (_k, v) = h.remove(i);
                proof {
                    lemma_distinct_remove(before, i as int);
                    assert(pair_seqs(h@) =~= before.remove(i as int));
                }
                mem = mem.wrapping_sub(f.len().wrapping_add(v.len()).wrapping_add(32));
                count = count + 1;
            },
            None => {},
        }
        j = j + 1;
    }
    assert(fs.take(j as int) =~= fs);
    (mem, count)
}

/// A copy of the pairs.
fn copy_pairs(h: &Vec<(Vec<u8>, Vec<u8>)>) -> (r: Vec<(Vec<u8>, Vec<u8>)>)
    ensures
        pair_seqs(r@) == pair_seqs(h@),
{
    let mut out: Vec<(Vec<u8>, Vec<u8>)> = Vec::new();
    let mut j: usize = 0;
    while j < h.len()
        invariant
            j <= h@.len(),
            pair_seqs(out@) == pair_seqs(h@).take(j as int),
        decreases h@.len() - j,
    {
        let ghost before = pair_seqs(out@);
        let a = copy_bytes(h[j].0.as_slice());
        let b = copy_bytes(h[j].1.as_slice());
        let ghost pv = (a@, b@);
        assert(pv == pair_seqs(h@)[j as int]);
        out.push((a, b));
        assert(pair_seqs(out@) =~= before.push(pv));
        assert(pair_seqs(h@).take(j + 1) =~= pair_seqs(h@).take(j as int).push(pv));
        j = j + 1;
    }
    assert(pair_seqs(h@).take(j as int) =~= pair_seqs(h@));
    out
}

impl Db {
    /// HSET at `now`.
    pub fn hset_at(&mut self, key: Vec<u8>, fields: Vec<(Vec<u8>, Vec<u8>)>, now: u64) -> (r: Result<
        usize,
        String,
    >)
        requires
            old(self).wf(),
        ensures
            final(self).wf(),
            final(self)@ == old(self)@.hset_op(key@, pair_seqs(fields@), now).0,
            agrees_count(r, old(self)@.hset_op(key@, pair_seqs(fields@), now).1),
    {
        let ghost k = key@;
        let (s, idx) = self.evict_if_expired(key.as_slice(), now);
        let ghost m = self@;
        match idx {
            None => {
                let mut h: Vec<(Vec<u8>, Vec<u8>)> = Vec::new();
                assert(pair_seqs(h@) =~= Seq::<(Seq<u8>, Seq<u8>)>::empty());
                let base = key.len().wrapping_add(ESTIMATED_ENTRY_OVERHEAD);
                let (memory, count) = hset_into(&mut h, &fields, self.current_memory().wrapping_add(base));
                let e = CacheEntry::new(DataType::Hash(h), None, now);
                self.store_new(s, key, e);
                self.set_memory(memory);
                Ok(count)
            },
            Some(i) => {
                match &self.entry_at(s, i).data {
                    DataType::Hash(_) => {},
                    _ => {
                        return Err(wrong_type_error());
                    },
                }
                let e = self.take_at(s, i, Ghost(k));
                let CacheEntry { data, expires_at, last_accessed } = e;
                match data {
                    DataType::Hash(mut h) => {
                        let (memory, count) = hset_into(&mut h, &fields, self.current_memory());
                        let ne = CacheEntry::new(DataType::Hash(h), expires_at, now);
                        let ghost nem = ne.model();
                        self.store_at(s, i, Ghost(k), ne);
                        self.set_memory(memory);
                        assert(self@ == m.put(k, nem).with_memory(memory));
                        Ok(count)
                    },
                    _ => {
                        assert(false);
                        Err(wrong_type_error())
                    },
                }
            },
        }
    }

    /// HSET: sets each field of the hash under `key` (creating it) and answers how many
    /// were new, or the type error.
    pub fn hset(&mut self, key: Vec<u8>, fields: Vec<(Vec<u8>, Vec<u8>)>) -> (r: Result<usize, String>)
        requires
            old(self).wf(),
        ensures
            final(self).wf(),
            exists|now: u64|
                final(self)@ == old(self)@.hset_op(key@, pair_seqs(fields@), now).0 && agrees_count(
                    r,
                    old(self)@.hset_op(key@, pair_seqs(fields@), now).1,
                ),
    {
        let now = self.now_millis();
        self.hset_at(key, fields, now)
    }

    /// HGET at `now`.
    pub fn hget_at(&mut self, key: &[u8], field: &[u8], now: u64) -> (r: Result<Option<Vec<u8>>, String>)
        requires
            old(self).wf(),
        ensures
            final(self).wf(),
            final(self)@ == old(self)@.hget_op(key@, field@, now).0,
            agrees_opt_bytes(r, old(self)@.hget_op(key@, field@, now).1),
    {
        let (s, idx) = self.locate(key);
        match idx {
            None => Ok(None),
            Some(i) => {
                if self.entry_at(s, i).is_expired(now) {
                    return Ok(None);
                }
                let res = match &self.entry_at(s, i).data {
                    DataType::Hash(h) => match find_field(h, field) {
                        Some(j) => Some(copy_bytes(h[j].1.as_slice())),
                        None => None,
                    },
                    _ => {
                        return Err(wrong_type_error());
                    },
                };
                self.touch_at(s, i, Ghost(key@), now);
                Ok(res)
            },
        }
    }

    /// HGET: the value of `field` in the hash under `key`, or the type error.
    pub fn hget(&mut self, key: &[u8], field: &[u8]) -> (r: Result<Option<Vec<u8>>, String>)
        requires
            old(self).wf(),
        ensures
            final(self).wf(),
            exists|now: u64|
                final(self)@ == old(self)@.hget_op(key@, field@, now).0 && agrees_opt_bytes(
                    r,
                    old(self)@.hget_op(key@, field@, now).1,
                ),
    {
        let now = self.now_millis();
        self.hget_at(key, field, now)
    }

    /// HDEL at `now`.
    pub fn hdel_at(&mut self, key: &[u8], fields: &[Vec<u8>], now: u64) -> (r: Result<usize, String>)
        requires
            old(self).wf(),
        ensures
            final(self).wf(),
            final(self)@ == old(self)@.hdel_op(key@, crate::db::byte_seqs(fields@), now).0,
            agrees_count(r, old(self)@.hdel_op(key@, crate::db::byte_seqs(fields@), now).1),
    {
        let ghost k = key@;
        let (s, idx) = self.evict_if_expired(key, now);
        let ghost m = self@;
        match idx {
            None => Ok(0),
            Some(i) => {
                match &self.entry_at(s, i).data {
                    DataType::Hash(_) => {},
                    _ => {
                        return Err(wrong_type_error());
                    },
                }
                let e = self.take_at(s, i, Ghost(k));
                let CacheEntry { data, expires_at, last_accessed } = e;
                match data {
                    DataType::Hash(mut h) => {
                        let (memory, count) = hdel_from(&mut h, fields, self.current_memory());
                        let empty = h.len() == 0;
                        let stamp = if empty {
                            last_accessed
                        } else {
                            now
                        };
                        let ne = CacheEntry::new(DataType::Hash(h), expires_at, stamp);
                        let ghost nem = ne.model();
                        self.store_at(s, i, Ghost(k), ne);
                        self.set_memory(memory);
                        proof {
                            lemma_put(m, k, nem, k);
                        }
                        assert(self@ == m.put(k, nem).with_memory(memory));
                        if empty {
                            self.remove_at(s, i, Ghost(k));
                        }
                        Ok(count)
                    },
                    _ => {
                        assert(false);
                        Err(wrong_type_error())
                    },
                }
            },
        }
    }

    /// HDEL: removes each of `fields` from the hash under `key` (dropping the hash once
    /// empty) and answers how many were there, or the type error.
    pub fn hdel(&mut self, key: &[u8], fields: &[Vec<u8>]) -> (r: Result<usize, String>)
        requires
            old(self).wf(),
        ensures
            final(self).wf(),
            exists|now: u64|
                final(self)@ == old(self)@.hdel_op(key@, crate::db::byte_seqs(fields@), now).0
                    && agrees_count(r, old(self)@.hdel_op(key@, crate::db::byte_seqs(fields@), now).1),
    {
        let now = self.now_millis();
        self.hdel_at(key, fields, now)
    }

    /// HGETALL at `now`.
    pub fn hgetall_at(&mut self, key: &[u8], now: u64) -> (r: Result<Vec<(Vec<u8>, Vec<u8>)>, String>)
        requires
            old(self).wf(),
        ensures
            final(self).wf(),
            final(self)@ == old(self)@.hgetall_op(key@, now).0,
            agrees_pairs(r, old(self)@.hgetall_op(key@, now).1),
    {
        let (s, idx) = self.locate(key);
        match idx {
            None => Ok(no_pairs()),
            Some(i) => {
                if self.entry_at(s, i).is_expired(now) {
                    return Ok(no_pairs());
                }
                let res = match &self.entry_at(s, i).data {
                    DataType::Hash(h) => copy_pairs(h),
                    _ => {
                        return Err(wrong_type_error());
                    },
                };
                self.touch_at(s, i, Ghost(key@), now);
                Ok(res)
            },
        }
    }

    /// HGETALL: the field-value pairs of the hash under `key`, or the type error.
    pub fn hgetall(&mut self, key: &[u8]) -> (r: Result<Vec<(Vec<u8>, Vec<u8>)>, String>)
        requires
            old(self).wf(),
        ensures
            final(self).wf(),
            exists|now: u64|
                final(self)@ == old(self)@.hgetall_op(key@, now).0 && agrees_pairs(
                    r,
                    old(self)@.hgetall_op(key@, now).1,
                ),
    {
        let now = self.now_millis();
        self.hgetall_at(key, now)
    }
}

/// No pairs.
fn no_pairs() -> (r: Vec<(Vec<u8>, Vec<u8>)>)
    ensures
        pair_seqs(r@) == Seq::<(Seq<u8>, Seq<u8>)>::empty(),
{
    let r: Vec<(Vec<u8>, Vec<u8>)> = Vec::new();
    assert(pair_seqs(r@) =~= Seq::<(Seq<u8>, Seq<u8>)>::empty());
    r
}

} // verus!
