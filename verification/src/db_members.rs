//! Set values: SADD, SMEMBERS, SREM and SISMEMBER.
use crate::db::{
    byte_seqs, bytes_eq, copy_bytes, distinct_members, is_expired, lemma_put, wadd, base_size, ESTIMATED_ENTRY_OVERHEAD, wrong_type,
    wrong_type_error, wsub, CacheEntry, DataModel, DataType, Db, DbModel, EntryModel,
};
use crate::db_list::{agrees_count, agrees_list, no_items};
use vstd::prelude::*;

verus! {

/// The index of the last occurrence of `x`, or -1.
pub open spec fn member_index(s: Seq<Seq<u8>>, x: Seq<u8>) -> int
    decreases s.len(),
{
    if s.len() == 0 {
        -1
    } else if s.last() == x {
        s.len() - 1
    } else {
        member_index(s.drop_last(), x)
    }
}

pub proof fn lemma_member_index(s: Seq<Seq<u8>>, x: Seq<u8>, i: int)
    requires
        distinct_members(s),
    ensures
        0 <= i < s.len() && s[i] == x ==> member_index(s, x) == i,
        member_index(s, x) < 0 <==> !s.contains(x),
        -1 <= member_index(s, x) < s.len(),
        member_index(s, x) >= 0 ==> s[member_index(s, x)] == x,
    decreases s.len(),
{
    if s.len() > 0 {
        let d = s.drop_last();
        assert(distinct_members(d)) by {
            assert forall|a: int, b: int| 0 <= a < d.len() && 0 <= b < d.len() && a != b implies d[a]
                != d[b] by {
                assert(d[a] == s[a] && d[b] == s[b]);
            }
        }
        lemma_member_index(d, x, i);
        if s.last() == x {
            if 0 <= i < s.len() - 1 && s[i] == x {
                assert(s[i] != s[s.len() - 1]);
            }
            assert(s.contains(x)) by {
                assert(s[s.len() - 1] == x);
            }
        } else {
            if s.contains(x) {
                let w = choose|w: int| 0 <= w < s.len() && s[w] == x;
                assert(d[w] == x);
            }
            if d.contains(x) {
                let w = choose|w: int| 0 <= w < d.len() && d[w] == x;
                assert(s[w] == x);
            }
        }
    }
}

/// SADD of `members`, one after another, on the set `s` with the memory estimate
/// `memory`: the set after, the estimate after (up by each new member's length and
/// 16), and how many were new.
pub open spec fn sadd_all(s: Seq<Seq<u8>>, members: Seq<Seq<u8>>, memory: usize) -> (
    Seq<Seq<u8>>,
    usize,
    nat,
)
    decreases members.len(),
{
    if members.len() == 0 {
        (s, memory, 0)
    } else {
        let (s1, m1, c1) = sadd_all(s, members.drop_last(), memory);
        let x = members.last();
        if s1.contains(x) {
            (s1, m1, c1)
        } else {
            (s1.push(x), wadd(m1, wadd(x.len() as usize, 16)), c1 + 1)
        }
    }
}

/// SREM of `members`, one after another: the set after, the estimate after (down by
/// each removed member's length and 16), and how many were there.
pub open spec fn srem_all(s: Seq<Seq<u8>>, members: Seq<Seq<u8>>, memory: usize) -> (
    Seq<Seq<u8>>,
    usize,
    nat,
)
    decreases members.len(),
{
    if members.len() == 0 {
        (s, memory, 0)
    } else {
        let (s1, m1, c1) = srem_all(s, members.drop_last(), memory);
        let x = members.last();
        let i = member_index(s1, x);
        if i >= 0 {
            (s1.remove(i), wsub(m1, wadd(x.len() as usize, 16)), c1 + 1)
        } else {
            (s1, m1, c1)
        }
    }
}

/// A truth value and its model agree (or both are the type error).
pub open spec fn agrees_bool(r: Result<bool, String>, s: Result<bool, ()>) -> bool {
    match (r, s) {
        (Ok(b), Ok(c)) => b == c,
        (Err(msg), Err(())) => msg@ == wrong_type(),
        _ => false,
    }
}

impl DbModel {
    /// SADD at `now`: an expired key is dropped first; an absent key gets a new set (the
    /// estimate grows by the key's length and the overhead); the members are added one after another and the set is marked used. Answers how many
    /// were new, or the type error for another kind of value.
    pub open spec fn sadd_op(self, key: Seq<u8>, members: Seq<Seq<u8>>, now: u64) -> (
        DbModel,
        Result<nat, ()>,
    ) {
        let m = self.drop_expired(key, now);
        match m.lookup(key) {
            None => {
                let (s, memory, c) = sadd_all(Seq::empty(), members, wadd(m.memory, base_size(key)));
                (
                    m.put(
                        key,
                        EntryModel { data: DataModel::Members(s), expires_at: None, last_accessed: now },
                    ).with_memory(memory),
                    Ok(c),
                )
            },
            Some(e) => match e.data {
                DataModel::Members(s0) => {
                    let (s, memory, c) = sadd_all(s0, members, m.memory);
                    (
                        m.put(key, EntryModel { data: DataModel::Members(s), last_accessed: now, ..e }).with_memory(
                            memory,
                        ),
                        Ok(c),
                    )
                },
                _ => (m, Err(())),
            },
        }
    }

    /// SMEMBERS at `now`: the members of a live set (which is marked used); nothing for
    /// an absent or expired key, which stays.
    pub open spec fn smembers_op(self, key: Seq<u8>, now: u64) -> (DbModel, Result<Seq<Seq<u8>>, ()>) {
        match self.lookup(key) {
            None => (self, Ok(Seq::empty())),
            Some(e) => if is_expired(e, now) {
                (self, Ok(Seq::empty()))
            } else {
                match e.data {
                    DataModel::Members(s) => (self.touch(key, now), Ok(s)),
                    _ => (self, Err(())),
                }
            },
        }
    }

    /// SREM at `now`: an expired key is dropped and counts nothing; the members leave a
    /// set one after another, and the set is dropped where it is then empty, else
    /// marked used. Answers how many were removed, or the type error.
    pub open spec fn srem_op(self, key: Seq<u8>, members: Seq<Seq<u8>>, now: u64) -> (
        DbModel,
        Result<nat, ()>,
    ) {
        let m = self.drop_expired(key, now);
        match m.lookup(key) {
            None => (m, Ok(0)),
            Some(e) => match e.data {
                DataModel::Members(s0) => {
                    let (s, memory, c) = srem_all(s0, members, m.memory);
                    if s.len() == 0 {
                        (
                            m.put(key, EntryModel { data: DataModel::Members(s), ..e }).with_memory(
                                memory,
                            ).remove_key(key),
                            Ok(c),
                        )
                    } else {
                        (
                            m.put(
                                key,
                                EntryModel { data: DataModel::Members(s), last_accessed: now, ..e },
                            ).with_memory(memory),
                            Ok(c),
                        )
                    }
                },
                _ => (m, Err(())),
            },
        }
    }

    /// SISMEMBER at `now`: whether a live set (which is marked used) has `member`; false
    /// for an absent or expired key, which stays.
    pub open spec fn sismember_op(self, key: Seq<u8>, member: Seq<u8>, now: u64) -> (
        DbModel,
        Result<bool, ()>,
    ) {
        match self.lookup(key) {
            None => (self, Ok(false)),
            Some(e) => if is_expired(e, now) {
                (self, Ok(false))
            } else {
                match e.data {
                    DataModel::Members(s) => (self.touch(key, now), Ok(s.contains(member))),
                    _ => (self, Err(())),
                }
            },
        }
    }
}

/// The index of `x` among the members.
fn find_member(s: &Vec<Vec<u8>>, x: &[u8]) -> (r: Option<usize>)
    requires
        distinct_members(byte_seqs(s@)),
    ensures
        match r {
            Some(i) => i == member_index(byte_seqs(s@), x@) && i < s@.len(),
            None => member_index(byte_seqs(s@), x@) < 0,
        },
{
    let ghost bs = byte_seqs(s@);
    proof {
        lemma_member_index(bs, x@, -1);
    }
    let mut i: usize = 0;
    while i < s.len()
        invariant
            i <= s@.len(),
            bs == byte_seqs(s@),
            distinct_members(bs),
            forall|j: int| 0 <= j < i ==> bs[j] != x@,
        decreases s@.len() - i,
    {
        if bytes_eq(s[i].as_slice(), x) {
            proof {
                lemma_member_index(bs, x@, i as int);
            }
            return Some(i);
        }
        i = i + 1;
    }
    proof {
        if bs.contains(x@) {
            let w = choose|w: int| 0 <= w < bs.len() && bs[w] == x@;
            assert(bs[w] != x@);
        }
    }
    None
}

/// Adds the members one after another.
fn sadd_into(s: &mut Vec<Vec<u8>>, members: &Vec<Vec<u8>>, memory: usize) -> (r: (usize, usize))
    requires
        distinct_members(byte_seqs(old(s)@)),
    ensures
        distinct_members(byte_seqs(final(s)@)),
        (byte_seqs(final(s)@), r.0, r.1 as nat) == sadd_all(
            byte_seqs(old(s)@),
            byte_seqs(members@),
            memory,
        ),
{
    let ghost s0 = byte_seqs(s@);
    let ghost ms = byte_seqs(members@);
    let mut mem = memory;
    let mut count: usize = 0;
    let mut j: usize = 0;
    assert(ms.take(0) =~= Seq::<Seq<u8>>::empty());
    while j < members.len()
        invariant
            j <= members@.len(),
            count <= j,
            ms == byte_seqs(members@),
            distinct_members(byte_seqs(s@)),
            (byte_seqs(s@), mem, count as nat) == sadd_all(s0, ms.take(j as int), memory),
        decreases members@.len() - j,
    {
        assert(ms.take(j + 1).drop_last() =~= ms.take(j as int));
        assert(ms.take(j + 1).last() == ms[j as int]);
        let ghost before = byte_seqs(s@);
        let x = members[j].as_slice();
        proof {
            lemma_member_index(before, x@, -1);
        }
        match find_member(s, x) {
            Some(_) => {},
            None => {
                s.push(copy_bytes(x));
                proof {
                    assert(byte_seqs(s@) =~= before.push(x@));
                    let n = byte_seqs(s@);
                    assert forall|a: int, b: int| 0 <= a < n.len() && 0 <= b < n.len() && a != b implies n[a]
                        != n[b] by {
                        if a < before.len() && b < before.len() {
                            assert(n[a] == before[a] && n[b] == before[b]);
                        } else if a < before.len() {
                            assert(n[a] == before[a]);
                            assert(before.contains(n[a]));
                        } else {
                            assert(n[b] == before[b]);
                            assert(before.contains(n[b]));
                        }
                    }
                }
                mem = mem.wrapping_add(x.len().wrapping_add(16));
                count = count + 1;
            },
        }
        j = j + 1;
    }
    assert(ms.take(j as int) =~= ms);
    (mem, count)
}

/// Removes the members one after another.
fn srem_from(s: &mut Vec<Vec<u8>>, members: &[Vec<u8>], memory: usize) -> (r: (usize, usize))
    requires
        distinct_members(byte_seqs(old(s)@)),
    ensures
        distinct_members(byte_seqs(final(s)@)),
        (byte_seqs(final(s)@), r.0, r.1 as nat) == srem_all(
            byte_seqs(old(s)@),
            byte_seqs(members@),
            memory,
        ),
{
    let ghost s0 = byte_seqs(s@);
    let ghost ms = byte_seqs(members@);
    let mut mem = memory;
    let mut count: usize = 0;
    let mut j: usize = 0;
    assert(ms.take(0) =~= Seq::<Seq<u8>>::empty());
    while j < members.len()
        invariant
            j <= members@.len(),
            count <= j,
            ms == byte_seqs(members@),
            distinct_members(byte_seqs(s@)),
            (byte_seqs(s@), mem, count as nat) == srem_all(s0, ms.take(j as int), memory),
        decreases members@.len() - j,
    {
        assert(ms.take(j + 1).drop_last() =~= ms.take(j as int));
        assert(ms.take(j + 1).last() == ms[j as int]);
        let ghost before = byte_seqs(s@);
        let x = members[j].as_slice();
        match find_member(s, x) {
            Some(i) => {
                s.remove(i);
                proof {
                    assert(byte_seqs(s@) =~= before.remove(i as int));
                    let n = byte_seqs(s@);
                    assert forall|a: int, b: int| 0 <= a < n.len() && 0 <= b < n.len() && a != b implies n[a]
                        != n[b] by {
                        let oa = if a < i {
                            a
                        } else {
                            a + 1
                        };
                        let ob = if b < i {
                            b
                        } else {
                            b + 1
                        };
                        assert(n[a] == before[oa] && n[b] == before[ob]);
                    }
                }
                mem = mem.wrapping_sub(x.len().wrapping_add(16));
                count = count + 1;
            },
            None => {},
        }
        j = j + 1;
    }
    assert(ms.take(j as int) =~= ms);
    (mem, count)
}

/// A copy of the byte strings.
fn copy_items(s: &Vec<Vec<u8>>) -> (r: Vec<Vec<u8>>)
    ensures
        byte_seqs(r@) == byte_seqs(s@),
{
    let mut out: Vec<Vec<u8>> = Vec::new();
    let mut j: usize = 0;
    while j < s.len()
        invariant
            j <= s@.len(),
            byte_seqs(out@) == byte_seqs(s@).take(j as int),
        decreases s@.len() - j,
    {
        let ghost before = byte_seqs(out@);
        let a = copy_bytes(s[j].as_slice());
        let ghost av = a@;
        out.push(a);
        assert(byte_seqs(out@) =~= before.push(av));
        assert(byte_seqs(s@).take(j + 1) =~= byte_seqs(s@).take(j as int).push(av));
        j = j + 1;
    }
    assert(byte_seqs(s@).take(j as int) =~= byte_seqs(s@));
    out
}

impl Db {
    /// SADD at `now`.
    pub fn sadd_at(&mut self, key: Vec<u8>, members: Vec<Vec<u8>>, now: u64) -> (r: Result<
        usize,
        String,
    >)
        requires
            old(self).wf(),
        ensures
            final(self).wf(),
            final(self)@ == old(self)@.sadd_op(key@, byte_seqs(members@), now).0,
            agrees_count(r, old(self)@.sadd_op(key@, byte_seqs(members@), now).1),
    {
        let ghost k = key@;
        let (s, idx) = self.evict_if_expired(key.as_slice(), now);
        let ghost m = self@;
        match idx {
            None => {
                let mut set: Vec<Vec<u8>> = Vec::new();
                assert(byte_seqs(set@) =~= Seq::<Seq<u8>>::empty());
                let base = key.len().wrapping_add(ESTIMATED_ENTRY_OVERHEAD);
                let (memory, count) = sadd_into(&mut set, &members, self.current_memory().wrapping_add(base));
                let e = CacheEntry::new(DataType::Members(set), None, now);
                self.store_new(s, key, e);
                self.set_memory(memory);
                Ok(count)
            },
            Some(i) => {
                match &self.entry_at(s, i).data {
                    DataType::Members(_) => {},
                    _ => {
                        return Err(wrong_type_error());
                    },
                }
                let e = self.take_at(s, i, Ghost(k));
                let CacheEntry { data, expires_at, last_accessed } = e;
                match data {
                    DataType::Members(mut set) => {
                        let (memory, count) = sadd_into(&mut set, &members, self.current_memory());
                        let ne = CacheEntry::new(DataType::Members(set), expires_at, now);
                        let ghost nem = ne.model();
                        self.store_at(s, i, Ghost(k), ne);
                        self.set_memory(memory);
                        assert(self@ == m.put(k, nem).with_memory(memory));
                        Ok(count)
                    },
                    _ => {
                        assert(false);
                        Err(wrong_type_error())
                    },
                }
            },
        }
    }

    /// SADD: adds each member to the set under `key` (creating it) and answers how many
    /// were new, or the type error.
    pub fn sadd(&mut self, key: Vec<u8>, members: Vec<Vec<u8>>) -> (r: Result<usize, String>)
        requires
            old(self).wf(),
        ensures
            final(self).wf(),
            exists|now: u64|
                final(self)@ == old(self)@.sadd_op(key@, byte_seqs(members@), now).0 && agrees_count(
                    r,
                    old(self)@.sadd_op(key@, byte_seqs(members@), now).1,
                ),
    {
        let now = self.now_millis();
        self.sadd_at(key, members, now)
    }

    /// SMEMBERS at `now`.
    pub fn smembers_at(&mut self, key: &[u8], now: u64) -> (r: Result<Vec<Vec<u8>>, String>)
        requires
            old(self).wf(),
        ensures
            final(self).wf(),
            final(self)@ == old(self)@.smembers_op(key@, now).0,
            agrees_list(r, old(self)@.smembers_op(key@, now).1),
    {
        let (s, idx) = self.locate(key);
        match idx {
            None => Ok(no_items()),
            Some(i) => {
                if self.entry_at(s, i).is_expired(now) {
                    return Ok(no_items());
                }
                let res = match &self.entry_at(s, i).data {
                    DataType::Members(set) => copy_items(set),
                    _ => {
                        return Err(wrong_type_error());
                    },
                };
                self.touch_at(s, i, Ghost(key@), now);
                Ok(res)
            },
        }
    }

    /// SMEMBERS: the members of the set under `key`, or the type error.
    pub fn smembers(&mut self, key: &[u8]) -> (r: Result<Vec<Vec<u8>>, String>)
        requires
            old(self).wf(),
        ensures
            final(self).wf(),
            exists|now: u64|
                final(self)@ == old(self)@.smembers_op(key@, now).0 && agrees_list(
                    r,
                    old(self)@.smembers_op(key@, now).1,
                ),
    {
        let now = self.now_millis();
        self.smembers_at(key, now)
    }

    /// SREM at `now`.
    pub fn srem_at(&mut self, key: &[u8], members: &[Vec<u8>], now: u64) -> (r: Result<usize, String>)
        requires
            old(self).wf(),
        ensures
            final(self).wf(),
            final(self)@ == old(self)@.srem_op(key@, byte_seqs(members@), now).0,
            agrees_count(r, old(self)@.srem_op(key@, byte_seqs(members@), now).1),
    {
        let ghost k = key@;
        let (s, idx) = self.evict_if_expired(key, now);
        let ghost m = self@;
        match idx {
            None => Ok(0),
            Some(i) => {
                match &self.entry_at(s, i).data {
                    DataType::Members(_) => {},
                    _ => {
                        return Err(wrong_type_error());
                    },
                }
                let e = self.take_at(s, i, Ghost(k));
                let CacheEntry { data, expires_at, last_accessed } = e;
                match data {
                    DataType::Members(mut set) => {
                        let (memory, count) = srem_from(&mut set, members, self.current_memory());
                        let empty = set.len() == 0;
                        let stamp = if empty {
                            last_accessed
                        } else {
                            now
                        };
                        let ne = CacheEntry::new(DataType::Members(set), expires_at, stamp);
                        let ghost nem = ne.model();
                        self.store_at(s, i, Ghost(k), ne);
                        self.set_memory(memory);
                        proof {
                            lemma_put(m, k, nem, k);
                        }
                        assert(self@ == m.put(k, nem).with_memory(memory));
                        if empty {
                            self.remove_at(s, i, Ghost(k));
                        }
                        Ok(count)
                    },
                    _ => {
                        assert(false);
                        Err(wrong_type_error())
                    },
                }
            },
        }
    }

    /// SREM: removes each of `members` from the set under `key` (dropping the set once
    /// empty) and answers how many were there, or the type error.
    pub fn srem(&mut self, key: &[u8], members: &[Vec<u8>]) -> (r: Result<usize, String>)
        requires
            old(self).wf(),
        ensures
            final(self).wf(),
            exists|now: u64|
                final(self)@ == old(self)@.srem_op(key@, byte_seqs(members@), now).0 && agrees_count(
                    r,
                    old(self)@.srem_op(key@, byte_seqs(members@), now).1,
                ),
    {
        let now = self.now_millis();
        self.srem_at(key, members, now)
    }

    /// SISMEMBER at `now`.
    pub fn sismember_at(&mut self, key: &[u8], member: &[u8], now: u64) -> (r: Result<bool, String>)
        requires
            old(self).wf(),
        ensures
            final(self).wf(),
            final(self)@ == old(self)@.sismember_op(key@, member@, now).0,
            agrees_bool(r, old(self)@.sismember_op(key@, member@, now).1),
    {
        let (s, idx) = self.locate(key);
        match idx {
            None => Ok(false),
            Some(i) => {
                if self.entry_at(s, i).is_expired(now) {
                    return Ok(false);
                }
                let res = match &self.entry_at(s, i).data {
                    DataType::Members(set) => {
                        proof {
                            lemma_member_index(byte_seqs(set@), member@, -1);
                        }
                        find_member(set, member).is_some()
                    },
                    _ => {
                        return Err(wrong_type_error());
                    },
                };
                self.touch_at(s, i, Ghost(key@), now);
                Ok(res)
            },
        }
    }

    /// SISMEMBER: whether the set under `key` has `member`, or the type error.
    pub fn sismember(&mut self, key: &[u8], member: &[u8]) -> (r: Result<bool, String>)
        requires
            old(self).wf(),
        ensures
            final(self).wf(),
            exists|now: u64|
                final(self)@ == old(self)@.sismember_op(key@, member@, now).0 && agrees_bool(
                    r,
                    old(self)@.sismember_op(key@, member@, now).1,
                ),
    {
        let now = self.now_millis();
        self.sismember_at(key, member, now)
    }
}

} // verus!
