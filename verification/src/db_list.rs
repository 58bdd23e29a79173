//! List values: LPUSH, RPUSH, LPOP, RPOP and LRANGE.
use crate::db::{
    agrees_opt_bytes, byte_seqs, copy_bytes, is_expired, lemma_put, lemma_remove, members_size, wadd, base_size, ESTIMATED_ENTRY_OVERHEAD, wrong_type,
    wrong_type_error, wsub, CacheEntry, DataModel, DataType, Db, DbModel, EntryModel,
};
use std::collections::VecDeque;
use vstd::prelude::*;

verus! {

/// `l` with `elems` pushed one by one at the front (so in reverse order) or at the back.
pub open spec fn pushed(l: Seq<Seq<u8>>, elems: Seq<Seq<u8>>, front: bool) -> Seq<Seq<u8>> {
    if front {
        elems.reverse() + l
    } else {
        l + elems
    }
}

/// The half-open range `[lo, hi)` of a list of length `len` that LRANGE `start` `stop`
/// selects: negative indices count from the end, the start is clamped to 0 and the
/// stop to the last index, and an empty selection is `(0, 0)`.
pub open spec fn range_bounds(len: int, start: int, stop: int) -> (int, int) {
    let s0 = if start < 0 {
        len + start
    } else {
        start
    };
    let e0 = if stop < 0 {
        len + stop
    } else {
        stop
    };
    let s1 = if s0 < 0 {
        0
    } else {
        s0
    };
    let e1 = if e0 >= len {
        len - 1
    } else {
        e0
    };
    if len == 0 || s1 > e1 || s1 >= len {
        (0, 0)
    } else {
        (s1, e1 + 1)
    }
}

/// A count and its model agree (or both are the type error).
pub open spec fn agrees_count(r: Result<usize, String>, s: Result<nat, ()>) -> bool {
    match (r, s) {
        (Ok(n), Ok(c)) => n == c,
        (Err(msg), Err(())) => msg@ == wrong_type(),
        _ => false,
    }
}

/// A list of byte strings and its model agree (or both are the type error).
pub open spec fn agrees_list(r: Result<Vec<Vec<u8>>, String>, s: Result<Seq<Seq<u8>>, ()>) -> bool {
    match (r, s) {
        (Ok(v), Ok(l)) => byte_seqs(v@) == l,
        (Err(msg), Err(())) => msg@ == wrong_type(),
        _ => false,
    }
}

impl DbModel {
    /// LPUSH (`front`) or RPUSH at `now`: an expired key is dropped first; an absent key
    /// gets a new list (the estimate grows by the key's length and the overhead); a list
    /// gets the elements and is marked used (the estimate grows by their sizes). Answers
    /// the new length, or the type error for another kind of value (and nothing
    /// changes).
    pub open spec fn push_op(self, key: Seq<u8>, elems: Seq<Seq<u8>>, front: bool, now: u64) -> (
        DbModel,
        Result<nat, ()>,
    ) {
        let m = self.drop_expired(key, now);
        let memory = wadd(m.memory, members_size(elems));
        match m.lookup(key) {
            None => {
                let l = pushed(Seq::empty(), elems, front);
                (
                    m.put(
                        key,
                        EntryModel { data: DataModel::List(l), expires_at: None, last_accessed: now },
                    ).with_memory(wadd(wadd(m.memory, base_size(key)), members_size(elems))),
                    Ok(l.len()),
                )
            },
            Some(e) => match e.data {
                DataModel::List(l) => {
                    let nl = pushed(l, elems, front);
                    (
                        m.put(key, EntryModel { data: DataModel::List(nl), last_accessed: now, ..e }).with_memory(
                            memory,
                        ),
                        Ok(nl.len()),
                    )
                },
                _ => (m, Err(())),
            },
        }
    }

    /// LPOP (`front`) or RPOP at `now`: an expired key is dropped and reads as absent; a
    /// list loses its first or last element (whose size leaves the estimate), and is
    /// dropped where it is then empty, else marked used.
    pub open spec fn pop_op(self, key: Seq<u8>, front: bool, now: u64) -> (
        DbModel,
        Result<Option<Seq<u8>>, ()>,
    ) {
        let m = self.drop_expired(key, now);
        match m.lookup(key) {
            None => (m, Ok(None)),
            Some(e) => match e.data {
                DataModel::List(l) => {
                    let popped: Option<Seq<u8>> = if l.len() == 0 {
                        None
                    } else if front {
                        Some(l[0])
                    } else {
                        Some(l.last())
                    };
                    let rest = if l.len() == 0 {
                        l
                    } else if front {
                        l.drop_first()
                    } else {
                        l.drop_last()
                    };
                    let memory = match popped {
                        Some(p) => wsub(m.memory, wadd(p.len() as usize, 16)),
                        None => m.memory,
                    };
                    if rest.len() == 0 {
                        (
                            m.put(key, EntryModel { data: DataModel::List(rest), ..e }).with_memory(
                                memory,
                            ).remove_key(key),
                            Ok(popped),
                        )
                    } else {
                        (
                            m.put(
                                key,
                                EntryModel { data: DataModel::List(rest), last_accessed: now, ..e },
                            ).with_memory(memory),
                            Ok(popped),
                        )
                    }
                },
                _ => (m, Err(())),
            },
        }
    }

    /// LRANGE at `now`: the selected elements of a live list (which is marked used);
    /// nothing for an absent or expired key, which stays.
    pub open spec fn lrange_op(self, key: Seq<u8>, start: i64, stop: i64, now: u64) -> (
        DbModel,
        Result<Seq<Seq<u8>>, ()>,
    ) {
        match self.lookup(key) {
            None => (self, Ok(Seq::empty())),
            Some(e) => if is_expired(e, now) {
                (self, Ok(Seq::empty()))
            } else {
                match e.data {
                    DataModel::List(l) => {
                        let (lo, hi) = range_bounds(l.len() as int, start as int, stop as int);
                        (self.touch(key, now), Ok(l.subrange(lo, hi)))
                    },
                    _ => (self, Err(())),
                }
            },
        }
    }
}

pub proof fn lemma_reverse_push<A>(s: Seq<A>, x: A)
    ensures
        s.push(x).reverse() == seq![x] + s.reverse(),
{
    assert(s.push(x).reverse() =~= seq![x] + s.reverse());
}

/// Pushes `elements` onto `list`, each at the front or each at the back, and answers
/// their estimated size.
fn push_elements(list: &mut VecDeque<Vec<u8>>, elements: &Vec<Vec<u8>>, front: bool) -> (added:
    usize)
    ensures
        byte_seqs(final(list)@) == pushed(byte_seqs(old(list)@), byte_seqs(elements@), front),
        added == members_size(byte_seqs(elements@)),
{
    let ghost start = byte_seqs(list@);
    let ghost es = byte_seqs(elements@);
    let mut added: usize = 0;
    let mut j: usize = 0;
    assert(pushed(start, es.take(0), front) =~= start);
    while j < elements.len()
        invariant
            j <= elements@.len(),
            es == byte_seqs(elements@),
            byte_seqs(list@) == pushed(start, es.take(j as int), front),
            added == members_size(es.take(j as int)),
        decreases elements@.len() - j,
    {
        let x = copy_bytes(elements[j].as_slice());
        assert(es.take(j + 1).drop_last() =~= es.take(j as int));
        assert(es.take(j + 1).last() == x@);
        let ghost before = list@;
        let ghost xv = x@;
        assert(es.take(j + 1) =~= es.take(j as int).push(xv));
        if front {
            list.push_front(x);
            proof {
                lemma_reverse_push(es.take(j as int), xv);
                assert(byte_seqs(list@) =~= seq![xv] + byte_seqs(before));
                assert(pushed(start, es.take(j + 1), front) =~= seq![xv] + pushed(
                    start,
                    es.take(j as int),
                    front,
                ));
            }
        } else {
            list.push_back(x);
            assert(byte_seqs(list@) =~= byte_seqs(before).push(xv));
            assert(pushed(start, es.take(j + 1), front) =~= pushed(start, es.take(j as int), front).push(
                xv,
            ));
        }
        added = added.wrapping_add(elements[j].len().wrapping_add(16));
        j = j + 1;
    }
    assert(es.take(j as int) =~= es);
    added
}

/// An empty list of byte strings.
pub(crate) fn no_items() -> (r: Vec<Vec<u8>>)
    ensures
        byte_seqs(r@) == Seq::<Seq<u8>>::empty(),
{
    let r: Vec<Vec<u8>> = Vec::new();
    assert(byte_seqs(r@) =~= Seq::<Seq<u8>>::empty());
    r
}

/// The range that LRANGE selects, as indices into a list of length `len`.
fn lrange_bounds(len: usize, start: i64, stop: i64) -> (r: (usize, usize))
    ensures
        r.0 == range_bounds(len as int, start as int, stop as int).0,
        r.1 == range_bounds(len as int, start as int, stop as int).1,
        r.0 <= r.1 <= len,
{
    let n = len as i128;
    let s0: i128 = if start < 0 {
        n + start as i128
    } else {
        start as i128
    };
    let e0: i128 = if stop < 0 {
        n + stop as i128
    } else {
        stop as i128
    };
    let s1: i128 = if s0 < 0 {
        0
    } else {
        s0
    };
    let e1: i128 = if e0 >= n {
        n - 1
    } else {
        e0
    };
    if n == 0 || s1 > e1 || s1 >= n {
        (0, 0)
    } else {
        (s1 as usize, (e1 + 1) as usize)
    }
}

impl Db {
    fn push_at(&mut self, key: Vec<u8>, elements: &Vec<Vec<u8>>, front: bool, now: u64) -> (r:
        Result<usize, String>)
        requires
            old(self).wf(),
        ensures
            final(self).wf(),
            final(self)@ == old(self)@.push_op(key@, byte_seqs(elements@), front, now).0,
            agrees_count(r, old(self)@.push_op(key@, byte_seqs(elements@), front, now).1),
    {
        let ghost k = key@;
        let (s, idx) = self.evict_if_expired(key.as_slice(), now);
        let ghost m = self@;
        match idx {
            None => {
                let mut list: VecDeque<Vec<u8>> = VecDeque::new();
                assert(byte_seqs(list@) =~= Seq::<Seq<u8>>::empty());
                let added = push_elements(&mut list, elements, front);
                let n = list.len();
                let base = key.len().wrapping_add(ESTIMATED_ENTRY_OVERHEAD);
                let e = CacheEntry::new(DataType::List(list), None, now);
                self.store_new(s, key, e);
                let memory = self.current_memory().wrapping_add(base).wrapping_add(added);
                self.set_memory(memory);
                Ok(n)
            },
            Some(i) => {
                match &self.entry_at(s, i).data {
                    DataType::List(_) => {},
                    _ => {
                        return Err(wrong_type_error());
                    },
                }
                let e = self.take_at(s, i, Ghost(k));
                let CacheEntry { data, expires_at, last_accessed } = e;
                match data {
                    DataType::List(mut list) => {
                        let added = push_elements(&mut list, elements, front);
                        let n = list.len();
                        let ne = CacheEntry::new(DataType::List(list), expires_at, now);
                        let ghost nem = ne.model();
                        self.store_at(s, i, Ghost(k), ne);
                        let memory = self.current_memory().wrapping_add(added);
                        self.set_memory(memory);
                        assert(self@ == m.put(k, nem).with_memory(memory));
                        Ok(n)
                    },
                    _ => {
                        assert(false);
                        Err(wrong_type_error())
                    },
                }
            },
        }
    }

    /// LPUSH at `now`.
    pub fn lpush_at(&mut self, key: Vec<u8>, elements: Vec<Vec<u8>>, now: u64) -> (r: Result<
        usize,
        String,
    >)
        requires
            old(self).wf(),
        ensures
            final(self).wf(),
            final(self)@ == old(self)@.push_op(key@, byte_seqs(elements@), true, now).0,
            agrees_count(r, old(self)@.push_op(key@, byte_seqs(elements@), true, now).1),
    {
        self.push_at(key, &elements, true, now)
    }

    /// LPUSH: pushes each element at the head of the list under `key` (creating it) and
    /// answers the new length, or the type error.
    pub fn lpush(&mut self, key: Vec<u8>, elements: Vec<Vec<u8>>) -> (r: Result<usize, String>)
        requires
            old(self).wf(),
        ensures
            final(self).wf(),
            exists|now: u64|
                final(self)@ == old(self)@.push_op(key@, byte_seqs(elements@), true, now).0
                    && agrees_count(r, old(self)@.push_op(key@, byte_seqs(elements@), true, now).1),
    {
        let now = self.now_millis();
        self.lpush_at(key, elements, now)
    }

    /// RPUSH at `now`.
    pub fn rpush_at(&mut self, key: Vec<u8>, elements: Vec<Vec<u8>>, now: u64) -> (r: Result<
        usize,
        String,
    >)
        requires
            old(self).wf(),
        ensures
            final(self).wf(),
            final(self)@ == old(self)@.push_op(key@, byte_seqs(elements@), false, now).0,
            agrees_count(r, old(self)@.push_op(key@, byte_seqs(elements@), false, now).1),
    {
        self.push_at(key, &elements, false, now)
    }

    /// RPUSH: pushes each element at the tail of the list under `key` (creating it) and
    /// answers the new length, or the type error.
    pub fn rpush(&mut self, key: Vec<u8>, elements: Vec<Vec<u8>>) -> (r: Result<usize, String>)
        requires
            old(self).wf(),
        ensures
            final(self).wf(),
            exists|now: u64|
                final(self)@ == old(self)@.push_op(key@, byte_seqs(elements@), false, now).0
                    && agrees_count(r, old(self)@.push_op(key@, byte_seqs(elements@), false, now).1),
    {
        let now = self.now_millis();
        self.rpush_at(key, elements, now)
    }
}

impl Db {
    fn pop_at(&mut self, key: &[u8], front: bool, now: u64) -> (r: Result<Option<Vec<u8>>, String>)
        requires
            old(self).wf(),
        ensures
            final(self).wf(),
            final(self)@ == old(self)@.pop_op(key@, front, now).0,
            agrees_opt_bytes(r, old(self)@.pop_op(key@, front, now).1),
    {
        let ghost k = key@;
        let (s, idx) = self.evict_if_expired(key, now);
        let ghost m = self@;
        match idx {
            None => Ok(None),
            Some(i) => {
                match &self.entry_at(s, i).data {
                    DataType::List(_) => {},
                    _ => {
                        return Err(wrong_type_error());
                    },
                }
                let e = self.take_at(s, i, Ghost(k));
                let CacheEntry { data, expires_at, last_accessed } = e;
                match data {
                    DataType::List(mut list) => {
                        let ghost l0 = byte_seqs(list@);
                        let popped = if front {
                            list.pop_front()
                        } else {
                            list.pop_back()
                        };
                        proof {
                            if l0.len() > 0 {
                                if front {
                                    assert(byte_seqs(list@) =~= l0.drop_first());
                                } else {
                                    assert(byte_seqs(list@) =~= l0.drop_last());
                                }
                            }
                        }
                        let mut memory = self.current_memory();
                        match &popped {
                            Some(p) => {
                                memory = memory.wrapping_sub(p.len().wrapping_add(16));
                            },
                            None => {},
                        }
                        let empty = list.len() == 0;
                        let stamp = if empty {
                            last_accessed
                        } else {
                            now
                        };
                        let ne = CacheEntry::new(DataType::List(list), expires_at, stamp);
                        let ghost nem = ne.model();
                        self.store_at(s, i, Ghost(k), ne);
                        self.set_memory(memory);
                        proof {
                            lemma_put(m, k, nem, k);
                        }
                        assert(self@ == m.put(k, nem).with_memory(memory));
                        if empty {
                            self.remove_at(s, i, Ghost(k));
                        }
                        Ok(popped)
                    },
                    _ => {
                        assert(false);
                        Err(wrong_type_error())
                    },
                }
            },
        }
    }

    /// LPOP at `now`.
    pub fn lpop_at(&mut self, key: &[u8], now: u64) -> (r: Result<Option<Vec<u8>>, String>)
        requires
            old(self).wf(),
        ensures
            final(self).wf(),
            final(self)@ == old(self)@.pop_op(key@, true, now).0,
            agrees_opt_bytes(r, old(self)@.pop_op(key@, true, now).1),
    {
        self.pop_at(key, true, now)
    }

    /// LPOP: removes and answers the first element of the list under `key` (nothing
    /// for an absent or expired key), or the type error.
    pub fn lpop(&mut self, key: &[u8]) -> (r: Result<Option<Vec<u8>>, String>)
        requires
            old(self).wf(),
        ensures
            final(self).wf(),
            exists|now: u64|
                final(self)@ == old(self)@.pop_op(key@, true, now).0 && agrees_opt_bytes(
                    r,
                    old(self)@.pop_op(key@, true, now).1,
                ),
    {
        let now = self.now_millis();
        self.lpop_at(key, now)
    }

    /// RPOP at `now`.
    pub fn rpop_at(&mut self, key: &[u8], now: u64) -> (r: Result<Option<Vec<u8>>, String>)
        requires
            old(self).wf(),
        ensures
            final(self).wf(),
            final(self)@ == old(self)@.pop_op(key@, false, now).0,
            agrees_opt_bytes(r, old(self)@.pop_op(key@, false, now).1),
    {
        self.pop_at(key, false, now)
    }

    /// RPOP: removes and answers the last element of the list under `key` (nothing
    /// for an absent or expired key), or the type error.
    pub fn rpop(&mut self, key: &[u8]) -> (r: Result<Option<Vec<u8>>, String>)
        requires
            old(self).wf(),
        ensures
            final(self).wf(),
            exists|now: u64|
                final(self)@ == old(self)@.pop_op(key@, false, now).0 && agrees_opt_bytes(
                    r,
                    old(self)@.pop_op(key@, false, now).1,
                ),
    {
        let now = self.now_millis();
        self.rpop_at(key, now)
    }

    /// LRANGE at `now`.
    pub fn lrange_at(&mut self, key: &[u8], start: i64, stop: i64, now: u64) -> (r: Result<
        Vec<Vec<u8>>,
        String,
    >)
        requires
            old(self).wf(),
        ensures
            final(self).wf(),
            final(self)@ == old(self)@.lrange_op(key@, start, stop, now).0,
            agrees_list(r, old(self)@.lrange_op(key@, start, stop, now).1),
    {
        let (s, idx) = self.locate(key);
        match idx {
            None => Ok(no_items()),
            Some(i) => {
                if self.entry_at(s, i).is_expired(now) {
                    return Ok(no_items());
                }
                let res = match &self.entry_at(s, i).data {
                    DataType::List(list) => {
                        let ghost l = byte_seqs(list@);
                        let (lo, hi) = lrange_bounds(list.len(), start, stop);
                        let mut out: Vec<Vec<u8>> = Vec::new();
                        let mut j: usize = lo;
                        while j < hi
                            invariant
                                lo <= j <= hi,
                                hi <= list@.len(),
                                l == byte_seqs(list@),
                                byte_seqs(out@) == l.subrange(lo as int, j as int),
                            decreases hi - j,
                        {
                            let x = copy_bytes(list[j].as_slice());
                            let ghost xv = x@;
                            assert(xv == l[j as int]);
                            let ghost before = out@;
                            out.push(x);
                            assert(byte_seqs(out@) =~= byte_seqs(before).push(xv));
                            assert(l.subrange(lo as int, j + 1) =~= l.subrange(lo as int, j as int).push(
                                l[j as int],
                            ));
                            j = j + 1;
                        }
                        out
                    },
                    _ => {
                        return Err(wrong_type_error());
                    },
                };
                self.touch_at(s, i, Ghost(key@), now);
                Ok(res)
            },
        }
    }

    /// LRANGE: the elements from `start` to `stop` (inclusive; negative indices count
    /// from the end) of the list under `key`, or the type error.
    pub fn lrange(&mut self, key: &[u8], start: i64, stop: i64) -> (r: Result<Vec<Vec<u8>>, String>)
        requires
            old(self).wf(),
        ensures
            final(self).wf(),
            exists|now: u64|
                final(self)@ == old(self)@.lrange_op(key@, start, stop, now).0 && agrees_list(
                    r,
                    old(self)@.lrange_op(key@, start, stop, now).1,
                ),
    {
        let now = self.now_millis();
        self.lrange_at(key, start, stop, now)
    }
}

} // verus!
