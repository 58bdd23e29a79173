//! The keyspace: string, list, set and hash values under byte-string keys, spread over
//! shards by a hash of the key, with per-key expiry, approximated LRU eviction under a
//! memory limit, and a running estimate of the memory that the entries take.
//!
//! Time is counted in milliseconds since the database was created. Each operation that
//! depends on time has an `_at` form that takes the current time as an argument and is
//! exactly specified; the plain form reads the clock and calls it.
use crate::frame::is_white_space;
use crate::glob::{glob_match, glob_matches};
use crate::number::{parse_usize_all, parse_usize_text};
use vstd::utf8::encode_utf8;
use vstd::prelude::*;
use vstd::wrapping::usize_specs::{wrapping_add, wrapping_sub};

verus! {

pub const DEFAULT_NUM_SHARDS: usize = 64;

pub const DEFAULT_LRU_SAMPLE_SIZE: usize = 8;

pub const ESTIMATED_ENTRY_OVERHEAD: usize = 64;

pub const WRONG_TYPE_ERR: &'static str = "WRONGTYPE Operation against a key holding the wrong kind of value";

/// The values the cache holds.
#[derive(Debug)]
pub enum DataType {
    String(Vec<u8>),
    List(std::collections::VecDeque<Vec<u8>>),
    /// Members in insertion order, none twice.
    Members(Vec<Vec<u8>>),
    /// Field-value pairs in insertion order, no field twice.
    Hash(Vec<(Vec<u8>, Vec<u8>)>),
}

/// A cached value with its expiry and the time it was last used (both in
/// milliseconds since the database was created).
#[derive(Debug)]
pub struct CacheEntry {
    pub data: DataType,
    pub expires_at: Option<u64>,
    pub last_accessed: u64,
}

/// The value of `DataType`.
pub enum DataModel {
    String(Seq<u8>),
    List(Seq<Seq<u8>>),
    Members(Seq<Seq<u8>>),
    Hash(Seq<(Seq<u8>, Seq<u8>)>),
}

/// The value of `CacheEntry`.
pub struct EntryModel {
    pub data: DataModel,
    pub expires_at: Option<u64>,
    pub last_accessed: u64,
}

/// The value of a shard: its keys and entries, in order.
pub type ShardModel = Seq<(Seq<u8>, EntryModel)>;

/// The value of the database.
pub struct DbModel {
    pub shards: Seq<ShardModel>,
    pub maxmemory: usize,
    pub memory: usize,
}

pub open spec fn byte_seqs(v: Seq<Vec<u8>>) -> Seq<Seq<u8>> {
    Seq::new(v.len(), |i: int| v[i]@)
}

pub open spec fn pair_seqs(v: Seq<(Vec<u8>, Vec<u8>)>) -> Seq<(Seq<u8>, Seq<u8>)> {
    Seq::new(v.len(), |i: int| (v[i].0@, v[i].1@))
}

impl DataType {
    pub open spec fn model(&self) -> DataModel {
        match self {
            DataType::String(b) => DataModel::String(b@),
            DataType::List(l) => DataModel::List(byte_seqs(l@)),
            DataType::Members(s) => DataModel::Members(byte_seqs(s@)),
            DataType::Hash(h) => DataModel::Hash(pair_seqs(h@)),
        }
    }
}

impl CacheEntry {
    pub open spec fn model(&self) -> EntryModel {
        EntryModel {
            data: self.data.model(),
            expires_at: self.expires_at,
            last_accessed: self.last_accessed,
        }
    }
}

pub open spec fn shard_model(v: Seq<(Vec<u8>, CacheEntry)>) -> ShardModel {
    Seq::new(v.len(), |i: int| (v[i].0@, v[i].1.model()))
}

// ---------------------------------------------------------------------------
// Sizes, in the wrapping arithmetic of `usize`
// ---------------------------------------------------------------------------
pub open spec fn wadd(a: usize, b: usize) -> usize {
    wrapping_add(a, b)
}

pub open spec fn wsub(a: usize, b: usize) -> usize {
    wrapping_sub(a, b)
}

/// The estimated size of list or set members: each one's length plus 16.
pub open spec fn members_size(items: Seq<Seq<u8>>) -> usize
    decreases items.len(),
{
    if items.len() == 0 {
        0
    } else {
        wadd(members_size(items.drop_last()), wadd(items.last().len() as usize, 16))
    }
}

/// The estimated size of hash pairs: field length plus value length plus 32 each.
pub open spec fn pairs_size(items: Seq<(Seq<u8>, Seq<u8>)>) -> usize
    decreases items.len(),
{
    if items.len() == 0 {
        0
    } else {
        wadd(
            pairs_size(items.drop_last()),
            wadd(wadd(items.last().0.len() as usize, items.last().1.len() as usize), 32),
        )
    }
}

pub open spec fn data_size(d: DataModel) -> usize {
    match d {
        DataModel::String(b) => b.len() as usize,
        DataModel::List(l) => members_size(l),
        DataModel::Members(s) => members_size(s),
        DataModel::Hash(h) => pairs_size(h),
    }
}

/// The fixed part of the estimated size of an entry under `key`: the key's length
/// and the overhead.
pub open spec fn base_size(key: Seq<u8>) -> usize {
    wadd(key.len() as usize, ESTIMATED_ENTRY_OVERHEAD)
}

/// The estimated size of an entry under `key`.
pub open spec fn entry_size(key: Seq<u8>, d: DataModel) -> usize {
    wadd(wadd(key.len() as usize, data_size(d)), ESTIMATED_ENTRY_OVERHEAD)
}

// ---------------------------------------------------------------------------
// Where a key lives
// ---------------------------------------------------------------------------
/// What `DefaultHasher` gives for a byte string (hashed as a slice).
pub uninterp spec fn default_hash(key: Seq<u8>) -> u64;

/// The shard of `key` among `n` shards.
pub open spec fn shard_of(key: Seq<u8>, n: int) -> int {
    ((default_hash(key) as usize) as int) % n
}

/// The index of the last pair whose first part is `key`, or -1.
pub open spec fn key_index<V>(shard: Seq<(Seq<u8>, V)>, key: Seq<u8>) -> int
    decreases shard.len(),
{
    if shard.len() == 0 {
        -1
    } else if shard.last().0 == key {
        shard.len() - 1
    } else {
        key_index(shard.drop_last(), key)
    }
}

/// No first part occurs twice.
pub open spec fn keys_distinct<V>(shard: Seq<(Seq<u8>, V)>) -> bool {
    forall|i: int, j: int|
        0 <= i < shard.len() && 0 <= j < shard.len() && i != j ==> #[trigger] shard[i].0
            != #[trigger] shard[j].0
}

/// No member occurs twice.
pub open spec fn distinct_members(s: Seq<Seq<u8>>) -> bool {
    forall|i: int, j: int| 0 <= i < s.len() && 0 <= j < s.len() && i != j ==> s[i] != s[j]
}

pub open spec fn data_wf(d: DataModel) -> bool {
    match d {
        DataModel::Members(s) => distinct_members(s),
        DataModel::Hash(h) => keys_distinct(h),
        _ => true,
    }
}

impl DbModel {
    pub open spec fn num_shards(self) -> int {
        self.shards.len() as int
    }

    /// Every key is in its own shard, once, and every value is well formed.
    pub open spec fn wf(self) -> bool {
        &&& 0 < self.shards.len() <= usize::MAX
        &&& forall|s: int| 0 <= s < self.shards.len() ==> keys_distinct(#[trigger] self.shards[s])
        &&& forall|s: int, i: int|
            0 <= s < self.shards.len() && 0 <= i < self.shards[s].len() ==> shard_of(
                #[trigger] self.shards[s][i].0,
                self.shards.len() as int,
            ) == s && data_wf(self.shards[s][i].1.data)
    }

    pub open spec fn shard_for(self, key: Seq<u8>) -> int {
        shard_of(key, self.shards.len() as int)
    }

    pub open spec fn index_for(self, key: Seq<u8>) -> int {
        key_index(self.shards[self.shard_for(key)], key)
    }

    /// The entry under `key`.
    pub open spec fn lookup(self, key: Seq<u8>) -> Option<EntryModel> {
        let i = self.index_for(key);
        if i < 0 {
            None
        } else {
            Some(self.shards[self.shard_for(key)][i].1)
        }
    }

    /// `key` holds `e`, in place where it was, or last in its shard where it was not.
    pub open spec fn put(self, key: Seq<u8>, e: EntryModel) -> DbModel {
        let s = self.shard_for(key);
        let i = self.index_for(key);
        let shard = self.shards[s];
        DbModel {
            shards: self.shards.update(
                s,
                if i < 0 {
                    shard.push((key, e))
                } else {
                    shard.update(i, (key, e))
                },
            ),
            ..self
        }
    }

    pub open spec fn with_memory(self, memory: usize) -> DbModel {
        DbModel { memory, ..self }
    }

    /// `key` is gone, and the memory estimate is down by its entry's size.
    pub open spec fn remove_key(self, key: Seq<u8>) -> DbModel {
        let s = self.shard_for(key);
        let i = self.index_for(key);
        if i < 0 {
            self
        } else {
            DbModel {
                shards: self.shards.update(s, self.shards[s].remove(i)),
                memory: wsub(self.memory, entry_size(key, self.shards[s][i].1.data)),
                ..self
            }
        }
    }

    /// The keys removed one after another.
    pub open spec fn remove_all(self, keys: Seq<Seq<u8>>) -> DbModel
        decreases keys.len(),
    {
        if keys.len() == 0 {
            self
        } else {
            self.remove_all(keys.drop_last()).remove_key(keys.last())
        }
    }

    /// The entry is used at `now`.
    pub open spec fn touch(self, key: Seq<u8>, now: u64) -> DbModel {
        match self.lookup(key) {
            Some(e) => self.put(key, EntryModel { last_accessed: now, ..e }),
            None => self,
        }
    }

    /// An expired entry under `key` is dropped.
    pub open spec fn drop_expired(self, key: Seq<u8>, now: u64) -> DbModel {
        match self.lookup(key) {
            Some(e) => if is_expired(e, now) {
                self.remove_key(key)
            } else {
                self
            },
            None => self,
        }
    }
}

/// The entry's expiry has come.
pub open spec fn is_expired(e: EntryModel, now: u64) -> bool {
    match e.expires_at {
        Some(x) => now >= x,
        None => false,
    }
}

pub open spec fn wrong_type() -> Seq<char> {
    WRONG_TYPE_ERR@
}

// ---------------------------------------------------------------------------
// Trusted calls: the clock, the hasher and the random source
// ---------------------------------------------------------------------------
#[verifier::external_type_specification]
#[verifier::external_body]
pub struct ExInstant(std::time::Instant);

/// `Instant::now`: the current instant of the monotonic clock.
#[verifier::external_body]
fn instant_now() -> std::time::Instant {
    std::time::Instant::now()
}

/// `Instant::elapsed`, in whole milliseconds (truncated to `u64`). It reads the clock,
/// so nothing is stated of the value.
#[verifier::external_body]
fn elapsed_millis(start: &std::time::Instant) -> u64 {
    start.elapsed().as_millis() as u64
}

/// `DefaultHasher` (as built by `new`) fed the key slice with `Hash::hash`, then
/// `finish`: a function of the key bytes alone, named `default_hash`.
#[verifier::external_body]
fn hash_key(key: &[u8]) -> (r: u64)
    ensures
        r == default_hash(key@),
{
    let mut hasher = std::collections::hash_map::DefaultHasher::new();
    std::hash::Hash::hash(key, &mut hasher);
    std::hash::Hasher::finish(&hasher)
}

/// `fastrand::usize(..n)`: a random index below `n` (it panics on an empty range).
#[verifier::external_body]
pub(crate) fn random_below(n: usize) -> (r: usize)
    requires
        n > 0,
    ensures
        r < n,
{
    fastrand::usize(..n)
}

// ---------------------------------------------------------------------------
// Byte strings
// ---------------------------------------------------------------------------
/// The two byte strings are equal.
pub fn bytes_eq(a: &[u8], b: &[u8]) -> (r: bool)
    ensures
        r == (a@ == b@),
{
    if a.len() != b.len() {
        return false;
    }
    let mut i: usize = 0;
    while i < a.len()
        invariant
            i <= a@.len(),
            a@.len() == b@.len(),
            forall|j: int| 0 <= j < i ==> a@[j] == b@[j],
        decreases a@.len() - i,
    {
        if a[i] != b[i] {
            return false;
        }
        i = i + 1;
    }
    assert(a@ =~= b@);
    true
}

/// A copy of the bytes.
pub fn copy_bytes(a: &[u8]) -> (r: Vec<u8>)
    ensures
        r@ == a@,
{
    vstd::slice::slice_to_vec(a)
}

fn members_size_of(items: &Vec<Vec<u8>>) -> (r: usize)
    ensures
        r == members_size(byte_seqs(items@)),
{
    let mut total: usize = 0;
    let mut i: usize = 0;
    while i < items.len()
        invariant
            i <= items@.len(),
            total == members_size(byte_seqs(items@).take(i as int)),
        decreases items@.len() - i,
    {
        assert(byte_seqs(items@).take(i + 1).drop_last() =~= byte_seqs(items@).take(i as int));
        total = total.wrapping_add(items[i].len().wrapping_add(16));
        i = i + 1;
    }
    assert(byte_seqs(items@).take(i as int) =~= byte_seqs(items@));
    total
}

fn list_size_of(items: &std::collections::VecDeque<Vec<u8>>) -> (r: usize)
    ensures
        r == members_size(byte_seqs(items@)),
{
    let mut total: usize = 0;
    let mut i: usize = 0;
    while i < items.len()
        invariant
            i <= items@.len(),
            total == members_size(byte_seqs(items@).take(i as int)),
        decreases items@.len() - i,
    {
        assert(byte_seqs(items@).take(i + 1).drop_last() =~= byte_seqs(items@).take(i as int));
        total = total.wrapping_add(items[i].len().wrapping_add(16));
        i = i + 1;
    }
    assert(byte_seqs(items@).take(i as int) =~= byte_seqs(items@));
    total
}

fn pairs_size_of(items: &Vec<(Vec<u8>, Vec<u8>)>) -> (r: usize)
    ensures
        r == pairs_size(pair_seqs(items@)),
{
    let mut total: usize = 0;
    let mut i: usize = 0;
    while i < items.len()
        invariant
            i <= items@.len(),
            total == pairs_size(pair_seqs(items@).take(i as int)),
        decreases items@.len() - i,
    {
        assert(pair_seqs(items@).take(i + 1).drop_last() =~= pair_seqs(items@).take(i as int));
        let pair = &items[i];
        total = total.wrapping_add(pair.0.len().wrapping_add(pair.1.len()).wrapping_add(32));
        i = i + 1;
    }
    assert(pair_seqs(items@).take(i as int) =~= pair_seqs(items@));
    total
}

impl CacheEntry {
    pub fn new(data: DataType, expires_at: Option<u64>, now_millis: u64) -> (r: CacheEntry)
        ensures
            r.data == data,
            r.expires_at == expires_at,
            r.last_accessed == now_millis,
    {
        CacheEntry { data, expires_at, last_accessed: now_millis }
    }

    /// The expiry has come at `now`.
    pub fn is_expired(&self, now: u64) -> (r: bool)
        ensures
            r == is_expired(self.model(), now),
    {
        match self.expires_at {
            Some(exp) => now >= exp,
            None => false,
        }
    }

    /// The estimated size of the entry under `key`.
    pub fn size_bytes(&self, key: &[u8]) -> (r: usize)
        ensures
            r == entry_size(key@, self.data.model()),
    {
        let data_size = match &self.data {
            DataType::String(b) => b.len(),
            DataType::List(list) => list_size_of(list),
            DataType::Members(set) => members_size_of(set),
            DataType::Hash(hash) => pairs_size_of(hash),
        };
        key.len().wrapping_add(data_size).wrapping_add(ESTIMATED_ENTRY_OVERHEAD)
    }
}

/// The sharded database.
pub struct Db {
    shards: Vec<Vec<(Vec<u8>, CacheEntry)>>,
    maxmemory: usize,
    current_memory: usize,
    start_time: std::time::Instant,
}

impl View for Db {
    type V = DbModel;

    closed spec fn view(&self) -> DbModel {
        DbModel {
            shards: Seq::new(self.shards@.len(), |i: int| shard_model(self.shards@[i]@)),
            maxmemory: self.maxmemory,
            memory: self.current_memory,
        }
    }
}

pub proof fn lemma_key_index<V>(shard: Seq<(Seq<u8>, V)>, key: Seq<u8>, i: int)
    requires
        keys_distinct(shard),
    ensures
        0 <= i < shard.len() && shard[i].0 == key ==> key_index(shard, key) == i,
        key_index(shard, key) < 0 <==> forall|j: int| 0 <= j < shard.len() ==> shard[j].0 != key,
        -1 <= key_index(shard, key) < shard.len(),
        key_index(shard, key) >= 0 ==> shard[key_index(shard, key)].0 == key,
    decreases shard.len(),
{
    if shard.len() > 0 {
        let d = shard.drop_last();
        assert(keys_distinct(d)) by {
            assert forall|a: int, b: int|
                0 <= a < d.len() && 0 <= b < d.len() && a != b implies #[trigger] d[a].0
                != #[trigger] d[b].0 by {
                assert(d[a] == shard[a] && d[b] == shard[b]);
            }
        }
        lemma_key_index(d, key, i);
        if shard.last().0 == key {
            if 0 <= i < shard.len() - 1 && shard[i].0 == key {
                assert(shard[i].0 != shard[shard.len() - 1].0);
            }
        } else {
            assert forall|j: int| 0 <= j < d.len() implies d[j] == shard[j] by {}
        }
    }
}

impl Db {
    pub open spec fn wf(&self) -> bool {
        self@.wf()
    }

    /// A database with the default number of shards and no memory limit.
    pub fn new() -> (r: Db)
        ensures
            r.wf(),
            r@.shards.len() == DEFAULT_NUM_SHARDS,
            forall|s: int| 0 <= s < r@.shards.len() ==> #[trigger] r@.shards[s].len() == 0,
            r@.maxmemory == 0,
            r@.memory == 0,
    {
        Self::with_options(DEFAULT_NUM_SHARDS, 0)
    }

    /// A database with `num_shards` empty shards and the memory limit `maxmemory`
    /// (0 for none).
    pub fn with_options(num_shards: usize, maxmemory: usize) -> (r: Db)
        requires
            num_shards > 0,
        ensures
            r.wf(),
            r@.shards.len() == num_shards,
            forall|s: int| 0 <= s < r@.shards.len() ==> #[trigger] r@.shards[s].len() == 0,
            r@.maxmemory == maxmemory,
            r@.memory == 0,
    {
        let mut shards: Vec<Vec<(Vec<u8>, CacheEntry)>> = Vec::new();
        let mut i: usize = 0;
        while i < num_shards
            invariant
                i <= num_shards,
                shards@.len() == i,
                forall|s: int| 0 <= s < i ==> #[trigger] shards@[s]@.len() == 0,
            decreases num_shards - i,
        {
            shards.push(Vec::new());
            i = i + 1;
        }
        Db { shards, maxmemory, current_memory: 0, start_time: instant_now() }
    }

    /// Milliseconds since the database was created.
    pub fn now_millis(&self) -> u64 {
        elapsed_millis(&self.start_time)
    }

    /// The shard of `key`.
    pub fn get_shard_index(&self, key: &[u8]) -> (r: usize)
        requires
            self.wf(),
        ensures
            r == self@.shard_for(key@),
            r < self@.shards.len(),
    {
        let h = hash_key(key);
        (h as usize) % self.shards.len()
    }

    /// Where `key` is: its shard, and its index there.
    pub(crate) fn locate(&self, key: &[u8]) -> (r: (usize, Option<usize>))
        requires
            self.wf(),
        ensures
            r.0 == self@.shard_for(key@),
            r.0 < self@.shards.len(),
            match r.1 {
                Some(i) => i == self@.index_for(key@) && i < self@.shards[r.0 as int].len(),
                None => self@.index_for(key@) < 0,
            },
    {
        let s = self.get_shard_index(key);
        let shard = &self.shards[s];
        let ghost sm = self@.shards[s as int];
        assert(sm.len() == shard@.len());
        proof {
            lemma_key_index(sm, key@, -1);
        }
        let mut i: usize = 0;
        while i < shard.len()
            invariant
                i <= shard@.len(),
                s == self@.shard_for(key@),
                s < self@.shards.len(),
                sm == self@.shards[s as int],
                *shard == self.shards@[s as int],
                sm == shard_model(shard@),
                keys_distinct(sm),
                forall|j: int| 0 <= j < i ==> sm[j].0 != key@,
            decreases shard@.len() - i,
        {
            if bytes_eq(shard[i].0.as_slice(), key) {
                proof {
                    lemma_key_index(sm, key@, i as int);
                }
                return (s, Some(i));
            }
            i = i + 1;
        }
        (s, None)
    }
}

pub proof fn lemma_shard_model_push(v: Seq<(Vec<u8>, CacheEntry)>, x: (Vec<u8>, CacheEntry))
    ensures
        shard_model(v.push(x)) == shard_model(v).push((x.0@, x.1.model())),
{
    assert(shard_model(v.push(x)) =~= shard_model(v).push((x.0@, x.1.model())));
}

pub proof fn lemma_shard_model_remove(v: Seq<(Vec<u8>, CacheEntry)>, i: int)
    requires
        0 <= i < v.len(),
    ensures
        shard_model(v.remove(i)) == shard_model(v).remove(i),
{
    assert(shard_model(v.remove(i)) =~= shard_model(v).remove(i));
}

impl Db {
    /// Removes the entry at index `i` of shard `s`, which holds `key`.
    pub(crate) fn remove_at(&mut self, s: usize, i: usize, Ghost(key): Ghost<Seq<u8>>)
        requires
            old(self).wf(),
            s == old(self)@.shard_for(key),
            i == old(self)@.index_for(key),
            0 <= i,
        ensures
            final(self).wf(),
            final(self)@ == old(self)@.remove_key(key),
    {
        let ghost old_v = self.shards@[s as int]@;
        proof {
            lemma_key_index(old(self)@.shards[s as int], key, -1);
        }
        let (k, e) = self.shards[s].remove(i);
        let size = e.size_bytes(k.as_slice());
        self.current_memory = self.current_memory.wrapping_sub(size);
        proof {
            lemma_shard_model_remove(old_v, i as int);
            let m = self@;
            let o = old(self)@;
            assert(m.shards =~= o.shards.update(s as int, o.shards[s as int].remove(i as int)));
            assert forall|t: int| 0 <= t < m.shards.len() implies keys_distinct(#[trigger] m.shards[t]) by {
                if t == s {
                    let sh = m.shards[t];
                    assert forall|a: int, b: int|
                        0 <= a < sh.len() && 0 <= b < sh.len() && a != b implies #[trigger] sh[a].0
                        != #[trigger] sh[b].0 by {
                        let oa = if a < i { a } else { a + 1 };
                        let ob = if b < i { b } else { b + 1 };
                        assert(sh[a] == o.shards[t][oa]);
                        assert(sh[b] == o.shards[t][ob]);
                    }
                }
            }
            assert forall|t: int, a: int|
                0 <= t < m.shards.len() && 0 <= a < m.shards[t].len() implies shard_of(
                #[trigger] m.shards[t][a].0,
                m.shards.len() as int,
            ) == t && data_wf(m.shards[t][a].1.data) by {
                if t == s {
                    let oa = if a < i { a } else { a + 1 };
                    assert(m.shards[t][a] == o.shards[t][oa]);
                }
            }
        }
    }

    /// Marks the entry at index `i` of shard `s`, which holds `key`, as used at `now`.
    pub(crate) fn touch_at(&mut self, s: usize, i: usize, Ghost(key): Ghost<Seq<u8>>, now: u64)
        requires
            old(self).wf(),
            s == old(self)@.shard_for(key),
            i == old(self)@.index_for(key),
            0 <= i,
        ensures
            final(self).wf(),
            final(self)@ == old(self)@.touch(key, now),
    {
        let ghost old_v = self.shards@[s as int]@;
        proof {
            lemma_key_index(old(self)@.shards[s as int], key, -1);
        }
        self.shards[s][i].1.last_accessed = now;
        proof {
            let m = self@;
            let o = old(self)@;
            let e = o.shards[s as int][i as int].1;
            assert(m.shards[s as int] =~= o.shards[s as int].update(
                i as int,
                (key, EntryModel { last_accessed: now, ..e }),
            ));
            assert(m.shards =~= o.put(key, EntryModel { last_accessed: now, ..e }).shards);
            assert forall|t: int| 0 <= t < m.shards.len() implies keys_distinct(#[trigger] m.shards[t]) by {
                if t == s {
                    let sh = m.shards[t];
                    assert forall|a: int, b: int|
                        0 <= a < sh.len() && 0 <= b < sh.len() && a != b implies #[trigger] sh[a].0
                        != #[trigger] sh[b].0 by {
                        assert(sh[a].0 == o.shards[t][a].0);
                        assert(sh[b].0 == o.shards[t][b].0);
                    }
                }
            }
            assert forall|t: int, a: int|
                0 <= t < m.shards.len() && 0 <= a < m.shards[t].len() implies shard_of(
                #[trigger] m.shards[t][a].0,
                m.shards.len() as int,
            ) == t && data_wf(m.shards[t][a].1.data) by {
                if t == s {
                    assert(m.shards[t][a].0 == o.shards[t][a].0);
                    assert(m.shards[t][a].1.data == o.shards[t][a].1.data);
                }
            }
        }
    }
}

impl Default for Db {
    fn default() -> (r: Db)
        ensures
            r.wf(),
            r@.shards.len() == DEFAULT_NUM_SHARDS,
            forall|s: int| 0 <= s < r@.shards.len() ==> #[trigger] r@.shards[s].len() == 0,
            r@.maxmemory == 0,
            r@.memory == 0,
    {
        Db::new()
    }
}

/// The shard `s` replaced by `sh` keeps the database well formed, where `sh` holds
/// distinct keys that belong to `s` and well-formed values.
pub proof fn lemma_wf_shard_update(o: DbModel, s: int, sh: ShardModel, memory: usize)
    requires
        o.wf(),
        0 <= s < o.shards.len(),
        keys_distinct(sh),
        forall|a: int| 0 <= a < sh.len() ==> shard_of(#[trigger] sh[a].0, o.shards.len() as int) == s
            && data_wf(sh[a].1.data),
    ensures
        (DbModel { shards: o.shards.update(s, sh), memory, ..o }).wf(),
{
    let m = DbModel { shards: o.shards.update(s, sh), memory, ..o };
    assert forall|t: int| 0 <= t < m.shards.len() implies keys_distinct(#[trigger] m.shards[t]) by {
        if t != s {
            assert(m.shards[t] == o.shards[t]);
        }
    }
    assert forall|t: int, a: int|
        0 <= t < m.shards.len() && 0 <= a < m.shards[t].len() implies shard_of(
        #[trigger] m.shards[t][a].0,
        m.shards.len() as int,
    ) == t && data_wf(m.shards[t][a].1.data) by {
        if t != s {
            assert(m.shards[t] == o.shards[t]);
        } else {
            assert(m.shards[t][a] == sh[a]);
        }
    }
}

/// Putting an entry keeps the database well formed; afterwards the key holds it and
/// every other key holds what it held.
pub proof fn lemma_put(o: DbModel, key: Seq<u8>, e: EntryModel, k: Seq<u8>)
    requires
        o.wf(),
        data_wf(e.data),
    ensures
        o.put(key, e).wf(),
        o.put(key, e).lookup(key) == Some(e),
        k != key ==> o.put(key, e).lookup(k) == o.lookup(k),
        o.put(key, e).memory == o.memory,
        o.put(key, e).maxmemory == o.maxmemory,
        o.put(key, e).shards.len() == o.shards.len(),
        o.index_for(key) >= 0 ==> o.put(key, e).index_for(key) == o.index_for(key),
{
    let s = o.shard_for(key);
    let i = o.index_for(key);
    let n = o.shards.len() as int;
    let sh = o.shards[s];
    let nsh = if i < 0 {
        sh.push((key, e))
    } else {
        sh.update(i, (key, e))
    };
    lemma_key_index(sh, key, -1);
    assert(0 <= s < n) by {
        assert((default_hash(key) as usize) as int % n < n);
    }
    assert(keys_distinct(nsh)) by {
        assert forall|a: int, b: int|
            0 <= a < nsh.len() && 0 <= b < nsh.len() && a != b implies #[trigger] nsh[a].0
            != #[trigger] nsh[b].0 by {
            if i < 0 {
                if a < sh.len() && b < sh.len() {
                    assert(nsh[a] == sh[a] && nsh[b] == sh[b]);
                } else if a < sh.len() {
                    assert(nsh[a] == sh[a]);
                } else {
                    assert(nsh[b] == sh[b]);
                }
            } else {
                if a != i && b != i {
                    assert(nsh[a] == sh[a] && nsh[b] == sh[b]);
                } else if a == i {
                    assert(nsh[b] == sh[b]);
                } else {
                    assert(nsh[a] == sh[a]);
                }
            }
        }
    }
    assert forall|a: int| 0 <= a < nsh.len() implies shard_of(#[trigger] nsh[a].0, n) == s && data_wf(
        nsh[a].1.data,
    ) by {
        if !((i < 0 && a == sh.len()) || a == i) {
            assert(nsh[a] == sh[a]);
        }
    }
    lemma_wf_shard_update(o, s, nsh, o.memory);
    let m = o.put(key, e);
    assert(m == DbModel { shards: o.shards.update(s, nsh), memory: o.memory, ..o });
    lemma_key_index(nsh, key, if i < 0 {
        sh.len() as int
    } else {
        i
    });
    if k != key {
        let sk = o.shard_for(k);
        if sk != s {
            assert(m.shards[sk] == o.shards[sk]);
        } else {
            lemma_key_index(sh, k, -1);
            let ik = key_index(sh, k);
            lemma_key_index(nsh, k, ik);
            if ik < 0 {
                assert forall|j: int| 0 <= j < nsh.len() implies nsh[j].0 != k by {
                    if !((i < 0 && j == sh.len()) || j == i) {
                        assert(nsh[j] == sh[j]);
                    }
                }
            } else {
                assert(nsh[ik] == sh[ik]);
            }
        }
    }
}

/// Removing a key keeps the database well formed; afterwards the key holds nothing and
/// every other key holds what it held.
pub proof fn lemma_remove(o: DbModel, key: Seq<u8>, k: Seq<u8>)
    requires
        o.wf(),
    ensures
        o.remove_key(key).wf(),
        o.remove_key(key).lookup(key) is None,
        k != key ==> o.remove_key(key).lookup(k) == o.lookup(k),
        o.remove_key(key).maxmemory == o.maxmemory,
        o.remove_key(key).shards.len() == o.shards.len(),
{
    let s = o.shard_for(key);
    let i = o.index_for(key);
    let n = o.shards.len() as int;
    let sh = o.shards[s];
    assert(0 <= s < n) by {
        assert((default_hash(key) as usize) as int % n < n);
    }
    lemma_key_index(sh, key, -1);
    if i >= 0 {
        let nsh = sh.remove(i);
        assert(keys_distinct(nsh)) by {
            assert forall|a: int, b: int|
                0 <= a < nsh.len() && 0 <= b < nsh.len() && a != b implies #[trigger] nsh[a].0
                != #[trigger] nsh[b].0 by {
                let oa = if a < i {
                    a
                } else {
                    a + 1
                };
                let ob = if b < i {
                    b
                } else {
                    b + 1
                };
                assert(nsh[a] == sh[oa] && nsh[b] == sh[ob]);
            }
        }
        assert forall|a: int| 0 <= a < nsh.len() implies shard_of(#[trigger] nsh[a].0, n) == s
            && data_wf(nsh[a].1.data) by {
            let oa = if a < i {
                a
            } else {
                a + 1
            };
            assert(nsh[a] == sh[oa]);
            assert(0 <= oa < o.shards[s].len());
            assert(shard_of(o.shards[s][oa].0, n) == s && data_wf(o.shards[s][oa].1.data));
        }
        let mem = wsub(o.memory, entry_size(key, sh[i].1.data));
        lemma_wf_shard_update(o, s, nsh, mem);
        let m = o.remove_key(key);
        assert(m == DbModel { shards: o.shards.update(s, nsh), memory: mem, ..o });
        lemma_key_index(nsh, key, -1);
        assert forall|j: int| 0 <= j < nsh.len() implies nsh[j].0 != key by {
            let oj = if j < i {
                j
            } else {
                j + 1
            };
            assert(nsh[j] == sh[oj]);
        }
        if k != key {
            let sk = o.shard_for(k);
            if sk != s {
                assert(m.shards[sk] == o.shards[sk]);
            } else {
                lemma_key_index(sh, k, -1);
                let ik = key_index(sh, k);
                if ik < 0 {
                    lemma_key_index(nsh, k, -1);
                    assert forall|j: int| 0 <= j < nsh.len() implies nsh[j].0 != k by {
                        let oj = if j < i {
                            j
                        } else {
                            j + 1
                        };
                        assert(nsh[j] == sh[oj]);
                    }
                } else {
                    let nk = if ik < i {
                        ik
                    } else {
                        ik - 1
                    };
                    assert(nsh[nk] == sh[ik]);
                    lemma_key_index(nsh, k, nk);
                }
            }
        }
    }
}

impl Db {
    /// Stores `e` under `key`, which shard `s` does not hold.
    pub(crate) fn store_new(&mut self, s: usize, key: Vec<u8>, e: CacheEntry)
        requires
            old(self).wf(),
            s == old(self)@.shard_for(key@),
            old(self)@.index_for(key@) < 0,
            data_wf(e.data.model()),
        ensures
            final(self).wf(),
            final(self)@ == old(self)@.put(key@, e.model()),
    {
        let ghost old_v = self.shards@[s as int]@;
        let ghost k = key@;
        let ghost em = e.model();
        proof {
            lemma_put(old(self)@, k, em, k);
        }
        self.shards[s].push((key, e));
        proof {
            lemma_shard_model_push(old_v, (self.shards@[s as int]@.last().0, self.shards@[s as int]@.last().1));
            assert(self@.shards =~= old(self)@.put(k, em).shards);
        }
    }

    /// Stores `e` at index `i` of shard `s`, where `key` is.
    pub(crate) fn store_at(&mut self, s: usize, i: usize, Ghost(key): Ghost<Seq<u8>>, e: CacheEntry)
        requires
            old(self).wf(),
            s == old(self)@.shard_for(key),
            i == old(self)@.index_for(key),
            0 <= i,
            data_wf(e.data.model()),
        ensures
            final(self).wf(),
            final(self)@ == old(self)@.put(key, e.model()),
    {
        let ghost em = e.model();
        proof {
            lemma_put(old(self)@, key, em, key);
            lemma_key_index(old(self)@.shards[s as int], key, -1);
        }
        self.shards[s][i].1 = e;
        proof {
            assert(self@.shards[s as int] =~= old(self)@.put(key, em).shards[s as int]);
            assert(self@.shards =~= old(self)@.put(key, em).shards);
        }
    }

    /// Takes the entry at index `i` of shard `s`, where `key` is, leaving an empty
    /// string in its place.
    pub(crate) fn take_at(&mut self, s: usize, i: usize, Ghost(key): Ghost<Seq<u8>>) -> (r: CacheEntry)
        requires
            old(self).wf(),
            s == old(self)@.shard_for(key),
            i == old(self)@.index_for(key),
            0 <= i,
        ensures
            final(self).wf(),
            old(self)@.lookup(key) == Some(r.model()),
            final(self)@ == old(self)@.put(key, placeholder()),
            final(self)@.index_for(key) == i,
            forall|e2: EntryModel|
                data_wf(e2.data) ==> #[trigger] final(self)@.put(key, e2) == old(self)@.put(key, e2),
            data_wf(r.data.model()),
    {
        proof {
            lemma_put(old(self)@, key, placeholder(), key);
            lemma_key_index(old(self)@.shards[s as int], key, -1);
        }
        let mut e = CacheEntry::new(DataType::String(Vec::new()), None, 0);
        std::mem::swap(&mut self.shards[s][i].1, &mut e);
        proof {
            assert(self@.shards[s as int] =~= old(self)@.put(key, placeholder()).shards[s as int]);
            assert(self@.shards =~= old(self)@.put(key, placeholder()).shards);
            assert forall|e2: EntryModel| data_wf(e2.data) implies #[trigger] self@.put(key, e2) == old(self)@.put(key, e2) by {
                lemma_put_put(old(self)@, key, placeholder(), e2);
            }
        }
        e
    }
}

impl Db {
    /// The entry at index `i` of shard `s`.
    pub(crate) fn entry_at(&self, s: usize, i: usize) -> (r: &CacheEntry)
        requires
            self.wf(),
            s < self@.shards.len(),
            i < self@.shards[s as int].len(),
        ensures
            r.model() == self@.shards[s as int][i as int].1,
            data_wf(r.data.model()),
    {
        assert(shard_of(self@.shards[s as int][i as int].0, self@.shards.len() as int) == s);
        &self.shards[s][i].1
    }

    /// The key and entry at index `i` of shard `s`.
    pub(crate) fn slot_at(&self, s: usize, i: usize) -> (r: &(Vec<u8>, CacheEntry))
        requires
            s < self@.shards.len(),
            i < self@.shards[s as int].len(),
        ensures
            r.0@ == self@.shards[s as int][i as int].0,
            r.1.model() == self@.shards[s as int][i as int].1,
    {
        &self.shards[s][i]
    }

    /// The number of shards.
    pub fn num_shards(&self) -> (r: usize)
        ensures
            r == self@.shards.len(),
    {
        self.shards.len()
    }

    /// The number of entries in shard `s`.
    pub fn shard_len(&self, s: usize) -> (r: usize)
        requires
            s < self@.shards.len(),
        ensures
            r == self@.shards[s as int].len(),
    {
        self.shards[s].len()
    }

    /// Sets the memory estimate.
    pub(crate) fn set_memory(&mut self, memory: usize)
        ensures
            final(self)@ == old(self)@.with_memory(memory),
    {
        self.current_memory = memory;
        assert(self@.shards =~= old(self)@.shards);
    }

    /// Drops the entry under `key` where it has expired at `now`, and says where the
    /// key is afterwards.
    pub(crate) fn evict_if_expired(&mut self, key: &[u8], now: u64) -> (r: (usize, Option<usize>))
        requires
            old(self).wf(),
        ensures
            final(self).wf(),
            final(self)@ == old(self)@.drop_expired(key@, now),
            r.0 == final(self)@.shard_for(key@),
            r.0 < final(self)@.shards.len(),
            match r.1 {
                Some(i) => {
                    &&& i == final(self)@.index_for(key@)
                    &&& i < final(self)@.shards[r.0 as int].len()
                    &&& final(self)@.lookup(key@) is Some
                    &&& !is_expired(final(self)@.lookup(key@).unwrap(), now)
                },
                None => final(self)@.index_for(key@) < 0,
            },
    {
        let (s, idx) = self.locate(key);
        match idx {
            None => (s, None),
            Some(i) => {
                if self.shards[s][i].1.is_expired(now) {
                    self.remove_at(s, i, Ghost(key@));
                    proof {
                        lemma_remove(old(self)@, key@, key@);
                        lemma_key_index(self@.shards[s as int], key@, -1);
                    }
                    (s, None)
                } else {
                    (s, Some(i))
                }
            },
        }
    }
}

/// What `take_at` leaves behind.
pub open spec fn placeholder() -> EntryModel {
    EntryModel { data: DataModel::String(Seq::empty()), expires_at: None, last_accessed: 0 }
}

pub proof fn lemma_put_put(o: DbModel, key: Seq<u8>, e1: EntryModel, e2: EntryModel)
    requires
        o.wf(),
        o.lookup(key) is Some,
        data_wf(e1.data),
    ensures
        o.put(key, e1).put(key, e2) == o.put(key, e2),
{
    let s = o.shard_for(key);
    lemma_key_index(o.shards[s], key, -1);
    let i = o.index_for(key);
    let m1 = o.put(key, e1);
    assert(m1.shards[s] == o.shards[s].update(i, (key, e1)));
    lemma_key_index(o.shards[s], key, -1);
    lemma_put(o, key, e1, key);
    lemma_key_index(m1.shards[s], key, i);
    assert(m1.shards[s][i].0 == key);
    assert(m1.shard_for(key) == s);
    assert(m1.index_for(key) == i);
    assert(m1.shards[s].update(i, (key, e2)) =~= o.shards[s].update(i, (key, e2)));
    assert(m1.put(key, e2).shards =~= o.put(key, e2).shards);
}

// ---------------------------------------------------------------------------
// What the operations do to the model
// ---------------------------------------------------------------------------
impl DbModel {
    /// GET at `now`: an expired key is dropped and reads as absent; a live one is
    /// marked used, and answers with its string or a type error.
    pub open spec fn get_op(self, key: Seq<u8>, now: u64) -> (DbModel, Result<Option<Seq<u8>>, ()>) {
        match self.lookup(key) {
            None => (self, Ok(None)),
            Some(e) => if is_expired(e, now) {
                (self.remove_key(key), Ok(None))
            } else {
                (
                    self.touch(key, now),
                    match e.data {
                        DataModel::String(b) => Ok(Some(b)),
                        _ => Err(()),
                    },
                )
            },
        }
    }

    /// Stores the string `value` under `key` (replacing whatever it held), with the
    /// memory estimate moved from the old entry's size to the new one's.
    pub open spec fn store_string(
        self,
        key: Seq<u8>,
        value: Seq<u8>,
        expires_at: Option<u64>,
        now: u64,
    ) -> DbModel {
        let e = EntryModel { data: DataModel::String(value), expires_at, last_accessed: now };
        let new_size = entry_size(key, e.data);
        let memory = match self.lookup(key) {
            Some(o) => wadd(wsub(self.memory, entry_size(key, o.data)), new_size),
            None => wadd(self.memory, new_size),
        };
        self.put(key, e).with_memory(memory)
    }

    /// DEL of `keys`, one after another: the database after, and how many were there.
    pub open spec fn del_op(self, keys: Seq<Seq<u8>>) -> (DbModel, nat)
        decreases keys.len(),
    {
        if keys.len() == 0 {
            (self, 0)
        } else {
            let (m, n) = self.del_op(keys.drop_last());
            (m.remove_key(keys.last()), if m.lookup(keys.last()) is Some {
                n + 1
            } else {
                n
            })
        }
    }

    /// EXPIRE at `now`: a live key gets the expiry `now + duration` (saturating) and
    /// answers true; an expired key is dropped; an absent one answers false.
    pub open spec fn expire_op(self, key: Seq<u8>, duration_ms: u64, now: u64) -> (DbModel, bool) {
        match self.lookup(key) {
            None => (self, false),
            Some(e) => if is_expired(e, now) {
                (self.remove_key(key), false)
            } else {
                let at = if now + duration_ms > u64::MAX {
                    u64::MAX
                } else {
                    (now + duration_ms) as u64
                };
                (self.put(key, EntryModel { expires_at: Some(at), ..e }), true)
            },
        }
    }

    /// The remaining time to live of `key` at `now`, in milliseconds: -2 for a key that
    /// is absent or expired, -1 for one without expiry.
    pub open spec fn pttl_op(self, key: Seq<u8>, now: u64) -> int {
        match self.lookup(key) {
            None => -2,
            Some(e) => match e.expires_at {
                None => -1,
                Some(x) => if now >= x {
                    -2
                } else {
                    (((x - now) as u64) as i64) as int
                },
            },
        }
    }

    /// The same in whole seconds (rounded down).
    pub open spec fn ttl_op(self, key: Seq<u8>, now: u64) -> int {
        match self.lookup(key) {
            None => -2,
            Some(e) => match e.expires_at {
                None => -1,
                Some(x) => if now >= x {
                    -2
                } else {
                    (x - now) / 1000
                },
            },
        }
    }
}

/// An exec result and its model agree (a string or nothing, or the type error).
pub open spec fn agrees_opt_bytes(
    r: Result<Option<Vec<u8>>, String>,
    s: Result<Option<Seq<u8>>, ()>,
) -> bool {
    match (r, s) {
        (Ok(None), Ok(None)) => true,
        (Ok(Some(v)), Ok(Some(b))) => v@ == b,
        (Err(msg), Err(())) => msg@ == wrong_type(),
        _ => false,
    }
}

pub proof fn lemma_wrap_replace(m: usize, o: usize, n: usize)
    ensures
        n > o ==> wadd(m, (n - o) as usize) == wadd(wsub(m, o), n),
        n <= o ==> wsub(m, (o - n) as usize) == wadd(wsub(m, o), n),
{
}

pub(crate) fn wrong_type_error() -> (r: String)
    ensures
        r@ == wrong_type(),
{
    WRONG_TYPE_ERR.to_owned()
}

impl Db {
    /// The memory limit in bytes (0 for none).
    pub fn maxmemory(&self) -> (r: usize)
        ensures
            r == self@.maxmemory,
    {
        self.maxmemory
    }

    /// The current memory estimate.
    pub fn current_memory(&self) -> (r: usize)
        ensures
            r == self@.memory,
    {
        self.current_memory
    }

    /// GET at `now`.
    pub fn get_at(&mut self, key: &[u8], now: u64) -> (r: Result<Option<Vec<u8>>, String>)
        requires
            old(self).wf(),
        ensures
            final(self).wf(),
            final(self)@ == old(self)@.get_op(key@, now).0,
            agrees_opt_bytes(r, old(self)@.get_op(key@, now).1),
    {
        let (s, idx) = self.locate(key);
        match idx {
            None => Ok(None),
            Some(i) => {
                if self.shards[s][i].1.is_expired(now) {
                    self.remove_at(s, i, Ghost(key@));
                    return Ok(None);
                }
                let res = match &self.shards[s][i].1.data {
                    DataType::String(b) => Ok(Some(copy_bytes(b.as_slice()))),
                    _ => Err(wrong_type_error()),
                };
                self.touch_at(s, i, Ghost(key@), now);
                res
            },
        }
    }

    /// GET: the string under `key` (nothing for an absent or expired key, which is
    /// dropped), or the type error for another kind of value.
    pub fn get(&mut self, key: &[u8]) -> (r: Result<Option<Vec<u8>>, String>)
        requires
            old(self).wf(),
        ensures
            final(self).wf(),
            exists|now: u64|
                final(self)@ == old(self)@.get_op(key@, now).0 && agrees_opt_bytes(
                    r,
                    old(self)@.get_op(key@, now).1,
                ),
    {
        let now = self.now_millis();
        self.get_at(key, now)
    }

    /// Stores the string `value` under `key`, without making room first.
    fn store_string(&mut self, key: Vec<u8>, value: Vec<u8>, expires_at: Option<u64>, now: u64)
        requires
            old(self).wf(),
        ensures
            final(self).wf(),
            final(self)@ == old(self)@.store_string(key@, value@, expires_at, now),
    {
        let ghost k = key@;
        let ghost v = value@;
        let new_entry = CacheEntry::new(DataType::String(value), expires_at, now);
        let new_size = new_entry.size_bytes(key.as_slice());
        let (s, idx) = self.locate(key.as_slice());
        proof {
            lemma_put(self@, k, new_entry.model(), k);
        }
        match idx {
            Some(i) => {
                let old_size = self.shards[s][i].1.size_bytes(key.as_slice());
                self.store_at(s, i, Ghost(k), new_entry);
                proof {
                    lemma_wrap_replace(old(self)@.memory, old_size, new_size);
                }
                if new_size > old_size {
                    self.current_memory = self.current_memory.wrapping_add(new_size - old_size);
                } else {
                    self.current_memory = self.current_memory.wrapping_sub(old_size - new_size);
                }
            },
            None => {
                self.store_new(s, key, new_entry);
                self.current_memory = self.current_memory.wrapping_add(new_size);
            },
        }
        assert(self@ == old(self)@.store_string(k, v, expires_at, now));
    }
}

// ---------------------------------------------------------------------------
// Eviction
// ---------------------------------------------------------------------------
/// The number of keys over all shards.
pub open spec fn count_keys(shards: Seq<ShardModel>) -> nat
    decreases shards.len(),
{
    if shards.len() == 0 {
        0
    } else {
        count_keys(shards.drop_last()) + shards.last().len()
    }
}

pub proof fn lemma_count_update(shards: Seq<ShardModel>, s: int, x: ShardModel)
    requires
        0 <= s < shards.len(),
    ensures
        count_keys(shards.update(s, x)) == count_keys(shards) - shards[s].len() + x.len(),
    decreases shards.len(),
{
    let u = shards.update(s, x);
    if s == shards.len() - 1 {
        assert(u.drop_last() =~= shards.drop_last());
    } else {
        assert(u.drop_last() =~= shards.drop_last().update(s, x));
        lemma_count_update(shards.drop_last(), s, x);
    }
}

pub proof fn lemma_remove_all_wf(o: DbModel, keys: Seq<Seq<u8>>)
    requires
        o.wf(),
    ensures
        o.remove_all(keys).wf(),
        o.remove_all(keys).maxmemory == o.maxmemory,
        o.remove_all(keys).shards.len() == o.shards.len(),
    decreases keys.len(),
{
    if keys.len() > 0 {
        lemma_remove_all_wf(o, keys.drop_last());
        lemma_remove(o.remove_all(keys.drop_last()), keys.last(), keys.last());
    }
}

/// The entry at index `i` of shard `s` is found under its own key.
pub proof fn lemma_slot_key(m: DbModel, s: int, i: int)
    requires
        m.wf(),
        0 <= s < m.shards.len(),
        0 <= i < m.shards[s].len(),
    ensures
        m.shard_for(m.shards[s][i].0) == s,
        m.index_for(m.shards[s][i].0) == i,
        m.lookup(m.shards[s][i].0) == Some(m.shards[s][i].1),
{
    lemma_key_index(m.shards[s], m.shards[s][i].0, i);
}

/// The sampled slot with the oldest use (the first of equals), among those used
/// before `u64::MAX`.
pub open spec fn lru_choice(m: DbModel, picks: Seq<(usize, usize)>) -> Option<(usize, usize)>
    decreases picks.len(),
{
    if picks.len() == 0 {
        None
    } else {
        let prev = lru_choice(m, picks.drop_last());
        let (s, i) = picks.last();
        if m.shards[s as int][i as int].1.last_accessed < choice_time(m, prev) {
            Some((s, i))
        } else {
            prev
        }
    }
}

pub open spec fn choice_time(m: DbModel, c: Option<(usize, usize)>) -> u64 {
    match c {
        None => u64::MAX,
        Some((s, i)) => m.shards[s as int][i as int].1.last_accessed,
    }
}

pub open spec fn valid_picks(m: DbModel, picks: Seq<(usize, usize)>) -> bool {
    forall|j: int|
        0 <= j < picks.len() ==> (#[trigger] picks[j]).0 < m.shards.len() && picks[j].1
            < m.shards[picks[j].0 as int].len()
}

/// `keys` were evicted one after another from `m` to make room for `needed` bytes:
/// each while the estimate plus `needed` was over the (non-zero) limit, and each a key
/// that was there.
pub open spec fn evicted_for(m: DbModel, keys: Seq<Seq<u8>>, needed: usize) -> bool {
    forall|j: int|
        0 <= j < keys.len() ==> {
            let mj = m.remove_all(#[trigger] keys.take(j));
            &&& mj.memory + needed > m.maxmemory
            &&& m.maxmemory > 0
            &&& mj.lookup(keys[j]) is Some
        }
}

/// Eviction for `needed` bytes has stopped where it must: there is no limit, the entry
/// fits, or a sampling round can find no candidate (a shard is empty, or an entry was
/// last used at `u64::MAX`).
pub open spec fn eviction_done(m: DbModel, needed: usize) -> bool {
    m.maxmemory == 0 || m.memory + needed <= m.maxmemory || !all_shards_hold_keys(m)
        || !all_used_before_end(m)
}

/// Every shard holds at least one entry.
pub open spec fn all_shards_hold_keys(m: DbModel) -> bool {
    forall|s: int| 0 <= s < m.shards.len() ==> #[trigger] m.shards[s].len() > 0
}

/// Every entry was last used before the end of time (`u64::MAX`), so that sampling it
/// makes it a candidate for eviction.
pub open spec fn all_used_before_end(m: DbModel) -> bool {
    forall|s: int, i: int|
        0 <= s < m.shards.len() && 0 <= i < m.shards[s].len() ==> #[trigger] m.shards[s][i].1.last_accessed
            < u64::MAX
}

pub proof fn lemma_lru_choice_valid(m: DbModel, picks: Seq<(usize, usize)>)
    requires
        valid_picks(m, picks),
    ensures
        lru_choice(m, picks) matches Some((s, i)) ==> s < m.shards.len() && i < m.shards[s as int].len(),
    decreases picks.len(),
{
    if picks.len() > 0 {
        assert(valid_picks(m, picks.drop_last())) by {
            assert forall|j: int| 0 <= j < picks.drop_last().len() implies (#[trigger] picks.drop_last()[j]).0 < m.shards.len()
                && picks.drop_last()[j].1 < m.shards[picks.drop_last()[j].0 as int].len() by {
                assert(picks.drop_last()[j] == picks[j]);
            }
        }
        lemma_lru_choice_valid(m, picks.drop_last());
        assert(picks.last() == picks[picks.len() - 1]);
    }
}

impl Db {
    /// Evicts, among the sampled slots (shard, index), the one used longest ago.
    pub fn evict_lru_with(&mut self, picks: &Vec<(usize, usize)>) -> (r: bool)
        requires
            old(self).wf(),
            valid_picks(old(self)@, picks@),
        ensures
            final(self).wf(),
            match lru_choice(old(self)@, picks@) {
                Some((s, i)) => r && final(self)@ == old(self)@.remove_key(
                    old(self)@.shards[s as int][i as int].0,
                ),
                None => !r && final(self)@ == old(self)@,
            },
    {
        let mut best: Option<(usize, usize)> = None;
        let mut oldest_time: u64 = u64::MAX;
        let mut j: usize = 0;
        while j < picks.len()
            invariant
                j <= picks@.len(),
                self.wf(),
                valid_picks(self@, picks@),
                best == lru_choice(self@, picks@.take(j as int)),
                oldest_time == choice_time(self@, best),
            decreases picks@.len() - j,
        {
            assert(picks@.take(j + 1).drop_last() =~= picks@.take(j as int));
            assert(picks@.take(j + 1).last() == picks@[j as int]);
            let (s, i) = picks[j];
            let t = self.shards[s][i].1.last_accessed;
            assert(t == self@.shards[s as int][i as int].1.last_accessed);
            if t < oldest_time {
                oldest_time = t;
                best = Some((s, i));
            }
            j = j + 1;
        }
        assert(picks@.take(j as int) =~= picks@);
        match best {
            Some((s, i)) => {
                proof {
                    lemma_lru_choice_valid(self@, picks@);
                    lemma_slot_key(self@, s as int, i as int);
                }
                let ghost key = self@.shards[s as int][i as int].0;
                self.remove_at(s, i, Ghost(key));
                true
            },
            None => false,
        }
    }

    /// Approximated LRU eviction: samples `sample_size` slots at random (a random
    /// shard, then a random entry of it where it has one) and evicts the one used
    /// longest ago. True where a key was evicted.
    pub fn evict_lru_step(&mut self, sample_size: usize) -> (r: bool)
        requires
            old(self).wf(),
        ensures
            final(self).wf(),
            r ==> exists|k: Seq<u8>| old(self)@.lookup(k) is Some && final(self)@ == old(self)@.remove_key(k),
            !r ==> final(self)@ == old(self)@,
            sample_size > 0 && all_shards_hold_keys(old(self)@) && all_used_before_end(old(self)@) ==> r,
            exists|picks: Seq<(usize, usize)>|
                {
                    &&& picks.len() <= sample_size
                    &&& all_shards_hold_keys(old(self)@) ==> picks.len() == sample_size
                    &&& valid_picks(old(self)@, picks)
                    &&& match lru_choice(old(self)@, picks) {
                        Some((s, i)) => r && final(self)@ == old(self)@.remove_key(
                            old(self)@.shards[s as int][i as int].0,
                        ),
                        None => !r && final(self)@ == old(self)@,
                    }
                },
    {
        let n = self.shards.len();
        let mut picks: Vec<(usize, usize)> = Vec::new();
        let mut c: usize = 0;
        while c < sample_size
            invariant
                c <= sample_size,
                picks@.len() <= c,
                all_shards_hold_keys(self@) ==> picks@.len() == c,
                n == self@.shards.len(),
                self.wf(),
                valid_picks(self@, picks@),
            decreases sample_size - c,
        {
            let s = random_below(n);
            let len = self.shards[s].len();
            proof {
                if all_shards_hold_keys(self@) {
                    assert(self@.shards[s as int].len() > 0);
                    assert(self@.shards[s as int].len() == len);
                }
            }
            if len > 0 {
                let i = random_below(len);
                picks.push((s, i));
                assert(valid_picks(self@, picks@)) by {
                    assert forall|j: int| 0 <= j < picks@.len() implies (#[trigger] picks@[j]).0 < self@.shards.len()
                        && picks@[j].1 < self@.shards[picks@[j].0 as int].len() by {
                        if j < picks@.len() - 1 {
                            assert(picks@[j] == picks@.drop_last()[j]);
                        }
                    }
                }
            }
            c = c + 1;
        }
        proof {
            lemma_lru_choice_valid(self@, picks@);
            if let Some((s, i)) = lru_choice(self@, picks@) {
                lemma_slot_key(self@, s as int, i as int);
            }
            if picks@.len() > 0 && all_used_before_end(self@) {
                let (s, i) = picks@.last();
                assert(picks@.last() == picks@[picks@.len() - 1]);
                assert(self@.shards[s as int][i as int].1.last_accessed < u64::MAX);
            }
        }
        self.evict_lru_with(&picks)
    }

    /// Evicts until `needed_bytes` more fit under the memory limit, or a sampling round
    /// evicts nothing; nothing where there is no limit.
    fn ensure_capacity(&mut self, needed_bytes: usize)
        requires
            old(self).wf(),
        ensures
            final(self).wf(),
            exists|keys: Seq<Seq<u8>>|
                {
                    &&& final(self)@ == old(self)@.remove_all(keys)
                    &&& evicted_for(old(self)@, keys, needed_bytes)
                    &&& eviction_done(final(self)@, needed_bytes)
                },
            old(self)@.maxmemory == 0 ==> final(self)@ == old(self)@,
    {
        let ghost mut removed: Seq<Seq<u8>> = Seq::empty();
        assert(old(self)@.remove_all(removed) == old(self)@);
        if self.maxmemory > 0 {
            loop
                invariant_except_break
                    self.wf(),
                    self@ == old(self)@.remove_all(removed),
                    self@.maxmemory == old(self)@.maxmemory,
                    self.maxmemory > 0,
                    evicted_for(old(self)@, removed, needed_bytes),
                ensures
                    self.wf(),
                    self@ == old(self)@.remove_all(removed),
                    evicted_for(old(self)@, removed, needed_bytes),
                    eviction_done(self@, needed_bytes),
                decreases count_keys(self@.shards),
            {
                if (self.current_memory as u128) + (needed_bytes as u128) <= (self.maxmemory as u128) {
                    break;
                }
                let ghost before = self@;
                if !self.evict_lru_step(DEFAULT_LRU_SAMPLE_SIZE) {
                    break;
                }
                proof {
                    let k = choose|k: Seq<u8>| before.lookup(k) is Some && self@ == before.remove_key(k);
                    let r2 = removed.push(k);
                    assert(r2.drop_last() == removed);
                    assert forall|j: int| 0 <= j < r2.len() implies {
                        let mj = old(self)@.remove_all(#[trigger] r2.take(j));
                        &&& mj.memory + needed_bytes > old(self)@.maxmemory
                        &&& old(self)@.maxmemory > 0
                        &&& mj.lookup(r2[j]) is Some
                    } by {
                        if j < removed.len() {
                            assert(r2.take(j) == removed.take(j));
                            assert(r2[j] == removed[j]);
                            assert(removed.take(j) == removed.take(j));
                        } else {
                            assert(r2.take(j) == removed);
                        }
                    }
                    removed = r2;
                    let s = before.shard_for(k);
                    lemma_key_index(before.shards[s], k, -1);
                    lemma_count_update(before.shards, s, before.shards[s].remove(before.index_for(k)));
                }
            }
        } else {
            assert(evicted_for(old(self)@, removed, needed_bytes));
        }
    }

    /// SET at `now`: makes room under the memory limit (evicting sampled keys), then
    /// stores the string.
    pub fn set_at(&mut self, key: Vec<u8>, value: Vec<u8>, expires_at: Option<u64>, now: u64)
        requires
            old(self).wf(),
        ensures
            final(self).wf(),
            exists|evicted: Seq<Seq<u8>>|
                {
                    &&& final(self)@ == old(self)@.remove_all(evicted).store_string(
                        key@,
                        value@,
                        expires_at,
                        now,
                    )
                    &&& evicted_for(old(self)@, evicted, entry_size(key@, DataModel::String(value@)))
                    &&& eviction_done(
                        old(self)@.remove_all(evicted),
                        entry_size(key@, DataModel::String(value@)),
                    )
                },
            old(self)@.maxmemory == 0 ==> final(self)@ == old(self)@.store_string(
                key@,
                value@,
                expires_at,
                now,
            ),
    {
        let new_entry_size = key.len().wrapping_add(value.len()).wrapping_add(
            ESTIMATED_ENTRY_OVERHEAD,
        );
        self.ensure_capacity(new_entry_size);
        self.store_string(key, value, expires_at, now);
    }

    /// SET: stores the string `value` under `key` with the absolute expiry `expires_at`
    /// (milliseconds since the database was created), after making room.
    pub fn set(&mut self, key: Vec<u8>, value: Vec<u8>, expires_at: Option<u64>)
        requires
            old(self).wf(),
        ensures
            final(self).wf(),
            exists|evicted: Seq<Seq<u8>>, now: u64|
                {
                    &&& final(self)@ == old(self)@.remove_all(evicted).store_string(
                        key@,
                        value@,
                        expires_at,
                        now,
                    )
                    &&& evicted_for(old(self)@, evicted, entry_size(key@, DataModel::String(value@)))
                    &&& eviction_done(
                        old(self)@.remove_all(evicted),
                        entry_size(key@, DataModel::String(value@)),
                    )
                },
            old(self)@.maxmemory == 0 ==> exists|now: u64|
                final(self)@ == old(self)@.store_string(key@, value@, expires_at, now),
    {
        let now = self.now_millis();
        self.set_at(key, value, expires_at, now);
    }
}

impl Db {
    /// DEL: removes each of `keys` (expired or not) and counts those that were there.
    pub fn del(&mut self, keys: &[Vec<u8>]) -> (r: usize)
        requires
            old(self).wf(),
        ensures
            final(self).wf(),
            final(self)@ == old(self)@.del_op(byte_seqs(keys@)).0,
            r == old(self)@.del_op(byte_seqs(keys@)).1,
    {
        let mut removed: usize = 0;
        let mut j: usize = 0;
        while j < keys.len()
            invariant
                j <= keys@.len(),
                removed <= j,
                self.wf(),
                (self@, removed as nat) == old(self)@.del_op(byte_seqs(keys@).take(j as int)),
            decreases keys@.len() - j,
        {
            let key = keys[j].as_slice();
            assert(byte_seqs(keys@).take(j + 1).drop_last() =~= byte_seqs(keys@).take(j as int));
            assert(byte_seqs(keys@).take(j + 1).last() == key@);
            let (s, idx) = self.locate(key);
            match idx {
                Some(i) => {
                    self.remove_at(s, i, Ghost(key@));
                    removed = removed + 1;
                },
                None => {},
            }
            j = j + 1;
        }
        assert(byte_seqs(keys@).take(j as int) =~= byte_seqs(keys@));
        removed
    }

    /// EXPIRE at `now`.
    pub fn expire_at(&mut self, key: &[u8], duration_ms: u64, now: u64) -> (r: bool)
        requires
            old(self).wf(),
        ensures
            final(self).wf(),
            (final(self)@, r) == old(self)@.expire_op(key@, duration_ms, now),
    {
        let (s, idx) = self.locate(key);
        match idx {
            None => false,
            Some(i) => {
                if self.shards[s][i].1.is_expired(now) {
                    self.remove_at(s, i, Ghost(key@));
                    return false;
                }
                let ghost before = self@;
                let ghost e = before.lookup(key@).unwrap();
                proof {
                    lemma_key_index(before.shards[s as int], key@, -1);
                    lemma_put(before, key@, EntryModel { expires_at: Some(now.saturating_add(duration_ms)), ..e }, key@);
                }
                self.shards[s][i].1.expires_at = Some(now.saturating_add(duration_ms));
                proof {
                    let e2 = EntryModel { expires_at: Some(now.saturating_add(duration_ms)), ..e };
                    assert(self@.shards[s as int] =~= before.put(key@, e2).shards[s as int]);
                    assert(self@.shards =~= before.put(key@, e2).shards);
                }
                true
            },
        }
    }

    /// EXPIRE: gives a live key the expiry `duration_ms` from now (true), drops an
    /// expired one, and answers false for an absent or expired key.
    pub fn expire(&mut self, key: &[u8], duration_ms: u64) -> (r: bool)
        requires
            old(self).wf(),
        ensures
            final(self).wf(),
            exists|now: u64| (final(self)@, r) == old(self)@.expire_op(key@, duration_ms, now),
    {
        let now = self.now_millis();
        self.expire_at(key, duration_ms, now)
    }

    /// PTTL at `now`.
    pub fn pttl_at(&self, key: &[u8], now: u64) -> (r: i64)
        requires
            self.wf(),
        ensures
            r == self@.pttl_op(key@, now),
    {
        let (s, idx) = self.locate(key);
        match idx {
            None => -2,
            Some(i) => match self.shards[s][i].1.expires_at {
                None => -1,
                Some(exp) => {
                    if now >= exp {
                        -2
                    } else {
                        (exp - now) as i64
                    }
                },
            },
        }
    }

    /// TTL at `now`.
    pub fn ttl_at(&self, key: &[u8], now: u64) -> (r: i64)
        requires
            self.wf(),
        ensures
            r == self@.ttl_op(key@, now),
    {
        let (s, idx) = self.locate(key);
        match idx {
            None => -2,
            Some(i) => match self.shards[s][i].1.expires_at {
                None => -1,
                Some(exp) => {
                    if now >= exp {
                        -2
                    } else {
                        ((exp - now) / 1000) as i64
                    }
                },
            },
        }
    }

    /// TTL: the remaining time to live of `key` in seconds (-2 absent or expired, -1
    /// without expiry).
    pub fn ttl(&self, key: &[u8]) -> (r: i64)
        requires
            self.wf(),
        ensures
            exists|now: u64| r == self@.ttl_op(key@, now),
    {
        self.ttl_at(key, self.now_millis())
    }

    /// PTTL: the same in milliseconds.
    pub fn pttl(&self, key: &[u8]) -> (r: i64)
        requires
            self.wf(),
        ensures
            exists|now: u64| r == self@.pttl_op(key@, now),
    {
        self.pttl_at(key, self.now_millis())
    }

    /// The number of keys (expired ones included), saturating at `usize::MAX`.
    pub fn len(&self) -> (r: usize)
        requires
            self.wf(),
        ensures
            r == if count_keys(self@.shards) > usize::MAX {
                usize::MAX as nat
            } else {
                count_keys(self@.shards)
            },
    {
        let mut total: usize = 0;
        let mut s: usize = 0;
        while s < self.shards.len()
            invariant
                s <= self@.shards.len(),
                total == if count_keys(self@.shards.take(s as int)) > usize::MAX {
                    usize::MAX as nat
                } else {
                    count_keys(self@.shards.take(s as int))
                },
            decreases self@.shards.len() - s,
        {
            assert(self@.shards.take(s + 1).drop_last() =~= self@.shards.take(s as int));
            total = total.saturating_add(self.shards[s].len());
            s = s + 1;
        }
        assert(self@.shards.take(s as int) =~= self@.shards);
        total
    }

    /// No keys at all.
    pub fn is_empty(&self) -> (r: bool)
        requires
            self.wf(),
        ensures
            r == (count_keys(self@.shards) == 0),
    {
        self.len() == 0
    }
}


// ---------------------------------------------------------------------------
// The memory limit setting
// ---------------------------------------------------------------------------
/// `s` with its leading and trailing whitespace (Unicode White_Space) removed.
pub open spec fn trim_chars(s: Seq<char>) -> Seq<char>
    decreases s.len(),
{
    if s.len() > 0 && is_white_space(s[0]) {
        trim_chars(s.drop_first())
    } else if s.len() > 0 && is_white_space(s.last()) {
        trim_chars(s.drop_last())
    } else {
        s
    }
}

/// What `str::to_lowercase` gives: the Unicode lower-case mapping of each character.
pub uninterp spec fn lowercase(s: Seq<char>) -> Seq<char>;

/// `s` ends with `suffix`.
pub open spec fn ends_with(s: Seq<char>, suffix: Seq<char>) -> bool {
    suffix.len() <= s.len() && s.subrange(s.len() - suffix.len(), s.len() as int) == suffix
}

/// `str::trim`: the text without leading and trailing whitespace.
#[verifier::external_body]
fn trim_text(s: &str) -> (r: &str)
    ensures
        r@ == trim_chars(s@),
{
    s.trim()
}

/// `str::to_lowercase`, named `lowercase`.
#[verifier::external_body]
fn to_lower(s: &str) -> (r: String)
    ensures
        r@ == lowercase(s@),
{
    s.to_lowercase()
}

/// `str::strip_suffix`: the text before `suffix` where the text ends with it.
#[verifier::external_body]
fn strip_suffix_text<'a>(s: &'a str, suffix: &str) -> (r: Option<&'a str>)
    ensures
        match r {
            Some(p) => s@ == p@ + suffix@,
            None => !ends_with(s@, suffix@),
        },
{
    s.strip_suffix(suffix)
}

/// The value `n` (if any) times `factor`, wrapping past `usize::MAX`.
pub open spec fn scaled(n: Option<usize>, factor: usize) -> Option<usize> {
    match n {
        Some(v) => Some(vstd::wrapping::usize_specs::wrapping_mul(v, factor)),
        None => None,
    }
}

/// The number in a memory limit setting with the unit suffix of `factor` removed.
pub open spec fn unit_value(t: Seq<char>, factor: usize) -> Option<usize> {
    scaled(parse_usize_text(encode_utf8(trim_chars(t.subrange(0, t.len() - 2)))), factor)
}

/// A memory limit setting: a byte count, or a count with the suffix `gb`, `mb` or `kb`
/// (any case, whitespace around the number allowed).
pub open spec fn memory_limit_value(s: Seq<char>) -> Option<usize> {
    let t = lowercase(trim_chars(s));
    if ends_with(t, seq!['g', 'b']) {
        unit_value(t, 1073741824)
    } else if ends_with(t, seq!['m', 'b']) {
        unit_value(t, 1048576)
    } else if ends_with(t, seq!['k', 'b']) {
        unit_value(t, 1024)
    } else {
        parse_usize_text(encode_utf8(t))
    }
}

fn unit_number(num: &str, factor: usize) -> (r: Option<usize>)
    ensures
        r == scaled(parse_usize_text(encode_utf8(trim_chars(num@))), factor),
{
    let n = trim_text(num);
    match parse_usize_all(n.as_bytes()) {
        Some(v) => Some(v.wrapping_mul(factor)),
        None => None,
    }
}

/// Parses a memory limit setting such as `512mb`, `2GB`, `100kb` or `1048576`
/// (bytes); `None` where it is not one.
pub fn parse_memory_limit(s: &str) -> (r: Option<usize>)
    ensures
        r == memory_limit_value(s@),
{
    let trimmed = trim_text(s);
    let lower = to_lower(trimmed);
    let l = lower.as_str();
    let ghost t = l@;
    proof {
        reveal_strlit("gb");
        reveal_strlit("mb");
        reveal_strlit("kb");
        assert("gb"@ =~= seq!['g', 'b']);
        assert("mb"@ =~= seq!['m', 'b']);
        assert("kb"@ =~= seq!['k', 'b']);
    }
    match strip_suffix_text(l, "gb") {
        Some(num) => {
            assert(t.subrange(t.len() - 2, t.len() as int) =~= seq!['g', 'b']);
            assert(ends_with(t, seq!['g', 'b']));
            assert(num@ =~= t.subrange(0, t.len() - 2));
            return unit_number(num, 1073741824);
        },
        None => {},
    }
    assert(!ends_with(t, seq!['g', 'b']));
    match strip_suffix_text(l, "mb") {
        Some(num) => {
            assert(t.subrange(t.len() - 2, t.len() as int) =~= seq!['m', 'b']);
            assert(ends_with(t, seq!['m', 'b']));
            assert(num@ =~= t.subrange(0, t.len() - 2));
            return unit_number(num, 1048576);
        },
        None => {},
    }
    assert(!ends_with(t, seq!['m', 'b']));
    match strip_suffix_text(l, "kb") {
        Some(num) => {
            assert(t.subrange(t.len() - 2, t.len() as int) =~= seq!['k', 'b']);
            assert(ends_with(t, seq!['k', 'b']));
            assert(num@ =~= t.subrange(0, t.len() - 2));
            return unit_number(num, 1024);
        },
        None => {},
    }
    assert(!ends_with(t, seq!['k', 'b']));
    parse_usize_all(l.as_bytes())
}

} // verus!
