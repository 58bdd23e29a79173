//! Walking the keyspace: KEYS, SCAN and the active expiry sweep.
use crate::db::{
    bytes_eq, byte_seqs, copy_bytes, is_expired, lemma_remove, lemma_remove_all_wf, lemma_slot_key,
    random_below, DataModel, Db, DbModel, EntryModel, ShardModel,
};
use crate::glob::{glob_match, glob_matches, law_star_matches_all};
use vstd::prelude::*;
use vstd::string::StringSliceAdditionalSpecFns;

verus! {

/// The live keys of a shard that match the pattern, in order.
pub open spec fn shard_keys(shard: ShardModel, pattern: Seq<u8>, now: u64) -> Seq<Seq<u8>>
    decreases shard.len(),
{
    if shard.len() == 0 {
        Seq::empty()
    } else {
        let rest = shard_keys(shard.drop_last(), pattern, now);
        let (k, e) = shard.last();
        if !is_expired(e, now) && glob_matches(pattern, k) {
            rest.push(k)
        } else {
            rest
        }
    }
}

/// The live keys of all shards that match the pattern, shard after shard.
pub open spec fn all_keys(shards: Seq<ShardModel>, pattern: Seq<u8>, now: u64) -> Seq<Seq<u8>>
    decreases shards.len(),
{
    if shards.len() == 0 {
        Seq::empty()
    } else {
        all_keys(shards.drop_last(), pattern, now) + shard_keys(shards.last(), pattern, now)
    }
}

/// The byte strings are equal up to ASCII case.
pub open spec fn ascii_ci_eq(a: Seq<u8>, b: Seq<u8>) -> bool {
    a.len() == b.len() && forall|i: int| 0 <= i < a.len() ==> ascii_lower(a[i]) == ascii_lower(b[i])
}

pub open spec fn ascii_lower(c: u8) -> u8 {
    if 65 <= c <= 90 {
        (c + 32) as u8
    } else {
        c
    }
}

/// The name of a kind of value, as SCAN's TYPE filter spells it.
pub open spec fn kind_name(d: DataModel) -> Seq<u8> {
    match d {
        DataModel::String(_) => seq![115u8, 116, 114, 105, 110, 103],
        DataModel::List(_) => seq![108u8, 105, 115, 116],
        DataModel::Members(_) => seq![115u8, 101, 116],
        DataModel::Hash(_) => seq![104u8, 97, 115, 104],
    }
}

/// The entry passes SCAN's filters: it is live, of the named kind (if one is named)
/// and its key matches the pattern (if one is given).
pub open spec fn scan_hit(
    k: Seq<u8>,
    e: EntryModel,
    pattern: Option<Seq<u8>>,
    type_filter: Option<Seq<u8>>,
    now: u64,
) -> bool {
    &&& !is_expired(e, now)
    &&& match type_filter {
        Some(t) => ascii_ci_eq(t, kind_name(e.data)),
        None => true,
    }
    &&& match pattern {
        Some(p) => glob_matches(p, k),
        None => true,
    }
}

/// SCAN's walk from shard `s`, offset `off`, visiting at most `budget` entries (an
/// offset past the end of a shard moves on to the next one without using the budget):
/// where it stops, and the keys of the visited entries that pass the filters.
pub open spec fn scan_walk(
    shards: Seq<ShardModel>,
    s: int,
    off: int,
    budget: nat,
    pattern: Option<Seq<u8>>,
    type_filter: Option<Seq<u8>>,
    now: u64,
) -> (int, int, Seq<Seq<u8>>)
    decreases budget, shards.len() - s,
{
    if s < 0 || s >= shards.len() || budget == 0 {
        (s, off, Seq::empty())
    } else if off < 0 || off >= shards[s].len() {
        scan_walk(shards, s + 1, 0, budget, pattern, type_filter, now)
    } else {
        let (k, e) = shards[s][off];
        let (s2, o2, rest) = scan_walk(shards, s, off + 1, (budget - 1) as nat, pattern, type_filter, now);
        (s2, o2, if scan_hit(k, e, pattern, type_filter, now) {
            seq![k] + rest
        } else {
            rest
        })
    }
}

/// The cursor for shard `s` and offset `off`.
pub open spec fn make_cursor(s: int, off: int) -> u64 {
    ((s as u64) << 32u64) | (off as u64)
}

/// SCAN at `now`: the cursor holds the shard in its high 32 bits and the offset in
/// its low 32 bits. At most `count` entries (10 where `count` is 0) are visited; the
/// answer is the next cursor (0 once every shard is done) and the matching keys.
pub open spec fn scan_op(
    shards: Seq<ShardModel>,
    cursor: u64,
    pattern: Option<Seq<u8>>,
    count: usize,
    type_filter: Option<Seq<u8>>,
    now: u64,
) -> (u64, Seq<Seq<u8>>) {
    let s0 = (cursor >> 32u64) as int;
    let o0 = (cursor & 0xFFFF_FFFFu64) as int;
    if s0 >= shards.len() {
        (0, Seq::empty())
    } else {
        let budget: nat = if count == 0 {
            10
        } else {
            count as nat
        };
        let (s1, o1, matched) = scan_walk(shards, s0, o0, budget, pattern, type_filter, now);
        let (s2, o2) = if s1 < shards.len() && o1 >= shards[s1].len() {
            (s1 + 1, 0)
        } else {
            (s1, o1)
        };
        (
            if s2 >= shards.len() {
                0
            } else {
                make_cursor(s2, o2)
            },
            matched,
        )
    }
}

/// The keys of the sampled entries of a shard that have expired at `now`, in the
/// order sampled (a key sampled twice is there twice).
pub open spec fn expired_picks(shard: ShardModel, picks: Seq<usize>, now: u64) -> Seq<Seq<u8>>
    decreases picks.len(),
{
    if picks.len() == 0 {
        Seq::empty()
    } else {
        let rest = expired_picks(shard, picks.drop_last(), now);
        let (k, e) = shard[picks.last() as int];
        if is_expired(e, now) {
            rest.push(k)
        } else {
            rest
        }
    }
}

pub open spec fn opt_seq(o: Option<&[u8]>) -> Option<Seq<u8>> {
    match o {
        Some(p) => Some(p@),
        None => None,
    }
}

pub open spec fn opt_str_bytes(o: Option<&str>) -> Option<Seq<u8>> {
    match o {
        Some(t) => Some(t.spec_bytes()),
        None => None,
    }
}

fn is_star(pattern: &[u8]) -> (r: bool)
    ensures
        r == (pattern@ == seq![42u8]),
{
    let star: [u8; 1] = [42u8];
    let r = bytes_eq(pattern, star.as_slice());
    assert(star@ =~= seq![42u8]);
    r
}

/// The live keys of shard `s` that match, appended to `out`.
fn collect_shard_keys(db: &Db, s: usize, pattern: &[u8], match_all: bool, now: u64, out: &mut Vec<Vec<u8>>)
    requires
        s < db@.shards.len(),
        match_all ==> pattern@ == seq![42u8],
    ensures
        byte_seqs(final(out)@) == byte_seqs(old(out)@) + shard_keys(db@.shards[s as int], pattern@, now),
{
    let ghost sh = db@.shards[s as int];
    let ghost start = byte_seqs(out@);
    let n = db.shard_len(s);
    let mut i: usize = 0;
    assert(sh.take(0) =~= Seq::<(Seq<u8>, EntryModel)>::empty());
    assert(start + shard_keys(sh.take(0), pattern@, now) =~= start);
    while i < n
        invariant
            i <= n,
            n == sh.len(),
            sh == db@.shards[s as int],
            s < db@.shards.len(),
            match_all ==> pattern@ == seq![42u8],
            byte_seqs(out@) == start + shard_keys(sh.take(i as int), pattern@, now),
        decreases n - i,
    {
        assert(sh.take(i + 1).drop_last() =~= sh.take(i as int));
        assert(sh.take(i + 1).last() == sh[i as int]);
        let slot = db.slot_at(s, i);
        if !slot.1.is_expired(now) {
            let hit = if match_all {
                proof {
                    law_star_matches_all(slot.0@);
                }
                true
            } else {
                glob_match(pattern, slot.0.as_slice())
            };
            if hit {
                let ghost before = byte_seqs(out@);
                let k = copy_bytes(slot.0.as_slice());
                let ghost kv = k@;
                out.push(k);
                assert(byte_seqs(out@) =~= before.push(kv));
            }
        }
        i = i + 1;
    }
    assert(sh.take(i as int) =~= sh);
}

/// SCAN's filters on an entry.
fn passes_scan(
    key: &[u8],
    entry: &crate::db::CacheEntry,
    pattern: Option<&[u8]>,
    type_filter: Option<&str>,
    now: u64,
) -> (r: bool)
    ensures
        r == scan_hit(key@, entry.model(), opt_seq(pattern), opt_str_bytes(type_filter), now),
{
    if entry.is_expired(now) {
        return false;
    }
    match type_filter {
        Some(tf) => {
            let name = type_name_bytes(&entry.data);
            if !eq_ignore_ascii_case(tf.as_bytes(), name.as_slice()) {
                return false;
            }
        },
        None => {},
    }
    match pattern {
        Some(p) => {
            if is_star(p) {
                proof {
                    law_star_matches_all(key@);
                }
                true
            } else {
                glob_match(p, key)
            }
        },
        None => true,
    }
}

/// The name of the kind of value.
fn type_name_bytes(d: &crate::db::DataType) -> (r: Vec<u8>)
    ensures
        r@ == kind_name(d.model()),
{
    let r = match d {
        crate::db::DataType::String(_) => vec![115u8, 116, 114, 105, 110, 103],
        crate::db::DataType::List(_) => vec![108u8, 105, 115, 116],
        crate::db::DataType::Members(_) => vec![115u8, 101, 116],
        crate::db::DataType::Hash(_) => vec![104u8, 97, 115, 104],
    };
    assert(r@ =~= kind_name(d.model()));
    r
}

/// The two byte strings are equal up to ASCII case.
pub fn eq_ignore_ascii_case(a: &[u8], b: &[u8]) -> (r: bool)
    ensures
        r == ascii_ci_eq(a@, b@),
{
    if a.len() != b.len() {
        return false;
    }
    let mut i: usize = 0;
    while i < a.len()
        invariant
            i <= a@.len(),
            a@.len() == b@.len(),
            forall|j: int| 0 <= j < i ==> ascii_lower(a@[j]) == ascii_lower(b@[j]),
        decreases a@.len() - i,
    {
        let x = if 65 <= a[i] && a[i] <= 90 {
            a[i] + 32
        } else {
            a[i]
        };
        let y = if 65 <= b[i] && b[i] <= 90 {
            b[i] + 32
        } else {
            b[i]
        };
        if x != y {
            return false;
        }
        i = i + 1;
    }
    true
}

/// After removing keys, a key holds nothing or what it held before.
pub proof fn lemma_remove_all_lookup(o: DbModel, keys: Seq<Seq<u8>>, k: Seq<u8>)
    requires
        o.wf(),
    ensures
        o.remove_all(keys).lookup(k) is None || o.remove_all(keys).lookup(k) == o.lookup(k),
    decreases keys.len(),
{
    if keys.len() > 0 {
        lemma_remove_all_lookup(o, keys.drop_last(), k);
        lemma_remove_all_wf(o, keys.drop_last());
        lemma_remove(o.remove_all(keys.drop_last()), keys.last(), k);
    }
}

impl Db {
    /// KEYS at `now`.
    pub fn keys_at(&self, pattern: &[u8], now: u64) -> (r: Vec<Vec<u8>>)
        ensures
            byte_seqs(r@) == all_keys(self@.shards, pattern@, now),
    {
        let match_all = is_star(pattern);
        let mut out: Vec<Vec<u8>> = Vec::new();
        let n = self.num_shards();
        let mut s: usize = 0;
        assert(byte_seqs(out@) =~= all_keys(self@.shards.take(0), pattern@, now));
        while s < n
            invariant
                s <= n,
                n == self@.shards.len(),
                match_all ==> pattern@ == seq![42u8],
                byte_seqs(out@) == all_keys(self@.shards.take(s as int), pattern@, now),
            decreases n - s,
        {
            assert(self@.shards.take(s + 1).drop_last() =~= self@.shards.take(s as int));
            assert(self@.shards.take(s + 1).last() == self@.shards[s as int]);
            collect_shard_keys(self, s, pattern, match_all, now, &mut out);
            s = s + 1;
        }
        assert(self@.shards.take(s as int) =~= self@.shards);
        out
    }

    /// KEYS: every key that has not expired and matches the glob pattern, shard by
    /// shard.
    pub fn keys(&self, pattern: &[u8]) -> (r: Vec<Vec<u8>>)
        ensures
            exists|now: u64| byte_seqs(r@) == all_keys(self@.shards, pattern@, now),
    {
        self.keys_at(pattern, self.now_millis())
    }

    /// SCAN at `now`.
    pub fn scan_at(
        &self,
        cursor: u64,
        pattern: Option<&[u8]>,
        count: usize,
        type_filter: Option<&str>,
        now: u64,
    ) -> (r: (u64, Vec<Vec<u8>>))
        ensures
            (r.0, byte_seqs(r.1@)) == scan_op(
                self@.shards,
                cursor,
                opt_seq(pattern),
                count,
                opt_str_bytes(type_filter),
                now,
            ),
    {
        let ghost sh = self@.shards;
        let ghost pat = opt_seq(pattern);
        let ghost tf = opt_str_bytes(type_filter);
        let n = self.num_shards();
        assert(cursor >> 32u64 <= 0xFFFF_FFFFu64) by (bit_vector);
        assert(cursor & 0xFFFF_FFFFu64 <= 0xFFFF_FFFFu64) by (bit_vector);
        let mut shard_idx = (cursor >> 32u64) as usize;
        let mut offset = (cursor & 0xFFFF_FFFFu64) as usize;
        if shard_idx >= n {
            let none: Vec<Vec<u8>> = Vec::new();
            assert(byte_seqs(none@) =~= Seq::<Seq<u8>>::empty());
            return (0, none);
        }
        let target: usize = if count == 0 {
            10
        } else {
            count
        };
        let ghost walk = scan_walk(sh, shard_idx as int, offset as int, target as nat, pat, tf, now);
        let mut matched: Vec<Vec<u8>> = Vec::new();
        let mut scanned: usize = 0;
        assert(walk.2 =~= byte_seqs(matched@) + walk.2);
        while shard_idx < n && scanned < target
            invariant
                n == sh.len(),
                sh == self@.shards,
                pat == opt_seq(pattern),
                tf == opt_str_bytes(type_filter),
                scanned <= target,
                scan_walk(sh, shard_idx as int, offset as int, (target - scanned) as nat, pat, tf, now).0
                    == walk.0,
                scan_walk(sh, shard_idx as int, offset as int, (target - scanned) as nat, pat, tf, now).1
                    == walk.1,
                walk.2 == byte_seqs(matched@) + scan_walk(
                    sh,
                    shard_idx as int,
                    offset as int,
                    (target - scanned) as nat,
                    pat,
                    tf,
                    now,
                ).2,
            decreases (target - scanned), n - shard_idx,
        {
            let total = self.shard_len(shard_idx);
            if offset >= total {
                shard_idx = shard_idx + 1;
                offset = 0;
            } else {
                let ghost rest = scan_walk(sh, shard_idx as int, offset + 1, (target - scanned - 1) as nat, pat, tf, now);
                let slot = self.slot_at(shard_idx, offset);
                let ghost before = byte_seqs(matched@);
                if passes_scan(slot.0.as_slice(), &slot.1, pattern, type_filter, now) {
                    let k = copy_bytes(slot.0.as_slice());
                    let ghost kv = k@;
                    matched.push(k);
                    assert(byte_seqs(matched@) =~= before.push(kv));
                    assert(before + (seq![kv] + rest.2) =~= byte_seqs(matched@) + rest.2);
                }
                offset = offset + 1;
                scanned = scanned + 1;
            }
        }
        let ghost fin = scan_walk(sh, shard_idx as int, offset as int, (target - scanned) as nat, pat, tf, now);
        assert(fin.2 =~= Seq::<Seq<u8>>::empty());
        assert(byte_seqs(matched@) + fin.2 =~= byte_seqs(matched@));
        if shard_idx < n && offset >= self.shard_len(shard_idx) {
            shard_idx = shard_idx + 1;
            offset = 0;
        }
        let next = if shard_idx >= n {
            0
        } else {
            ((shard_idx as u64) << 32u64) | (offset as u64)
        };
        (next, matched)
    }

    /// SCAN: from `cursor`, visits at most `count` entries (10 where it is 0) and answers
    /// the next cursor (0 when done) with the keys among them that have not expired,
    /// are of the kind `type_filter` names (ASCII case ignored), and match `pattern`.
    pub fn scan(&self, cursor: u64, pattern: Option<&[u8]>, count: usize, type_filter: Option<&str>) -> (r: (
        u64,
        Vec<Vec<u8>>,
    ))
        ensures
            exists|now: u64|
                (r.0, byte_seqs(r.1@)) == scan_op(
                    self@.shards,
                    cursor,
                    opt_seq(pattern),
                    count,
                    opt_str_bytes(type_filter),
                    now,
                ),
    {
        self.scan_at(cursor, pattern, count, type_filter, self.now_millis())
    }

    /// The active expiry sweep on shard `s` at `now`, given the sampled indices: the
    /// sampled keys that have expired are removed. Answers how many were sampled and
    /// how many samples had expired.
    pub fn purge_expired_with(&mut self, s: usize, picks: &Vec<usize>, now: u64) -> (r: (usize, usize))
        requires
            old(self).wf(),
            s < old(self)@.shards.len(),
            forall|j: int| 0 <= j < picks@.len() ==> #[trigger] picks@[j] < old(self)@.shards[s as int].len(),
        ensures
            final(self).wf(),
            final(self)@ == old(self)@.remove_all(expired_picks(old(self)@.shards[s as int], picks@, now)),
            r.0 == picks@.len(),
            r.1 == expired_picks(old(self)@.shards[s as int], picks@, now).len(),
            forall|q: int|
                0 <= q < expired_picks(old(self)@.shards[s as int], picks@, now).len() ==> (old(self)@.lookup(
                    #[trigger] expired_picks(old(self)@.shards[s as int], picks@, now)[q],
                ) is Some && is_expired(
                    old(self)@.lookup(expired_picks(old(self)@.shards[s as int], picks@, now)[q]).unwrap(),
                    now,
                )),
    {
        let ghost o = self@;
        let ghost sh = self@.shards[s as int];
        let mut expired: Vec<Vec<u8>> = Vec::new();
        let mut j: usize = 0;
        assert(byte_seqs(expired@) =~= expired_picks(sh, picks@.take(0), now));
        while j < picks.len()
            invariant
                j <= picks@.len(),
                self@ == o,
                o.wf(),
                sh == o.shards[s as int],
                s < o.shards.len(),
                forall|q: int| 0 <= q < picks@.len() ==> #[trigger] picks@[q] < sh.len(),
                byte_seqs(expired@) == expired_picks(sh, picks@.take(j as int), now),
                forall|q: int|
                    0 <= q < expired@.len() ==> (o.lookup(#[trigger] byte_seqs(expired@)[q]) is Some
                        && is_expired(o.lookup(byte_seqs(expired@)[q]).unwrap(), now)),
            decreases picks@.len() - j,
        {
            assert(picks@.take(j + 1).drop_last() =~= picks@.take(j as int));
            assert(picks@.take(j + 1).last() == picks@[j as int]);
            let p = picks[j];
            assert(p < sh.len());
            let slot = self.slot_at(s, p);
            if slot.1.is_expired(now) {
                proof {
                    lemma_slot_key(o, s as int, p as int);
                }
                let ghost before = byte_seqs(expired@);
                let k = copy_bytes(slot.0.as_slice());
                let ghost kv = k@;
                expired.push(k);
                assert(byte_seqs(expired@) =~= before.push(kv));
            }
            j = j + 1;
        }
        assert(picks@.take(j as int) =~= picks@);
        let ghost ks = byte_seqs(expired@);
        let mut q: usize = 0;
        assert(o.remove_all(ks.take(0)) == o) by {
            assert(ks.take(0) =~= Seq::<Seq<u8>>::empty());
        }
        while q < expired.len()
            invariant
                q <= expired@.len(),
                ks == byte_seqs(expired@),
                o.wf(),
                self.wf(),
                self@ == o.remove_all(ks.take(q as int)),
                forall|x: int| 0 <= x < expired@.len() ==> (o.lookup(#[trigger] ks[x]) is Some && is_expired(
                    o.lookup(ks[x]).unwrap(),
                    now,
                )),
            decreases expired@.len() - q,
        {
            assert(ks.take(q + 1).drop_last() =~= ks.take(q as int));
            assert(ks.take(q + 1).last() == ks[q as int]);
            let key = expired[q].as_slice();
            assert(key@ == ks[q as int]);
            proof {
                lemma_remove_all_lookup(o, ks.take(q as int), key@);
            }
            let (ss, idx) = self.locate(key);
            match idx {
                Some(i) => {
                    let live = !self.entry_at(ss, i).is_expired(now);
                    if live {
                        assert(false);
                    } else {
                        self.remove_at(ss, i, Ghost(key@));
                    }
                },
                None => {},
            }
            q = q + 1;
        }
        assert(ks.take(q as int) =~= ks);
        (picks.len(), expired.len())
    }

    /// The active expiry sweep: picks a shard at random and samples up to
    /// `sample_size` of its entries at random (with repetition), removing those that
    /// have expired. Answers how many were sampled and how many samples had expired.
    pub fn purge_expired_step(&mut self, sample_size: usize) -> (r: (usize, usize))
        requires
            old(self).wf(),
        ensures
            final(self).wf(),
            exists|s: int, picks: Seq<usize>, now: u64|
                {
                    &&& 0 <= s < old(self)@.shards.len()
                    &&& picks.len() == if old(self)@.shards[s].len() < sample_size {
                        old(self)@.shards[s].len()
                    } else {
                        sample_size as nat
                    }
                    &&& forall|j: int| 0 <= j < picks.len() ==> #[trigger] picks[j] < old(self)@.shards[s].len()
                    &&& final(self)@ == old(self)@.remove_all(expired_picks(old(self)@.shards[s], picks, now))
                    &&& r.0 == picks.len()
                    &&& r.1 == expired_picks(old(self)@.shards[s], picks, now).len()
                    &&& forall|q: int|
                        0 <= q < expired_picks(old(self)@.shards[s], picks, now).len() ==> (old(
                            self,
                        )@.lookup(#[trigger] expired_picks(old(self)@.shards[s], picks, now)[q]) is Some
                            && is_expired(
                            old(self)@.lookup(expired_picks(old(self)@.shards[s], picks, now)[q]).unwrap(),
                            now,
                        ))
                },
    {
        let n = self.num_shards();
        let s = random_below(n);
        let len = self.shard_len(s);
        let cnt = if len < sample_size {
            len
        } else {
            sample_size
        };
        let mut picks: Vec<usize> = Vec::new();
        let mut c: usize = 0;
        while c < cnt
            invariant
                c <= cnt,
                picks@.len() == c,
                cnt <= len,
                cnt > 0 ==> len > 0,
                forall|j: int| 0 <= j < picks@.len() ==> #[trigger] picks@[j] < len,
            decreases cnt - c,
        {
            let p = random_below(len);
            picks.push(p);
            assert(forall|j: int| 0 <= j < picks@.len() - 1 ==> picks@[j] == picks@.drop_last()[j]);
            c = c + 1;
        }
        let now = self.now_millis();
        self.purge_expired_with(s, &picks, now)
    }
}

/// Rounds of the active expiry cycle, at most.
pub const ACTIVE_EXPIRE_ROUNDS: usize = 16;

/// Entries sampled in each round.
pub const ACTIVE_EXPIRE_SAMPLE: usize = 20;

pub proof fn lemma_expired_picks_len(shard: ShardModel, picks: Seq<usize>, now: u64)
    ensures
        expired_picks(shard, picks, now).len() <= picks.len(),
    decreases picks.len(),
{
    if picks.len() > 0 {
        lemma_expired_picks_len(shard, picks.drop_last(), now);
    }
}

pub proof fn lemma_remove_all_append(o: DbModel, a: Seq<Seq<u8>>, b: Seq<Seq<u8>>)
    ensures
        o.remove_all(a + b) == o.remove_all(a).remove_all(b),
    decreases b.len(),
{
    if b.len() == 0 {
        assert(a + b =~= a);
    } else {
        lemma_remove_all_append(o, a, b.drop_last());
        assert((a + b).drop_last() =~= a + b.drop_last());
        assert((a + b).last() == b.last());
    }
}

/// One sweep round from `m`, sampling up to `sample` entries, gave `after` and the
/// counts `sampled` and `expired`: a shard `s` and indices `picks` into it (as many as
/// the shard or the sample allows), and the instant `now`; the picked entries expired
/// at `now` are removed, each of them a key of `m` that had expired at `now`.
pub open spec fn sweep_round(m: DbModel, sample: usize, after: DbModel, sampled: nat, expired: nat) -> bool {
    exists|s: int, picks: Seq<usize>, now: u64|
        {
            &&& 0 <= s < m.shards.len()
            &&& picks.len() == if m.shards[s].len() < sample {
                m.shards[s].len()
            } else {
                sample as nat
            }
            &&& forall|j: int| 0 <= j < picks.len() ==> #[trigger] picks[j] < m.shards[s].len()
            &&& after == m.remove_all(expired_picks(m.shards[s], picks, now))
            &&& sampled == picks.len()
            &&& expired == expired_picks(m.shards[s], picks, now).len()
            &&& forall|q: int|
                0 <= q < expired_picks(m.shards[s], picks, now).len() ==> (m.lookup(
                    #[trigger] expired_picks(m.shards[s], picks, now)[q],
                ) is Some && is_expired(m.lookup(expired_picks(m.shards[s], picks, now)[q]).unwrap(), now))
        }
}

/// A round with these counts lets the cycle go on: it sampled something and found more
/// than a quarter of its samples expired.
pub open spec fn sweep_goes_on(c: (nat, nat)) -> bool {
    c.0 > 0 && c.1 * 4 > c.0
}

/// The cycle went from `m` to `after` by the rounds `states[r]` to `states[r + 1]` with
/// the counts `counts[r]`: at least one and at most `ACTIVE_EXPIRE_ROUNDS` rounds, each
/// but the last letting the cycle go on, and the last either the final allowed round or
/// one that stops it.
pub open spec fn sweep_cycle(m: DbModel, after: DbModel, states: Seq<DbModel>, counts: Seq<(nat, nat)>) -> bool {
    &&& 1 <= counts.len() <= ACTIVE_EXPIRE_ROUNDS
    &&& states.len() == counts.len() + 1
    &&& states[0] == m
    &&& states[states.len() - 1] == after
    &&& forall|r: int|
        0 <= r < counts.len() ==> sweep_round(states[r], ACTIVE_EXPIRE_SAMPLE, states[r + 1], (#[trigger] counts[r]).0, counts[r].1)
    &&& forall|r: int| 0 <= r < counts.len() - 1 ==> sweep_goes_on(#[trigger] counts[r])
    &&& counts.len() == ACTIVE_EXPIRE_ROUNDS || !sweep_goes_on(counts[counts.len() - 1])
}

impl Db {
    /// The active expiry cycle: sweep rounds (a random shard, `ACTIVE_EXPIRE_SAMPLE`
    /// sampled entries each) until a round samples nothing or finds at most a quarter
    /// of its samples expired, for at most `ACTIVE_EXPIRE_ROUNDS` rounds. Each round is
    /// one of `purge_expired_step`'s outcomes on what the round before left, and only
    /// keys that had expired at their round's instant are removed.
    pub fn active_expire_cycle(&mut self)
        requires
            old(self).wf(),
        ensures
            final(self).wf(),
            exists|removed: Seq<Seq<u8>>|
                {
                    &&& final(self)@ == old(self)@.remove_all(removed)
                    &&& forall|q: int|
                        0 <= q < removed.len() ==> (old(self)@.lookup(#[trigger] removed[q]) is Some
                            && old(self)@.lookup(removed[q]).unwrap().expires_at is Some)
                },
            exists|states: Seq<DbModel>, counts: Seq<(nat, nat)>|
                sweep_cycle(old(self)@, final(self)@, states, counts),
    {
        let ghost o = self@;
        let ghost mut removed: Seq<Seq<u8>> = Seq::empty();
        assert(o.remove_all(removed) == o);
        let mut round: usize = 0;
        let ghost mut states: Seq<DbModel> = seq![o];
        let ghost mut counts: Seq<(nat, nat)> = seq![];
        while round < ACTIVE_EXPIRE_ROUNDS
            invariant_except_break
                self.wf(),
                o.wf(),
                o == old(self)@,
                self@ == o.remove_all(removed),
                forall|q: int|
                    0 <= q < removed.len() ==> (o.lookup(#[trigger] removed[q]) is Some && o.lookup(
                        removed[q],
                    ).unwrap().expires_at is Some),
                round <= ACTIVE_EXPIRE_ROUNDS,
                counts.len() == round,
                states.len() == counts.len() + 1,
                states[0] == o,
                states[states.len() - 1] == self@,
                forall|r: int|
                    0 <= r < counts.len() ==> sweep_round(states[r], ACTIVE_EXPIRE_SAMPLE, states[r + 1], (#[trigger] counts[r]).0, counts[r].1),
                forall|r: int| 0 <= r < counts.len() ==> sweep_goes_on(#[trigger] counts[r]),
            ensures
                self.wf(),
                self@ == o.remove_all(removed),
                forall|q: int|
                    0 <= q < removed.len() ==> (o.lookup(#[trigger] removed[q]) is Some && o.lookup(
                        removed[q],
                    ).unwrap().expires_at is Some),
                sweep_cycle(o, self@, states, counts),
            decreases ACTIVE_EXPIRE_ROUNDS - round,
        {
            let ghost before = self@;
            let (sampled, expired) = self.purge_expired_step(ACTIVE_EXPIRE_SAMPLE);
            proof {
                let (s, picks, now) = choose|s: int, picks: Seq<usize>, now: u64|
                    {
                        &&& 0 <= s < before.shards.len()
                        &&& picks.len() == if before.shards[s].len() < ACTIVE_EXPIRE_SAMPLE {
                            before.shards[s].len()
                        } else {
                            ACTIVE_EXPIRE_SAMPLE as nat
                        }
                        &&& forall|j: int| 0 <= j < picks.len() ==> #[trigger] picks[j] < before.shards[s].len()
                        &&& self@ == before.remove_all(expired_picks(before.shards[s], picks, now))
                        &&& sampled == picks.len()
                        &&& expired == expired_picks(before.shards[s], picks, now).len()
                        &&& forall|q: int|
                            0 <= q < expired_picks(before.shards[s], picks, now).len() ==> (before.lookup(
                                #[trigger] expired_picks(before.shards[s], picks, now)[q],
                            ) is Some && is_expired(
                                before.lookup(expired_picks(before.shards[s], picks, now)[q]).unwrap(),
                                now,
                            ))
                    };
                let ks = expired_picks(before.shards[s], picks, now);
                lemma_expired_picks_len(before.shards[s], picks, now);
                assert(expired <= sampled <= ACTIVE_EXPIRE_SAMPLE);
                lemma_remove_all_append(o, removed, ks);
                assert forall|q: int| 0 <= q < (removed + ks).len() implies (o.lookup(
                    #[trigger] (removed + ks)[q],
                ) is Some && o.lookup((removed + ks)[q]).unwrap().expires_at is Some) by {
                    if q < removed.len() {
                        assert((removed + ks)[q] == removed[q]);
                    } else {
                        let k = ks[q - removed.len()];
                        assert((removed + ks)[q] == k);
                        lemma_remove_all_lookup(o, removed, k);
                    }
                }
                removed = removed + ks;
                assert(sweep_round(before, ACTIVE_EXPIRE_SAMPLE, self@, sampled as nat, expired as nat));
                let c = (sampled as nat, expired as nat);
                let st2 = states.push(self@);
                let c2 = counts.push(c);
                assert forall|r: int|
                    0 <= r < c2.len() implies sweep_round(st2[r], ACTIVE_EXPIRE_SAMPLE, st2[r + 1], (#[trigger] c2[r]).0, c2[r].1) by {
                    if r < counts.len() {
                        assert(c2[r] == counts[r]);
                        assert(st2[r] == states[r]);
                        assert(st2[r + 1] == states[r + 1]);
                    } else {
                        assert(st2[r] == before);
                    }
                }
                assert forall|r: int| 0 <= r < c2.len() - 1 implies sweep_goes_on(#[trigger] c2[r]) by {
                    assert(c2[r] == counts[r]);
                }
                states = st2;
                counts = c2;
            }
            if sampled == 0 || expired * 4 <= sampled {
                break;
            }
            round = round + 1;
        }
    }
}

} // verus!
