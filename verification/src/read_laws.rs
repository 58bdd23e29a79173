//! What requests mean to the reader of the keyspace: EXPIRE and SET's EX count
//! seconds, an expired key reads as absent whatever its kind, SCAN's TYPE filter names
//! each kind by its own word, and the reads of one hash, set or list agree.
use crate::cmd::{apply_op, expiry_after, parse_command, parse_expire, parse_set, set_options, uppercase, CommandModel};
use crate::db::{is_expired, lemma_put, lemma_remove_all_wf, DataModel, DbModel, EntryModel};
use crate::db_keys::scan_hit;
use crate::frame::FrameModel;
use crate::frame_laws::lemma_ascii_valid_utf8;
use crate::glob::glob_matches;
use crate::laws::{law_expire_then_pttl, live_at};
use crate::number::{digits_of, lemma_digits_of_roundtrip, parse_u64_text};
use vstd::prelude::*;

verus! {

/// The decimal digits of `n` are a number argument worth `n`.
proof fn lemma_number_arg(n: u64)
    ensures
        parse_u64_text(digits_of(n as nat)) == Some(n),
        crate::cmd::num_arg(FrameModel::Bulk(digits_of(n as nat))) == Ok::<Seq<u8>, bool>(
            digits_of(n as nat),
        ),
{
    lemma_digits_of_roundtrip(n as nat);
    let d = digits_of(n as nat);
    assert forall|i: int| 0 <= i < d.len() implies #[trigger] d[i] < 128u8 by {
        assert(crate::number::all_digits(d));
        assert(48 <= d[i] <= 57);
    }
    lemma_ascii_valid_utf8(d);
}

/// EXPIRE takes its time to live in seconds and PEXPIRE in milliseconds: with a key
/// `k` and the decimal digits of `n`, EXPIRE asks for `n * 1000` milliseconds and
/// PEXPIRE for `n`.
pub proof fn law_expire_counts_seconds(k: Seq<u8>, n: u64)
    requires
        n * 1000 <= u64::MAX,
    ensures
        parse_expire(seq![FrameModel::Bulk(k), FrameModel::Bulk(digits_of(n as nat))], false) == Ok::<
            CommandModel,
            Seq<char>,
        >(CommandModel::Expire { key: k, duration_ms: (n * 1000) as u64 }),
        parse_expire(seq![FrameModel::Bulk(k), FrameModel::Bulk(digits_of(n as nat))], true) == Ok::<
            CommandModel,
            Seq<char>,
        >(CommandModel::Expire { key: k, duration_ms: n }),
{
    lemma_number_arg(n);
}

/// A request whose name upper-cases to EXPIRE parses as EXPIRE of its arguments.
proof fn lemma_dispatch_expire(name: Seq<char>, args: Seq<FrameModel>)
    requires
        uppercase(name) == "EXPIRE"@,
    ensures
        parse_command(FrameModel::Array(seq![FrameModel::Simple(name)] + args)) == parse_expire(args, false),
{
    let items = seq![FrameModel::Simple(name)] + args;
    assert(items.skip(1) =~= args);
    assert(items[0] == FrameModel::Simple(name));
    reveal_strlit("EXPIRE");
    reveal_strlit("PING");
    reveal_strlit("ECHO");
    reveal_strlit("GET");
    reveal_strlit("SET");
    reveal_strlit("DEL");
    let up = uppercase(name);
    assert(up.len() == 6);
    assert(up != "PING"@ && up != "ECHO"@ && up != "GET"@ && up != "SET"@ && up != "DEL"@);
    assert(crate::cmd::dispatch(up, args) == parse_expire(args, false));
    assert(crate::cmd::text_arg(items[0]) == Ok::<Seq<char>, bool>(name));
}

/// The EXPIRE command applies `expire_op` and answers 1 or 0.
proof fn lemma_apply_expire(m: DbModel, k: Seq<u8>, d: u64, now: u64)
    ensures
        apply_op(m, CommandModel::Expire { key: k, duration_ms: d }, now, Seq::empty()) == (
            m.expire_op(k, d, now).0,
            FrameModel::Integer(
                if m.expire_op(k, d, now).1 {
                    1
                } else {
                    0
                },
            ),
        ),
{
    reveal(apply_op);
}

/// The request `EXPIRE k n` (the command name in any case that upper-cases to
/// EXPIRE) on a live key answers 1, and right after it PTTL gives `n * 1000` and TTL
/// gives `n`.
pub proof fn law_expire_request_then_ttl(m: DbModel, name: Seq<char>, k: Seq<u8>, n: u64, now: u64)
    requires
        m.wf(),
        uppercase(name) == "EXPIRE"@,
        live_at(m, k, now),
        0 < n,
        n * 1000 <= i64::MAX,
        now + n * 1000 <= u64::MAX,
    ensures
        ({
            let req = FrameModel::Array(
                seq![FrameModel::Simple(name), FrameModel::Bulk(k), FrameModel::Bulk(digits_of(n as nat))],
            );
            let c = CommandModel::Expire { key: k, duration_ms: (n * 1000) as u64 };
            &&& parse_command(req) == Ok::<CommandModel, Seq<char>>(c)
            &&& apply_op(m, c, now, Seq::empty()).1 == FrameModel::Integer(1)
            &&& apply_op(m, c, now, Seq::empty()).0.pttl_op(k, now) == n * 1000
            &&& apply_op(m, c, now, Seq::empty()).0.ttl_op(k, now) == n
        }),
{
    let args = seq![FrameModel::Bulk(k), FrameModel::Bulk(digits_of(n as nat))];
    assert(seq![FrameModel::Simple(name), FrameModel::Bulk(k), FrameModel::Bulk(digits_of(n as nat))]
        =~= seq![FrameModel::Simple(name)] + args);
    lemma_dispatch_expire(name, args);
    law_expire_counts_seconds(k, n);
    let d = (n * 1000) as u64;
    law_expire_then_pttl(m, k, d, now);
    lemma_apply_expire(m, k, d, now);
    assert(d / 1000 == n);
}

/// SET's EX option counts seconds and PX milliseconds: `SET k v EX n` asks for an
/// expiry `n * 1000` milliseconds away, `SET k v PX n` one `n` milliseconds away
/// (the option name in any case that upper-cases to EX or PX).
pub proof fn law_set_expiry_options(k: Seq<u8>, v: Seq<u8>, opt: Seq<char>, n: u64)
    requires
        uppercase(opt) == "EX"@ || uppercase(opt) == "PX"@,
        n * 1000 <= u64::MAX,
    ensures
        parse_set(
            seq![
                FrameModel::Bulk(k),
                FrameModel::Bulk(v),
                FrameModel::Simple(opt),
                FrameModel::Bulk(digits_of(n as nat)),
            ],
        ) == Ok::<CommandModel, Seq<char>>(
            CommandModel::SetString {
                key: k,
                value: v,
                expire_ms: Some(
                    if uppercase(opt) == "EX"@ {
                        (n * 1000) as u64
                    } else {
                        n
                    },
                ),
            },
        ),
{
    let args = seq![
        FrameModel::Bulk(k),
        FrameModel::Bulk(v),
        FrameModel::Simple(opt),
        FrameModel::Bulk(digits_of(n as nat)),
    ];
    lemma_number_arg(n);
    reveal_strlit("EX");
    reveal_strlit("PX");
    assert(crate::cmd::text_arg(args[2]) == Ok::<Seq<char>, bool>(opt));
    let d = if uppercase(opt) == "EX"@ {
        (n * 1000) as u64
    } else {
        n
    };
    assert(set_options(args, 4, Some(d)) == Ok::<Option<u64>, Seq<char>>(Some(d)));
    assert(set_options(args, 2, None) == Ok::<Option<u64>, Seq<char>>(Some(d)));
}

/// SET with a time to live of `d` milliseconds, whatever it evicted first: right
/// after it PTTL gives `d` and TTL `d / 1000`, and GET gives the value until the
/// expiry comes.
pub proof fn law_set_with_ttl_then_ttl(
    m: DbModel,
    k: Seq<u8>,
    v: Seq<u8>,
    d: u64,
    now: u64,
    evicted: Seq<Seq<u8>>,
    t: u64,
)
    requires
        m.wf(),
        0 < d <= i64::MAX,
        now + d <= u64::MAX,
        t < now + d,
    ensures
        ({
            let c = CommandModel::SetString { key: k, value: v, expire_ms: Some(d) };
            let after = apply_op(m, c, now, evicted).0;
            &&& after.pttl_op(k, now) == d
            &&& after.ttl_op(k, now) == d / 1000
            &&& after.get_op(k, t).1 == Ok::<Option<Seq<u8>>, ()>(Some(v))
        }),
{
    let c = CommandModel::SetString { key: k, value: v, expire_ms: Some(d) };
    let m1 = m.remove_all(evicted);
    lemma_remove_all_wf(m, evicted);
    assert(apply_op(m, c, now, evicted).0 == m1.store_string(k, v, expiry_after(now, Some(d)), now)) by {
        reveal(apply_op);
    }
    let x = (now + d) as u64;
    assert(expiry_after(now, Some(d)) == Some(x));
    let e = EntryModel { data: DataModel::String(v), expires_at: Some(x), last_accessed: now };
    lemma_put(m1, k, e, k);
    assert(((d as u64) as i64) as int == d);
}

/// Every read of a key whose expiry has come answers as for an absent key, whatever
/// kind of value it held: GET nothing (and the key is dropped), HGET nothing, HGETALL,
/// LRANGE and SMEMBERS no items, SISMEMBER false (leaving the database as it was),
/// and TTL and PTTL -2.
pub proof fn law_expired_reads_absent(
    m: DbModel,
    key: Seq<u8>,
    field: Seq<u8>,
    member: Seq<u8>,
    start: i64,
    stop: i64,
    now: u64,
)
    requires
        m.lookup(key) matches Some(e) && is_expired(e, now),
    ensures
        m.get_op(key, now) == (m.remove_key(key), Ok::<Option<Seq<u8>>, ()>(None)),
        m.hget_op(key, field, now) == (m, Ok::<Option<Seq<u8>>, ()>(None)),
        m.hgetall_op(key, now) == (m, Ok::<Seq<(Seq<u8>, Seq<u8>)>, ()>(Seq::empty())),
        m.lrange_op(key, start, stop, now) == (m, Ok::<Seq<Seq<u8>>, ()>(Seq::empty())),
        m.smembers_op(key, now) == (m, Ok::<Seq<Seq<u8>>, ()>(Seq::empty())),
        m.sismember_op(key, member, now) == (m, Ok::<bool, ()>(false)),
        m.pttl_op(key, now) == -2,
        m.ttl_op(key, now) == -2,
{
}

/// SCAN's TYPE filter calls the kinds `string`, `list`, `set` and `hash` (ASCII case
/// ignored): a live entry whose key matches the pattern passes TYPE list exactly when
/// it holds a list, TYPE set exactly when it holds a set, and so on.
pub proof fn law_scan_type_names(k: Seq<u8>, e: EntryModel, pattern: Option<Seq<u8>>, now: u64)
    requires
        !is_expired(e, now),
        pattern matches Some(p) ==> glob_matches(p, k),
    ensures
        scan_hit(k, e, pattern, Some(seq![115u8, 116, 114, 105, 110, 103]), now) == e.data is String,
        scan_hit(k, e, pattern, Some(seq![108u8, 105, 115, 116]), now) == e.data is List,
        scan_hit(k, e, pattern, Some(seq![76u8, 73, 83, 84]), now) == e.data is List,
        scan_hit(k, e, pattern, Some(seq![115u8, 101, 116]), now) == e.data is Members,
        scan_hit(k, e, pattern, Some(seq![104u8, 97, 115, 104]), now) == e.data is Hash,
        scan_hit(k, e, pattern, None, now),
{
    let names = seq![
        seq![115u8, 116, 114, 105, 110, 103],
        seq![108u8, 105, 115, 116],
        seq![76u8, 73, 83, 84],
        seq![115u8, 101, 116],
        seq![104u8, 97, 115, 104],
    ];
    match e.data {
        DataModel::String(_) => {
            assert(!crate::db_keys::ascii_ci_eq(names[1], crate::db_keys::kind_name(e.data)));
            assert(!crate::db_keys::ascii_ci_eq(names[2], crate::db_keys::kind_name(e.data)));
            assert(!crate::db_keys::ascii_ci_eq(names[4], crate::db_keys::kind_name(e.data)));
        },
        DataModel::List(_) => {
            assert(!crate::db_keys::ascii_ci_eq(names[4], crate::db_keys::kind_name(e.data)));
        },
        DataModel::Members(_) => {},
        DataModel::Hash(_) => {
            assert(!crate::db_keys::ascii_ci_eq(names[1], crate::db_keys::kind_name(e.data)));
            assert(!crate::db_keys::ascii_ci_eq(names[2], crate::db_keys::kind_name(e.data)));
        },
    }
}


/// SCAN passes an entry exactly when it is live, its key matches the pattern (if one
/// is given) and its kind is the one named (if one is named): an expired entry never
/// passes.
pub proof fn law_scan_filters(k: Seq<u8>, e: EntryModel, p: Seq<u8>, tf: Option<Seq<u8>>, now: u64)
    ensures
        is_expired(e, now) ==> !scan_hit(k, e, Some(p), tf, now) && !scan_hit(k, e, None, tf, now),
        !is_expired(e, now) ==> scan_hit(k, e, None, None, now),
        !is_expired(e, now) ==> (scan_hit(k, e, Some(p), None, now) == glob_matches(p, k)),
{
}

/// HGET and HGETALL agree: HGET of a field answers `v` exactly when HGETALL lists the
/// pair of that field and `v`, nothing exactly when HGETALL lists no pair of that
/// field, and the type error exactly when HGETALL does.
pub proof fn law_hget_agrees_with_hgetall(m: DbModel, key: Seq<u8>, f: Seq<u8>, v: Seq<u8>, now: u64)
    requires
        m.wf(),
    ensures
        (m.hget_op(key, f, now).1 == Ok::<Option<Seq<u8>>, ()>(Some(v))) == (m.hgetall_op(key, now).1 matches Ok(
            ps,
        ) && ps.contains((f, v))),
        (m.hget_op(key, f, now).1 == Ok::<Option<Seq<u8>>, ()>(None)) == (m.hgetall_op(key, now).1 matches Ok(
            ps,
        ) && forall|i: int| 0 <= i < ps.len() ==> #[trigger] ps[i].0 != f),
        m.hget_op(key, f, now).1 is Err == m.hgetall_op(key, now).1 is Err,
{
    crate::laws::lemma_lookup_wf(m, key);
    if let Some(e) = m.lookup(key) {
        if !is_expired(e, now) {
            if let DataModel::Hash(h) = e.data {
                crate::db::lemma_key_index(h, f, -1);
                if h.contains((f, v)) {
                    let i = choose|i: int| 0 <= i < h.len() && h[i] == (f, v);
                    crate::db::lemma_key_index(h, f, i);
                }
                let i = crate::db::key_index(h, f);
                if i >= 0 {
                    assert(h[i] == (f, h[i].1));
                }
            }
        }
    }
}

/// SISMEMBER and SMEMBERS agree: SISMEMBER answers true exactly when SMEMBERS lists
/// the member, and the type error exactly when SMEMBERS does.
pub proof fn law_sismember_agrees_with_smembers(m: DbModel, key: Seq<u8>, x: Seq<u8>, now: u64)
    ensures
        (m.sismember_op(key, x, now).1 == Ok::<bool, ()>(true)) == (m.smembers_op(key, now).1 matches Ok(
            ms,
        ) && ms.contains(x)),
        (m.sismember_op(key, x, now).1 == Ok::<bool, ()>(false)) == (m.smembers_op(key, now).1 matches Ok(
            ms,
        ) && !ms.contains(x)),
        m.sismember_op(key, x, now).1 is Err == m.smembers_op(key, now).1 is Err,
{
}

/// LPOP and RPOP take the first and the last of the elements that LRANGE 0 -1 reads.
pub proof fn law_pops_agree_with_lrange(m: DbModel, key: Seq<u8>, now: u64)
    requires
        m.wf(),
    ensures
        (match m.lrange_op(key, 0i64, -1i64, now).1 {
            Ok(l) => l.len() > 0 ==> m.pop_op(key, true, now).1 == Ok::<Option<Seq<u8>>, ()>(Some(l[0]))
                && m.pop_op(key, false, now).1 == Ok::<Option<Seq<u8>>, ()>(Some(l.last())),
            Err(_) => true,
        }),
        m.lrange_op(key, 0i64, -1i64, now).1 is Err == m.pop_op(key, true, now).1 is Err,
{
    crate::laws::lemma_drop_expired(m, key, now);
    if let Some(e) = m.lookup(key) {
        if !is_expired(e, now) {
            if let DataModel::List(l) = e.data {
                if l.len() > 0 {
                    let r = crate::db_list::range_bounds(l.len() as int, 0, -1);
                    assert(r == (0int, l.len() as int));
                    assert(l.subrange(0, l.len() as int) =~= l);
                }
            }
        }
    }
}

} // verus!
