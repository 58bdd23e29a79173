//! The append-only file: replaying the recorded requests to rebuild the keyspace.
use crate::cmd::{allowed_evictions, apply_op, parse_command, Command};
use crate::db::{Db, DbModel};
use crate::frame::{check_at, encode, encode_all, parse_at, Cursor, ErrorModel, Frame, FrameError, FrameModel};
use crate::frame_laws::{lemma_encode_all_front, lemma_roundtrip_at, well_formed};
use vstd::prelude::*;

verus! {

/// The eviction victims of the `k`-th replayed command (none past the end).
pub open spec fn evicted_at(evs: Seq<Seq<Seq<u8>>>, k: int) -> Seq<Seq<u8>> {
    if 0 <= k < evs.len() {
        evs[k]
    } else {
        Seq::empty()
    }
}

/// A replay count `c` more.
pub open spec fn count_more(r: Result<nat, ErrorModel>, c: nat) -> Result<nat, ErrorModel> {
    match r {
        Ok(n) => Ok(n + c),
        Err(e) => Err(e),
    }
}

/// Replaying the requests recorded in `buf` from `pos` at `now`, where the `k`-th
/// command applied (counting from `k`) evicts `evicted_at(evs, k)`: the database
/// after, and how many commands were applied. Each whole frame is decoded; a frame
/// that is no command is skipped; a truncated tail or a malformed frame ends the
/// replay; a frame that checks but does not decode is an error.
#[verifier::opaque]
pub open spec fn replay_from(
    m: DbModel,
    buf: Seq<u8>,
    pos: int,
    now: u64,
    evs: Seq<Seq<Seq<u8>>>,
    k: nat,
) -> (DbModel, Result<nat, ErrorModel>)
    decreases buf.len() - pos,
{
    if pos < 0 || pos >= buf.len() {
        (m, Ok(0))
    } else {
        match check_at(buf, pos) {
            Ok(end) => if end <= pos || end > buf.len() {
                (m, Ok(0))
            } else {
                match parse_at(buf, pos) {
                    Ok((f, _)) => match parse_command(f) {
                        Ok(c) => {
                            let m2 = apply_op(m, c, now, evicted_at(evs, k as int)).0;
                            let (m3, r) = replay_from(m2, buf, end, now, evs, k + 1);
                            (m3, count_more(r, 1))
                        },
                        Err(_) => replay_from(m, buf, end, now, evs, k),
                    },
                    Err(e) => (m, Err(e)),
                }
            },
            Err(_) => (m, Ok(0)),
        }
    }
}

/// The evictions `evs` are ones that the replay of `buf` from `pos` at `now` may
/// make: the `k`-th command applied (counting from `k`) evicts only what
/// `allowed_evictions` admits for it, in the database that it meets.
#[verifier::opaque]
pub open spec fn replay_evictions_ok(
    m: DbModel,
    buf: Seq<u8>,
    pos: int,
    now: u64,
    evs: Seq<Seq<Seq<u8>>>,
    k: nat,
) -> bool
    decreases buf.len() - pos,
{
    if pos < 0 || pos >= buf.len() {
        true
    } else {
        match check_at(buf, pos) {
            Ok(end) => if end <= pos || end > buf.len() {
                true
            } else {
                match parse_at(buf, pos) {
                    Ok((f, _)) => match parse_command(f) {
                        Ok(c) => {
                            &&& allowed_evictions(m, c, evicted_at(evs, k as int))
                            &&& replay_evictions_ok(
                                apply_op(m, c, now, evicted_at(evs, k as int)).0,
                                buf,
                                end,
                                now,
                                evs,
                                k + 1,
                            )
                        },
                        Err(_) => replay_evictions_ok(m, buf, end, now, evs, k),
                    },
                    Err(_) => true,
                }
            },
            Err(_) => true,
        }
    }
}

pub proof fn lemma_replay_stop(m: DbModel, buf: Seq<u8>, pos: int, now: u64, evs: Seq<Seq<Seq<u8>>>, k: nat)
    requires
        pos >= buf.len() || check_at(buf, pos) is Err,
    ensures
        replay_from(m, buf, pos, now, evs, k) == (m, Ok::<nat, ErrorModel>(0)),
        replay_evictions_ok(m, buf, pos, now, evs, k),
{
    reveal(replay_from);
    reveal(replay_evictions_ok);
}

pub proof fn lemma_replay_error(
    m: DbModel,
    buf: Seq<u8>,
    pos: int,
    end: int,
    now: u64,
    evs: Seq<Seq<Seq<u8>>>,
    k: nat,
    e: ErrorModel,
)
    requires
        0 <= pos < end <= buf.len(),
        check_at(buf, pos) == Ok::<int, ErrorModel>(end),
        parse_at(buf, pos) == Err::<(crate::frame::FrameModel, int), ErrorModel>(e),
    ensures
        replay_from(m, buf, pos, now, evs, k) == (m, Err::<nat, ErrorModel>(e)),
        replay_evictions_ok(m, buf, pos, now, evs, k),
{
    reveal(replay_from);
    reveal(replay_evictions_ok);
}

pub proof fn lemma_replay_skip(
    m: DbModel,
    buf: Seq<u8>,
    pos: int,
    end: int,
    now: u64,
    evs: Seq<Seq<Seq<u8>>>,
    k: nat,
    f: crate::frame::FrameModel,
)
    requires
        0 <= pos < end <= buf.len(),
        check_at(buf, pos) == Ok::<int, ErrorModel>(end),
        parse_at(buf, pos) matches Ok((g, _)) && g == f,
        parse_command(f) is Err,
    ensures
        replay_from(m, buf, pos, now, evs, k) == replay_from(m, buf, end, now, evs, k),
        replay_evictions_ok(m, buf, pos, now, evs, k) == replay_evictions_ok(m, buf, end, now, evs, k),
{
    reveal(replay_from);
    reveal(replay_evictions_ok);
}

pub proof fn lemma_replay_apply(
    m: DbModel,
    buf: Seq<u8>,
    pos: int,
    end: int,
    now: u64,
    evs: Seq<Seq<Seq<u8>>>,
    k: nat,
    f: crate::frame::FrameModel,
)
    requires
        0 <= pos < end <= buf.len(),
        check_at(buf, pos) == Ok::<int, ErrorModel>(end),
        parse_at(buf, pos) matches Ok((g, _)) && g == f,
        parse_command(f) is Ok,
    ensures
        replay_from(m, buf, pos, now, evs, k) == (
            replay_from(
                apply_op(m, parse_command(f)->Ok_0, now, evicted_at(evs, k as int)).0,
                buf,
                end,
                now,
                evs,
                k + 1,
            ).0,
            count_more(
                replay_from(
                    apply_op(m, parse_command(f)->Ok_0, now, evicted_at(evs, k as int)).0,
                    buf,
                    end,
                    now,
                    evs,
                    k + 1,
                ).1,
                1,
            ),
        ),
        replay_evictions_ok(m, buf, pos, now, evs, k) == (allowed_evictions(
            m,
            parse_command(f)->Ok_0,
            evicted_at(evs, k as int),
        ) && replay_evictions_ok(
            apply_op(m, parse_command(f)->Ok_0, now, evicted_at(evs, k as int)).0,
            buf,
            end,
            now,
            evs,
            k + 1,
        )),
{
    reveal(replay_from);
    reveal(replay_evictions_ok);
}

/// Applying the commands among `frames` in order, the `k`-th one applied evicting
/// `evicted_at(evs, k)`: the database after, and how many were applied.
pub open spec fn apply_frames(m: DbModel, frames: Seq<FrameModel>, now: u64, evs: Seq<Seq<Seq<u8>>>, k: nat) -> (
    DbModel,
    nat,
)
    decreases frames.len(),
{
    if frames.len() == 0 {
        (m, 0)
    } else {
        match parse_command(frames[0]) {
            Ok(c) => {
                let (m2, n) = apply_frames(
                    apply_op(m, c, now, evicted_at(evs, k as int)).0,
                    frames.drop_first(),
                    now,
                    evs,
                    k + 1,
                );
                (m2, n + 1)
            },
            Err(_) => apply_frames(m, frames.drop_first(), now, evs, k),
        }
    }
}

proof fn lemma_replay_encoded(
    m: DbModel,
    pre: Seq<u8>,
    frames: Seq<FrameModel>,
    now: u64,
    evs: Seq<Seq<Seq<u8>>>,
    k: nat,
)
    requires
        forall|i: int| 0 <= i < frames.len() ==> #[trigger] well_formed(frames[i]),
    ensures
        replay_from(m, pre + encode_all(frames), pre.len() as int, now, evs, k) == (
            apply_frames(m, frames, now, evs, k).0,
            Ok::<nat, ErrorModel>(apply_frames(m, frames, now, evs, k).1),
        ),
    decreases frames.len(),
{
    let buf = pre + encode_all(frames);
    if frames.len() == 0 {
        assert(encode_all(frames) =~= Seq::<u8>::empty());
        lemma_replay_stop(m, buf, pre.len() as int, now, evs, k);
    } else {
        let f = frames[0];
        let tail = frames.drop_first();
        assert(frames =~= seq![f] + tail);
        lemma_encode_all_front(f, tail);
        assert(well_formed(f));
        assert(forall|i: int| 0 <= i < tail.len() ==> tail[i] == frames[i + 1]);
        let rest = encode_all(tail);
        assert(buf =~= pre + encode(f) + rest);
        lemma_roundtrip_at(pre, f, rest);
        let end = (pre.len() + encode(f).len()) as int;
        assert(encode(f).len() > 0) by {
            reveal_with_fuel(encode, 1);
        }
        let pre2 = pre + encode(f);
        assert(pre2 + rest =~= buf);
        match parse_command(f) {
            Ok(c) => {
                lemma_replay_apply(m, buf, pre.len() as int, end, now, evs, k, f);
                let m2 = apply_op(m, c, now, evicted_at(evs, k as int)).0;
                lemma_replay_encoded(m2, pre2, tail, now, evs, k + 1);
            },
            Err(_) => {
                lemma_replay_skip(m, buf, pre.len() as int, end, now, evs, k, f);
                lemma_replay_encoded(m, pre2, tail, now, evs, k);
            },
        }
    }
}

/// Replaying a log that holds the encodings of well-formed request frames, one after
/// another, applies the commands among them in order and counts them: what the
/// append-only file records is what it rebuilds.
pub proof fn law_replay_log(m: DbModel, frames: Seq<FrameModel>, now: u64, evs: Seq<Seq<Seq<u8>>>)
    requires
        forall|i: int| 0 <= i < frames.len() ==> #[trigger] well_formed(frames[i]),
    ensures
        replay_from(m, encode_all(frames), 0, now, evs, 0) == (
            apply_frames(m, frames, now, evs, 0).0,
            Ok::<nat, ErrorModel>(apply_frames(m, frames, now, evs, 0).1),
        ),
{
    lemma_replay_encoded(m, Seq::empty(), frames, now, evs, 0);
    assert(Seq::<u8>::empty() + encode_all(frames) =~= encode_all(frames));
}

pub open spec fn replay_result(r: Result<usize, FrameError>) -> Result<nat, ErrorModel> {
    match r {
        Ok(n) => Ok(n as nat),
        Err(e) => Err(e.model()),
    }
}

/// Replays the requests recorded in `buf` at `now`, and answers how many commands
/// were applied.
pub fn replay_at(db: &mut Db, buf: &[u8], now: u64) -> (r: Result<usize, FrameError>)
    requires
        old(db).wf(),
    ensures
        final(db).wf(),
        exists|evs: Seq<Seq<Seq<u8>>>|
            {
                &&& replay_evictions_ok(old(db)@, buf@, 0, now, evs, 0)
                &&& (final(db)@, replay_result(r)) == replay_from(old(db)@, buf@, 0, now, evs, 0)
            },
{
    let ghost m0 = db@;
    let ghost mut evs: Seq<Seq<Seq<u8>>> = Seq::empty();
    let mut pos: usize = 0;
    let mut count: usize = 0;
    proof {
        assert forall|more: Seq<Seq<Seq<u8>>>| #[trigger]
            replay_from(m0, buf@, 0, now, evs + more, 0) == (
                replay_from(db@, buf@, pos as int, now, evs + more, evs.len()).0,
                count_more(replay_from(db@, buf@, pos as int, now, evs + more, evs.len()).1, count as nat),
            ) by {
            let r = replay_from(m0, buf@, 0, now, evs + more, 0);
            match r.1 {
                Ok(n) => {
                    assert(count_more(r.1, 0) == r.1);
                },
                Err(e) => {},
            }
        }
    }
    while pos < buf.len()
        invariant
            db.wf(),
            m0 == old(db)@,
            pos <= buf@.len(),
            count <= pos,
            count == evs.len(),
            forall|more: Seq<Seq<Seq<u8>>>| #[trigger]
                replay_from(m0, buf@, 0, now, evs + more, 0) == (
                    replay_from(db@, buf@, pos as int, now, evs + more, evs.len()).0,
                    count_more(
                        replay_from(db@, buf@, pos as int, now, evs + more, evs.len()).1,
                        count as nat,
                    ),
                ),
            forall|more: Seq<Seq<Seq<u8>>>| #[trigger]
                replay_evictions_ok(m0, buf@, 0, now, evs + more, 0) == replay_evictions_ok(
                    db@,
                    buf@,
                    pos as int,
                    now,
                    evs + more,
                    evs.len(),
                ),
        ensures
            pos >= buf@.len() || check_at(buf@, pos as int) is Err,
        decreases buf@.len() - pos,
    {
        let mut cursor = Cursor::new(buf);
        cursor.set_position(pos);
        match Frame::check(&mut cursor) {
            Ok(()) => {
                let end = cursor.position();
                cursor.set_position(pos);
                let frame = match Frame::parse(&mut cursor) {
                    Ok(f) => f,
                    Err(e) => {
                        proof {
                            let e0 = Seq::<Seq<Seq<u8>>>::empty();
                            assert(evs + e0 =~= evs);
                            let t = replay_from(m0, buf@, 0, now, evs + e0, 0);
                            assert(check_at(buf@, pos as int) == Ok::<int, ErrorModel>(end as int));
                            assert(parse_at(buf@, pos as int) == Err::<(crate::frame::FrameModel, int), ErrorModel>(e.model()));
                            lemma_replay_error(db@, buf@, pos as int, end as int, now, evs + e0, evs.len(), e.model());
                            assert(t == (db@, Err::<nat, ErrorModel>(e.model())));
                            assert((db@, replay_result(Err(e))) == replay_from(m0, buf@, 0, now, evs, 0));
                            assert(replay_evictions_ok(m0, buf@, 0, now, evs + e0, 0));
                            assert(replay_evictions_ok(m0, buf@, 0, now, evs, 0));
                        }
                        return Err(e);
                    },
                };
                let ghost before = db@;
                let ghost fm = frame.model();
                match Command::from_frame(frame) {
                    Ok(cmd) => {
                        let ghost c = cmd.model();
                        let reply = cmd.apply_at(db, now);
                        proof {
                            let ev = choose|ev: Seq<Seq<u8>>|
                                allowed_evictions(before, c, ev) && (db@, reply.model()) == #[trigger] apply_op(
                                    before,
                                    c,
                                    now,
                                    ev,
                                );
                            let k = evs.len();
                            let evs2 = evs.push(ev);
                            assert forall|more2: Seq<Seq<Seq<u8>>>| #[trigger]
                                replay_from(m0, buf@, 0, now, evs2 + more2, 0) == (
                                    replay_from(db@, buf@, end as int, now, evs2 + more2, evs2.len()).0,
                                    count_more(
                                        replay_from(db@, buf@, end as int, now, evs2 + more2, evs2.len()).1,
                                        (count + 1) as nat,
                                    ),
                                ) by {
                                let more = seq![ev] + more2;
                                assert(evs2 + more2 =~= evs + more);
                                assert(evicted_at(evs + more, k as int) == ev);
                                let t = replay_from(m0, buf@, 0, now, evs + more, 0);
                                lemma_replay_apply(before, buf@, pos as int, end as int, now, evs + more, k, fm);
                                let r = replay_from(db@, buf@, end as int, now, evs2 + more2, evs2.len());
                                match r.1 {
                                    Ok(n) => {},
                                    Err(e) => {},
                                }
                            }
                            assert forall|more2: Seq<Seq<Seq<u8>>>| #[trigger]
                                replay_evictions_ok(m0, buf@, 0, now, evs2 + more2, 0) == replay_evictions_ok(
                                    db@,
                                    buf@,
                                    end as int,
                                    now,
                                    evs2 + more2,
                                    evs2.len(),
                                ) by {
                                let more = seq![ev] + more2;
                                assert(evs2 + more2 =~= evs + more);
                                assert(evicted_at(evs + more, k as int) == ev);
                                assert(replay_evictions_ok(m0, buf@, 0, now, evs + more, 0) == replay_evictions_ok(
                                    before,
                                    buf@,
                                    pos as int,
                                    now,
                                    evs + more,
                                    k,
                                ));
                                lemma_replay_apply(before, buf@, pos as int, end as int, now, evs + more, k, fm);
                            }
                            evs = evs2;
                        }
                        count = count + 1;
                    },
                    Err(_) => {
                        proof {
                            assert forall|more: Seq<Seq<Seq<u8>>>| #[trigger]
                                replay_from(m0, buf@, 0, now, evs + more, 0) == (
                                    replay_from(db@, buf@, end as int, now, evs + more, evs.len()).0,
                                    count_more(
                                        replay_from(db@, buf@, end as int, now, evs + more, evs.len()).1,
                                        count as nat,
                                    ),
                                ) by {
                                lemma_replay_skip(db@, buf@, pos as int, end as int, now, evs + more, evs.len(), fm);
                            }
                            assert forall|more: Seq<Seq<Seq<u8>>>| #[trigger]
                                replay_evictions_ok(m0, buf@, 0, now, evs + more, 0) == replay_evictions_ok(
                                    db@,
                                    buf@,
                                    end as int,
                                    now,
                                    evs + more,
                                    evs.len(),
                                ) by {
                                lemma_replay_skip(db@, buf@, pos as int, end as int, now, evs + more, evs.len(), fm);
                            }
                        }
                    },
                }
                pos = end;
            },
            Err(_) => {
                break;
            },
        }
    }
    proof {
        let e0 = Seq::<Seq<Seq<u8>>>::empty();
        assert(evs + e0 =~= evs);
        let t = replay_from(m0, buf@, 0, now, evs + e0, 0);
        lemma_replay_stop(db@, buf@, pos as int, now, evs + e0, evs.len());
        assert((db@, replay_result(Ok(count))) == replay_from(m0, buf@, 0, now, evs, 0));
        assert(replay_evictions_ok(m0, buf@, 0, now, evs + e0, 0));
        assert(replay_evictions_ok(m0, buf@, 0, now, evs, 0));
    }
    Ok(count)
}

/// Replays the requests recorded in `buf` (the content of an append-only file) and
/// answers how many commands were applied.
pub fn replay(db: &mut Db, buf: &[u8]) -> (r: Result<usize, FrameError>)
    requires
        old(db).wf(),
    ensures
        final(db).wf(),
        exists|now: u64, evs: Seq<Seq<Seq<u8>>>|
            {
                &&& replay_evictions_ok(old(db)@, buf@, 0, now, evs, 0)
                &&& (final(db)@, replay_result(r)) == replay_from(old(db)@, buf@, 0, now, evs, 0)
            },
{
    let now = db.now_millis();
    replay_at(db, buf, now)
}

} // verus!
