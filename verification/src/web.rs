//! The monitoring endpoint: which page or API an HTTP request asks for, the
//! simulated traffic it can start, and the response texts.
use crate::db::{agrees_opt_bytes, copy_bytes, entry_size, evicted_for, eviction_done, is_expired, lemma_put, lemma_remove,
    DataModel, Db, DbModel, EntryModel};
use crate::frame::{split_words, words};
use crate::metrics::{keep_last, lemma_keep_last_push, record_step, wrapping_total, Metrics, LATENCY_BUFFER_SIZE};
use crate::frame_text::{decimal_chars, decimal_string_u64};
use crate::number::{
    decimal_text, digits_of, digits_value, lemma_digits_of_roundtrip, parse_int_text,
    parse_u64_bytes, parse_usize_bytes, parse_usize_text, push_decimal_u64,
};
use vstd::prelude::*;
use vstd::string::{StringExecFns, StringSliceAdditionalSpecFns};
use vstd::wrapping::u64_specs;
use vstd::utf8::{
    decode_utf8, encode_utf8, encode_utf8_decode_utf8, encode_utf8_valid_utf8,
    is_char_boundary_iff_not_is_continuation_byte, valid_utf8,
};

verus! {

// ---------------------------------------------------------------------------
// Requests
// ---------------------------------------------------------------------------
/// What a request asks for.
#[derive(Debug, PartialEq, Eq, Structural)]
pub enum Route {
    /// `GET /`: the dashboard page.
    Dashboard,
    /// `GET /api/metrics`: the metrics as JSON.
    Metrics,
    /// `GET /api/stream`: the metrics as a stream of events.
    Stream,
    /// `GET` or `POST /api/simulate`: simulated traffic of `count` commands, of which
    /// `hit_ratio` percent read existing keys.
    Simulate { count: usize, hit_ratio: u32 },
    /// Anything else.
    NotFound,
}

/// The index of the first `x` in `b`, or `b.len()` where there is none.
pub open spec fn find_byte(b: Seq<u8>, x: u8) -> int
    decreases b.len(),
{
    if b.len() == 0 {
        0
    } else if b[0] == x {
        0
    } else {
        1 + find_byte(b.drop_first(), x)
    }
}

/// `str::lines().next()` on the text with the bytes `b`: nothing for an empty text,
/// else the text up to the first line feed, without a carriage return just before it.
pub open spec fn first_line(b: Seq<u8>) -> Option<Seq<u8>> {
    if b.len() == 0 {
        None
    } else {
        let i = find_byte(b, 10);
        if i < b.len() {
            let l = b.take(i);
            Some(
                if l.len() > 0 && l.last() == 13u8 {
                    l.drop_last()
                } else {
                    l
                },
            )
        } else {
            Some(b)
        }
    }
}

/// The whitespace-separated words of the request's first line, as UTF-8 bytes.
pub open spec fn request_parts(b: Seq<u8>) -> Option<Seq<Seq<u8>>> {
    match first_line(b) {
        None => None,
        Some(l) => Some(words(decode_utf8(l)).map_values(|w: Seq<char>| encode_utf8(w))),
    }
}

/// The path of a request target: what comes before the first `?`.
pub open spec fn uri_path(uri: Seq<u8>) -> Seq<u8> {
    uri.take(find_byte(uri, 63))
}

/// The query of a request target: what follows the first `?`, up to the next one;
/// empty where there is no `?`.
pub open spec fn uri_query(uri: Seq<u8>) -> Seq<u8> {
    let q = find_byte(uri, 63);
    if q < uri.len() {
        let rest = uri.skip(q + 1);
        rest.take(find_byte(rest, 63))
    } else {
        Seq::empty()
    }
}

/// `str::split` at the byte `sep`: the pieces between the separators (at least one).
pub open spec fn split_pieces(b: Seq<u8>, sep: u8) -> Seq<Seq<u8>>
    decreases b.len(),
{
    let i = find_byte(b, sep);
    if i < 0 || i >= b.len() {
        seq![b]
    } else {
        seq![b.take(i)] + split_pieces(b.skip(i + 1), sep)
    }
}

/// `s.parse::<u32>()` on the text `s`.
pub open spec fn parse_u32_text(s: Seq<u8>) -> Option<u32> {
    match parse_int_text(s, false) {
        Some(v) => if v <= u32::MAX {
            Some(v as u32)
        } else {
            None
        },
        None => None,
    }
}

/// One `key=value` pair of the simulation's query applied to the settings so far:
/// `count` or `ops` sets the number of commands (clamped to 10..=50000), `hit_ratio`
/// or `ratio` the percentage of hits (at most 100); a value that is not a number,
/// another key, or a piece without `=` changes nothing.
pub open spec fn apply_param(pair: Seq<u8>, cur: (usize, u32)) -> (usize, u32) {
    let e = find_byte(pair, 61);
    if e >= pair.len() {
        cur
    } else {
        let k = pair.take(e);
        let rest = pair.skip(e + 1);
        let v = rest.take(find_byte(rest, 61));
        if k == encode_utf8("count"@) || k == encode_utf8("ops"@) {
            match parse_usize_text(v) {
                Some(c) => (
                    if c < 10 {
                        10
                    } else if c > 50000 {
                        50000
                    } else {
                        c
                    },
                    cur.1,
                ),
                None => cur,
            }
        } else if k == encode_utf8("hit_ratio"@) || k == encode_utf8("ratio"@) {
            match parse_u32_text(v) {
                Some(r) => (
                    cur.0,
                    if r > 100 {
                        100
                    } else {
                        r
                    },
                ),
                None => cur,
            }
        } else {
            cur
        }
    }
}

/// The simulation's settings from the `&`-separated pairs, in order, starting from
/// 1000 commands and 80 percent hits.
pub open spec fn sim_params(pairs: Seq<Seq<u8>>) -> (usize, u32)
    decreases pairs.len(),
{
    if pairs.len() == 0 {
        (1000, 80)
    } else {
        apply_param(pairs.last(), sim_params(pairs.drop_last()))
    }
}

/// What the request with the bytes `b` asks for; nothing where its first line has
/// fewer than two words (no method and target).
pub open spec fn route_of(b: Seq<u8>) -> Option<Route> {
    match request_parts(b) {
        None => None,
        Some(parts) => if parts.len() < 2 {
            None
        } else {
            let method = parts[0];
            let uri = parts[1];
            let path = uri_path(uri);
            let get = method == encode_utf8("GET"@);
            Some(
                if get && path == encode_utf8("/"@) {
                    Route::Dashboard
                } else if get && path == encode_utf8("/api/metrics"@) {
                    Route::Metrics
                } else if get && path == encode_utf8("/api/stream"@) {
                    Route::Stream
                } else if (get || method == encode_utf8("POST"@)) && path == encode_utf8(
                    "/api/simulate"@,
                ) {
                    let (count, hit_ratio) = sim_params(split_pieces(uri_query(uri), 38));
                    Route::Simulate { count, hit_ratio }
                } else {
                    Route::NotFound
                },
            )
        },
    }
}

proof fn lemma_find_byte(b: Seq<u8>, x: u8)
    ensures
        0 <= find_byte(b, x) <= b.len(),
        find_byte(b, x) < b.len() ==> b[find_byte(b, x)] == x,
        forall|j: int| 0 <= j < find_byte(b, x) ==> b[j] != x,
    decreases b.len(),
{
    if b.len() > 0 && b[0] != x {
        lemma_find_byte(b.drop_first(), x);
        assert forall|j: int| 0 <= j < find_byte(b, x) implies b[j] != x by {
            if j > 0 {
                assert(b[j] == b.drop_first()[j - 1]);
            }
        }
    }
}

proof fn lemma_find_byte_at(b: Seq<u8>, x: u8, i: int)
    requires
        0 <= i <= b.len(),
        forall|j: int| 0 <= j < i ==> b[j] != x,
        i == b.len() || b[i] == x,
    ensures
        find_byte(b, x) == i,
    decreases i,
{
    if i > 0 {
        assert forall|j: int| 0 <= j < i - 1 implies b.drop_first()[j] != x by {
            assert(b.drop_first()[j] == b[j + 1]);
        }
        if i < b.len() {
            assert(b.drop_first()[i - 1] == b[i]);
        }
        lemma_find_byte_at(b.drop_first(), x, i - 1);
    }
}

/// The index of the first `x` in `b` from `from` on, or `b.len()`.
fn find_byte_from(b: &[u8], x: u8, from: usize) -> (r: usize)
    requires
        from <= b@.len(),
    ensures
        r == from + find_byte(b@.skip(from as int), x),
        from <= r <= b@.len(),
{
    let mut i = from;
    while i < b.len()
        invariant_except_break
            from <= i <= b@.len(),
            forall|j: int| from <= j < i ==> b@[j] != x,
        ensures
            from <= i <= b@.len(),
            forall|j: int| from <= j < i ==> b@[j] != x,
            i == b@.len() || b@[i as int] == x,
        decreases b@.len() - i,
    {
        if b[i] == x {
            break;
        }
        i = i + 1;
    }
    proof {
        let s = b@.skip(from as int);
        assert forall|j: int| 0 <= j < i - from implies s[j] != x by {
            assert(s[j] == b@[from + j]);
        }
        if i < b@.len() {
            assert(s[i - from] == b@[i as int]);
        }
        lemma_find_byte_at(s, x, i - from);
    }
    i
}

/// A copy of `b[start..end]`.
fn sub_bytes(b: &[u8], start: usize, end: usize) -> (r: Vec<u8>)
    requires
        start <= end <= b@.len(),
    ensures
        r@ == b@.subrange(start as int, end as int),
{
    let mut r: Vec<u8> = Vec::new();
    let mut i = start;
    while i < end
        invariant
            start <= i <= end <= b@.len(),
            r@ == b@.subrange(start as int, i as int),
        decreases end - i,
    {
        r.push(b[i]);
        i = i + 1;
        assert(r@ =~= b@.subrange(start as int, i as int));
    }
    r
}

/// The first line of `request`, as `str::lines` gives it.
fn request_line(request: &str) -> (r: Option<&str>)
    ensures
        match r {
            Some(l) => first_line(request.spec_bytes()) == Some(l.spec_bytes()),
            None => first_line(request.spec_bytes()) is None,
        },
{
    let b = request.as_bytes();
    if b.len() == 0 {
        return None;
    }
    let i = find_byte_from(b, 10, 0);
    proof {
        assert(b@.skip(0) =~= b@);
        lemma_find_byte(b@, 10);
        encode_utf8_valid_utf8(request@);
    }
    if i == b.len() {
        return Some(request);
    }
    proof {
        is_char_boundary_iff_not_is_continuation_byte(b@, i as int);
    }
    let (head, _) = request.split_at(i);
    let hb = head.as_bytes();
    if hb.len() > 0 && hb[hb.len() - 1] == 13 {
        proof {
            encode_utf8_valid_utf8(head@);
            is_char_boundary_iff_not_is_continuation_byte(hb@, hb@.len() - 1);
        }
        let (h2, _) = head.split_at(hb.len() - 1);
        assert(h2.spec_bytes() =~= hb@.drop_last());
        Some(h2)
    } else {
        Some(head)
    }
}

/// What the request `request` asks for.
pub fn parse_request(request: &str) -> (r: Option<Route>)
    ensures
        r == route_of(request.spec_bytes()),
{
    let line = match request_line(request) {
        Some(l) => l,
        None => return None,
    };
    proof {
        encode_utf8_decode_utf8(line@);
    }
    let parts = split_words(line);
    let ghost ps = words(decode_utf8(line.spec_bytes())).map_values(|w: Seq<char>| encode_utf8(w));
    assert(parts@.len() == ps.len());
    if parts.len() < 2 {
        return None;
    }
    let method = parts[0].as_slice();
    let uri = parts[1].as_slice();
    assert(method@ == ps[0]);
    assert(uri@ == ps[1]);
    let q = find_byte_from(uri, 63, 0);
    proof {
        assert(uri@.skip(0) =~= uri@);
    }
    let path = sub_bytes(uri, 0, q);
    assert(path@ =~= uri_path(uri@));
    let get = crate::db::bytes_eq(method, "GET".as_bytes());
    if get && crate::db::bytes_eq(path.as_slice(), "/".as_bytes()) {
        return Some(Route::Dashboard);
    }
    if get && crate::db::bytes_eq(path.as_slice(), "/api/metrics".as_bytes()) {
        return Some(Route::Metrics);
    }
    if get && crate::db::bytes_eq(path.as_slice(), "/api/stream".as_bytes()) {
        return Some(Route::Stream);
    }
    if (get || crate::db::bytes_eq(method, "POST".as_bytes())) && crate::db::bytes_eq(
        path.as_slice(),
        "/api/simulate".as_bytes(),
    ) {
        let query = if q < uri.len() {
            let e = find_byte_from(uri, 63, q + 1);
            let qb = sub_bytes(uri, q + 1, e);
            proof {
                let rest = uri@.skip(q + 1);
                assert(qb@ =~= rest.take(find_byte(rest, 63)));
            }
            qb
        } else {
            Vec::new()
        };
        assert(query@ =~= uri_query(uri@));
        let (count, hit_ratio) = read_sim_params(query.as_slice());
        return Some(Route::Simulate { count, hit_ratio });
    }
    Some(Route::NotFound)
}

/// One `key=value` pair applied to the simulation's settings.
fn apply_pair(pair: &[u8], cur: (usize, u32)) -> (r: (usize, u32))
    ensures
        r == apply_param(pair@, cur),
{
    let e = find_byte_from(pair, 61, 0);
    proof {
        assert(pair@.skip(0) =~= pair@);
    }
    if e >= pair.len() {
        return cur;
    }
    let k = sub_bytes(pair, 0, e);
    let e2 = find_byte_from(pair, 61, e + 1);
    proof {
        let rest = pair@.skip(e + 1);
        assert(rest.take(find_byte(rest, 61)) =~= pair@.subrange(e + 1, e2 as int));
        assert(k@ =~= pair@.take(e as int));
    }
    let is_count = crate::db::bytes_eq(k.as_slice(), "count".as_bytes()) || crate::db::bytes_eq(
        k.as_slice(),
        "ops".as_bytes(),
    );
    if is_count {
        match parse_usize_bytes(pair, e + 1, e2) {
            Some(c) => {
                let c2 = if c < 10 {
                    10
                } else if c > 50000 {
                    50000
                } else {
                    c
                };
                (c2, cur.1)
            },
            None => cur,
        }
    } else if crate::db::bytes_eq(k.as_slice(), "hit_ratio".as_bytes()) || crate::db::bytes_eq(
        k.as_slice(),
        "ratio".as_bytes(),
    ) {
        match parse_u64_bytes(pair, e + 1, e2) {
            Some(v) => {
                if v <= 0xffff_ffff {
                    let r = v as u32;
                    (
                        cur.0,
                        if r > 100 {
                            100
                        } else {
                            r
                        },
                    )
                } else {
                    cur
                }
            },
            None => cur,
        }
    } else {
        cur
    }
}

/// The simulation's settings from a query: its `&`-separated pairs in order.
fn read_sim_params(query: &[u8]) -> (r: (usize, u32))
    ensures
        r == sim_params(split_pieces(query@, 38)),
{
    let mut cur: (usize, u32) = (1000, 80);
    let mut pos: usize = 0;
    let ghost mut done: Seq<Seq<u8>> = seq![];
    assert(query@.skip(0) =~= query@);
    assert(done + split_pieces(query@, 38) =~= split_pieces(query@, 38));
    loop
        invariant_except_break
            pos <= query@.len(),
            split_pieces(query@, 38) == done + split_pieces(query@.skip(pos as int), 38),
            cur == sim_params(done),
        ensures
            cur == sim_params(split_pieces(query@, 38)),
        decreases query@.len() - pos,
    {
        let i = find_byte_from(query, 38, pos);
        let piece = sub_bytes(query, pos, i);
        let ghost s = query@.skip(pos as int);
        proof {
            lemma_find_byte(s, 38);
            assert(piece@ =~= s.take(find_byte(s, 38)));
        }
        cur = apply_pair(piece.as_slice(), cur);
        proof {
            let d2 = done.push(piece@);
            assert(d2.drop_last() =~= done);
            if i < query@.len() {
                assert(s.skip(find_byte(s, 38) + 1) =~= query@.skip(i + 1));
                assert(split_pieces(s, 38) == seq![s.take(find_byte(s, 38))] + split_pieces(
                    query@.skip(i + 1),
                    38,
                ));
                assert(done + split_pieces(s, 38) =~= d2 + split_pieces(query@.skip(i + 1), 38));
            } else {
                assert(s.take(find_byte(s, 38)) =~= s);
                assert(split_pieces(s, 38) == seq![s]);
                assert(done + split_pieces(s, 38) =~= d2);
            }
            done = d2;
        }
        if i == query.len() {
            break;
        }
        pos = i + 1;
    }
    cur
}

/// What `String::from_utf8_lossy` makes of bytes: the text, with each invalid
/// sequence replaced by U+FFFD.
pub uninterp spec fn utf8_lossy(b: Seq<u8>) -> Seq<char>;

/// `String::from_utf8_lossy`, named `utf8_lossy`; valid UTF-8 comes out as the text
/// it encodes.
#[verifier::external_body]
fn lossy_text(b: &[u8]) -> (r: String)
    ensures
        r@ == utf8_lossy(b@),
        valid_utf8(b@) ==> r@ == decode_utf8(b@),
{
    String::from_utf8_lossy(b).into_owned()
}

/// What the request read into `buf` asks for (its bytes are read as UTF-8, invalid
/// sequences replaced); nothing where its first line lacks a method and a target.
pub fn route_request(buf: &[u8]) -> (r: Option<Route>)
    ensures
        r == route_of(encode_utf8(utf8_lossy(buf@))),
{
    let text = lossy_text(buf);
    parse_request(text.as_str())
}

// ---------------------------------------------------------------------------
// Responses
// ---------------------------------------------------------------------------
/// A `200 OK` response: the content type, the CORS header where `cors`, the body's
/// length in bytes, `Connection: close`, then the body.
pub open spec fn ok_response_text(content_type: Seq<char>, cors: bool, body: Seq<char>) -> Seq<char> {
    "HTTP/1.1 200 OK\r\nContent-Type: "@ + content_type + "\r\n"@ + (if cors {
        "Access-Control-Allow-Origin: *\r\n"@
    } else {
        Seq::empty()
    }) + "Content-Length: "@ + decimal_chars((encode_utf8(body).len() as usize) as int)
        + "\r\nConnection: close\r\n\r\n"@ + body
}

fn ok_response(content_type: &str, cors: bool, body: &str) -> (r: String)
    ensures
        r@ == ok_response_text(content_type@, cors, body@),
{
    let mut out = String::new();
    out.append("HTTP/1.1 200 OK\r\nContent-Type: ");
    out.append(content_type);
    out.append("\r\n");
    if cors {
        out.append("Access-Control-Allow-Origin: *\r\n");
    } else {
        assert(out@ + Seq::<char>::empty() =~= out@);
    }
    out.append("Content-Length: ");
    let n = body.len() as u64;
    let len = decimal_string_u64(n);
    out.append(len.as_str());
    out.append("\r\nConnection: close\r\n\r\n");
    out.append(body);
    out
}

/// The dashboard page as a response.
pub fn html_response(html: &str) -> (r: String)
    ensures
        r@ == ok_response_text("text/html; charset=utf-8"@, false, html@),
{
    ok_response("text/html; charset=utf-8", false, html)
}

/// JSON as a response that any origin may read.
pub fn json_response(json: &str) -> (r: String)
    ensures
        r@ == ok_response_text("application/json; charset=utf-8"@, true, json@),
{
    ok_response("application/json; charset=utf-8", true, json)
}

/// The response to anything else.
pub fn not_found_response() -> (r: String)
    ensures
        r@ == "HTTP/1.1 404 Not Found\r\nContent-Length: "@ + decimal_chars(
            (encode_utf8("404 Not Found"@).len() as usize) as int,
        ) + "\r\nConnection: close\r\n\r\n"@ + "404 Not Found"@,
{
    let body = "404 Not Found";
    let mut out = String::new();
    out.append("HTTP/1.1 404 Not Found\r\nContent-Length: ");
    let len = decimal_string_u64(body.len() as u64);
    out.append(len.as_str());
    out.append("\r\nConnection: close\r\n\r\n");
    out.append(body);
    out
}

/// The JSON answer to a simulation.
pub open spec fn simulation_json(count: usize, hit_ratio: u32, elapsed_ms: u64) -> Seq<char> {
    "{\"status\":\"ok\",\"simulated_ops\":"@ + decimal_chars(count as int) + ",\"target_hit_ratio\":"@
        + decimal_chars(hit_ratio as int) + ",\"elapsed_ms\":"@ + decimal_chars(elapsed_ms as int)
        + "}"@
}

/// The JSON answer to a simulation of `count` commands with `hit_ratio` percent hits
/// that took `elapsed_ms` milliseconds.
pub fn simulation_reply(count: usize, hit_ratio: u32, elapsed_ms: u64) -> (r: String)
    ensures
        r@ == simulation_json(count, hit_ratio, elapsed_ms),
{
    let mut out = String::new();
    out.append("{\"status\":\"ok\",\"simulated_ops\":");
    let c = decimal_string_u64(count as u64);
    out.append(c.as_str());
    out.append(",\"target_hit_ratio\":");
    let h = decimal_string_u64(hit_ratio as u64);
    out.append(h.as_str());
    out.append(",\"elapsed_ms\":");
    let e = decimal_string_u64(elapsed_ms);
    out.append(e.as_str());
    out.append("}");
    out
}

// ---------------------------------------------------------------------------
// Simulated traffic
// ---------------------------------------------------------------------------
/// The bytes of `prefix` followed by the decimal text of `i`.
pub open spec fn numbered(prefix: Seq<char>, i: int) -> Seq<u8> {
    encode_utf8(prefix) + decimal_text(i)
}

/// The `i`-th key that the simulation writes and reads.
pub open spec fn sim_key(i: int) -> Seq<u8> {
    numbered("sim:key:"@, i)
}

/// The value the simulation writes under `sim_key(i)`.
pub open spec fn sim_val(i: int) -> Seq<u8> {
    numbered("sim:val:"@, i)
}

/// The `j`-th key that the simulation reads and never writes.
pub open spec fn sim_miss_key(j: int) -> Seq<u8> {
    numbered("sim:nonexistent:"@, j)
}

/// How many of `count` simulated reads hit: `hit_ratio` percent, rounded down.
pub open spec fn sim_hits(count: usize, hit_ratio: u32) -> int {
    (count * hit_ratio) / 100
}


fn numbered_key(prefix: &str, i: u64) -> (r: Vec<u8>)
    ensures
        r@ == numbered(prefix@, i as int),
{
    let mut v = copy_bytes(prefix.as_bytes());
    push_decimal_u64(&mut v, i);
    v
}

/// `fastrand::u64(lo..hi)`: a random number from `lo` up to, not including, `hi`
/// (the range must not be empty).
#[verifier::external_body]
fn random_u64_in(lo: u64, hi: u64) -> (r: u64)
    requires
        lo < hi,
    ensures
        lo <= r < hi,
{
    fastrand::u64(lo..hi)
}

proof fn lemma_numbered_distinct(p: Seq<char>, i: int, j: int)
    requires
        0 <= i,
        0 <= j,
        i != j,
    ensures
        numbered(p, i) != numbered(p, j),
{
    lemma_digits_of_roundtrip(i as nat);
    lemma_digits_of_roundtrip(j as nat);
    let a = encode_utf8(p);
    if numbered(p, i) == numbered(p, j) {
        assert(numbered(p, i).skip(a.len() as int) =~= digits_of(i as nat));
        assert(numbered(p, j).skip(a.len() as int) =~= digits_of(j as nat));
    }
}

proof fn lemma_sim_keys_differ(i: int, j: int)
    requires
        0 <= i,
        0 <= j,
    ensures
        sim_key(i) != sim_miss_key(j),
{
    reveal_strlit("sim:key:");
    reveal_strlit("sim:nonexistent:");
    vstd::utf8::is_ascii_chars_encode_utf8("sim:key:"@);
    vstd::utf8::is_ascii_chars_encode_utf8("sim:nonexistent:"@);
    assert(sim_key(i)[4] == encode_utf8("sim:key:"@)[4]);
    assert(sim_miss_key(j)[4] == encode_utf8("sim:nonexistent:"@)[4]);
}

/// What SET with no expiry does to lookups.
proof fn lemma_store_effect(m: DbModel, key: Seq<u8>, v: Seq<u8>, now: u64)
    requires
        m.wf(),
    ensures
        m.store_string(key, v, None, now).wf(),
        m.store_string(key, v, None, now).maxmemory == m.maxmemory,
        m.store_string(key, v, None, now).lookup(key) == Some(
            EntryModel { data: DataModel::String(v), expires_at: None, last_accessed: now },
        ),
        forall|k: Seq<u8>| k != key ==> #[trigger] m.store_string(key, v, None, now).lookup(k) == m.lookup(k),
{
    let e = EntryModel { data: DataModel::String(v), expires_at: None, last_accessed: now };
    lemma_put(m, key, e, key);
    assert forall|k: Seq<u8>| k != key implies #[trigger] m.store_string(key, v, None, now).lookup(k)
        == m.lookup(k) by {
        lemma_put(m, key, e, k);
    }
}

/// What GET does to lookups: only the key read changes, and a live one only in its
/// last use.
proof fn lemma_get_effect(m: DbModel, key: Seq<u8>, now: u64)
    requires
        m.wf(),
    ensures
        m.get_op(key, now).0.wf(),
        m.get_op(key, now).0.maxmemory == m.maxmemory,
        forall|k: Seq<u8>| k != key ==> #[trigger] m.get_op(key, now).0.lookup(k) == m.lookup(k),
        m.lookup(key) matches Some(e) ==> (!is_expired(e, now) ==> m.get_op(key, now).0.lookup(key)
            == Some(EntryModel { last_accessed: now, ..e })),
{
    match m.lookup(key) {
        None => {},
        Some(e) => {
            if is_expired(e, now) {
                lemma_remove(m, key, key);
                assert forall|k: Seq<u8>| k != key implies #[trigger] m.get_op(key, now).0.lookup(k)
                    == m.lookup(k) by {
                    lemma_remove(m, key, k);
                }
            } else {
                let t = EntryModel { last_accessed: now, ..e };
                crate::laws::lemma_lookup_wf(m, key);
                lemma_put(m, key, t, key);
                assert forall|k: Seq<u8>| k != key implies #[trigger] m.get_op(key, now).0.lookup(k)
                    == m.lookup(k) by {
                    lemma_put(m, key, t, k);
                }
            }
        },
    }
}

/// A run of recorded commands: `lat` are their latencies, in order.
pub open spec fn recorded(before: Metrics, after: Metrics, lat: Seq<u64>) -> bool {
    &&& after == (Metrics {
        total_commands: u64_specs::wrapping_add(before.total_commands, lat.len() as u64),
        latency_count: u64_specs::wrapping_add(before.latency_count, lat.len() as u64),
        total_latency_us: u64_specs::wrapping_add(before.total_latency_us, wrapping_total(lat)),
        recent_latencies: after.recent_latencies,
        ..before
    })
    &&& after.recent_latencies@ == keep_last(before.recent_latencies@ + lat)
    &&& forall|i: int| 0 <= i < lat.len() ==> 5 <= #[trigger] lat[i] < 40
}

proof fn lemma_recorded_step(before: Metrics, mid: Metrics, after: Metrics, lat: Seq<u64>, d: u64)
    requires
        before.wf(),
        recorded(before, mid, lat),
        lat.len() < 100000,
        5 <= d < 40,
        record_step(mid, after, d),
    ensures
        recorded(before, after, lat.push(d)),
{
    let l2 = lat.push(d);
    assert(l2.drop_last() =~= lat);
    assert((before.recent_latencies@ + lat).push(d) =~= before.recent_latencies@ + l2);
    assert(keep_last(before.recent_latencies@ + lat).len() <= LATENCY_BUFFER_SIZE);
    lemma_keep_last_push(before.recent_latencies@ + lat, d);
    assert forall|i: int| 0 <= i < l2.len() implies 5 <= #[trigger] l2[i] < 40 by {
        if i < lat.len() {
            assert(l2[i] == lat[i]);
        }
    }
}

/// `sim_key(i)` holds `sim_val(i)`, with no expiry.
pub open spec fn sim_holds(m: DbModel, i: int) -> bool {
    m.lookup(sim_key(i)) matches Some(e) && e.data == DataModel::String(sim_val(i))
        && e.expires_at is None
}

/// The database after the simulation's first `evs.len()` writes, the `i`-th writing
/// `sim_val(i)` under `sim_key(i)` at `nows[i]`, after evicting `evs[i]`.
pub open spec fn sim_written(m: DbModel, evs: Seq<Seq<Seq<u8>>>, nows: Seq<u64>) -> DbModel
    decreases evs.len(),
{
    if evs.len() == 0 {
        m
    } else {
        let i = evs.len() - 1;
        sim_written(m, evs.drop_last(), nows.drop_last()).remove_all(evs[i]).store_string(
            sim_key(i),
            sim_val(i),
            None,
            nows[i],
        )
    }
}

/// Each of those writes evicted as SET does: only while its entry did not fit under
/// the limit, and until it fit or no candidate was left.
pub open spec fn sim_evictions_ok(m: DbModel, evs: Seq<Seq<Seq<u8>>>, nows: Seq<u64>) -> bool
    decreases evs.len(),
{
    if evs.len() == 0 {
        true
    } else {
        let i = evs.len() - 1;
        let p = sim_written(m, evs.drop_last(), nows.drop_last());
        let size = entry_size(sim_key(i), DataModel::String(sim_val(i)));
        &&& sim_evictions_ok(m, evs.drop_last(), nows.drop_last())
        &&& evicted_for(p, evs[i], size)
        &&& eviction_done(p.remove_all(evs[i]), size)
    }
}

/// The key of the simulation's `j`-th read, where the first `hits` reads hit.
pub open spec fn sim_read_key(j: int, hits: int) -> Seq<u8> {
    if j < hits {
        sim_key(j % 100)
    } else {
        sim_miss_key(j - hits)
    }
}

/// The database after the simulation's first `nows.len()` reads, the `j`-th at `nows[j]`.
pub open spec fn sim_read(m: DbModel, nows: Seq<u64>, hits: int) -> DbModel
    decreases nows.len(),
{
    if nows.len() == 0 {
        m
    } else {
        let j = nows.len() - 1;
        sim_read(m, nows.drop_last(), hits).get_op(sim_read_key(j, hits), nows[j]).0
    }
}

/// Simulated traffic: writes `sim:key:0` to `sim:key:99` (with the values `sim:val:0`
/// to `sim:val:99`), then reads `count` keys, the first `hit_ratio` percent of them
/// (rounded down) among those (`sim:key:{j % 100}` for the j-th) and the rest
/// `sim:nonexistent:{j}`, recording each read as a command with a random latency of 5
/// to 39 microseconds. Each write evicts as SET does, and the database afterwards is
/// what those writes and reads leave, at the times they ran. Where there is no memory
/// limit, the written keys hold their values afterwards and no other key changes.
pub fn simulate(db: &mut Db, metrics: &mut Metrics, count: usize, hit_ratio: u32)
    requires
        old(db).wf(),
        old(metrics).wf(),
        count <= 50000,
        hit_ratio <= 100,
    ensures
        final(db).wf(),
        final(metrics).wf(),
        exists|lat: Seq<u64>| lat.len() == count && recorded(*old(metrics), *final(metrics), lat),
        exists|evs: Seq<Seq<Seq<u8>>>, wnows: Seq<u64>, rnows: Seq<u64>|
            {
                &&& evs.len() == 100
                &&& wnows.len() == 100
                &&& rnows.len() == count
                &&& sim_evictions_ok(old(db)@, evs, wnows)
                &&& final(db)@ == sim_read(
                    sim_written(old(db)@, evs, wnows),
                    rnows,
                    sim_hits(count, hit_ratio),
                )
            },
        old(db)@.maxmemory == 0 ==> forall|i: int| 0 <= i < 100 ==> #[trigger] sim_holds(final(db)@, i),
        old(db)@.maxmemory == 0 ==> forall|k: Seq<u8>|
            (forall|i: int| 0 <= i < 100 ==> k != #[trigger] sim_key(i)) && (forall|j: int|
                0 <= j < count - sim_hits(count, hit_ratio) ==> k != #[trigger] sim_miss_key(j))
                ==> #[trigger] final(db)@.lookup(k) == old(db)@.lookup(k),
{
    let ghost m0 = db@;
    let ghost k0 = *metrics;
    let ghost free = m0.maxmemory == 0;
    let ghost mut evs: Seq<Seq<Seq<u8>>> = seq![];
    let ghost mut wnows: Seq<u64> = seq![];
    let mut i: u64 = 0;
    while i < 100
        invariant
            i <= 100,
            db.wf(),
            *metrics == k0,
            evs.len() == i,
            wnows.len() == i,
            sim_evictions_ok(m0, evs, wnows),
            db@ == sim_written(m0, evs, wnows),
            free == (m0.maxmemory == 0),
            free ==> db@.maxmemory == 0,
            free ==> forall|ii: int| 0 <= ii < i ==> #[trigger] sim_holds(db@, ii),
            free ==> forall|k: Seq<u8>|
                (forall|ii: int| 0 <= ii < i ==> k != #[trigger] sim_key(ii)) ==> #[trigger] db@.lookup(k)
                    == m0.lookup(k),
        decreases 100 - i,
    {
        let k = numbered_key("sim:key:", i);
        let v = numbered_key("sim:val:", i);
        let ghost before = db@;
        db.set(k, v, None);
        proof {
            let size = entry_size(sim_key(i as int), DataModel::String(sim_val(i as int)));
            let (ev, t) = choose|ev: Seq<Seq<u8>>, t: u64|
                {
                    &&& db@ == before.remove_all(ev).store_string(
                        sim_key(i as int),
                        sim_val(i as int),
                        None,
                        t,
                    )
                    &&& evicted_for(before, ev, size)
                    &&& eviction_done(before.remove_all(ev), size)
                };
            let evs2 = evs.push(ev);
            let wnows2 = wnows.push(t);
            assert(evs2.drop_last() =~= evs);
            assert(wnows2.drop_last() =~= wnows);
            assert(db@ == sim_written(m0, evs2, wnows2));
            assert(sim_evictions_ok(m0, evs2, wnows2));
            evs = evs2;
            wnows = wnows2;
            if free {
                let now = choose|now: u64|
                    db@ == before.store_string(sim_key(i as int), sim_val(i as int), None, now);
                lemma_store_effect(before, sim_key(i as int), sim_val(i as int), now);
                assert forall|ii: int| 0 <= ii < i + 1 implies #[trigger] sim_holds(db@, ii) by {
                    if ii < i {
                        lemma_numbered_distinct("sim:key:"@, ii, i as int);
                        assert(sim_holds(before, ii));
                    }
                }
                assert forall|kk: Seq<u8>|
                    (forall|ii: int| 0 <= ii < i + 1 ==> kk != #[trigger] sim_key(ii)) implies #[trigger] db@.lookup(kk)
                    == m0.lookup(kk) by {
                    assert(kk != sim_key(i as int));
                    assert(before.lookup(kk) == m0.lookup(kk));
                }
            }
        }
        i = i + 1;
    }
    assert(count * (hit_ratio as usize) <= 5000000) by (nonlinear_arith)
        requires
            count <= 50000,
            hit_ratio <= 100,
    ;
    let hits = (count * (hit_ratio as usize)) / 100;
    assert(hits <= count) by (nonlinear_arith)
        requires
            hits == (count * (hit_ratio as usize)) / 100,
            hit_ratio <= 100,
    ;
    let ghost mut lat: Seq<u64> = seq![];
    assert(k0.recent_latencies@ + lat =~= k0.recent_latencies@);
    assert(*metrics == (Metrics {
        total_commands: u64_specs::wrapping_add(k0.total_commands, 0),
        latency_count: u64_specs::wrapping_add(k0.latency_count, 0),
        total_latency_us: u64_specs::wrapping_add(k0.total_latency_us, wrapping_total(lat)),
        recent_latencies: metrics.recent_latencies,
        ..k0
    }));
    let ghost written = db@;
    let ghost mut rnows: Seq<u64> = seq![];
    let mut j: usize = 0;
    while j < hits
        invariant
            j <= hits <= count <= 50000,
            rnows.len() == j,
            db@ == sim_read(written, rnows, hits as int),
            hits == sim_hits(count, hit_ratio),
            db.wf(),
            metrics.wf(),
            k0.wf(),
            lat.len() == j,
            recorded(k0, *metrics, lat),
            free == (m0.maxmemory == 0),
            free ==> db@.maxmemory == 0,
            free ==> forall|ii: int| 0 <= ii < 100 ==> #[trigger] sim_holds(db@, ii),
            free ==> forall|k: Seq<u8>|
                (forall|ii: int| 0 <= ii < 100 ==> k != #[trigger] sim_key(ii)) ==> #[trigger] db@.lookup(k)
                    == m0.lookup(k),
        decreases hits - j,
    {
        let key = numbered_key("sim:key:", (j % 100) as u64);
        let ghost before = db@;
        let got = db.get(key.as_slice());
        proof {
            let t = choose|t: u64|
                db@ == before.get_op(key@, t).0 && agrees_opt_bytes(got, before.get_op(key@, t).1);
            let rnows2 = rnows.push(t);
            assert(rnows2.drop_last() =~= rnows);
            assert(key@ == sim_read_key(j as int, hits as int));
            assert(db@ == sim_read(written, rnows2, hits as int));
            rnows = rnows2;
            if free {
                let now = choose|now: u64|
                    db@ == before.get_op(key@, now).0 && agrees_opt_bytes(
                        got,
                        before.get_op(key@, now).1,
                    );
                lemma_get_effect(before, key@, now);
                let h = (j % 100) as int;
                assert(key@ == sim_key(h));
                assert(sim_holds(before, h));
                assert forall|ii: int| 0 <= ii < 100 implies #[trigger] sim_holds(db@, ii) by {
                    assert(sim_holds(before, ii));
                    if ii != h {
                        lemma_numbered_distinct("sim:key:"@, ii, h);
                    }
                }
                assert forall|kk: Seq<u8>|
                    (forall|ii: int| 0 <= ii < 100 ==> kk != #[trigger] sim_key(ii)) implies #[trigger] db@.lookup(kk)
                    == m0.lookup(kk) by {
                    assert(kk != sim_key(h));
                    assert(before.lookup(kk) == m0.lookup(kk));
                }
            }
        }
        let d = random_u64_in(5, 40);
        let ghost mid = *metrics;
        metrics.record_command(d);
        proof {
            lemma_recorded_step(k0, mid, *metrics, lat, d);
            lat = lat.push(d);
        }
        j = j + 1;
    }
    let misses = count - hits;
    let mut j: usize = 0;
    while j < misses
        invariant
            j <= misses,
            rnows.len() == hits + j,
            db@ == sim_read(written, rnows, hits as int),
            misses == count - hits,
            hits == sim_hits(count, hit_ratio),
            hits <= count <= 50000,
            db.wf(),
            metrics.wf(),
            k0.wf(),
            lat.len() == hits + j,
            recorded(k0, *metrics, lat),
            free == (m0.maxmemory == 0),
            free ==> db@.maxmemory == 0,
            free ==> forall|ii: int| 0 <= ii < 100 ==> #[trigger] sim_holds(db@, ii),
            free ==> forall|k: Seq<u8>|
                (forall|ii: int| 0 <= ii < 100 ==> k != #[trigger] sim_key(ii)) && (forall|jj: int|
                    0 <= jj < j ==> k != #[trigger] sim_miss_key(jj)) ==> #[trigger] db@.lookup(k)
                    == m0.lookup(k),
        decreases misses - j,
    {
        let key = numbered_key("sim:nonexistent:", j as u64);
        let ghost before = db@;
        let got = db.get(key.as_slice());
        proof {
            let t = choose|t: u64|
                db@ == before.get_op(key@, t).0 && agrees_opt_bytes(got, before.get_op(key@, t).1);
            let rnows2 = rnows.push(t);
            assert(rnows2.drop_last() =~= rnows);
            assert(key@ == sim_read_key((hits + j) as int, hits as int));
            assert(db@ == sim_read(written, rnows2, hits as int));
            rnows = rnows2;
            if free {
                let now = choose|now: u64|
                    db@ == before.get_op(key@, now).0 && agrees_opt_bytes(
                        got,
                        before.get_op(key@, now).1,
                    );
                lemma_get_effect(before, key@, now);
                assert(key@ == sim_miss_key(j as int));
                assert forall|ii: int| 0 <= ii < 100 implies #[trigger] sim_holds(db@, ii) by {
                    assert(sim_holds(before, ii));
                    lemma_sim_keys_differ(ii, j as int);
                }
                assert forall|kk: Seq<u8>|
                    (forall|ii: int| 0 <= ii < 100 ==> kk != #[trigger] sim_key(ii)) && (forall|jj: int|
                        0 <= jj < j + 1 ==> kk != #[trigger] sim_miss_key(jj)) implies #[trigger] db@.lookup(kk)
                    == m0.lookup(kk) by {
                    assert(kk != sim_miss_key(j as int));
                    assert(before.lookup(kk) == m0.lookup(kk));
                }
            }
        }
        let d = random_u64_in(5, 40);
        let ghost mid = *metrics;
        metrics.record_command(d);
        proof {
            lemma_recorded_step(k0, mid, *metrics, lat, d);
            lat = lat.push(d);
        }
        j = j + 1;
    }
}

proof fn lemma_sim_params_bounds(pairs: Seq<Seq<u8>>)
    ensures
        10 <= sim_params(pairs).0 <= 50000,
        sim_params(pairs).1 <= 100,
    decreases pairs.len(),
{
    if pairs.len() > 0 {
        lemma_sim_params_bounds(pairs.drop_last());
    }
}

/// Every simulation a request can ask for runs 10 to 50000 commands with at most 100
/// percent hits, within what `simulate` takes.
pub proof fn law_simulation_settings_bounded(b: Seq<u8>)
    ensures
        route_of(b) matches Some(Route::Simulate { count, hit_ratio }) ==> 10 <= count <= 50000
            && hit_ratio <= 100,
{
    if let Some(parts) = request_parts(b) {
        if parts.len() >= 2 {
            lemma_sim_params_bounds(split_pieces(uri_query(parts[1]), 38));
        }
    }
}

} // verus!
