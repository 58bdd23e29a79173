//! Human-readable byte sizes, as the reports print them.
//!
//! A size of a kibibyte or more is printed in the largest binary unit that it
//! reaches, with two decimals: the count is taken as the nearest double, divided by
//! the unit, and rounded to hundredths, ties to the even digit. All of it is done
//! here in exact integer arithmetic.
use crate::frame::{split_words, words};
use crate::frame_text::{decimal_chars, decimal_string};
use crate::number::{parse_u64_bytes, parse_u64_text};
use vstd::arithmetic::div_mod::{lemma_div_denominator, lemma_fundamental_div_mod};
use vstd::prelude::*;
use vstd::string::{StringExecFns, StringSliceAdditionalSpecFns};
use vstd::utf8::{decode_utf8, encode_utf8, encode_utf8_decode_utf8, is_char_boundary};
use vstd::wrapping::{i64_specs, u64_specs};

verus! {

/// Bytes in a kibibyte.
pub const KB: u64 = 1024;

/// Bytes in a mebibyte.
pub const MB: u64 = 1048576;

/// Bytes in a gibibyte.
pub const GB: u64 = 1073741824;

/// Counts below this are held exactly by a double (53 bits of mantissa).
pub open spec fn exact_limit() -> nat {
    0x20_0000_0000_0000
}

/// The spacing of the doubles around `b`: 1 below 2^53, doubled with each bit above.
pub open spec fn double_step(b: nat) -> nat
    decreases b,
{
    if b < exact_limit() {
        1
    } else {
        2 * double_step(b / 2)
    }
}

/// `n / d` rounded to the nearest integer, ties to the even one.
pub open spec fn round_half_even(n: nat, d: nat) -> nat {
    let q = n / d;
    let r = n % d;
    if 2 * r > d || (2 * r == d && q % 2 == 1) {
        q + 1
    } else {
        q
    }
}

/// The double nearest to `b`, ties to the even mantissa: what `b as f64` holds.
pub open spec fn nearest_double(b: nat) -> nat {
    round_half_even(b, double_step(b)) * double_step(b)
}

/// `b` as a double, in units of `unit`, rounded to hundredths (ties to even).
pub open spec fn hundredths(b: nat, unit: nat) -> nat {
    round_half_even(nearest_double(b) * 100, unit)
}

/// A number of hundredths, written with two decimals.
pub open spec fn two_decimals(h: nat) -> Seq<char> {
    decimal_chars((h / 100) as int) + "."@ + decimal_chars(((h % 100) / 10) as int)
        + decimal_chars((h % 10) as int)
}

/// The human-readable size of `bytes`: `B` below a kibibyte, else two decimals in
/// the largest of `KB`, `MB`, `GB` that it reaches.
pub open spec fn human_bytes(bytes: u64) -> Seq<char> {
    if bytes >= GB {
        two_decimals(hundredths(bytes as nat, GB as nat)) + " GB"@
    } else if bytes >= MB {
        two_decimals(hundredths(bytes as nat, MB as nat)) + " MB"@
    } else if bytes >= KB {
        two_decimals(hundredths(bytes as nat, KB as nat)) + " KB"@
    } else {
        decimal_chars(bytes as int) + " B"@
    }
}

/// `n / d`, rounded to the nearest integer, ties to even.
fn round_half_even_exec(n: u128, d: u128) -> (r: u128)
    requires
        d > 0,
        n < 0x1_0000_0000_0000_0000_0000_0000,
    ensures
        r == round_half_even(n as nat, d as nat),
        r <= n as nat / d as nat + 1,
{
    let q = n / d;
    let r = n % d;
    if r > d - r || (r == d - r && q % 2 == 1) {
        q + 1
    } else {
        q
    }
}

/// The count as the nearest double holds it.
fn nearest_double_exec(bytes: u64) -> (f: u128)
    ensures
        f == nearest_double(bytes as nat),
        f <= bytes as nat + 0x1000,
{
    let mut t: u64 = bytes;
    let mut step: u64 = 1;
    while t >= 0x20_0000_0000_0000
        invariant
            1 <= step < 0x1000,
            step * t <= bytes,
            t == bytes as nat / step as nat,
            double_step(bytes as nat) == step * double_step(t as nat),
        decreases t,
    {
        proof {
            lemma_div_denominator(bytes as int, step as int, 2);
            assert(step * 2 * (t / 2) <= step * t) by (nonlinear_arith)
                requires
                    step >= 1,
            ;
            assert(step < 0x800) by (nonlinear_arith)
                requires
                    step * t <= bytes,
                    t >= 0x20_0000_0000_0000,
                    bytes <= u64::MAX,
            ;
            assert(step * double_step(t as nat) == (step * 2) * double_step((t / 2) as nat))
                by (nonlinear_arith)
                requires
                    double_step(t as nat) == 2 * double_step((t / 2) as nat),
            ;
        }
        t = t / 2;
        step = step * 2;
    }
    proof {
        assert(double_step(t as nat) == 1);
        assert(double_step(bytes as nat) == step as nat) by (nonlinear_arith)
            requires
                double_step(bytes as nat) == step * double_step(t as nat),
                double_step(t as nat) == 1,
        ;
    }
    let q = round_half_even_exec(bytes as u128, step as u128);
    proof {
        lemma_fundamental_div_mod(bytes as int, step as int);
        assert(q * step <= bytes + step) by (nonlinear_arith)
            requires
                q <= bytes as nat / step as nat + 1,
                bytes == step * (bytes as nat / step as nat) + bytes as nat % step as nat,
                bytes as nat % step as nat >= 0,
                step >= 1,
        ;
    }
    let f = q * (step as u128);
    assert(f == nearest_double(bytes as nat));
    f
}

/// The count in units of `unit`, rounded to hundredths.
fn hundredths_exec(bytes: u64, unit: u64) -> (h: u128)
    requires
        unit >= KB,
    ensures
        h == hundredths(bytes as nat, unit as nat),
        h < 0x4000_0000_0000_0000,
{
    let f = nearest_double_exec(bytes);
    let h = round_half_even_exec(f * 100, unit as u128);
    proof {
        assert((f * 100) as nat / unit as nat <= (f * 100) as nat / 1024) by {
            vstd::arithmetic::div_mod::lemma_div_is_ordered_by_denominator(
                (f * 100) as int,
                1024,
                unit as int,
            );
        }
    }
    h
}

/// `h` hundredths, written with two decimals.
fn two_decimals_string(h: u128) -> (s: String)
    requires
        h < 0x4000_0000_0000_0000,
    ensures
        s@ == two_decimals(h as nat),
{
    let mut s = decimal_string((h / 100) as i64);
    s.append(".");
    let tenths = decimal_string(((h % 100) / 10) as i64);
    s.append(tenths.as_str());
    let last = decimal_string((h % 10) as i64);
    s.append(last.as_str());
    s
}

/// Writes a byte count for people: `"512 B"`, `"1.50 KB"`, `"2.00 GB"`.
pub fn format_human_bytes(bytes: u64) -> (s: String)
    ensures
        s@ == human_bytes(bytes),
{
    if bytes >= GB {
        let mut s = two_decimals_string(hundredths_exec(bytes, GB));
        s.append(" GB");
        s
    } else if bytes >= MB {
        let mut s = two_decimals_string(hundredths_exec(bytes, MB));
        s.append(" MB");
        s
    } else if bytes >= KB {
        let mut s = two_decimals_string(hundredths_exec(bytes, KB));
        s.append(" KB");
        s
    } else {
        let mut s = decimal_string(bytes as i64);
        s.append(" B");
        s
    }
}


// ---------------------------------------------------------------------------
// Counters
// ---------------------------------------------------------------------------
/// How many recent command latencies are kept for the percentiles.
pub const LATENCY_BUFFER_SIZE: usize = 2048;

/// The order statistics of the recent command latencies, in microseconds.
pub struct LatencyStats {
    pub min_us: u64,
    pub max_us: u64,
    /// The samples added up (wrapping at 2^64); the mean is this over `count`.
    pub sum_us: u64,
    pub count: u64,
    pub p50_us: u64,
    pub p95_us: u64,
    pub p99_us: u64,
}

/// The server's counters. Each counter wraps around as an atomic one does.
pub struct Metrics {
    pub hits: u64,
    pub misses: u64,
    pub total_commands: u64,
    pub ops_per_sec: u64,
    pub total_latency_us: u64,
    pub latency_count: u64,
    /// The recent command latencies, oldest first.
    pub recent_latencies: Vec<u64>,
    pub connected_clients: i64,
    pub peak_clients: usize,
    pub total_connections: u64,
    pub connection_errors: u64,
    pub evicted_keys: u64,
    pub expired_keys: u64,
    /// CPU use in hundredths of a percent (1250 is 12.50%).
    pub cpu_percent_scaled: u32,
    pub rss_memory_bytes: u64,
    pub last_total_commands: u64,
    pub last_cpu_jiffies: u64,
}

/// `s` in ascending order.
pub open spec fn ascending(s: Seq<u64>) -> bool {
    forall|i: int, j: int| 0 <= i <= j < s.len() ==> s[i] <= s[j]
}

/// `t` holds the numbers of `s`, each as often, in ascending order.
pub open spec fn sorts(t: Seq<u64>, s: Seq<u64>) -> bool {
    ascending(t) && t.to_multiset() == s.to_multiset()
}

/// The numbers of `s` in ascending order.
pub open spec fn sorted(s: Seq<u64>) -> Seq<u64> {
    choose|t: Seq<u64>| sorts(t, s)
}

/// The numbers of `s` added up, wrapping at 2^64.
pub open spec fn wrapping_total(s: Seq<u64>) -> u64
    decreases s.len(),
{
    if s.len() == 0 {
        0
    } else {
        u64_specs::wrapping_add(wrapping_total(s.drop_last()), s.last())
    }
}

/// The `per`-th percentile of ascending samples `t`, by index `len * per / 100`.
pub open spec fn percentile(t: Seq<u64>, per: int) -> u64 {
    t[t.len() * per / 100]
}

/// Two ascending arrangements of the same numbers are the same sequence.
pub proof fn lemma_sorts_unique(a: Seq<u64>, b: Seq<u64>, s: Seq<u64>)
    requires
        sorts(a, s),
        sorts(b, s),
    ensures
        a == b,
    decreases a.len(),
{
    a.to_multiset_ensures();
    b.to_multiset_ensures();
    if a.len() == 0 {
        assert(b.len() == 0);
        assert(a =~= b);
    } else {
        assert(b.len() == a.len());
        assert(a.contains(a[0]));
        assert(b.to_multiset().count(a[0]) > 0);
        let j = choose|j: int| 0 <= j < b.len() && b[j] == a[0];
        assert(b.contains(b[0]));
        assert(a.to_multiset().count(b[0]) > 0);
        let i = choose|i: int| 0 <= i < a.len() && a[i] == b[0];
        assert(a[0] == b[0]);
        vstd::seq_lib::to_multiset_remove(a, 0);
        vstd::seq_lib::to_multiset_remove(b, 0);
        let ra = a.remove(0);
        let rb = b.remove(0);
        assert(ascending(ra));
        assert(ascending(rb));
        lemma_sorts_unique(ra, rb, ra);
        assert(a =~= seq![a[0]] + ra);
        assert(b =~= seq![b[0]] + rb);
    }
}

/// `<[u64]>::sort_unstable`: the same numbers, each as often, in ascending order.
#[verifier::external_body]
fn sort_ascending(v: &mut Vec<u64>)
    ensures
        ascending(final(v)@),
        final(v)@.to_multiset() == old(v)@.to_multiset(),
{
    v.sort_unstable();
}

/// The last `LATENCY_BUFFER_SIZE` items of `s`.
pub open spec fn keep_last(s: Seq<u64>) -> Seq<u64> {
    if s.len() <= LATENCY_BUFFER_SIZE {
        s
    } else {
        s.skip(s.len() - LATENCY_BUFFER_SIZE)
    }
}

pub proof fn lemma_keep_last_push(s: Seq<u64>, d: u64)
    requires
        keep_last(s).len() <= LATENCY_BUFFER_SIZE,
    ensures
        keep_last(keep_last(s).push(d)) == keep_last(s.push(d)),
        keep_last(s.push(d)) == if keep_last(s).len() >= LATENCY_BUFFER_SIZE {
            keep_last(s).drop_first().push(d)
        } else {
            keep_last(s).push(d)
        },
{
    if s.len() > LATENCY_BUFFER_SIZE {
        assert(keep_last(s).push(d).skip(1) =~= s.push(d).skip(s.push(d).len() - LATENCY_BUFFER_SIZE));
        assert(keep_last(s).drop_first().push(d) =~= keep_last(s).push(d).skip(1));
    } else if s.len() == LATENCY_BUFFER_SIZE {
        assert(s.drop_first().push(d) =~= s.push(d).skip(1));
    }
}

/// One `record_command(d)` call took the metrics from `before` to `after`.
pub open spec fn record_step(before: Metrics, after: Metrics, d: u64) -> bool {
    &&& after == (Metrics {
        total_commands: u64_specs::wrapping_add(before.total_commands, 1),
        total_latency_us: u64_specs::wrapping_add(before.total_latency_us, d),
        latency_count: u64_specs::wrapping_add(before.latency_count, 1),
        recent_latencies: after.recent_latencies,
        ..before
    })
    &&& after.recent_latencies@ == if before.recent_latencies@.len() >= LATENCY_BUFFER_SIZE {
        before.recent_latencies@.drop_first().push(d)
    } else {
        before.recent_latencies@.push(d)
    }
}

/// Over any run of `record_command` calls, the `i`-th recording `lat[i]` and taking the
/// metrics from `ms[i]` to `ms[i + 1]`, the recent latencies are the last
/// `LATENCY_BUFFER_SIZE` of those held before followed by the new ones, oldest first,
/// and the buffer never grows past that size.
pub proof fn law_recent_latencies(ms: Seq<Metrics>, lat: Seq<u64>)
    requires
        ms.len() == lat.len() + 1,
        ms[0].wf(),
        forall|i: int| 0 <= i < lat.len() ==> record_step(#[trigger] ms[i], ms[i + 1], lat[i]),
    ensures
        ms.last().recent_latencies@ == keep_last(ms[0].recent_latencies@ + lat),
        ms.last().wf(),
    decreases lat.len(),
{
    if lat.len() == 0 {
        assert(ms[0].recent_latencies@ + lat =~= ms[0].recent_latencies@);
    } else {
        let n = lat.len() - 1;
        let ms2 = ms.drop_last();
        let lat2 = lat.drop_last();
        assert forall|i: int| 0 <= i < lat2.len() implies record_step(#[trigger] ms2[i], ms2[i + 1], lat2[i]) by {
            assert(record_step(ms[i], ms[i + 1], lat[i]));
        }
        law_recent_latencies(ms2, lat2);
        assert(ms2.last() == ms[n]);
        assert(record_step(ms[n], ms[n + 1], lat[n]));
        let s = ms[0].recent_latencies@ + lat2;
        lemma_keep_last_push(s, lat[n]);
        assert(s.push(lat[n]) =~= ms[0].recent_latencies@ + lat);
    }
}

impl Metrics {
    /// At most `LATENCY_BUFFER_SIZE` recent latencies are kept.
    pub open spec fn wf(&self) -> bool {
        self.recent_latencies@.len() <= LATENCY_BUFFER_SIZE
    }

    /// Counters at zero, no latencies, and `cpu_jiffies` as the CPU time seen so far.
    pub fn new(cpu_jiffies: u64) -> (r: Metrics)
        ensures
            r.wf(),
            r.recent_latencies@ == Seq::<u64>::empty(),
            r.hits == 0 && r.misses == 0 && r.total_commands == 0 && r.ops_per_sec == 0,
            r.total_latency_us == 0 && r.latency_count == 0,
            r.connected_clients == 0 && r.peak_clients == 0 && r.total_connections == 0,
            r.connection_errors == 0 && r.evicted_keys == 0 && r.expired_keys == 0,
            r.cpu_percent_scaled == 0 && r.rss_memory_bytes == 0,
            r.last_total_commands == 0 && r.last_cpu_jiffies == cpu_jiffies,
    {
        Metrics {
            hits: 0,
            misses: 0,
            total_commands: 0,
            ops_per_sec: 0,
            total_latency_us: 0,
            latency_count: 0,
            recent_latencies: Vec::new(),
            connected_clients: 0,
            peak_clients: 0,
            total_connections: 0,
            connection_errors: 0,
            evicted_keys: 0,
            expired_keys: 0,
            cpu_percent_scaled: 0,
            rss_memory_bytes: 0,
            last_total_commands: 0,
            last_cpu_jiffies: cpu_jiffies,
        }
    }

    /// Counts a cache hit.
    pub fn record_hit(&mut self)
        ensures
            *final(self) == (Metrics { hits: u64_specs::wrapping_add(old(self).hits, 1), ..*old(self) }),
    {
        self.hits = self.hits.wrapping_add(1);
    }

    /// Counts a cache miss.
    pub fn record_miss(&mut self)
        ensures
            *final(self) == (Metrics { misses: u64_specs::wrapping_add(old(self).misses, 1), ..*old(self) }),
    {
        self.misses = self.misses.wrapping_add(1);
    }
    /// Counts a command and its latency; keeps the latest `LATENCY_BUFFER_SIZE`
    /// latencies, dropping the oldest.
    pub fn record_command(&mut self, duration_us: u64)
        requires
            old(self).wf(),
        ensures
            final(self).wf(),
            record_step(*old(self), *final(self), duration_us),
    {
        self.total_commands = self.total_commands.wrapping_add(1);
        self.total_latency_us = self.total_latency_us.wrapping_add(duration_us);
        self.latency_count = self.latency_count.wrapping_add(1);
        if self.recent_latencies.len() >= LATENCY_BUFFER_SIZE {
            self.recent_latencies.remove(0);
            assert(self.recent_latencies@ =~= old(self).recent_latencies@.drop_first());
        }
        self.recent_latencies.push(duration_us);
    }

    /// Minimum, maximum, sum, count and the 50th, 95th and 99th percentiles of the
    /// recent latencies (the sample at index `count * p / 100` in ascending order);
    /// all zero where there are none.
    pub fn latency_stats(&self) -> (r: LatencyStats)
        requires
            self.wf(),
        ensures
            ({
                let s = self.recent_latencies@;
                let t = sorted(s);
                &&& r.count == s.len()
                &&& r.sum_us == wrapping_total(s)
                &&& s.len() == 0 ==> r.min_us == 0 && r.max_us == 0 && r.p50_us == 0
                    && r.p95_us == 0 && r.p99_us == 0
                &&& s.len() > 0 ==> sorts(t, s) && r.min_us == t[0] && r.max_us == t[s.len() - 1]
                    && r.p50_us == percentile(t, 50) && r.p95_us == percentile(t, 95)
                    && r.p99_us == percentile(t, 99)
                &&& r.min_us <= r.p50_us <= r.p95_us <= r.p99_us <= r.max_us
            }),
    {
        let n = self.recent_latencies.len();
        if n == 0 {
            return LatencyStats { min_us: 0, max_us: 0, sum_us: 0, count: 0, p50_us: 0, p95_us: 0, p99_us: 0 };
        }
        let mut samples: Vec<u64> = Vec::new();
        let mut sum: u64 = 0;
        let mut i: usize = 0;
        while i < n
            invariant
                n == self.recent_latencies@.len(),
                i <= n,
                samples@ == self.recent_latencies@.take(i as int),
                sum == wrapping_total(self.recent_latencies@.take(i as int)),
            decreases n - i,
        {
            let x = self.recent_latencies[i];
            assert(self.recent_latencies@.take(i + 1).drop_last() =~= self.recent_latencies@.take(i as int));
            sum = sum.wrapping_add(x);
            samples.push(x);
            i = i + 1;
            assert(samples@ =~= self.recent_latencies@.take(i as int));
        }
        assert(self.recent_latencies@.take(n as int) =~= self.recent_latencies@);
        let ghost s = self.recent_latencies@;
        sort_ascending(&mut samples);
        proof {
            assert(sorts(samples@, s));
            lemma_sorts_unique(sorted(s), samples@, s);
            vstd::seq_lib::to_multiset_len(samples@);
            vstd::seq_lib::to_multiset_len(s);
        }
        assert(n * 99 / 100 < n) by (nonlinear_arith)
            requires
                n > 0,
        ;
        assert(n * 95 / 100 < n) by (nonlinear_arith)
            requires
                n > 0,
        ;
        assert(n * 50 / 100 < n) by (nonlinear_arith)
            requires
                n > 0,
        ;
        assert(n * 50 / 100 <= n * 95 / 100 <= n * 99 / 100) by (nonlinear_arith)
            requires
                n > 0,
        ;
        assert(ascending(samples@));
        assert(samples@[0] <= samples@[(n * 50 / 100) as int]);
        assert(samples@[(n * 50 / 100) as int] <= samples@[(n * 95 / 100) as int]);
        assert(samples@[(n * 95 / 100) as int] <= samples@[(n * 99 / 100) as int]);
        assert(samples@[(n * 99 / 100) as int] <= samples@[n - 1]);
        LatencyStats {
            min_us: samples[0],
            max_us: samples[n - 1],
            sum_us: sum,
            count: n as u64,
            p50_us: samples[(n * 50) / 100],
            p95_us: samples[(n * 95) / 100],
            p99_us: samples[(n * 99) / 100],
        }
    }

    /// Counts a new client, and raises the peak where the current count passes it.
    pub fn client_connected(&mut self)
        ensures
            ({
                let curr = i64_specs::wrapping_add(old(self).connected_clients, 1);
                *final(self) == (Metrics {
                    total_connections: u64_specs::wrapping_add(old(self).total_connections, 1),
                    connected_clients: curr,
                    peak_clients: if curr > 0 && curr as usize > old(self).peak_clients {
                        curr as usize
                    } else {
                        old(self).peak_clients
                    },
                    ..*old(self)
                })
            }),
    {
        self.total_connections = self.total_connections.wrapping_add(1);
        let curr = self.connected_clients.wrapping_add(1);
        self.connected_clients = curr;
        if curr > 0 {
            let ucurr = curr as usize;
            if ucurr > self.peak_clients {
                self.peak_clients = ucurr;
            }
        }
    }

    /// Counts a client going away.
    pub fn client_disconnected(&mut self)
        ensures
            *final(self) == (Metrics {
                connected_clients: i64_specs::wrapping_sub(old(self).connected_clients, 1),
                ..*old(self)
            }),
    {
        self.connected_clients = self.connected_clients.wrapping_sub(1);
    }

    /// Counts a failed connection.
    pub fn record_connection_error(&mut self)
        ensures
            *final(self) == (Metrics {
                connection_errors: u64_specs::wrapping_add(old(self).connection_errors, 1),
                ..*old(self)
            }),
    {
        self.connection_errors = self.connection_errors.wrapping_add(1);
    }

    /// Counts `count` evicted keys.
    pub fn record_eviction(&mut self, count: u64)
        ensures
            *final(self) == (Metrics {
                evicted_keys: u64_specs::wrapping_add(old(self).evicted_keys, count),
                ..*old(self)
            }),
    {
        self.evicted_keys = self.evicted_keys.wrapping_add(count);
    }

    /// Counts `count` expired keys.
    pub fn record_expiration(&mut self, count: u64)
        ensures
            *final(self) == (Metrics {
                expired_keys: u64_specs::wrapping_add(old(self).expired_keys, count),
                ..*old(self)
            }),
    {
        self.expired_keys = self.expired_keys.wrapping_add(count);
    }

    /// The counting part of the once-a-second sample: takes the commands run since
    /// the last sample, and the CPU time spent since then where `cpu_jiffies` (the
    /// process's CPU time now) was read; stores `rss_bytes` where it was read. The
    /// deltas saturate at 0.
    pub fn tick_counters(&mut self, cpu_jiffies: Option<u64>, rss_bytes: Option<u64>) -> (r: (
        u64,
        Option<u64>,
    ))
        ensures
            r.0 == (if old(self).total_commands >= old(self).last_total_commands {
                old(self).total_commands - old(self).last_total_commands
            } else {
                0
            }),
            r.1 == (match cpu_jiffies {
                Some(c) => Some(
                    if c >= old(self).last_cpu_jiffies {
                        (c - old(self).last_cpu_jiffies) as u64
                    } else {
                        0u64
                    },
                ),
                None => None,
            }),
            *final(self) == (Metrics {
                last_total_commands: old(self).total_commands,
                last_cpu_jiffies: match cpu_jiffies {
                    Some(c) => c,
                    None => old(self).last_cpu_jiffies,
                },
                rss_memory_bytes: match rss_bytes {
                    Some(b) => b,
                    None => old(self).rss_memory_bytes,
                },
                ..*old(self)
            }),
    {
        let total = self.total_commands;
        let last = self.last_total_commands;
        self.last_total_commands = total;
        let delta_cmds = total.saturating_sub(last);
        let delta_jiffies = match cpu_jiffies {
            Some(curr) => {
                let prev = self.last_cpu_jiffies;
                self.last_cpu_jiffies = curr;
                Some(curr.saturating_sub(prev))
            },
            None => None,
        };
        if let Some(b) = rss_bytes {
            self.rss_memory_bytes = b;
        }
        (delta_cmds, delta_jiffies)
    }
}

// ---------------------------------------------------------------------------
// Process statistics, from the text of /proc/self/stat and /proc/self/statm
// ---------------------------------------------------------------------------
/// The index of the last `)` in `b`.
pub open spec fn last_close_paren(b: Seq<u8>) -> Option<int>
    decreases b.len(),
{
    if b.len() == 0 {
        None
    } else if b.last() == 41u8 {
        Some(b.len() - 1)
    } else {
        last_close_paren(b.drop_last())
    }
}

/// The text goes on past its last `)` by a byte, and a character starts right after
/// that byte (where the fields are cut off from the command name).
pub open spec fn stat_cut_ok(b: Seq<u8>) -> bool {
    match last_close_paren(b) {
        Some(p) => p + 2 <= b.len() && is_char_boundary(b, p + 2),
        None => true,
    }
}

/// The process's CPU time (user plus system, in clock ticks, wrapping at 2^64) in the
/// text of `/proc/self/stat`: the 12th and 13th whitespace-separated fields of what
/// follows the last `)` and the byte after it.
pub open spec fn stat_cpu_jiffies(s: Seq<char>) -> Option<u64> {
    let b = encode_utf8(s);
    match last_close_paren(b) {
        None => None,
        Some(p) => {
            let w = words(decode_utf8(b.subrange(p + 2, b.len() as int)));
            if w.len() > 12 {
                match (parse_u64_text(encode_utf8(w[11])), parse_u64_text(encode_utf8(w[12]))) {
                    (Some(u), Some(t)) => Some(u64_specs::wrapping_add(u, t)),
                    _ => None,
                }
            } else {
                None
            }
        },
    }
}

/// The resident set size in bytes in the text of `/proc/self/statm`: its second
/// field, in pages of 4096 bytes (wrapping at 2^64).
pub open spec fn statm_rss_bytes(s: Seq<char>) -> Option<u64> {
    let w = words(s);
    if w.len() > 1 {
        match parse_u64_text(encode_utf8(w[1])) {
            Some(pages) => Some(u64_specs::wrapping_mul(pages, 4096)),
            None => None,
        }
    } else {
        None
    }
}

/// The process's CPU time from the text of `/proc/self/stat`; `None` where there
/// is no `)` or too few fields follow it, or a field is not a number.
pub fn parse_cpu_jiffies(stat: &str) -> (r: Option<u64>)
    requires
        stat_cut_ok(stat.spec_bytes()),
    ensures
        r == stat_cpu_jiffies(stat@),
{
    let b = stat.as_bytes();
    let mut i: usize = b.len();
    let mut found: Option<usize> = None;
    assert(b@.take(i as int) =~= b@);
    while i > 0
        invariant_except_break
            i <= b@.len(),
            found is None,
            last_close_paren(b@) == last_close_paren(b@.take(i as int)),
        ensures
            match found {
                Some(p) => last_close_paren(b@) == Some(p as int),
                None => last_close_paren(b@) is None,
            },
        decreases i,
    {
        assert(b@.take(i as int).drop_last() =~= b@.take(i - 1));
        if b[i - 1] == 41 {
            found = Some(i - 1);
            break;
        }
        i = i - 1;
    }
    let p = match found {
        Some(p) => p,
        None => return None,
    };
    let (_, rest) = stat.split_at(p + 2);
    proof {
        encode_utf8_decode_utf8(rest@);
        assert(rest.spec_bytes() == encode_utf8(rest@));
    }
    let ws = split_words(rest);
    if ws.len() > 12 {
        assert(ws@[11]@.subrange(0, ws@[11]@.len() as int) =~= ws@[11]@);
        assert(ws@[12]@.subrange(0, ws@[12]@.len() as int) =~= ws@[12]@);
        let utime = match parse_u64_bytes(ws[11].as_slice(), 0, ws[11].len()) {
            Some(v) => v,
            None => return None,
        };
        let stime = match parse_u64_bytes(ws[12].as_slice(), 0, ws[12].len()) {
            Some(v) => v,
            None => return None,
        };
        Some(utime.wrapping_add(stime))
    } else {
        None
    }
}

/// The resident set size in bytes from the text of `/proc/self/statm`; `None`
/// where there is no second field or it is not a number.
pub fn parse_rss_bytes(statm: &str) -> (r: Option<u64>)
    ensures
        r == statm_rss_bytes(statm@),
{
    let ws = split_words(statm);
    if ws.len() > 1 {
        assert(ws@[1]@.subrange(0, ws@[1]@.len() as int) =~= ws@[1]@);
        match parse_u64_bytes(ws[1].as_slice(), 0, ws[1].len()) {
            Some(pages) => Some(pages.wrapping_mul(4096)),
            None => None,
        }
    } else {
        None
    }
}

} // verus!
