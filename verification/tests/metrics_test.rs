use in_memory_cache::metrics::format_human_bytes;

fn float_reference(bytes: u64) -> String {
    const KB: u64 = 1024;
    const MB: u64 = KB * 1024;
    const GB: u64 = MB * 1024;
    if bytes >= GB {
        format!("{:.2} GB", bytes as f64 / GB as f64)
    } else if bytes >= MB {
        format!("{:.2} MB", bytes as f64 / MB as f64)
    } else if bytes >= KB {
        format!("{:.2} KB", bytes as f64 / KB as f64)
    } else {
        format!("{} B", bytes)
    }
}

#[test]
fn human_bytes_small_counts() {
    assert_eq!(format_human_bytes(0), "0 B");
    assert_eq!(format_human_bytes(1), "1 B");
    assert_eq!(format_human_bytes(1023), "1023 B");
}

#[test]
fn human_bytes_units() {
    assert_eq!(format_human_bytes(1024), "1.00 KB");
    assert_eq!(format_human_bytes(1536), "1.50 KB");
    assert_eq!(format_human_bytes(1024 * 1024), "1.00 MB");
    assert_eq!(format_human_bytes(5 * 1024 * 1024 + 512 * 1024), "5.50 MB");
    assert_eq!(format_human_bytes(1024 * 1024 * 1024), "1.00 GB");
    assert_eq!(format_human_bytes(2 * 1024 * 1024 * 1024), "2.00 GB");
}

#[test]
fn human_bytes_rounds_to_hundredths() {
    // 1.999... KB rounds up into the next hundred.
    assert_eq!(format_human_bytes(2047), "2.00 KB");
    // 1023.99... KB stays in KB.
    assert_eq!(format_human_bytes(1024 * 1024 - 1), "1024.00 KB");
    assert_eq!(format_human_bytes(1100), float_reference(1100));
}

#[test]
fn human_bytes_ties_match_float_formatting() {
    // 1.125 KB and 1.375 KB are exact ties at the third decimal.
    assert_eq!(format_human_bytes(1152), float_reference(1152));
    assert_eq!(format_human_bytes(1408), float_reference(1408));
    assert_eq!(format_human_bytes(1152), "1.12 KB");
    assert_eq!(format_human_bytes(1408), "1.38 KB");
}

#[test]
fn human_bytes_largest_counts() {
    assert_eq!(format_human_bytes(u64::MAX), float_reference(u64::MAX));
    assert_eq!(format_human_bytes(u64::MAX), "17179869184.00 GB");
    let big = (1u64 << 53) + 1;
    assert_eq!(format_human_bytes(big), float_reference(big));
    let odd = (1u64 << 60) + (1u64 << 7) + 1;
    assert_eq!(format_human_bytes(odd), float_reference(odd));
}

#[test]
fn human_bytes_agrees_with_float_formatting() {
    let mut x: u64 = 0x9E37_79B9_7F4A_7C15;
    for i in 0..20000u64 {
        x ^= x << 13;
        x ^= x >> 7;
        x ^= x << 17;
        let shift = (i % 64) as u32;
        let v = x >> shift;
        assert_eq!(format_human_bytes(v), float_reference(v), "count {}", v);
    }
    for v in 0..5000u64 {
        assert_eq!(format_human_bytes(v), float_reference(v), "count {}", v);
    }
    for k in 1..64u32 {
        for d in 0..4u64 {
            let v = (1u64 << k).wrapping_add(d).wrapping_sub(2);
            assert_eq!(format_human_bytes(v), float_reference(v), "count {}", v);
        }
    }
}

use in_memory_cache::metrics::{parse_cpu_jiffies, parse_rss_bytes, Metrics, LATENCY_BUFFER_SIZE};

#[test]
fn test_hit_and_miss_ratio() {
    let mut m = Metrics::new(0);
    assert_eq!((m.hits, m.misses), (0, 0));
    m.record_hit();
    m.record_hit();
    m.record_hit();
    m.record_miss();
    // 3 hits, 1 miss => 75% hit ratio, 25% miss ratio
    let total = (m.hits + m.misses) as f64;
    assert!(((m.hits as f64 / total) * 100.0 - 75.0).abs() < 0.001);
    assert!(((m.misses as f64 / total) * 100.0 - 25.0).abs() < 0.001);
}

#[test]
fn test_latency_stats() {
    let mut m = Metrics::new(0);
    m.record_command(10);
    m.record_command(20);
    m.record_command(30);
    m.record_command(40);
    m.record_command(50);

    let lat = m.latency_stats();
    assert_eq!(lat.min_us, 10);
    assert_eq!(lat.max_us, 50);
    assert_eq!(lat.sum_us as f64 / lat.count as f64, 30.0);
    assert_eq!(lat.p50_us, 30);
}

#[test]
fn metrics_counters_for_reports() {
    let mut m = Metrics::new(7);
    m.record_hit();
    m.record_miss();
    m.record_command(15);
    m.client_connected();
    assert_eq!((m.hits, m.misses, m.connected_clients), (1, 1, 1));
    assert_eq!((m.total_commands, m.total_latency_us, m.latency_count), (1, 15, 1));
    assert_eq!((m.peak_clients, m.total_connections), (1, 1));
    assert_eq!(m.last_cpu_jiffies, 7);
}

#[test]
fn latency_percentiles_of_unsorted_samples() {
    let mut m = Metrics::new(0);
    let empty = m.latency_stats();
    assert_eq!(
        (empty.min_us, empty.max_us, empty.sum_us, empty.count, empty.p50_us, empty.p95_us, empty.p99_us),
        (0, 0, 0, 0, 0, 0, 0)
    );
    for v in [90u64, 10, 70, 30, 50, 20, 100, 40, 80, 60] {
        m.record_command(v);
    }
    let lat = m.latency_stats();
    assert_eq!((lat.min_us, lat.max_us, lat.count, lat.sum_us), (10, 100, 10, 550));
    // Indexes 10*50/100 = 5, 10*95/100 = 9, 10*99/100 = 9 of 10..=100.
    assert_eq!((lat.p50_us, lat.p95_us, lat.p99_us), (60, 100, 100));
    // The recent latencies keep their order of arrival.
    assert_eq!(m.recent_latencies[0], 90);
}

#[test]
fn latency_buffer_keeps_the_latest() {
    let mut m = Metrics::new(0);
    for v in 0..(LATENCY_BUFFER_SIZE as u64 + 3) {
        m.record_command(v);
    }
    assert_eq!(m.recent_latencies.len(), LATENCY_BUFFER_SIZE);
    assert_eq!(m.recent_latencies[0], 3);
    assert_eq!(m.latency_count, LATENCY_BUFFER_SIZE as u64 + 3);
    assert_eq!(m.latency_stats().min_us, 3);
}

#[test]
fn clients_and_peak() {
    let mut m = Metrics::new(0);
    m.client_connected();
    m.client_connected();
    m.client_disconnected();
    m.client_connected();
    m.client_connected();
    assert_eq!((m.connected_clients, m.peak_clients, m.total_connections), (3, 3, 4));
    m.client_disconnected();
    m.client_disconnected();
    assert_eq!((m.connected_clients, m.peak_clients), (1, 3));
    m.record_connection_error();
    m.record_eviction(5);
    m.record_expiration(2);
    assert_eq!((m.connection_errors, m.evicted_keys, m.expired_keys), (1, 5, 2));
    m.hits = u64::MAX;
    m.record_hit();
    assert_eq!(m.hits, 0);
}

#[test]
fn tick_counters_take_deltas() {
    let mut m = Metrics::new(100);
    m.record_command(1);
    m.record_command(1);
    assert_eq!(m.tick_counters(Some(130), Some(4096)), (2, Some(30)));
    assert_eq!((m.last_total_commands, m.last_cpu_jiffies, m.rss_memory_bytes), (2, 130, 4096));
    assert_eq!(m.tick_counters(None, None), (0, None));
    assert_eq!(m.tick_counters(Some(10), None), (0, Some(0)));
    assert_eq!((m.last_cpu_jiffies, m.rss_memory_bytes), (10, 4096));
}

#[test]
fn proc_stat_cpu_time() {
    let stat = "1234 (my (odd) proc) S 1 1234 1234 0 -1 4194560 100 0 0 0 25 17 0 0 20 0 1 0 5 1000 200";
    assert_eq!(parse_cpu_jiffies(stat), Some(42));
    assert_eq!(parse_cpu_jiffies("1 (x) S 1 2 3"), None);
    assert_eq!(parse_cpu_jiffies("no bracket here at all 1 2 3 4 5 6 7 8 9 10 11 12 13"), None);
    assert_eq!(parse_cpu_jiffies("1 (x) S 1 1 1 0 -1 4 1 0 0 0 u 17 0"), None);
    assert_eq!(parse_cpu_jiffies("1 (x) "), None);
}

#[test]
fn proc_statm_rss() {
    assert_eq!(parse_rss_bytes("1000 250 30 4 0 70 0\n"), Some(250 * 4096));
    assert_eq!(parse_rss_bytes("1000"), None);
    assert_eq!(parse_rss_bytes("1000 x"), None);
    assert_eq!(parse_rss_bytes(""), None);
}
