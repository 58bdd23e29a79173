use in_memory_cache::db::Db;
use in_memory_cache::metrics::Metrics;
use in_memory_cache::web::{
    html_response, json_response, not_found_response, parse_request, route_request, simulate,
    simulation_reply, Route,
};

#[test]
fn routes_of_requests() {
    assert_eq!(parse_request("GET / HTTP/1.1\r\nHost: x\r\n\r\n"), Some(Route::Dashboard));
    assert_eq!(parse_request("GET /api/metrics HTTP/1.1\r\n"), Some(Route::Metrics));
    assert_eq!(parse_request("GET /api/stream HTTP/1.1"), Some(Route::Stream));
    assert_eq!(parse_request("GET /api/metrics?x=1 HTTP/1.1\n"), Some(Route::Metrics));
    assert_eq!(parse_request("GET /nope HTTP/1.1\r\n"), Some(Route::NotFound));
    assert_eq!(parse_request("DELETE / HTTP/1.1\r\n"), Some(Route::NotFound));
    assert_eq!(parse_request("POST /api/metrics HTTP/1.1\r\n"), Some(Route::NotFound));
}

#[test]
fn requests_without_method_and_target() {
    assert_eq!(parse_request(""), None);
    assert_eq!(parse_request("GET"), None);
    assert_eq!(parse_request("\r\nGET / HTTP/1.1"), None);
    assert_eq!(parse_request("   \r\n"), None);
}

#[test]
fn simulation_settings_from_the_query() {
    let sim = |count, hit_ratio| Some(Route::Simulate { count, hit_ratio });
    assert_eq!(parse_request("GET /api/simulate HTTP/1.1"), sim(1000, 80));
    assert_eq!(parse_request("POST /api/simulate?count=5&ratio=150 HTTP/1.1"), sim(10, 100));
    assert_eq!(
        parse_request("GET /api/simulate?ops=70000&hit_ratio=abc&x HTTP/1.1"),
        sim(50000, 80)
    );
    assert_eq!(parse_request("GET /api/simulate?count=200?x=1 HTTP/1.1"), sim(200, 80));
    assert_eq!(
        parse_request("GET /api/simulate?count=300&count=400&hit_ratio=25=9 HTTP/1.1"),
        sim(400, 25)
    );
    assert_eq!(parse_request("GET /api/simulate?count=+42&ratio=-1 HTTP/1.1"), sim(42, 80));
}

#[test]
fn routes_of_raw_bytes() {
    assert_eq!(route_request(b"GET /api/stream HTTP/1.1\r\n"), Some(Route::Stream));
    assert_eq!(route_request(b"GET /\xff HTTP/1.1\r\n"), Some(Route::NotFound));
    assert_eq!(route_request(b"\xffGET / HTTP/1.1\r\n"), Some(Route::NotFound));
}

#[test]
fn response_texts() {
    assert_eq!(
        html_response("<p>é</p>"),
        "HTTP/1.1 200 OK\r\nContent-Type: text/html; charset=utf-8\r\nContent-Length: 9\r\nConnection: close\r\n\r\n<p>é</p>"
    );
    assert_eq!(
        json_response("{}"),
        "HTTP/1.1 200 OK\r\nContent-Type: application/json; charset=utf-8\r\nAccess-Control-Allow-Origin: *\r\nContent-Length: 2\r\nConnection: close\r\n\r\n{}"
    );
    assert_eq!(
        not_found_response(),
        "HTTP/1.1 404 Not Found\r\nContent-Length: 13\r\nConnection: close\r\n\r\n404 Not Found"
    );
    assert_eq!(
        simulation_reply(1000, 80, 12),
        "{\"status\":\"ok\",\"simulated_ops\":1000,\"target_hit_ratio\":80,\"elapsed_ms\":12}"
    );
}

#[test]
fn simulated_traffic() {
    let mut db = Db::new();
    db.set_at(b"other".to_vec(), b"kept".to_vec(), None, 0);
    let mut m = Metrics::new(0);
    m.record_hit();
    simulate(&mut db, &mut m, 20, 50);
    assert_eq!((m.total_commands, m.latency_count, m.hits), (20, 20, 1));
    assert_eq!(m.recent_latencies.len(), 20);
    assert!(m.recent_latencies.iter().all(|&d| (5..40).contains(&d)));
    assert_eq!(m.total_latency_us, m.recent_latencies.iter().sum::<u64>());
    assert_eq!(db.len(), 101);
    assert_eq!(db.get_at(b"sim:key:7", 0).unwrap(), Some(b"sim:val:7".to_vec()));
    assert_eq!(db.get_at(b"sim:key:99", 0).unwrap(), Some(b"sim:val:99".to_vec()));
    assert_eq!(db.get_at(b"other", 0).unwrap(), Some(b"kept".to_vec()));
    assert_eq!(db.get_at(b"sim:nonexistent:3", 0).unwrap(), None);
}

#[test]
fn simulated_traffic_under_a_memory_limit() {
    // Each simulated entry takes at least 8 + 8 + 64 bytes, so at most three fit in 300.
    let mut db = Db::with_options(1, 300);
    let mut m = Metrics::new(0);
    simulate(&mut db, &mut m, 10, 100);
    assert_eq!(m.total_commands, 10);
    assert!(db.current_memory() <= 300);
    assert!(db.len() >= 1 && db.len() <= 3);
    // The last write always stays.
    assert_eq!(db.get_at(b"sim:key:99", u64::MAX - 1).unwrap(), Some(b"sim:val:99".to_vec()));
}
