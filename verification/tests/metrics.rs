use std::io::{Error, ErrorKind};

use pebble_engine::error::{EngineError, io_message};
use pebble_engine::metrics::EngineMetrics;
use pebble_engine::server::metrics_response;

const SECOND: u128 = 1_000_000_000;

#[test]
fn rate_counts_the_last_second() {
    let mut metrics = EngineMetrics::new();
    metrics.record_write(0);
    metrics.record_write(SECOND / 2);
    metrics.record_write(SECOND);
    assert_eq!(metrics.writes_per_sec(SECOND), 3);
    assert_eq!(metrics.writes_per_sec(SECOND + 1), 2);
    assert_eq!(metrics.writes_per_sec(3 * SECOND), 0);
    assert_eq!(metrics.total_writes, 3);
}

#[test]
fn rate_does_not_depend_on_earlier_questions() {
    let times = [0u128, 3, 3, 500_000_000, 1_000_000_001, 1_500_000_000, 1_500_000_001];
    for asked in 0..times.len() {
        let mut metrics = EngineMetrics::new();
        for (i, t) in times.iter().enumerate() {
            metrics.record_read(*t);
            if i >= asked {
                let _ = metrics.reads_per_sec(*t);
            }
        }
        let now = 2_000_000_001;
        let wanted = times.iter().filter(|t| now - **t <= SECOND).count() as u64;
        assert_eq!(wanted, 3);
        assert_eq!(metrics.reads_per_sec(now), wanted);
    }
}

#[test]
fn recording_drops_old_events() {
    let mut metrics = EngineMetrics::new();
    metrics.record_read(0);
    metrics.record_read(5 * SECOND);
    assert_eq!(metrics.reads_per_sec(5 * SECOND), 1);
    assert_eq!(metrics.total_reads, 2);
}

#[test]
fn snapshot_shows_all_counters() {
    let mut metrics = EngineMetrics::new();
    metrics.record_write(7);
    metrics.record_write(8);
    metrics.record_read(9);
    metrics.set_wal_size(123);
    metrics.set_sstable_count(4);
    metrics.set_recovery_time(56);
    metrics.record_compaction();
    let snapshot = metrics.snapshot(10);
    assert_eq!(snapshot.writes_per_sec, 2);
    assert_eq!(snapshot.reads_per_sec, 1);
    assert_eq!(
        snapshot.to_json(),
        "{\"writes_per_sec\":2.00,\"reads_per_sec\":1.00,\"compaction_count\":1,\
         \"wal_size_bytes\":123,\"sstable_count\":4,\"recovery_time_ms\":56,\
         \"total_writes\":2,\"total_reads\":1}"
    );
}

#[test]
fn both_metrics_paths_are_served() {
    let mut metrics = EngineMetrics::new();
    metrics.record_write(0);
    for path in ["/metrics", "/"] {
        let response = metrics_response(path, &mut metrics, 1);
        assert_eq!(response.status, 200);
        assert_eq!(response.content_type, "application/json");
        assert_eq!(response.allow_origin, "*");
        assert_eq!(response.body, metrics.snapshot(1).to_json());
    }
}

#[test]
fn other_paths_are_not_found() {
    let mut metrics = EngineMetrics::new();
    for path in ["", "/metric", "/metrics/", "/metrics?x=1", "/Metrics"] {
        let response = metrics_response(path, &mut metrics, 1);
        assert_eq!(response.status, 404);
        assert_eq!(response.body, "{\"error\":\"not found\"}");
        assert_eq!(response.content_type, "application/json");
        assert_eq!(response.allow_origin, "*");
    }
}

#[test]
fn errors_have_messages() {
    let io = EngineError::from(Error::new(ErrorKind::Other, "disk on fire"));
    assert_eq!(io.message(), "IO error: disk on fire");
    assert_eq!(io_message("gone"), "IO error: gone");
    assert_eq!(EngineError::Corruption(String::from("bad")).message(), "Corruption: bad");
    assert_eq!(EngineError::KeyNotFound.message(), "Key not found");
}
