use pebble_engine::format::{OP_PUT, encode_wal_record};
use pebble_engine::metrics::EngineMetrics;
use pebble_engine::wal::{Wal, WalEntry};

fn plain(entries: &[WalEntry]) -> Vec<(Vec<u8>, Option<Vec<u8>>)> {
    entries
        .iter()
        .map(|e| match e {
            WalEntry::Put { key, value } => (key.clone(), Some(value.clone())),
            WalEntry::Delete { key } => (key.clone(), None),
        })
        .collect()
}

fn sample() -> (Vec<u8>, Vec<(Vec<u8>, Option<Vec<u8>>)>) {
    let mut metrics = EngineMetrics::new();
    let wal = Wal::open(0, &mut metrics);
    let mut log = wal.append_put(b"a", b"1");
    log.extend_from_slice(&wal.append_delete(b"a"));
    log.extend_from_slice(&wal.append_put(b"bb", b""));
    let writes = vec![
        (b"a".to_vec(), Some(b"1".to_vec())),
        (b"a".to_vec(), None),
        (b"bb".to_vec(), Some(vec![])),
    ];
    (log, writes)
}

#[test]
fn appended_record_is_the_encoded_write() {
    let mut metrics = EngineMetrics::new();
    let wal = Wal::open(0, &mut metrics);
    assert_eq!(
        wal.append_put(b"key", b"value"),
        vec![165, 53, 45, 36, 3, 0, 0, 0, 5, 0, 0, 0, 0, 107, 101, 121, 118, 97, 108, 117, 101]
    );
    assert_eq!(
        wal.append_delete(b"key"),
        vec![65, 1, 38, 193, 3, 0, 0, 0, 0, 0, 0, 0, 1, 107, 101, 121]
    );
}

#[test]
fn log_replays_to_its_writes() {
    let (log, writes) = sample();
    let replay = Wal::replay(&log);
    assert_eq!(plain(&replay.entries), writes);
    assert_eq!(replay.valid_len, log.len());
}

#[test]
fn empty_log_replays_to_nothing() {
    let replay = Wal::replay(&[]);
    assert_eq!(plain(&replay.entries), vec![]);
    assert_eq!(replay.valid_len, 0);
}

#[test]
fn torn_write_loses_only_itself() {
    let (log, writes) = sample();
    let torn = encode_wal_record(b"torn", b"write", OP_PUT);
    for cut in 0..torn.len() {
        let mut raw = log.clone();
        raw.extend_from_slice(&torn[..cut]);
        let replay = Wal::replay(&raw);
        assert_eq!(plain(&replay.entries), writes);
        assert_eq!(replay.valid_len, log.len());
    }
}

#[test]
fn replay_stops_at_a_corrupt_record() {
    let (log, writes) = sample();
    let mut raw = log.clone();
    raw[15 + 2] ^= 1;
    let replay = Wal::replay(&raw);
    assert_eq!(plain(&replay.entries), writes[..1].to_vec());
    assert_eq!(replay.valid_len, 15);
}

#[test]
fn log_cut_to_the_valid_part_replays_the_same() {
    let (mut raw, writes) = sample();
    raw.extend_from_slice(&[1, 2, 3]);
    let valid = Wal::replay(&raw).valid_len;
    let again = Wal::replay(&raw[..valid]);
    assert_eq!(plain(&again.entries), writes);
    assert_eq!(again.valid_len, valid);
}

#[test]
fn unknown_operation_is_a_deletion() {
    let raw = encode_wal_record(b"k", b"v", 9);
    assert_eq!(plain(&Wal::replay(&raw).entries), vec![(b"k".to_vec(), None)]);
}

#[test]
fn size_is_shown_in_the_metrics() {
    let mut metrics = EngineMetrics::new();
    let mut wal = Wal::open(15, &mut metrics);
    assert_eq!((wal.size_bytes(), metrics.wal_size_bytes), (15, 15));
    wal.sync_size_to_metrics(40, &mut metrics);
    assert_eq!((wal.size_bytes(), metrics.wal_size_bytes), (40, 40));
    wal.truncate(&mut metrics);
    assert_eq!((wal.size_bytes(), metrics.wal_size_bytes), (0, 0));
}
