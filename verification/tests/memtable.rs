use pebble_engine::memtable::{MemValue, Memtable};
use pebble_engine::metrics::EngineMetrics;
use pebble_engine::sorted::{Entry, SortedEntries};
use pebble_engine::wal::WalEntry;

fn text(value: Option<&MemValue>) -> Option<Option<Vec<u8>>> {
    match value {
        Some(MemValue::Value(v)) => Some(Some(v.clone())),
        Some(MemValue::Tombstone) => Some(None),
        None => None,
    }
}

fn plain(entries: &[Entry]) -> Vec<(Vec<u8>, Option<Vec<u8>>)> {
    entries
        .iter()
        .map(|(k, v)| (k.clone(), text(Some(v)).unwrap()))
        .collect()
}

fn put(mem: &mut Memtable, metrics: &mut EngineMetrics, key: &[u8], value: &[u8]) -> bool {
    mem.put(key.to_vec(), value.to_vec(), metrics, 0)
}

#[test]
fn put_is_read_back_and_overwritten() {
    let mut metrics = EngineMetrics::new();
    let mut mem = Memtable::new(1000);
    put(&mut mem, &mut metrics, b"b", b"one");
    put(&mut mem, &mut metrics, b"b", b"three");
    assert_eq!(text(mem.get(b"b", &mut metrics, 0)), Some(Some(b"three".to_vec())));
    assert_eq!(mem.len(), 1);
    assert_eq!(mem.size_bytes(), 6);
}

#[test]
fn delete_leaves_a_tombstone() {
    let mut metrics = EngineMetrics::new();
    let mut mem = Memtable::new(1000);
    put(&mut mem, &mut metrics, b"key", b"value");
    mem.delete(b"key".to_vec(), &mut metrics, 0);
    assert_eq!(text(mem.get(b"key", &mut metrics, 0)), Some(None));
    assert_eq!(text(mem.get(b"other", &mut metrics, 0)), None);
    assert_eq!(mem.size_bytes(), 3);
    mem.delete(b"new".to_vec(), &mut metrics, 0);
    assert_eq!(mem.size_bytes(), 6);
    put(&mut mem, &mut metrics, b"key", b"v");
    assert_eq!(mem.size_bytes(), 7);
}

#[test]
fn table_is_full_past_its_threshold() {
    let mut metrics = EngineMetrics::new();
    let mut mem = Memtable::new(6);
    assert!(!put(&mut mem, &mut metrics, b"a", b"1234"));
    assert!(!mem.delete(b"b".to_vec(), &mut metrics, 0));
    assert_eq!(mem.size_bytes(), 6);
    assert!(!mem.is_full());
    assert!(mem.delete(b"c".to_vec(), &mut metrics, 0));
    assert!(mem.is_full());
    assert!(put(&mut mem, &mut metrics, b"c", b""));
    assert!(!put(&mut mem, &mut metrics, b"a", b"123"));
    assert_eq!(mem.flush_threshold, 6);
}

#[test]
fn reads_and_writes_are_counted() {
    let mut metrics = EngineMetrics::new();
    let mut mem = Memtable::new(1000);
    put(&mut mem, &mut metrics, b"a", b"1");
    mem.delete(b"a".to_vec(), &mut metrics, 0);
    let _ = mem.get(b"a", &mut metrics, 0);
    assert_eq!(metrics.total_writes, 2);
    assert_eq!(metrics.total_reads, 1);
}

#[test]
fn range_stops_before_its_end() {
    let mut metrics = EngineMetrics::new();
    let mut mem = Memtable::new(1000);
    for key in [&b"d"[..], b"a", b"c", b"b", b"ab"] {
        put(&mut mem, &mut metrics, key, b"v");
    }
    mem.delete(b"c".to_vec(), &mut metrics, 0);
    let v = Some(b"v".to_vec());
    assert_eq!(
        plain(mem.scan(b"ab", b"d")),
        vec![(b"ab".to_vec(), v.clone()), (b"b".to_vec(), v.clone()), (b"c".to_vec(), None)]
    );
    assert_eq!(plain(mem.scan(b"b", b"b")), vec![]);
    assert_eq!(plain(mem.scan(b"e", b"z")), vec![]);
    assert_eq!(plain(Memtable::new(1000).scan(b"z", b"e")), vec![]);
}

#[test]
fn draining_gives_all_entries_in_order() {
    let mut metrics = EngineMetrics::new();
    let mut mem = Memtable::new(1000);
    assert!(mem.is_empty());
    put(&mut mem, &mut metrics, b"b", b"2");
    put(&mut mem, &mut metrics, b"a", b"1");
    mem.delete(b"c".to_vec(), &mut metrics, 0);
    assert!(!mem.is_empty());
    assert_eq!(
        plain(&mem.drain_sorted()),
        vec![
            (b"a".to_vec(), Some(b"1".to_vec())),
            (b"b".to_vec(), Some(b"2".to_vec())),
            (b"c".to_vec(), None),
        ]
    );
}

#[test]
fn restoring_replays_the_writes_in_order() {
    let mut metrics = EngineMetrics::new();
    let entries = vec![
        WalEntry::Put { key: b"a".to_vec(), value: b"1".to_vec() },
        WalEntry::Put { key: b"b".to_vec(), value: b"2".to_vec() },
        WalEntry::Delete { key: b"a".to_vec() },
        WalEntry::Put { key: b"b".to_vec(), value: b"22".to_vec() },
    ];
    let mem = Memtable::restore_from_wal(entries, 50, &mut metrics, 9);
    assert_eq!(mem.size_bytes(), 4);
    assert_eq!(mem.flush_threshold, 50);
    assert_eq!(metrics.total_writes, 4);
    assert_eq!(text(mem.get(b"a", &mut metrics, 9)), Some(None));
    assert_eq!(text(mem.get(b"b", &mut metrics, 9)), Some(Some(b"22".to_vec())));
}

#[test]
fn sorted_entries_keep_one_value_per_key() {
    let mut map = SortedEntries::new();
    for n in [5u8, 1, 3, 5, 2, 4, 1] {
        map.insert(vec![n], MemValue::Value(vec![n, n]));
    }
    map.insert(vec![3], MemValue::Tombstone);
    assert_eq!(map.len(), 5);
    assert_eq!(text(map.get(&[3])), Some(None));
    assert_eq!(text(map.get(&[9])), None);
    let keys: Vec<Vec<u8>> = map.into_entries().into_iter().map(|(k, _)| k).collect();
    assert_eq!(keys, vec![vec![1], vec![2], vec![3], vec![4], vec![5]]);
}
