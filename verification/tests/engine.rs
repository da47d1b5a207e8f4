use std::collections::BTreeMap;
use std::io::{Error, ErrorKind};

use pebble_engine::bloom::BloomFilter;
use pebble_engine::compaction::{Compaction, CompactionStep};
use pebble_engine::engine::{DEFAULT_FLUSH_THRESHOLD, Engine, Flush, PendingWrite};
use pebble_engine::error::EngineError;
use pebble_engine::metrics::EngineMetrics;
use pebble_engine::names::table_file_name;
use pebble_engine::query::{StoreGetStep, StoreScanStep};
use pebble_engine::reader::{Reply, Request};
use pebble_engine::sstable::{Footer, SSTable};
use pebble_engine::wal::Wal;

/// An engine over files that are kept in memory.
struct Host {
    files: BTreeMap<Vec<u8>, Vec<u8>>,
    log: Vec<u8>,
    engine: Engine,
    metrics: EngineMetrics,
    reads: usize,
}

fn answer(file: &[u8], request: Request) -> Reply {
    let (from, len) = match request {
        Request::Tail { len } if len as usize <= file.len() => {
            (file.len() - len as usize, len as usize)
        }
        Request::At { offset, len } if offset as u128 + len as u128 <= file.len() as u128 => {
            (offset as usize, len as usize)
        }
        _ => return Reply::Eof(Error::from(ErrorKind::UnexpectedEof)),
    };
    Reply::Bytes(file[from..from + len].to_vec())
}

fn open_table(name: &[u8], file: &[u8]) -> Result<SSTable, EngineError> {
    let tail = file.len().saturating_sub(16);
    let footer = Footer::read(file.len() as u64, &file[tail..])?;
    let bloom = match footer.bloom_section() {
        Some((at, len)) => file[at as usize..(at + len) as usize].to_vec(),
        None => vec![],
    };
    let (at, len) = footer.index_section();
    let index = file[at as usize..(at + len) as usize].to_vec();
    Ok(SSTable::open(name.to_vec(), &footer, &bloom, &index))
}

/// Where a compaction is stopped.
enum Stop {
    Never,
    /// After this many tables are renamed.
    Renamed(usize),
    /// When this many bytes of the new table are written.
    Written(usize),
    /// After this many merged files are removed.
    Removed(usize),
}

impl Host {
    fn new() -> Host {
        Host::open(BTreeMap::new(), Vec::new())
    }

    fn open(files: BTreeMap<Vec<u8>, Vec<u8>>, mut log: Vec<u8>) -> Host {
        let mut metrics = EngineMetrics::new();
        let mut wal = Wal::open(log.len() as u64, &mut metrics);
        let replay = Wal::replay(&log);
        log.truncate(replay.valid_len);
        wal.sync_size_to_metrics(log.len() as u64, &mut metrics);
        let names = Engine::find_sstable_paths(files.keys().cloned().collect());
        let attempts = names.iter().map(|name| open_table(name, &files[name])).collect();
        let engine = Engine::open(wal, replay.entries, attempts, &mut metrics, 0);
        Host { files, log, engine, metrics, reads: 0 }
    }

    /// The engine after a crash: what is in memory is lost.
    fn crash(self) -> Host {
        Host::open(self.files, self.log)
    }

    fn put(&mut self, key: &str, value: &str) {
        let write = self.engine.put(key.as_bytes(), value.as_bytes());
        self.write(write);
    }

    fn delete(&mut self, key: &str) {
        let write = self.engine.delete(key.as_bytes());
        self.write(write);
    }

    fn write(&mut self, write: PendingWrite) {
        self.log.extend_from_slice(&write.record);
        let size = self.log.len() as u64;
        if let Some(flush) = self.engine.write_synced(write, size, &mut self.metrics, 0) {
            self.finish_flush(flush);
        }
    }

    fn flush(&mut self) {
        if let Some(flush) = self.engine.flush_memtable() {
            self.finish_flush(flush);
        }
    }

    fn write_table(&mut self, flush: Flush) {
        let file = flush.build(512, 7);
        self.files.insert(file.table.name.clone(), file.bytes);
        self.engine.table_written(file.table);
    }

    fn finish_flush(&mut self, flush: Flush) {
        self.write_table(flush);
        self.log.clear();
        if let Some(compaction) = self.engine.wal_truncated(&mut self.metrics) {
            self.compact(compaction, true);
        }
    }

    fn compact(&mut self, compaction: Compaction, finish: bool) {
        self.compact_until(compaction, if finish { Stop::Never } else { Stop::Removed(0) });
    }

    /// Runs a compaction up to `stop`.
    fn compact_until(&mut self, mut compaction: Compaction, stop: Stop) {
        let merged = loop {
            let (table, request) = compaction.request();
            let reply = answer(&self.files[&self.engine.sstables[table].name], request);
            match compaction.resume(&self.engine.sstables, reply) {
                CompactionStep::More(next) => compaction = next,
                CompactionStep::Done(result) => break result.unwrap(),
            }
        };
        for (table, name) in merged.renames.iter().enumerate() {
            if let Stop::Renamed(n) = stop {
                if table == n {
                    return;
                }
            }
            let file = self.files.remove(&self.engine.sstables[table].name).unwrap();
            assert!(self.files.insert(name.clone(), file).is_none());
            self.engine.renamed(table, name.clone());
        }
        let replacement = merged.build(512, 7);
        if let Some(file) = &replacement.file {
            if let Stop::Written(n) = stop {
                self.files.insert(file.table.name.clone(), file.bytes[..n].to_vec());
                return;
            }
            self.files.insert(file.table.name.clone(), file.bytes.clone());
        }
        let result = replacement.written(&mut self.metrics);
        for (i, name) in self.engine.compacted(result, &mut self.metrics).iter().enumerate() {
            if let Stop::Removed(n) = stop {
                if i == n {
                    return;
                }
            }
            self.files.remove(name);
        }
    }

    fn try_get(&mut self, key: &str) -> Result<Option<String>, EngineError> {
        let mut step = self.engine.get(key.as_bytes(), &mut self.metrics, 0);
        loop {
            match step {
                StoreGetStep::Next(next) => {
                    assert!(self.engine.sstables[next.table()].is_usable());
                    step = next.advance(&self.engine.sstables);
                }
                StoreGetStep::More(next) => {
                    let (table, request) = next.request();
                    let reply = answer(&self.files[&self.engine.sstables[table].name], request);
                    self.reads += 1;
                    step = next.resume(&self.engine.sstables, reply);
                }
                StoreGetStep::Done(result) => {
                    return result.map(|v| v.map(|bytes| String::from_utf8(bytes).unwrap()));
                }
            }
        }
    }

    fn get(&mut self, key: &str) -> Option<String> {
        self.try_get(key).unwrap()
    }

    fn scan(&self, start: &str, end: &str) -> Vec<(String, String)> {
        let mut step = self.engine.scan(start.as_bytes(), end.as_bytes());
        loop {
            match step {
                StoreScanStep::More(next) => {
                    let (table, request) = next.request();
                    let reply = answer(&self.files[&self.engine.sstables[table].name], request);
                    step = next.resume(&self.engine, reply);
                }
                StoreScanStep::Done(result) => {
                    return result
                        .unwrap()
                        .into_iter()
                        .map(|(k, v)| {
                            (String::from_utf8(k).unwrap(), String::from_utf8(v).unwrap())
                        })
                        .collect();
                }
            }
        }
    }

    fn names(&self) -> Vec<Vec<u8>> {
        self.engine.sstables.iter().map(|t| t.name.clone()).collect()
    }
}

fn text(s: &str) -> Option<String> {
    Some(String::from(s))
}

fn pair(k: &str, v: &str) -> (String, String) {
    (String::from(k), String::from(v))
}

#[test]
fn put_is_read_back() {
    let mut host = Host::new();
    assert_eq!(host.get("a"), None);
    host.put("a", "1");
    host.put("b", "2");
    host.put("a", "11");
    assert_eq!(host.get("a"), text("11"));
    assert_eq!(host.get("b"), text("2"));
    assert_eq!(host.get("c"), None);
}

#[test]
fn delete_hides_older_tables() {
    let mut host = Host::new();
    host.put("a", "1");
    host.flush();
    host.delete("a");
    assert_eq!(host.get("a"), None);
    host.flush();
    assert_eq!(host.engine.sstables.len(), 2);
    assert_eq!(host.get("a"), None);
    host.put("a", "again");
    assert_eq!(host.get("a"), text("again"));
}

#[test]
fn newest_table_decides() {
    let mut host = Host::new();
    for value in ["1", "2", "3"] {
        host.put("a", value);
        host.flush();
    }
    assert_eq!(host.engine.sstables.len(), 3);
    assert_eq!(host.get("a"), text("3"));
    assert_eq!(host.names(), vec![table_file_name(3), table_file_name(2), table_file_name(1)]);
}

#[test]
fn write_is_logged_before_it_counts() {
    let mut host = Host::new();
    let write = host.engine.put(b"key", b"value");
    assert_eq!(
        write.record,
        vec![165, 53, 45, 36, 3, 0, 0, 0, 5, 0, 0, 0, 0, 107, 101, 121, 118, 97, 108, 117, 101]
    );
    assert_eq!(host.get("key"), None);
    host.write(write);
    assert_eq!(host.get("key"), text("value"));
    assert_eq!(host.metrics.wal_size_bytes, 21);
    assert_eq!(host.engine.wal.size_bytes(), 21);
    assert_eq!((host.metrics.total_writes, host.metrics.total_reads), (1, 2));
    assert_eq!(host.engine.delete(b"key").record.len(), 16);
}

#[test]
fn scan_merges_all_layers() {
    let mut host = Host::new();
    host.put("a", "old");
    host.put("b", "b1");
    host.put("c", "c1");
    host.flush();
    host.put("a", "new");
    host.delete("b");
    host.flush();
    host.put("d", "d1");
    host.delete("c");
    host.put("e", "e1");
    assert_eq!(host.scan("a", "e"), vec![pair("a", "new"), pair("d", "d1")]);
    assert_eq!(host.scan("", "z"), vec![pair("a", "new"), pair("d", "d1"), pair("e", "e1")]);
    assert_eq!(host.scan("b", "b"), vec![]);
    assert_eq!(host.metrics.total_reads, 0);
}

#[test]
fn scan_of_the_memtable_alone() {
    let mut host = Host::new();
    host.put("b", "2");
    host.put("a", "1");
    host.delete("b");
    assert_eq!(host.scan("a", "z"), vec![pair("a", "1")]);
}

#[test]
fn reversed_range_is_empty() {
    let mut host = Host::new();
    assert_eq!(host.scan("z", "a"), vec![]);
    host.put("a", "1");
    host.put("m", "2");
    host.flush();
    assert_eq!(host.scan("z", "a"), vec![]);
    assert_eq!(host.scan("m", "m"), vec![]);
    assert_eq!(host.scan("a", "z"), vec![pair("a", "1"), pair("m", "2")]);
}

#[test]
fn filter_of_an_older_table_is_not_asked() {
    let mut host = Host::new();
    host.put("a", "1");
    host.flush();
    host.put("a", "2");
    host.flush();
    // A filter that cannot be asked for any key.
    host.engine.sstables[1].bloom = Some(BloomFilter::from_parts(0, 3, vec![]));
    assert!(!host.engine.sstables[1].is_usable());
    assert_eq!(host.get("a"), text("2"));
    host.put("b", "3");
    assert_eq!(host.get("b"), text("3"));
}

#[test]
fn lookups_and_scans_agree() {
    let mut host = Host::new();
    for round in 0..6 {
        for n in 0..20 {
            let key = format!("k{:02}", (n * 7 + round) % 30);
            if (n + round) % 4 == 0 {
                host.delete(&key);
            } else {
                host.put(&key, &format!("{}-{}", round, n));
            }
        }
        if round % 2 == 0 {
            host.flush();
        }
        let listed: BTreeMap<String, String> = host.scan("k05", "k25").into_iter().collect();
        for n in 0..30 {
            let key = format!("k{:02}", n);
            let value = host.get(&key);
            if (5..25).contains(&n) {
                assert_eq!(listed.get(&key), value.as_ref());
            } else {
                assert!(!listed.contains_key(&key));
            }
        }
    }
}

#[test]
fn flush_keeps_the_contents() {
    let mut host = Host::new();
    host.put("a", "1");
    host.delete("b");
    host.put("c", "3");
    let before = host.scan("", "z");
    host.flush();
    assert_eq!(host.scan("", "z"), before);
    assert!(host.engine.memtable.is_empty());
    assert_eq!(host.log.len(), 0);
    assert_eq!((host.metrics.wal_size_bytes, host.metrics.sstable_count), (0, 1));
    host.flush();
    assert_eq!(host.engine.sstables.len(), 1);
}

#[test]
fn full_memtable_is_flushed() {
    let mut host = Host::new();
    let value = "x".repeat(DEFAULT_FLUSH_THRESHOLD - 1);
    host.put("a", &value);
    assert_eq!(host.engine.memtable.size_bytes(), DEFAULT_FLUSH_THRESHOLD);
    assert_eq!(host.engine.sstables.len(), 0);
    host.put("b", "");
    assert_eq!(host.engine.sstables.len(), 1);
    assert!(host.engine.memtable.is_empty());
    assert_eq!(host.get("a"), Some(value));
    assert_eq!(host.get("b"), text(""));
}

#[test]
fn fourth_table_starts_a_compaction() {
    let mut host = Host::new();
    for (key, value) in [("a", "1"), ("b", "2"), ("a", "3")] {
        host.put(key, value);
        host.flush();
    }
    host.delete("b");
    host.put("c", "4");
    let before = host.scan("", "z");
    host.flush();
    assert_eq!(host.names(), vec![table_file_name(5)]);
    assert_eq!(host.files.len(), 1);
    assert_eq!(host.scan("", "z"), before);
    assert_eq!(before, vec![pair("a", "3"), pair("c", "4")]);
    assert_eq!((host.metrics.compaction_count, host.metrics.sstable_count), (1, 1));
    assert_eq!(host.get("b"), None);
}

#[test]
fn full_compaction_drops_tombstones() {
    let mut host = Host::new();
    for key in ["a", "b", "c"] {
        host.put(key, "v");
        host.flush();
    }
    for key in ["a", "b", "c"] {
        host.delete(key);
    }
    host.flush();
    assert_eq!(host.engine.sstables.len(), 0);
    assert_eq!(host.files.len(), 0);
    assert_eq!(host.metrics.sstable_count, 0);
    assert_eq!(host.metrics.compaction_count, 0);
    assert_eq!(host.scan("", "z"), vec![]);
}

#[test]
fn compaction_reaches_every_key() {
    let mut host = Host::new();
    for last in 0..4u8 {
        let mut key = vec![255u8; 9];
        key.push(last);
        let write = host.engine.put(&key, &[last]);
        host.write(write);
        host.flush();
    }
    assert_eq!(host.engine.sstables.len(), 1);
    assert_eq!(host.engine.sstables[0].key_count, 4);
}

/// A directory of five tables, none of them compacted yet.
fn five_tables() -> Host {
    let mut files = BTreeMap::new();
    for n in 1..=5u64 {
        let mut host = Host::new();
        host.put("shared", &format!("v{}", n));
        if n == 3 {
            host.delete("k1");
        } else {
            host.put(&format!("k{}", n), &format!("v{}", n));
        }
        host.flush();
        files.insert(table_file_name(n), host.files[&table_file_name(1)].clone());
    }
    Host::open(files, Vec::new())
}

#[test]
fn partial_compaction_merges_the_oldest_four() {
    let mut host = five_tables();
    let before = host.scan("", "z");
    assert_eq!(
        before,
        vec![pair("k2", "v2"), pair("k4", "v4"), pair("k5", "v5"), pair("shared", "v5")]
    );
    let compaction = host.engine.run_compaction().unwrap();
    host.compact(compaction, true);
    assert_eq!(host.names(), vec![table_file_name(7), table_file_name(6)]);
    assert_eq!(host.scan("", "z"), before);
    // The tombstone of `k1` is kept.
    assert_eq!(host.engine.sstables[1].key_count, 4);
    assert_eq!(host.get("k1"), None);
}

#[test]
fn fewer_than_two_tables_are_not_compacted() {
    let mut host = Host::new();
    assert!(host.engine.run_compaction().is_none());
    host.put("a", "1");
    host.flush();
    assert!(host.engine.run_compaction().is_none());
    host.put("b", "1");
    host.flush();
    assert!(host.engine.run_compaction().is_some());
}

#[test]
fn numbers_grow_past_every_table() {
    let mut host = Host::new();
    assert_eq!(host.engine.next_sstable_seq(), 1);
    host.put("a", "1");
    host.flush();
    assert_eq!(host.engine.next_sstable_seq(), 2);
    host.engine.sstables[0].name = table_file_name(41);
    assert_eq!(host.engine.next_sstable_seq(), 42);
    host.engine.sstables[0].name = b"other.sst".to_vec();
    assert_eq!(host.engine.next_sstable_seq(), 1);
}

#[test]
fn recovery_restores_memtable_and_tables() {
    let mut host = Host::new();
    host.put("a", "1");
    host.put("b", "2");
    host.flush();
    host.put("a", "11");
    host.delete("b");
    host.put("c", "3");
    let before = host.scan("", "z");
    let mut again = host.crash();
    assert_eq!(again.scan("", "z"), before);
    assert_eq!(again.get("b"), None);
    assert_eq!(again.metrics.total_writes, 3);
    assert_eq!(again.metrics.sstable_count, 1);
    assert_eq!(again.metrics.wal_size_bytes, again.log.len() as u64);
}

#[test]
fn crash_in_a_log_write_loses_only_that_write() {
    let mut host = Host::new();
    host.put("a", "1");
    let torn = host.engine.put(b"b", b"2").record;
    for cut in 0..torn.len() {
        let mut log = host.log.clone();
        log.extend_from_slice(&torn[..cut]);
        let again = Host::open(BTreeMap::new(), log);
        assert_eq!(again.scan("", "z"), vec![pair("a", "1")]);
        assert_eq!(again.log, host.log);
    }
}

#[test]
fn crash_in_a_flush_loses_nothing() {
    let mut host = Host::new();
    host.put("a", "old");
    host.flush();
    host.put("a", "1");
    host.delete("b");
    let before = host.scan("", "z");
    let flush = host.engine.flush_memtable().unwrap();
    // Before the table is written.
    let again = Host::open(host.files.clone(), host.log.clone());
    assert_eq!(again.scan("", "z"), before);
    // After it is written, while the log still holds its writes.
    host.write_table(flush);
    let again = host.crash();
    assert_eq!(again.engine.sstables.len(), 2);
    assert_eq!(again.scan("", "z"), before);
}

#[test]
fn crash_while_a_flush_writes_its_table_loses_nothing() {
    let mut host = Host::new();
    host.put("a", "old");
    host.put("b", "old");
    host.flush();
    host.put("a", "1");
    host.delete("b");
    let before = host.scan("", "z");
    let built = host.engine.flush_memtable().unwrap().build(512, 7);
    let mut unfinished = 0;
    for len in 0..built.bytes.len() {
        let begun = &built.bytes[..len];
        if open_table(&built.table.name, begun).is_ok() {
            continue;
        }
        unfinished += 1;
        let mut files = host.files.clone();
        files.insert(built.table.name.clone(), begun.to_vec());
        let mut again = Host::open(files, host.log.clone());
        assert_eq!(again.names(), vec![table_file_name(1)]);
        assert_eq!(again.scan("", "z"), before);
        assert_eq!(again.get("a"), text("1"));
        assert_eq!(again.get("b"), None);
    }
    assert!(unfinished >= 16);
}

#[test]
fn crash_while_a_compaction_writes_its_table_loses_nothing() {
    for len in [0usize, 9, 15, 40, 41] {
        let mut host = seven_tables();
        let before = host.scan("", "z");
        let compaction = host.engine.run_compaction().unwrap();
        host.compact_until(compaction, Stop::Written(len));
        assert_eq!(host.files.len(), 8);
        let again = host.crash();
        assert_eq!(again.engine.sstables.len(), 7);
        assert_eq!(again.names()[0], table_file_name(11));
        assert_eq!(again.scan("", "z"), before);
    }
}

#[test]
fn crash_in_a_compaction_loses_nothing() {
    let mut host = Host::new();
    for (key, value) in [("a", "1"), ("b", "2"), ("a", "3")] {
        host.put(key, value);
        host.flush();
    }
    let before = host.scan("", "z");
    let compaction = host.engine.run_compaction().unwrap();
    host.compact(compaction, false);
    let again = host.crash();
    assert_eq!(again.engine.sstables.len(), 4);
    assert_eq!(again.names()[0], table_file_name(4));
    assert_eq!(again.scan("", "z"), before);
}

#[test]
fn crash_while_merged_files_are_removed_brings_nothing_back() {
    for removed in 0..=3usize {
        let mut host = Host::new();
        host.put("a", "1");
        host.put("b", "2");
        host.flush();
        host.put("a", "3");
        host.flush();
        host.delete("b");
        host.delete("a");
        host.put("c", "4");
        host.flush();
        let before = host.scan("", "z");
        assert_eq!(before, vec![pair("c", "4")]);
        let compaction = host.engine.run_compaction().unwrap();
        host.compact_until(compaction, Stop::Removed(removed));
        assert_eq!(host.files.len(), 4 - removed);
        let mut again = host.crash();
        assert_eq!(again.names()[0], table_file_name(4));
        assert_eq!(again.scan("", "z"), before);
        assert_eq!(again.get("a"), None);
        assert_eq!(again.get("b"), None);
    }
}

#[test]
fn crash_while_a_compaction_that_keeps_nothing_removes_its_files() {
    for removed in 0..=2usize {
        let mut host = Host::new();
        host.put("a", "1");
        host.flush();
        host.delete("a");
        host.flush();
        let compaction = host.engine.run_compaction().unwrap();
        host.compact_until(compaction, Stop::Removed(removed));
        assert_eq!(host.files.len(), 2 - removed);
        let again = host.crash();
        assert_eq!(again.scan("", "z"), vec![]);
    }
}

#[test]
fn reopened_tables_keep_their_order() {
    let mut host = Host::new();
    for value in ["1", "2", "3"] {
        host.put("a", value);
        host.flush();
    }
    let names = host.names();
    let mut again = host.crash();
    assert_eq!(again.names(), names);
    assert_eq!(again.get("a"), text("3"));
}

#[test]
fn tables_stay_in_order_past_eight_digits() {
    let mut first = Host::new();
    first.put("a", "1");
    first.flush();
    let file = first.files[&table_file_name(1)].clone();
    let mut host = Host::open(BTreeMap::from([(table_file_name(99_999_999), file)]), Vec::new());
    host.put("a", "2");
    host.flush();
    let names = vec![table_file_name(100_000_000), table_file_name(99_999_999)];
    assert_eq!(host.names(), names);
    let mut again = host.crash();
    assert_eq!(again.names(), names);
    assert_eq!(again.get("a"), text("2"));
}

#[test]
fn table_that_cannot_be_opened_is_left_out() {
    let mut host = Host::new();
    host.put("a", "1");
    host.flush();
    host.put("b", "2");
    host.flush();
    host.files.insert(table_file_name(2), vec![0; 15]);
    let mut again = host.crash();
    assert_eq!(again.names(), vec![table_file_name(1)]);
    assert_eq!(again.metrics.sstable_count, 1);
    assert_eq!(again.get("a"), text("1"));
    assert_eq!(again.get("b"), None);
}

#[test]
fn absent_keys_are_not_read() {
    let mut host = Host::new();
    for n in 0..3 {
        host.put(&format!("k{}", n), "v");
        host.flush();
    }
    host.reads = 0;
    for n in 0..20 {
        assert_eq!(host.get(&format!("absent{}", n)), None);
    }
    assert_eq!(host.reads, 0);
    assert_eq!(host.get("k0"), text("v"));
    assert_eq!(host.reads, 3);
}

#[test]
fn damaged_table_is_reported_by_a_lookup() {
    let mut host = Host::new();
    host.put("a", "1");
    host.flush();
    host.files.insert(table_file_name(1), vec![0; 15]);
    match host.try_get("a") {
        Err(EngineError::Corruption(msg)) => assert_eq!(msg, "SSTable too small"),
        _ => panic!("the lookup succeeded"),
    }
}

#[test]
fn failed_read_stops_a_compaction() {
    let mut host = Host::new();
    for value in ["1", "2"] {
        host.put("a", value);
        host.flush();
    }
    let compaction = host.engine.run_compaction().unwrap();
    assert_eq!(compaction.request().0, 1);
    let reply = Reply::Failed(Error::from(ErrorKind::PermissionDenied));
    match compaction.resume(&host.engine.sstables, reply) {
        CompactionStep::Done(Err(EngineError::Io(e))) => {
            assert_eq!(e.kind(), ErrorKind::PermissionDenied)
        }
        _ => panic!("the compaction went on"),
    }
}

#[test]
fn recovered_store_can_be_recovered_again() {
    let mut host = Host::new();
    host.put("a", "1");
    host.flush();
    host.put("b", "2");
    let before = host.scan("", "z");
    host.log.extend_from_slice(&[1, 2, 3]);
    let mut again = host.crash();
    assert_eq!(again.scan("", "z"), before);
    again.put("c", "3");
    let again = again.crash();
    assert_eq!(again.scan("", "z"), vec![pair("a", "1"), pair("b", "2"), pair("c", "3")]);
}

#[test]
fn reopened_partial_compaction_keeps_the_order() {
    let mut host = seven_tables();
    let before = host.scan("", "z");
    let compaction = host.engine.run_compaction().unwrap();
    host.compact(compaction, true);
    let names: Vec<Vec<u8>> = [11, 10, 9, 8].iter().map(|n| table_file_name(*n)).collect();
    assert_eq!(host.names(), names);
    assert_eq!(host.scan("", "z"), before);
    let mut again = host.crash();
    assert_eq!(again.names(), names);
    assert_eq!(again.scan("", "z"), before);
    assert_eq!(again.get("shared"), text("v7"));
    assert_eq!(again.engine.next_sstable_seq(), 12);
}

/// Seven tables that all write one key; the newest also deletes what the oldest put.
fn seven_tables() -> Host {
    let mut files = BTreeMap::new();
    for n in 1..=7u64 {
        let mut host = Host::new();
        host.put("shared", &format!("v{}", n));
        host.put(&format!("k{}", n), &format!("v{}", n));
        if n == 7 {
            host.delete("k1");
        }
        host.flush();
        files.insert(table_file_name(n), host.files[&table_file_name(1)].clone());
    }
    Host::open(files, Vec::new())
}

#[test]
fn crash_in_a_partial_compaction_keeps_the_order() {
    for n in 0..=3usize {
        let mut host = seven_tables();
        let before = host.scan("", "z");
        let compaction = host.engine.run_compaction().unwrap();
        host.compact_until(compaction, Stop::Renamed(n));
        let names = host.names();
        let again = host.crash();
        if n < 3 {
            assert_eq!(again.names(), names);
        }
        assert_eq!(again.scan("", "z"), before);
    }
    for removed in 0..=4usize {
        let mut host = seven_tables();
        let before = host.scan("", "z");
        let compaction = host.engine.run_compaction().unwrap();
        host.compact_until(compaction, Stop::Removed(removed));
        let again = host.crash();
        assert_eq!(again.engine.sstables.len(), 8 - removed);
        assert_eq!(again.scan("", "z"), before);
    }
}

#[test]
fn failed_flush_leaves_the_writes_in_the_log() {
    let mut host = Host::new();
    host.put("a", "1");
    let flush = host.engine.flush_memtable().unwrap();
    assert_eq!(flush.name, table_file_name(1));
    assert_eq!(flush.entries.len(), 1);
    assert_eq!(host.get("a"), None);
    let mut again = host.crash();
    assert_eq!(again.get("a"), text("1"));
}
