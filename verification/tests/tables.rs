use std::io::{Error, ErrorKind};

use pebble_engine::bloom::BloomFilter;
use pebble_engine::error::EngineError;
use pebble_engine::memtable::MemValue;
use pebble_engine::reader::{LookupStep, Reply, Request, ScanStep};
use pebble_engine::sorted::Entry;
use pebble_engine::sstable::{Footer, SSTable, TableFile};

const TABLE: [u8; 67] = [
    1, 0, 0, 0, 1, 0, 0, 0, 0, 97, 49, 1, 0, 0, 0, 0, 0, 0, 0, 1, 98, 64, 0, 0, 0, 0, 0, 0, 0, 7, 0,
    16, 17, 17, 49, 73, 146, 0, 1, 0, 0, 0, 97, 0, 0, 0, 0, 0, 0, 0, 0, 38, 0, 0, 0, 0, 0, 0, 0, 21,
    0, 0, 0, 0, 0, 0, 0,
];

fn answer(file: &[u8], request: Request) -> Reply {
    let (from, len) = match request {
        Request::Tail { len } if len as usize <= file.len() => {
            (file.len() - len as usize, len as usize)
        }
        Request::At { offset, len } if offset as u128 + len as u128 <= file.len() as u128 => {
            (offset as usize, len as usize)
        }
        _ => return Reply::Eof(Error::from(ErrorKind::UnexpectedEof)),
    };
    Reply::Bytes(file[from..from + len].to_vec())
}

/// Looks a key up; gives the result and the number of reads.
fn lookup(
    table: &SSTable,
    file: &[u8],
    key: &[u8],
) -> (Result<Option<Option<Vec<u8>>>, EngineError>, usize) {
    let mut reads = 0;
    let mut step = table.get(key);
    loop {
        match step {
            LookupStep::More(next) => {
                let reply = answer(file, next.request());
                reads += 1;
                step = next.resume(reply);
            }
            LookupStep::Done(result) => {
                let plain = result.map(|found| {
                    found.map(|value| match value {
                        MemValue::Value(v) => Some(v),
                        MemValue::Tombstone => None,
                    })
                });
                return (plain, reads);
            }
        }
    }
}

fn scan(
    table: &SSTable,
    file: &[u8],
    start: &[u8],
    stop: Option<&[u8]>,
) -> Result<Vec<Vec<u8>>, EngineError> {
    let mut op = table.scan(start, stop);
    loop {
        let reply = answer(file, op.request());
        match op.resume(reply) {
            ScanStep::More(next) => op = next,
            ScanStep::Done(result) => {
                return result.map(|entries| entries.into_iter().map(|(k, _)| k).collect());
            }
        }
    }
}

fn reopen(name: &[u8], file: &[u8]) -> SSTable {
    let footer = Footer::read(file.len() as u64, &file[file.len() - 16..]).unwrap();
    let bloom = match footer.bloom_section() {
        Some((at, len)) => file[at as usize..(at + len) as usize].to_vec(),
        None => vec![],
    };
    let (at, len) = footer.index_section();
    let index = file[at as usize..(at + len) as usize].to_vec();
    SSTable::open(name.to_vec(), &footer, &bloom, &index)
}

fn small() -> TableFile {
    let entries: Vec<Entry> = vec![
        (b"a".to_vec(), MemValue::Value(b"1".to_vec())),
        (b"b".to_vec(), MemValue::Tombstone),
    ];
    SSTable::flush(b"t".to_vec(), &entries, 64, 7)
}

/// Forty keys `k00`, `k02`, `k04` and so on, each with its position as value.
fn forty() -> TableFile {
    let entries: Vec<Entry> = (0..40u8)
        .map(|i| (format!("k{:02}", 2 * i).into_bytes(), MemValue::Value(vec![i])))
        .collect();
    SSTable::flush(b"t".to_vec(), &entries, 400, 7)
}

#[test]
fn flushed_file_has_the_documented_layout() {
    let file = small();
    assert_eq!(file.bytes, TABLE.to_vec());
    assert_eq!(file.table.key_count, 2);
    assert_eq!(file.table.name, b"t".to_vec());
}

#[test]
fn every_sixteenth_key_is_indexed() {
    let file = forty();
    let keys: Vec<Vec<u8>> = file.table.index.iter().map(|e| e.key.clone()).collect();
    assert_eq!(keys, vec![b"k00".to_vec(), b"k32".to_vec(), b"k64".to_vec()]);
    let offsets: Vec<u64> = file.table.index.iter().map(|e| e.offset).collect();
    assert_eq!(offsets, vec![0, 16 * 13, 32 * 13]);
    assert_eq!(file.table.index_seek(b"k31"), 0);
    assert_eq!(file.table.index_seek(b"k32"), 208);
    assert_eq!(file.table.index_seek(b"z"), 416);
    assert_eq!(file.table.index_seek(b""), 0);
}

#[test]
fn opened_table_is_the_flushed_one() {
    let file = forty();
    let again = reopen(b"t", &file.bytes);
    assert_eq!(again.name, file.table.name);
    assert_eq!(again.index.len(), file.table.index.len());
    for (a, b) in again.index.iter().zip(file.table.index.iter()) {
        assert_eq!((&a.key, a.offset), (&b.key, b.offset));
    }
    assert_eq!(again.bloom.unwrap().encode(), file.table.bloom.unwrap().encode());
    assert_eq!(again.key_count, 0);
}

#[test]
fn lookup_finds_exactly_the_stored_keys() {
    let file = forty();
    let again = reopen(b"t", &file.bytes);
    for table in [&file.table, &again] {
        for n in 0..80u8 {
            let key = format!("k{:02}", n).into_bytes();
            let wanted = if n % 2 == 0 { Some(Some(vec![n / 2])) } else { None };
            assert_eq!(lookup(table, &file.bytes, &key).0.unwrap(), wanted);
        }
        assert_eq!(lookup(table, &file.bytes, b"").0.unwrap(), None);
        assert_eq!(lookup(table, &file.bytes, b"zz").0.unwrap(), None);
    }
}

#[test]
fn present_key_is_found_within_sixteen_records() {
    let file = forty();
    for n in 0..40u8 {
        let key = format!("k{:02}", 2 * n).into_bytes();
        let (_, reads) = lookup(&file.table, &file.bytes, &key);
        assert_eq!(reads, 1 + 2 * (n as usize % 16 + 1));
    }
}

#[test]
fn no_lookup_reads_more_than_sixteen_records() {
    let mut file = forty();
    // Without its filter the table is asked for every key.
    file.table.bloom = None;
    for n in 0..80usize {
        let key = format!("k{:02}", n).into_bytes();
        let (found, reads) = lookup(&file.table, &file.bytes, &key);
        assert_eq!(found.unwrap().is_some(), n % 2 == 0);
        assert!(reads <= 1 + 2 * 16);
    }
    // The key after the last of a block: the next block is not touched.
    let (found, reads) = lookup(&file.table, &file.bytes, b"k31");
    assert_eq!(found.unwrap(), None);
    assert_eq!(reads, 1 + 2 * 16);
    // A key before all others needs no record.
    let (found, reads) = lookup(&file.table, &file.bytes, b"a");
    assert_eq!(found.unwrap(), None);
    assert_eq!(reads, 1);
}

#[test]
fn index_seek_bisects() {
    let entries: Vec<Entry> = (0..1000u32)
        .map(|i| (format!("k{:05}", 2 * i).into_bytes(), MemValue::Value(vec![])))
        .collect();
    let file = SSTable::flush(b"t".to_vec(), &entries, 9586, 7);
    for n in 0..2000u64 {
        let key = format!("k{:05}", n).into_bytes();
        assert_eq!(file.table.index_seek(&key), n / 2 / 16 * 16 * 15);
    }
}

#[test]
fn ruled_out_key_needs_no_read() {
    let file = small();
    assert!(file.table.rules_out(b"zebra"));
    let (found, reads) = lookup(&file.table, &file.bytes, b"zebra");
    assert_eq!(found.unwrap(), None);
    assert_eq!(reads, 0);
}

#[test]
fn tombstone_is_found() {
    let file = small();
    assert_eq!(lookup(&file.table, &file.bytes, b"b").0.unwrap(), Some(None));
    assert_eq!(lookup(&file.table, &file.bytes, b"a").0.unwrap(), Some(Some(b"1".to_vec())));
}

#[test]
fn table_scan_gives_the_range() {
    let file = forty();
    let wanted: Vec<Vec<u8>> = (15..21u8).map(|i| format!("k{:02}", 2 * i).into_bytes()).collect();
    assert_eq!(scan(&file.table, &file.bytes, b"k29", Some(b"k42")).unwrap(), wanted);
    assert_eq!(scan(&file.table, &file.bytes, b"k30", Some(b"k41")).unwrap(), wanted);
    assert_eq!(scan(&file.table, &file.bytes, b"", None).unwrap().len(), 40);
    assert_eq!(scan(&file.table, &file.bytes, b"k99", None).unwrap().len(), 0);
    assert_eq!(scan(&file.table, &file.bytes, b"k10", Some(b"k10")).unwrap().len(), 0);
    assert_eq!(scan(&file.table, &file.bytes, b"k42", Some(b"k29")).unwrap().len(), 0);
}

#[test]
fn scan_without_bound_reaches_every_key() {
    let entries: Vec<Entry> = vec![
        (vec![255; 8], MemValue::Value(b"at".to_vec())),
        (vec![255; 9], MemValue::Value(b"past".to_vec())),
    ];
    let file = SSTable::flush(b"t".to_vec(), &entries, 64, 7);
    assert_eq!(
        scan(&file.table, &file.bytes, b"", None).unwrap(),
        vec![vec![255; 8], vec![255; 9]]
    );
}

#[test]
fn empty_table_has_no_filter_when_opened() {
    let file = SSTable::flush(b"t".to_vec(), &Vec::new(), 64, 7);
    let again = reopen(b"t", &file.bytes);
    assert!(again.bloom.is_none());
    assert_eq!(again.bloom_info(), None);
    assert_eq!(lookup(&again, &file.bytes, b"a").0.unwrap(), None);
    assert_eq!(scan(&again, &file.bytes, b"", None).unwrap().len(), 0);
}

#[test]
fn short_file_has_no_footer() {
    match Footer::read(15, &[]) {
        Err(EngineError::Corruption(msg)) => assert_eq!(msg, "SSTable too small: 15 bytes"),
        _ => panic!("a footer was read"),
    }
    let footer = Footer::read(67, &TABLE[51..]).unwrap();
    assert_eq!((footer.index_offset, footer.bloom_offset), (38, 21));
    assert_eq!(footer.bloom_section(), Some((21, 17)));
    assert_eq!(footer.index_section(), (38, 13));
}

#[test]
fn index_outside_the_file_is_reported() {
    // Index and filter offset, then a file of twenty bytes.
    let mut tail = [0u8; 16];
    tail[0] = 5;
    match Footer::read(20, &tail) {
        Err(EngineError::Corruption(msg)) => {
            assert_eq!(msg, "SSTable index offset 5 out of range: 20 bytes")
        }
        _ => panic!("a footer was read"),
    }
    tail[0] = 4;
    assert_eq!(Footer::read(20, &tail).unwrap().index_section(), (4, 0));
    // A filter that reaches past the end of the file.
    tail[0] = 100;
    tail[8] = 3;
    match Footer::read(20, &tail) {
        Err(e) => assert_eq!(
            e.message(),
            "Corruption: SSTable index offset 100 out of range: 20 bytes"
        ),
        _ => panic!("a footer was read"),
    }
    assert!(Footer::read(u64::MAX, &[255; 16]).is_err());
}

#[test]
fn file_that_shrank_is_reported() {
    let file = small();
    match lookup(&file.table, &file.bytes[..10], b"a").0 {
        Err(EngineError::Corruption(msg)) => assert_eq!(msg, "SSTable too small"),
        _ => panic!("the lookup succeeded"),
    }
    match scan(&file.table, &file.bytes[..10], b"a", None) {
        Err(EngineError::Corruption(msg)) => assert_eq!(msg, "SSTable too small"),
        _ => panic!("the scan succeeded"),
    }
}

#[test]
fn record_that_is_cut_short_is_an_io_error() {
    // A footer that places the end of the data behind the end of the file.
    let mut bytes = vec![9, 0, 0, 0, 9, 0, 0, 0, 0, 1, 2];
    bytes.extend_from_slice(&[0; 8]);
    bytes.extend_from_slice(&[200, 0, 0, 0, 0, 0, 0, 0]);
    bytes[0] = 100;
    let table = SSTable { name: b"t".to_vec(), index: vec![], bloom: None, key_count: 0 };
    match lookup(&table, &bytes, b"a").0 {
        Err(EngineError::Io(e)) => assert_eq!(e.kind(), ErrorKind::UnexpectedEof),
        _ => panic!("the lookup succeeded"),
    }
}

#[test]
fn missing_record_header_ends_the_search() {
    // The footer places the end of the data behind the end of the file.
    let mut bytes = vec![0; 8];
    bytes.extend_from_slice(&[200, 0, 0, 0, 0, 0, 0, 0]);
    let mut table = SSTable { name: b"t".to_vec(), index: vec![], bloom: None, key_count: 0 };
    table.index.push(pebble_engine::sstable::IndexEntry { key: vec![], offset: 10 });
    assert_eq!(lookup(&table, &bytes, b"a").0.unwrap(), None);
}

#[test]
fn failed_read_ends_the_search() {
    let file = small();
    match file.table.get(b"a") {
        LookupStep::More(next) => {
            match next.resume(Reply::Failed(Error::from(ErrorKind::PermissionDenied))) {
                LookupStep::Done(Err(EngineError::Io(e))) => {
                    assert_eq!(e.kind(), ErrorKind::PermissionDenied)
                }
                _ => panic!("the lookup went on"),
            }
        }
        LookupStep::Done(_) => panic!("the key was ruled out"),
    }
}

#[test]
fn filter_size_is_shown() {
    let file = small();
    assert_eq!(file.table.bloom_info(), Some((64, 7)));
    assert!(file.table.is_usable());
    let broken = SSTable {
        name: b"t".to_vec(),
        index: vec![],
        bloom: Some(BloomFilter::from_parts(0, 7, vec![])),
        key_count: 0,
    };
    assert!(!broken.is_usable());
}
