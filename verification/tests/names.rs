use pebble_engine::names::{
    has_table_extension, newest_first, order_names, select_tables, table_file_name, table_seq,
};
use pebble_engine::order::{KeyOrder, order_keys};

#[test]
fn names_are_padded_to_eight_digits() {
    assert_eq!(table_file_name(1), b"sst_00000001.sst".to_vec());
    assert_eq!(table_file_name(99_999_999), b"sst_99999999.sst".to_vec());
    assert_eq!(table_file_name(123_456_789), b"sst_123456789.sst".to_vec());
    assert_eq!(table_file_name(u64::MAX), b"sst_18446744073709551615.sst".to_vec());
}

#[test]
fn name_keeps_its_number() {
    for n in [0u64, 1, 42, 99_999_999, 100_000_000, u64::MAX] {
        assert_eq!(table_seq(&table_file_name(n)), Some(n));
        assert!(has_table_extension(&table_file_name(n)));
    }
}

#[test]
fn other_names_have_no_number() {
    assert_eq!(table_seq(b"sst_.sst"), None);
    assert_eq!(table_seq(b"sst_12x.sst"), None);
    assert_eq!(table_seq(b"tab_00000001.sst"), None);
    assert_eq!(table_seq(b"sst_18446744073709551616.sst"), None);
    assert_eq!(table_seq(b""), None);
}

#[test]
fn number_is_read_from_the_stem() {
    assert_eq!(table_seq(b"sst_7"), Some(7));
    assert_eq!(table_seq(b"sst_+7.sst"), Some(7));
    assert_eq!(table_seq(b"sst_7.tmp"), Some(7));
    assert_eq!(table_seq(b"sst_7.5.sst"), None);
}

#[test]
fn extension_follows_a_stem() {
    assert!(has_table_extension(b"x.sst"));
    assert!(!has_table_extension(b".sst"));
    assert!(!has_table_extension(b"wal.log"));
    assert!(!has_table_extension(b"x.sst.tmp"));
    assert!(!has_table_extension(b"sst"));
}

#[test]
fn names_are_ordered_by_their_numbers() {
    for (n, m) in [
        (0u64, 1u64),
        (9, 10),
        (99, 100),
        (12_345, 12_346),
        (99_999_999, 100_000_000),
        (999_999_999, u64::MAX),
    ] {
        assert_eq!(order_names(&table_file_name(n), &table_file_name(m)), KeyOrder::Before);
        assert_eq!(order_names(&table_file_name(m), &table_file_name(n)), KeyOrder::After);
        assert_eq!(order_names(&table_file_name(n), &table_file_name(n)), KeyOrder::Same);
    }
    // One number, written in two ways; and names without a number.
    assert_eq!(order_names(b"sst_07.sst", b"sst_7.sst"), KeyOrder::Before);
    assert_eq!(order_names(b"zzz.sst", b"sst_0.sst"), KeyOrder::Before);
    assert_eq!(order_names(b"b.sst", b"a.sst"), KeyOrder::After);
}

#[test]
fn only_tables_are_selected() {
    let names = vec![b"wal.log".to_vec(), table_file_name(2), b".sst".to_vec(), table_file_name(1)];
    assert_eq!(select_tables(names), vec![table_file_name(2), table_file_name(1)]);
}

#[test]
fn newest_name_comes_first() {
    let names = vec![table_file_name(2), table_file_name(10), table_file_name(1)];
    assert_eq!(
        newest_first(names),
        vec![table_file_name(10), table_file_name(2), table_file_name(1)]
    );
    let names =
        vec![table_file_name(99_999_999), b"other.sst".to_vec(), table_file_name(100_000_000)];
    assert_eq!(
        newest_first(names),
        vec![table_file_name(100_000_000), table_file_name(99_999_999), b"other.sst".to_vec()]
    );
    assert_eq!(newest_first(vec![]), Vec::<Vec<u8>>::new());
}

#[test]
fn keys_are_ordered_bytewise() {
    assert_eq!(order_keys(b"", b"a"), KeyOrder::Before);
    assert_eq!(order_keys(b"a", b"ab"), KeyOrder::Before);
    assert_eq!(order_keys(b"b", b"ab"), KeyOrder::After);
    assert_eq!(order_keys(&[255], &[1, 0]), KeyOrder::After);
    assert_eq!(order_keys(b"same", b"same"), KeyOrder::Same);
}
