use pebble_engine::bloom::BloomFilter;

const APPLE: [u8; 17] = [64, 0, 0, 0, 0, 0, 0, 0, 7, 8, 0, 4, 0, 34, 0, 17, 128];

#[test]
fn inserted_key_sets_its_probe_positions() {
    let mut filter = BloomFilter::new(64, 7);
    filter.insert(b"apple");
    assert_eq!(filter.encode(), APPLE.to_vec());
}

#[test]
fn empty_key_is_hashed_too() {
    let mut filter = BloomFilter::new(64, 3);
    filter.insert(b"");
    let mut bits = vec![0u8; 8];
    for pos in [37usize, 58, 15] {
        bits[pos / 8] |= 1 << (pos % 8);
    }
    assert_eq!(filter.encode()[9..].to_vec(), bits);
}

#[test]
fn inserted_keys_are_never_ruled_out() {
    let mut filter = BloomFilter::new(512, 7);
    for n in 0u32..40 {
        filter.insert(&n.to_le_bytes());
        for m in 0..=n {
            assert!(filter.might_contain(&m.to_le_bytes()));
        }
    }
}

#[test]
fn absent_key_is_ruled_out() {
    let mut filter = BloomFilter::new(64, 7);
    filter.insert(b"apple");
    assert!(filter.might_contain(b"apple"));
    assert!(!filter.might_contain(b"banana"));
}

#[test]
fn empty_filter_rules_everything_out() {
    assert!(!BloomFilter::new(64, 7).might_contain(b"apple"));
}

#[test]
fn no_key_counts_as_one() {
    assert_eq!(BloomFilter::sized_for(0), 1);
    assert_eq!(BloomFilter::sized_for(1), 1);
    assert_eq!(BloomFilter::sized_for(1000), 1000);
}

#[test]
fn size_and_hash_count_are_clamped() {
    let small = BloomFilter::new(1, 0);
    assert_eq!((small.num_bits(), small.num_hash_fns()), (64, 1));
    let large = BloomFilter::new(959, 44);
    assert_eq!((large.num_bits(), large.num_hash_fns()), (959, 20));
    assert_eq!(large.encoded_size(), 9 + 120);
    assert_eq!(large.encode().len(), large.encoded_size());
}

#[test]
fn filter_survives_encoding() {
    let mut filter = BloomFilter::new(100, 5);
    filter.insert(b"k1");
    filter.insert(b"k2");
    let bytes = filter.encode();
    let again = BloomFilter::decode(&bytes).unwrap();
    assert_eq!(again.encode(), bytes);
    assert!(again.might_contain(b"k1"));
    assert!(again.might_contain(b"k2"));
}

#[test]
fn bytes_after_a_filter_are_ignored() {
    let mut bytes = APPLE.to_vec();
    bytes.push(255);
    assert_eq!(BloomFilter::decode(&bytes).unwrap().encode(), APPLE.to_vec());
}

#[test]
fn short_filter_is_not_decoded() {
    for cut in 0..APPLE.len() {
        assert!(BloomFilter::decode(&APPLE[..cut]).is_none());
    }
}

#[test]
fn filter_of_any_claimed_size_is_decoded_or_not() {
    assert!(BloomFilter::decode(&[0xFF; 9]).is_none());
    assert!(BloomFilter::decode(&[0xFF; 100]).is_none());
    for claimed in u64::MAX - 8..=u64::MAX {
        let mut bytes = claimed.to_le_bytes().to_vec();
        bytes.push(7);
        assert!(BloomFilter::decode(&bytes).is_none());
    }
    let none = BloomFilter::decode(&[0; 9]).unwrap();
    assert_eq!((none.num_bits(), none.num_hash_fns(), none.encoded_size()), (0, 0, 9));
}

#[test]
fn filter_from_parts_is_used_as_it_is() {
    let filter = BloomFilter::from_parts(64, 7, APPLE[9..].to_vec());
    assert!(filter.might_contain(b"apple"));
    assert!(!filter.might_contain(b"banana"));
}

#[test]
fn filter_without_hash_functions_rules_nothing_out() {
    assert!(BloomFilter::from_parts(0, 0, vec![]).might_contain(b"anything"));
}

#[test]
fn filter_for_one_percent_rules_out_most_absent_keys() {
    // 10,000 keys at one percent: 9.6 bits per key and seven hash functions.
    let n = 10_000f64;
    let ln2 = std::f64::consts::LN_2;
    let num_bits = ((-n * 0.01f64.ln()) / (ln2 * ln2)).ceil() as u64;
    let num_hash_fns = ((num_bits as f64 / n) * ln2).round() as u8;
    assert_eq!((num_bits, num_hash_fns), (95_851, 7));

    let mut filter = BloomFilter::new(num_bits, num_hash_fns);
    for i in 0..10_000 {
        filter.insert(format!("key_{:06}", i).as_bytes());
    }
    let mut wrong = 0;
    for i in 0..10_000 {
        assert!(filter.might_contain(format!("key_{:06}", i).as_bytes()));
        if filter.might_contain(format!("absent_{:06}", i).as_bytes()) {
            wrong += 1;
        }
    }
    assert_eq!(wrong, 87);
    assert_eq!(filter.encoded_size(), 11_991);
}
