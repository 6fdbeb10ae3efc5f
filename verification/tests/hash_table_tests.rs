use fhl::decode::ArrayReader;
use fhl::decode::HashTableReader;
use fhl::encode::encode_hash_table;
use fhl::records::DecodeError;
use fhl::records::Entry;
use fhl::records::HashTableRecord;

fn entry(k: &str, v: &str) -> Entry {
    Entry { key: k.as_bytes().to_vec(), value: v.as_bytes().to_vec() }
}

#[test]
fn scenario_one_entry_three_seeds() {
    let rec = HashTableRecord {
        entries: vec![entry("x", "y")],
        seeds: vec![3, -7, 0],
        m: 11,
        r: 3,
    };
    let bytes = encode_hash_table(&rec).unwrap();
    let h = HashTableReader::open(&bytes, None).unwrap();
    assert_eq!(h.size(), 1);
    let e = h.entry(0).unwrap();
    assert_eq!(e.key, b"x".to_vec());
    assert_eq!(e.value, b"y".to_vec());
    assert_eq!(h.seed(0).unwrap(), 3);
    assert_eq!(h.seed(1).unwrap(), -7);
    assert_eq!(h.seed(2).unwrap(), 0);
    assert_eq!(h.m(), 11);
    assert_eq!(h.r(), 3);
    assert!(h.entry(1).is_err());
    assert!(h.seed(3).is_err());
}

#[test]
fn seed_bounds_independent_of_entries() {
    let rec = HashTableRecord {
        entries: vec![entry("a", "1"), entry("b", "2")],
        seeds: vec![9],
        m: 5,
        r: 1,
    };
    let bytes = encode_hash_table(&rec).unwrap();
    let h = HashTableReader::open(&bytes, None).unwrap();
    assert_eq!(h.size(), 2);
    assert_eq!(h.seed_count(), 1);
    assert!(h.entry(1).is_ok());
    assert!(h.seed(0).is_ok());
    assert!(h.seed(1).is_err());
    assert!(h.seed(2).is_err());
}

#[test]
fn empty_hash_table() {
    let rec = HashTableRecord { entries: vec![], seeds: vec![], m: 0, r: 0 };
    let bytes = encode_hash_table(&rec).unwrap();
    let h = HashTableReader::open(&bytes, None).unwrap();
    assert_eq!(h.size(), 0);
    assert_eq!(h.seed_count(), 0);
    assert!(h.entry(0).is_err());
    assert!(h.seed(0).is_err());
    assert_eq!(h.m(), 0);
    assert_eq!(h.r(), 0);
}

#[test]
fn extreme_scalars_and_seeds() {
    let rec = HashTableRecord {
        entries: vec![entry("k", "v")],
        seeds: vec![i32::MIN, i32::MAX, -1, 1],
        m: i32::MIN,
        r: i32::MAX,
    };
    let bytes = encode_hash_table(&rec).unwrap();
    let h = HashTableReader::open(&bytes, None).unwrap();
    assert_eq!(h.seed(0).unwrap(), i32::MIN);
    assert_eq!(h.seed(1).unwrap(), i32::MAX);
    assert_eq!(h.seed(2).unwrap(), -1);
    assert_eq!(h.seed(3).unwrap(), 1);
    assert_eq!(h.m(), i32::MIN);
    assert_eq!(h.r(), i32::MAX);
}

#[test]
fn odd_and_even_seed_counts() {
    for count in 0..7usize {
        let seeds: Vec<i32> = (0..count as i32).map(|i| i * 17 - 20).collect();
        let rec = HashTableRecord {
            entries: vec![entry("a", "b")],
            seeds: seeds.clone(),
            m: 2,
            r: 4,
        };
        let bytes = encode_hash_table(&rec).unwrap();
        let h = HashTableReader::open(&bytes, None).unwrap();
        assert_eq!(h.seed_count() as usize, count);
        for (i, s) in seeds.iter().enumerate() {
            assert_eq!(h.seed(i as u32).unwrap(), *s);
        }
        assert!(h.seed(count as u32).is_err());
    }
}

#[test]
fn hash_table_encoding_is_idempotent() {
    let rec = HashTableRecord {
        entries: vec![entry("x", "y"), entry("p", "q")],
        seeds: vec![1, -2, 3],
        m: 11,
        r: 3,
    };
    let once = encode_hash_table(&rec).unwrap();
    let rec2 = HashTableRecord {
        entries: vec![entry("x", "y"), entry("p", "q")],
        seeds: vec![1, -2, 3],
        m: 11,
        r: 3,
    };
    let twice = encode_hash_table(&rec2).unwrap();
    assert_eq!(once, twice);
}

#[test]
fn hash_table_truncation_rejected() {
    let rec = HashTableRecord {
        entries: vec![entry("x", "y")],
        seeds: vec![3, -7, 0],
        m: 11,
        r: 3,
    };
    let bytes = encode_hash_table(&rec).unwrap();
    for cut in 0..bytes.len() {
        let shorter = bytes[..cut].to_vec();
        assert_eq!(
            HashTableReader::open(&shorter, None).unwrap_err(),
            DecodeError::Malformed
        );
    }
}

#[test]
fn hash_table_traversal_limit() {
    let rec = HashTableRecord {
        entries: vec![entry("x", "y")],
        seeds: vec![3, -7, 0],
        m: 11,
        r: 3,
    };
    let bytes = encode_hash_table(&rec).unwrap();
    assert_eq!(
        HashTableReader::open(&bytes, Some(2)).unwrap_err(),
        DecodeError::TraversalLimitExceeded
    );
    assert!(HashTableReader::open(&bytes, Some(1_000_000)).is_ok());
}

#[test]
fn array_decoder_rejects_hash_table_bytes() {
    let rec = HashTableRecord {
        entries: vec![entry("x", "y")],
        seeds: vec![1],
        m: 1,
        r: 1,
    };
    let bytes = encode_hash_table(&rec).unwrap();
    assert_eq!(
        ArrayReader::open(&bytes, None).unwrap_err(),
        DecodeError::SchemaMismatch
    );
}
