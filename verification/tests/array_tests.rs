use fhl::decode::ArrayReader;
use fhl::decode::HashTableReader;
use fhl::encode::encode_array;
use fhl::records::ArrayRecord;
use fhl::records::DecodeError;
use fhl::records::Entry;

const DEFAULT_LIMIT: Option<u64> = Some(fhl::decode::DEFAULT_TRAVERSAL_LIMIT_WORDS);

fn entry(k: &str, v: &str) -> Entry {
    Entry { key: k.as_bytes().to_vec(), value: v.as_bytes().to_vec() }
}

fn record(pairs: &[(&str, &str)]) -> ArrayRecord {
    ArrayRecord { entries: pairs.iter().map(|(k, v)| entry(k, v)).collect() }
}

fn assert_pair(r: &ArrayReader, i: u32, k: &str, v: &str) {
    let e = r.get(i).unwrap();
    assert_eq!(e.key, k.as_bytes().to_vec());
    assert_eq!(e.value, v.as_bytes().to_vec());
}

#[test]
fn scenario_two_entries() {
    let bytes = encode_array(&record(&[("a", "1"), ("b", "2")])).unwrap();
    let r = ArrayReader::open(&bytes, DEFAULT_LIMIT).unwrap();
    assert_eq!(r.size(), 2);
    assert_pair(&r, 0, "a", "1");
    assert_pair(&r, 1, "b", "2");
    assert!(r.get(2).is_err());
}

#[test]
fn bounds_at_size() {
    let bytes = encode_array(&record(&[("k1", "v1"), ("k2", "v2"), ("k3", "v3")])).unwrap();
    let r = ArrayReader::open(&bytes, DEFAULT_LIMIT).unwrap();
    assert_eq!(r.size(), 3);
    assert!(r.get(2).is_ok());
    assert!(r.get(3).is_err());
    assert!(r.get(4).is_err());
    assert!(r.get(u32::MAX).is_err());
}

#[test]
fn empty_array() {
    let bytes = encode_array(&record(&[])).unwrap();
    let r = ArrayReader::open(&bytes, DEFAULT_LIMIT).unwrap();
    assert_eq!(r.size(), 0);
    assert!(r.get(0).is_err());
}

#[test]
fn empty_strings() {
    let bytes = encode_array(&record(&[("", ""), ("x", "")])).unwrap();
    let r = ArrayReader::open(&bytes, DEFAULT_LIMIT).unwrap();
    assert_eq!(r.size(), 2);
    assert_pair(&r, 0, "", "");
    assert_pair(&r, 1, "x", "");
}

#[test]
fn binary_and_long_values() {
    let long: Vec<u8> = (1..=100u8).collect();
    let with_zeros: Vec<u8> = vec![1, 0, 2, 0, 0, 3, 0, 4, 0, 0, 0, 5];
    let rec = ArrayRecord {
        entries: vec![
            Entry { key: b"long".to_vec(), value: long.clone() },
            Entry { key: with_zeros.clone(), value: b"z".to_vec() },
        ],
    };
    let bytes = encode_array(&rec).unwrap();
    let r = ArrayReader::open(&bytes, DEFAULT_LIMIT).unwrap();
    assert_eq!(r.size(), 2);
    assert_eq!(r.get(0).unwrap().value, long);
    assert_eq!(r.get(1).unwrap().key, with_zeros);
}

#[test]
fn many_entries_round_trip() {
    let pairs: Vec<(String, String)> =
        (0..50).map(|i| (format!("key{}", i), format!("value{}", i * i))).collect();
    let rec = ArrayRecord {
        entries: pairs
            .iter()
            .map(|(k, v)| Entry { key: k.as_bytes().to_vec(), value: v.as_bytes().to_vec() })
            .collect(),
    };
    let bytes = encode_array(&rec).unwrap();
    let r = ArrayReader::open(&bytes, DEFAULT_LIMIT).unwrap();
    assert_eq!(r.size(), 50);
    for i in 0..50u32 {
        let e = r.get(i).unwrap();
        assert_eq!(e.key, pairs[i as usize].0.as_bytes());
        assert_eq!(e.value, pairs[i as usize].1.as_bytes());
    }
}

#[test]
fn encoding_is_idempotent() {
    let rec = record(&[("a", "1"), ("bb", "22"), ("", "x")]);
    let once = encode_array(&rec).unwrap();
    let twice = encode_array(&rec).unwrap();
    assert_eq!(once, twice);
}

#[test]
fn traversal_limit_enforced() {
    let bytes = encode_array(&record(&[("a", "1"), ("b", "2")])).unwrap();
    assert_eq!(
        ArrayReader::open(&bytes, Some(1)).unwrap_err(),
        DecodeError::TraversalLimitExceeded
    );
    assert!(ArrayReader::open(&bytes, None).is_ok());
    assert!(ArrayReader::open(&bytes, Some(u64::MAX)).is_ok());
}

#[test]
fn truncation_rejected() {
    let bytes = encode_array(&record(&[("a", "1"), ("b", "2")])).unwrap();
    for cut in 0..bytes.len() {
        let shorter = bytes[..cut].to_vec();
        assert_eq!(
            ArrayReader::open(&shorter, DEFAULT_LIMIT).unwrap_err(),
            DecodeError::Malformed
        );
    }
}

#[test]
fn hash_table_decoder_rejects_array_bytes() {
    let bytes = encode_array(&record(&[("a", "1")])).unwrap();
    assert_eq!(
        HashTableReader::open(&bytes, None).unwrap_err(),
        DecodeError::SchemaMismatch
    );
}
