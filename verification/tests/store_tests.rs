use factorial_cache::bignat::BigNat;
use factorial_cache::cache::Cache;
use factorial_cache::codec::{decimal_bytes, parse_cache, serialize};
use factorial_cache::factorial::compute;
use factorial_cache::pipeline::{get_or_compute, load_from_contents};

fn dec(v: &BigNat) -> String {
    String::from_utf8(decimal_bytes(v)).unwrap()
}

#[test]
fn serialize_empty_cache() {
    let c = Cache::empty();
    let bytes = serialize(&c);
    assert_eq!(bytes, b"{\"data\":{}}".to_vec());
}

#[test]
fn serialize_single_entry() {
    let mut c = Cache::empty();
    c.insert(5, BigNat::from_u64(120));
    let bytes = serialize(&c);
    assert_eq!(bytes, b"{\"data\":{\"5\":\"120\"}}".to_vec());
}

#[test]
fn parse_accepts_what_serialize_wrote() {
    let mut c = Cache::empty();
    c.insert(0, BigNat::zero());
    c.insert(42, BigNat::from_u64(123456789));
    c.insert(u64::MAX, compute(30));
    let bytes = serialize(&c);
    let back = parse_cache(&bytes).unwrap();
    assert_eq!(back.entries.len(), c.entries.len());
    for i in 0..c.entries.len() {
        assert_eq!(back.entries[i].0, c.entries[i].0);
        assert!(back.entries[i].1.equals(&c.entries[i].1));
        assert_eq!(back.entries[i].1.digits, c.entries[i].1.digits);
    }
}

#[test]
fn parse_rejects_garbage() {
    assert!(parse_cache(&b"this is not a cache".to_vec()).is_none());
    assert!(parse_cache(&b"".to_vec()).is_none());
    assert!(parse_cache(&b"{}".to_vec()).is_none());
    assert!(parse_cache(&b"{\"data\":{".to_vec()).is_none());
    assert!(parse_cache(&b"{\"data\":{}} ".to_vec()).is_none());
}

#[test]
fn parse_rejects_redundant_leading_zero() {
    assert!(parse_cache(&b"{\"data\":{\"01\":\"1\"}}".to_vec()).is_none());
    assert!(parse_cache(&b"{\"data\":{\"1\":\"01\"}}".to_vec()).is_none());
}

#[test]
fn parse_rejects_duplicate_keys() {
    assert!(parse_cache(&b"{\"data\":{\"3\":\"6\",\"3\":\"6\"}}".to_vec()).is_none());
}

#[test]
fn parse_rejects_oversized_key() {
    // one past the largest machine-word key
    assert!(parse_cache(&b"{\"data\":{\"18446744073709551616\":\"1\"}}".to_vec()).is_none());
}

#[test]
fn parse_accepts_empty_object() {
    let c = parse_cache(&b"{\"data\":{}}".to_vec()).unwrap();
    assert_eq!(c.entries.len(), 0);
}

#[test]
fn insert_overwrites_existing_key() {
    let mut c = Cache::empty();
    c.insert(3, BigNat::from_u64(6));
    c.insert(3, BigNat::from_u64(7));
    assert_eq!(c.entries.len(), 1);
    assert_eq!(dec(&c.entries[0].1), "7");
}

#[test]
fn load_of_absent_store_is_empty() {
    let c = load_from_contents(None);
    assert_eq!(c.entries.len(), 0);
}

#[test]
fn cold_start_computes_and_writes_one_entry() {
    let (result, written) = get_or_compute(None, 5);
    assert_eq!(dec(&result), "120");
    let bytes = written.unwrap();
    assert_eq!(bytes, b"{\"data\":{\"5\":\"120\"}}".to_vec());
    let store = parse_cache(&bytes).unwrap();
    assert_eq!(store.entries.len(), 1);
    assert_eq!(store.entries[0].0, 5);
    assert_eq!(dec(&store.entries[0].1), "120");
}

#[test]
fn repeated_request_hits_and_writes_nothing() {
    let (first, written) = get_or_compute(None, 7);
    let store = written.unwrap();
    let (second, written_again) = get_or_compute(Some(&store), 7);
    assert_eq!(dec(&first), dec(&second));
    assert_eq!(dec(&second), "5040");
    assert!(written_again.is_none());
}

#[test]
fn corrupt_store_is_replaced_by_valid_single_entry() {
    let bad = b"{\"data\":{\"3\":6}}".to_vec();
    assert!(parse_cache(&bad).is_none());
    let c = load_from_contents(Some(&bad));
    assert_eq!(c.entries.len(), 0);
    let (result, written) = get_or_compute(Some(&bad), 4);
    assert_eq!(dec(&result), "24");
    let bytes = written.unwrap();
    assert_eq!(bytes, b"{\"data\":{\"4\":\"24\"}}".to_vec());
}

#[test]
fn miss_preserves_existing_entries() {
    let mut c = Cache::empty();
    c.insert(3, BigNat::from_u64(6));
    let store = serialize(&c);
    let (result, written) = get_or_compute(Some(&store), 5);
    assert_eq!(dec(&result), "120");
    let bytes = written.unwrap();
    let merged = parse_cache(&bytes).unwrap();
    assert_eq!(merged.entries.len(), 2);
    assert_eq!(merged.entries[0].0, 3);
    assert_eq!(dec(&merged.entries[0].1), "6");
    assert_eq!(merged.entries[1].0, 5);
    assert_eq!(dec(&merged.entries[1].1), "120");
}

#[test]
fn entry_count_never_decreases() {
    let requests: [u64; 7] = [5, 3, 5, 0, 3, 8, 0];
    let mut store: Option<Vec<u8>> = None;
    let mut count: usize = 0;
    for n in requests {
        let (_, written) = get_or_compute(store.as_ref(), n);
        if let Some(bytes) = written {
            store = Some(bytes);
        }
        let now = load_from_contents(store.as_ref()).entries.len();
        assert!(now >= count);
        count = now;
    }
    assert_eq!(count, 4);
}

#[test]
fn hit_returns_stored_value_unchanged() {
    // the stored value is returned as stored, even if it is not a factorial
    let mut c = Cache::empty();
    c.insert(4, BigNat::from_u64(99));
    let store = serialize(&c);
    let (result, written) = get_or_compute(Some(&store), 4);
    assert_eq!(dec(&result), "99");
    assert!(written.is_none());
}
