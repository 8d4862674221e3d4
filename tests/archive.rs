use archived_map::hash::{hash_bytes, hash_key, keys_equal, FNV_OFFSET};
use archived_map::relptr::{relative_offset, resolve_offset, ArchiveError};
use archived_map::source::SourceMap;
use archived_map::table::{
    buckets_for, resolve_from_len, ArchivedHashMap, ArchivedHeader, HashMapResolver,
};

fn sample() -> SourceMap {
    let mut value = SourceMap::new();
    value.insert(String::from("foo"), 10);
    value.insert(String::from("bar"), 20);
    value.insert(String::from("baz"), 40);
    value.insert(String::from("bat"), 80);
    value
}

fn sorted(mut v: Vec<(String, i32)>) -> Vec<(String, i32)> {
    v.sort();
    v
}

#[test]
fn index_map() {
    let value = sample();
    let archived = ArchivedHashMap::serialize(&value).unwrap();

    assert_eq!(value.len(), archived.len());
    for (k, v) in value.to_pairs().iter() {
        let (ak, av) = archived.get_key_value(k.as_str()).unwrap();
        assert_eq!(k, ak);
        assert_eq!(*v, av);
    }

    let deserialized = archived.deserialize();
    assert_eq!(value.inner, deserialized.inner);
}

#[test]
fn concrete_scenario() {
    let value = sample();
    let archived = ArchivedHashMap::serialize(&value).unwrap();
    assert_eq!(archived.len(), 4);
    assert_eq!(archived.get("foo"), Some(10));
    assert_eq!(archived.get("bar"), Some(20));
    assert_eq!(archived.get("baz"), Some(40));
    assert_eq!(archived.get("bat"), Some(80));
    assert_eq!(archived.get("qux"), None);
    assert!(archived.contains_key("bat"));
    assert!(!archived.contains_key("qux"));
    assert_eq!(archived.deserialize().inner, value.inner);
    assert!(archived.eq_native(&value));
    assert!(value.eq_archived(&archived));
}

#[test]
fn round_trip_many_entries() {
    let mut value = SourceMap::new();
    for i in 0..1000 {
        value.insert(format!("key-{}", i), i * 3 - 500);
    }
    let archived = ArchivedHashMap::serialize(&value).unwrap();
    assert_eq!(archived.len(), 1000);
    for i in 0..1000 {
        assert_eq!(archived.get(&format!("key-{}", i)), Some(i * 3 - 500));
    }
    assert_eq!(archived.get("key-1000"), None);
    assert_eq!(archived.deserialize().inner, value.inner);
    assert_eq!(archived.iter().len(), 1000);
}

#[test]
fn empty_map() {
    let value = SourceMap::new();
    let archived = ArchivedHashMap::serialize(&value).unwrap();
    assert_eq!(archived.len(), 0);
    assert!(archived.iter().is_empty());
    assert_eq!(archived.get(""), None);
    assert_eq!(archived.get("foo"), None);
    assert!(archived.get_key_value("foo").is_none());
    assert_eq!(archived.deserialize().len(), 0);
    assert!(archived.eq_native(&value));
}

#[test]
fn iter_lists_every_pair_once() {
    let value = sample();
    let archived = ArchivedHashMap::serialize(&value).unwrap();
    let listed: Vec<(String, i32)> = archived
        .iter()
        .into_iter()
        .map(|(k, v)| (k.to_string(), v))
        .collect();
    assert_eq!(
        sorted(listed),
        vec![
            (String::from("bar"), 20),
            (String::from("bat"), 80),
            (String::from("baz"), 40),
            (String::from("foo"), 10),
        ]
    );
    assert_eq!(archived.iter(), archived.iter());
}

#[test]
fn equality_both_ways() {
    let value = sample();
    let archived = ArchivedHashMap::serialize(&value).unwrap();

    let mut other_value = sample();
    other_value.insert(String::from("foo"), 11);
    assert!(!archived.eq_native(&other_value));
    assert!(!other_value.eq_archived(&archived));

    let mut more = sample();
    more.insert(String::from("qux"), 160);
    assert!(!archived.eq_native(&more));
    assert!(!more.eq_archived(&archived));

    let mut renamed = SourceMap::new();
    renamed.insert(String::from("foo"), 10);
    renamed.insert(String::from("bar"), 20);
    renamed.insert(String::from("baz"), 40);
    renamed.insert(String::from("bau"), 80);
    assert!(!archived.eq_native(&renamed));
    assert!(!renamed.eq_archived(&archived));

    let rebuilt = archived.deserialize();
    assert!(archived.eq_native(&rebuilt));
    assert!(rebuilt.eq_archived(&archived));
}

#[test]
fn insertion_order_does_not_matter() {
    let mut first = SourceMap::new();
    let mut second = SourceMap::new();
    for i in 0..50 {
        first.insert(format!("k{}", i), i);
    }
    for i in (0..50).rev() {
        second.insert(format!("k{}", i), i);
    }
    let a1 = ArchivedHashMap::serialize(&first).unwrap();
    let a2 = ArchivedHashMap::serialize(&second).unwrap();
    for i in 0..60 {
        let k = format!("k{}", i);
        assert_eq!(a1.get(&k), a2.get(&k));
    }
    assert!(a1.eq_native(&second));
    assert!(a2.eq_native(&first));
}

#[test]
fn non_ascii_keys() {
    let mut value = SourceMap::new();
    value.insert(String::from("größe"), 1);
    value.insert(String::from("日本"), 2);
    value.insert(String::from(""), 3);
    let archived = ArchivedHashMap::serialize(&value).unwrap();
    assert_eq!(archived.get("größe"), Some(1));
    assert_eq!(archived.get("日本"), Some(2));
    assert_eq!(archived.get(""), Some(3));
    assert_eq!(archived.get("grosse"), None);
    assert_eq!(archived.get("日"), None);
}

#[test]
fn from_pairs_builds_table() {
    let pairs = vec![(String::from("a"), 1), (String::from("b"), -2)];
    let archived = ArchivedHashMap::from_pairs(&pairs).unwrap();
    assert_eq!(archived.len(), 2);
    assert_eq!(archived.get("a"), Some(1));
    assert_eq!(archived.get("b"), Some(-2));
    assert_eq!(archived.get("c"), None);
    assert_eq!(archived.get_key_value("b"), Some(("b", -2)));
}

#[test]
fn fnv_known_values() {
    assert_eq!(hash_bytes(b""), FNV_OFFSET);
    assert_eq!(hash_bytes(b""), 0xcbf29ce484222325);
    assert_eq!(hash_bytes(b"a"), 0xaf63dc4c8601ec8c);
    assert_eq!(hash_key("foobar"), 0x85944171f73967e8);
}

#[test]
fn keys_compare_by_content() {
    assert!(keys_equal("foo", "foo"));
    assert!(!keys_equal("foo", "fob"));
    assert!(!keys_equal("foo", "fo"));
    assert!(keys_equal("", ""));
}

#[test]
fn relative_offsets() {
    assert_eq!(relative_offset(4, 10), Ok(6));
    assert_eq!(relative_offset(10, 4), Ok(-6));
    assert_eq!(relative_offset(7, 7), Ok(0));
    assert_eq!(relative_offset(2147483648, 0), Ok(i32::MIN));
    assert_eq!(relative_offset(0, 2147483647), Ok(i32::MAX));
    assert_eq!(relative_offset(0, 2147483648), Err(ArchiveError::OffsetOverflow));
    assert_eq!(relative_offset(2147483649, 0), Err(ArchiveError::OffsetOverflow));
    assert_eq!(resolve_offset(4, 6), 10);
    assert_eq!(resolve_offset(10, -6), 4);
    assert_eq!(resolve_offset(2147483648, i32::MIN), 0);
    let off = relative_offset(123, 45).unwrap();
    assert_eq!(resolve_offset(123, off), 45);
}

#[test]
fn source_map_wrappers() {
    let value = sample();
    assert_eq!(value.len(), 4);
    assert_eq!(value.get("baz"), Some(40));
    assert_eq!(value.get("qux"), None);
    assert_eq!(
        sorted(value.to_pairs()),
        vec![
            (String::from("bar"), 20),
            (String::from("bat"), 80),
            (String::from("baz"), 40),
            (String::from("foo"), 10),
        ]
    );
    let mut m = SourceMap::with_capacity(8);
    m.insert(String::from("x"), 1);
    m.insert(String::from("x"), 2);
    assert_eq!(m.len(), 1);
    assert_eq!(m.get("x"), Some(2));
}

#[test]
fn header_resolution() {
    let value = sample();
    let header = value
        .resolve(100, HashMapResolver { buckets_pos: 40 })
        .unwrap();
    assert_eq!(header.len, 4);
    assert_eq!(header.bucket_count, 5);
    assert_eq!(header.buckets_offset, -60);
    assert_eq!(
        resolve_from_len(0, 8, HashMapResolver { buckets_pos: 8 }),
        Ok(ArchivedHeader { len: 0, bucket_count: 0, buckets_offset: 0 })
    );
    assert_eq!(
        resolve_from_len(14, 0, HashMapResolver { buckets_pos: 3 }),
        Ok(ArchivedHeader { len: 14, bucket_count: 17, buckets_offset: 3 })
    );
    assert_eq!(
        resolve_from_len(1, 0, HashMapResolver { buckets_pos: 1 << 31 }),
        Err(ArchiveError::OffsetOverflow)
    );
    assert_eq!(buckets_for(0), 0);
    assert_eq!(buckets_for(1), 2);
    assert_eq!(buckets_for(7), 9);
    assert_eq!(buckets_for(1 << 30), (1 << 30) + (1 << 30) / 7 + 1);
}
