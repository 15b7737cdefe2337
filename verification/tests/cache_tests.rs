use addcomb_comp::cache::{cache_get, cache_set, Cache, CacheEntry};

fn entry(fid: u8, group: &[u8], rest: &[u8]) -> CacheEntry {
    CacheEntry { fid: fid, group: group.to_vec(), other_args: rest.to_vec() }
}

#[test]
fn empty_table_holds_nothing() {
    let cache = Cache::new();
    assert_eq!(cache.major_version, 0);
    assert_eq!(cache.minor_version, 1);
    assert_eq!(cache_get(&cache, &entry(0, &[5], &[2, 3])), None);
}

#[test]
fn set_then_get() {
    let mut cache = Cache::new();
    cache_set(&mut cache, entry(0, &[5], &[2, 3]), 4);
    cache_set(&mut cache, entry(1, &[5], &[2, 3]), 9);
    assert_eq!(cache_get(&cache, &entry(0, &[5], &[2, 3])), Some(4));
    assert_eq!(cache_get(&cache, &entry(1, &[5], &[2, 3])), Some(9));
    assert_eq!(cache_get(&cache, &entry(0, &[5], &[3, 2])), None);
    assert_eq!(cache_get(&cache, &entry(0, &[5, 1], &[2, 3])), None);
}

#[test]
fn set_again_replaces() {
    let mut cache = Cache::new();
    cache_set(&mut cache, entry(3, &[7, 7], &[1]), 4);
    cache_set(&mut cache, entry(3, &[7, 7], &[1]), 6);
    assert_eq!(cache_get(&cache, &entry(3, &[7, 7], &[1])), Some(6));
    assert_eq!(cache.map.len(), 1);
}

#[test]
fn key_for_a_call() {
    let key = CacheEntry::for_call(2, &vec![12, 3], &vec![4, 0, 254]);
    assert_eq!(key, Some(entry(2, &[12, 3], &[4, 0, 254])));
    // a number that does not fit the key
    assert_eq!(CacheEntry::for_call(2, &vec![255], &vec![1]), None);
    assert_eq!(CacheEntry::for_call(2, &vec![12], &vec![1, 1000]), None);
    assert_eq!(CacheEntry::for_call(0, &vec![], &vec![]), Some(entry(0, &[], &[])));
}

#[test]
fn same_key() {
    assert!(entry(1, &[2], &[3]).same(&entry(1, &[2], &[3])));
    assert!(!entry(1, &[2], &[3]).same(&entry(1, &[2], &[4])));
    assert!(!entry(1, &[2], &[3]).same(&entry(1, &[2, 0], &[3])));
    assert!(!entry(0, &[2], &[3]).same(&entry(1, &[2], &[3])));
}
