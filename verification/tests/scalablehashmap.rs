use minikv::entry::Entry;
use minikv::hashtable::{fnv1a_hash, HashNode};
use minikv::scalablehashmap::ScalableHashMap;

fn entry_with_code(code: u64) -> Entry {
    Entry::new(HashNode::new(None, code), Vec::new(), None)
}

#[test]
fn scalablehashmap_test_new() {
    let map = ScalableHashMap::new();
    assert!(map.table1.is_some());
    assert!(map.table2.is_none());
    assert_eq!(map.size(), 0)
}

#[test]
fn scalablehashmap_test_insert() {
    let mut map = ScalableHashMap::new();
    let node_number = 15;
    for i in 0..node_number {
        map.insert(entry_with_code(i as u64));
    }
    assert_eq!(map.size(), node_number);
}

#[test]
fn scalablehashmap_test_lookup() {
    let mut map = ScalableHashMap::new();
    let node_number = 15u64;
    for i in 0..node_number {
        map.insert(entry_with_code(i));
    }
    for i in 0..node_number {
        let found = map.lookup(&entry_with_code(i));
        assert!(found.is_some());
        assert_eq!(found.unwrap().node.code, i);
    }
    assert!(map.lookup(&entry_with_code(123)).is_none());
    assert!(map.lookup(&entry_with_code(101)).is_none());
}

#[test]
fn test_pop() {
    let mut map = ScalableHashMap::new();
    let node_number = 15u64;
    for i in 0..node_number {
        map.insert(entry_with_code(i));
    }
    for i in 0..node_number {
        let popped = map.pop(&entry_with_code(i));
        assert!(popped.is_some());
        assert_eq!(popped.unwrap().node.code, i);
    }
    assert!(map.pop(&entry_with_code(123)).is_none());
    assert!(map.pop(&entry_with_code(101)).is_none());
}

#[test]
fn test_start_resize() {
    let mut map = ScalableHashMap::new();
    let node_number = 3u64;
    for i in 0..node_number {
        map.insert(entry_with_code(i));
    }
    map.start_resizing();
    assert_eq!(map.size(), 3);
    let found = map.lookup(&entry_with_code(2));
    assert!(found.is_some());
    assert_eq!(found.unwrap().node.code, 2);
}

#[test]
fn test_help_resizing() {
    let mut map = ScalableHashMap::new();
    let node_number = 3u64;
    for i in 0..node_number {
        map.insert(entry_with_code(i));
    }
    map.start_resizing();
    assert_eq!(map.size(), 3);
    let found = map.lookup(&entry_with_code(2));
    assert!(found.is_some());
    assert_eq!(found.unwrap().node.code, 2);
    map.help_resizing();
    assert_eq!(map.size(), 3);
    assert!(map.table2.is_none());
}

#[test]
fn resize_under_load() {
    // 64 distinct keys into a map of initial capacity 4: the capacity
    // has doubled at least once, the size is 64, every key is findable
    let mut map = ScalableHashMap::new();
    assert_eq!(map.table1.as_ref().unwrap().mask() + 1, 4);
    for i in 0..64u64 {
        let key = vec![i as u8];
        let code = fnv1a_hash(&key);
        map.insert(Entry::new(HashNode::new(None, code), key, None));
    }
    assert_eq!(map.size(), 64);
    assert!(map.table1.as_ref().unwrap().mask() + 1 > 4);
    for i in 0..64u64 {
        let key = vec![i as u8];
        let code = fnv1a_hash(&key);
        let probe = Entry::new(HashNode::new(None, code), key, None);
        assert!(map.lookup(&probe).is_some());
    }
}

#[test]
fn pathological_bucket_stream() {
    // all codes select bucket zero of the initial table; after enough
    // inserts a rehash has begun and the capacity has doubled
    let mut map = ScalableHashMap::new();
    let mut i = 0u64;
    while map.table1.as_ref().unwrap().mask() + 1 == 4 {
        map.insert(entry_with_code(i * 4));
        i += 1;
        assert!(i <= 8 * 4 + 1);
    }
    assert!(map.table1.as_ref().unwrap().mask() + 1 == 8);
    assert_eq!(map.size(), i as usize);
    for j in 0..i {
        assert!(map.lookup(&entry_with_code(j * 4)).is_some());
    }
}

#[test]
fn destroy_empties() {
    let mut map = ScalableHashMap::new();
    for i in 0..10u64 {
        map.insert(entry_with_code(i));
    }
    map.destroy();
    assert_eq!(map.size(), 0);
    assert!(map.table2.is_none());
    assert!(map.lookup(&entry_with_code(3)).is_none());
}
