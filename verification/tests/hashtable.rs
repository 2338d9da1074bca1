use minikv::entry::{Data, Entry};
use minikv::hashtable::{fnv1a_hash, HashNode, HashTable};

fn entry_with_code(code: u64) -> Entry {
    Entry::new(HashNode::new(None, code), Vec::new(), None)
}

fn probe(code: u64) -> Entry {
    Entry::new(HashNode::new(None, code), Vec::new(), None)
}

#[test]
fn hashtable_test_new() {
    let ht = HashTable::new(1024);
    assert!(ht.is_ok());
    let ht = HashTable::new(10);
    assert!(ht.is_err());
    let ht = HashTable::new(0);
    assert!(ht.is_err());
    let ht = HashTable::new(1);
    assert!(ht.is_ok());
}

#[test]
fn hashtable_test_insert() {
    let mut ht = HashTable::new(4).unwrap();
    for i in 0..18u64 {
        ht.insert(entry_with_code(i));
    }
    assert_eq!(ht.size(), 18);
}

#[test]
fn hashtable_test_lookup() {
    let mut ht = HashTable::new(4).unwrap();
    for i in 0..18u64 {
        ht.insert(entry_with_code(i));
    }
    println!("\n\n");

    let node1 = probe(4);
    let found = ht.lookup(&node1);
    assert!(found.is_some());
    assert_eq!(found.unwrap().node.code, 4);
    println!("node1 found!");

    let node2 = probe(13);
    let found = ht.lookup(&node2);
    assert!(found.is_some());
    assert_eq!(found.unwrap().node.code, 13);
    println!("node2 found!");

    let node3 = probe(21);
    let found = ht.lookup(&node3);
    assert!(found.is_none());
    println!("node3 not found!");

    let node4 = probe(45);
    let found = ht.lookup(&node4);
    assert!(found.is_none());
    println!("node4 not found!");

    let node5 = probe(16);
    let found = ht.lookup(&node5);
    assert!(found.is_some());
    assert_eq!(found.unwrap().node.code, 16);
    println!("node5 found!");
    println!("found: {:#?}", found.unwrap());
}

#[test]
fn test_detach() {
    let mut ht = HashTable::new(8).unwrap();
    for i in 0..5u64 {
        ht.insert(entry_with_code(i));
    }
    assert_eq!(ht.size(), 5);

    let detached = ht.detach(&probe(1));
    println!("Detached node: {:?}", detached);
    assert_eq!(detached.unwrap().node.code, 1);
    assert_eq!(ht.size(), 4);
    // the detached record is no longer reachable
    assert!(ht.lookup(&probe(1)).is_none());
}

#[test]
fn hashtable_keyed_records() {
    // records are compared by code and key together
    let mut ht = HashTable::new(4).unwrap();
    let code = fnv1a_hash(b"name");
    let entry = Entry::new(
        HashNode::new(None, code),
        b"name".to_vec(),
        Some(b"alice".to_vec()),
    );
    ht.insert(entry);
    let hit = ht.lookup(&Entry::new(HashNode::new(None, code), b"name".to_vec(), None));
    assert!(hit.is_some());
    assert_eq!(hit.unwrap().value.as_deref(), Some(b"alice".as_ref()));
    // same code, different key: a miss
    let miss = ht.lookup(&Entry::new(HashNode::new(None, code), b"other".to_vec(), None));
    assert!(miss.is_none());
}

#[test]
fn hashtable_lookup_mut_updates_value() {
    let mut ht = HashTable::new(4).unwrap();
    let code = fnv1a_hash(b"k");
    ht.insert(Entry::new(
        HashNode::new(None, code),
        b"k".to_vec(),
        Some(b"v1".to_vec()),
    ));
    let probe2 = Entry::new(HashNode::new(None, code), b"k".to_vec(), Some(b"v2".to_vec()));
    assert!(ht.lookup_mut(&probe2));
    let hit = ht.lookup(&probe2).unwrap();
    assert_eq!(hit.value.as_deref(), Some(b"v2".as_ref()));
    // a miss leaves the table unchanged
    let absent = Entry::new(HashNode::new(None, 999), b"zz".to_vec(), None);
    assert!(!ht.lookup_mut(&absent));
    assert_eq!(ht.size(), 1);
}

#[test]
fn hashtable_drain_empties() {
    let mut ht = HashTable::new(4).unwrap();
    for i in 0..6u64 {
        ht.insert(entry_with_code(i));
    }
    let mut drained = 0;
    while let Some(_) = ht.drain() {
        drained += 1;
    }
    assert_eq!(drained, 6);
    assert!(ht.is_empty());
    assert_eq!(ht.mask(), 3);
}

#[test]
fn fnv1a_known_values() {
    // offset basis: the hash of the empty input
    assert_eq!(fnv1a_hash(b""), 0x811C9DC5);
    // one byte: (basis + byte) * prime, wrapping at 32 bits
    let expected = (0x811C9DC5u32
        .wrapping_add(b'a' as u32))
    .wrapping_mul(0x01000193) as u64;
    assert_eq!(fnv1a_hash(b"a"), expected);
}

#[test]
fn entry_equality_is_key_equality() {
    // logical equality of records goes by the key bytes alone
    let a = Entry::new(HashNode::new(None, 1), b"k".to_vec(), Some(b"x".to_vec()));
    let b = Entry::new(HashNode::new(None, 2), b"k".to_vec(), None);
    let c = Entry::new(HashNode::new(None, 1), b"other".to_vec(), Some(b"x".to_vec()));
    assert!(Entry::check_entry_equality(&a, &b));
    assert!(!Entry::check_entry_equality(&a, &c));
}

#[test]
fn data_starts_empty() {
    let data = Data::new();
    assert_eq!(data.db.size(), 0);
}

#[test]
fn resize_rebuilds_empty_table() {
    let mut ht = HashTable::new(4).unwrap();
    ht.resize(8);
    assert_eq!(ht.mask(), 7);
    assert_eq!(ht.size(), 0);
    assert!(ht.is_empty());
}
