use lexikon::hashtable::{HNode, HashMap, HashMapError, HashTable, InnerHashTable, InnerHashTableError};

fn hash_eq(left: &HNode, right: &HNode) -> bool {
    left.hash() == right.hash()
}

#[test]
fn hnode_default() {
    let hnode = HNode::default();
    assert!(hnode.hash() == 0);
}

#[test]
fn inner_hashtable_init() {
    let htable = InnerHashTable::init(64).expect("Failed to init hashtable");
    assert!(htable.mask() == 63);
    assert!(htable.len() == 0);
}

#[test]
fn inner_hashtable_insert() {
    let hashes = [1, 2, 3, 4, 5];
    let mut htable = InnerHashTable::init(64).expect("Failed to init hashtable");
    for hash in hashes {
        let hnode = HNode::from_hash(hash);
        htable.insert(hnode).expect("Failed to insert");
    }
    assert!(htable.len() == hashes.len());
}

#[test]
fn inner_hashtable_insert_chain() {
    let hashes = [1, 2, 3, 4, 5];
    let mut htable = InnerHashTable::init(2).expect("Failed to init hashtable");
    for hash in hashes {
        let hnode = HNode::from_hash(hash);
        htable.insert(hnode).expect("Failed to insert");
    }
    assert!(htable.len() == hashes.len());
}

#[test]
fn inner_hashtable_lookup() {
    let hashes = [1, 2, 3, 4, 5];
    let mut htable = InnerHashTable::init(2).expect("Failed to init hashtable");
    for hash in hashes {
        let hnode = HNode::from_hash(hash);
        htable.insert(hnode).expect("Failed to insert");
    }
    let hnode = HNode::from_hash(3);
    let found = htable.lookup(&hnode, &hash_eq);
    assert!(found.is_some());

    let hnode = HNode::from_hash(5);
    let found = htable.lookup(&hnode, &hash_eq);
    assert!(found.is_some());

    let hnode = HNode::from_hash(6);
    let not_found = htable.lookup(&hnode, &hash_eq);
    assert!(not_found.is_none());
}

#[test]
fn inner_hashtable_deletion() {
    let hashes = [1, 2, 3, 4, 5];
    let mut htable = InnerHashTable::init(2).expect("Failed to init hashtable");
    for hash in hashes {
        let hnode = HNode::from_hash(hash);
        htable.insert(hnode).expect("Failed to insert");
    }

    let hnode = HNode::from_hash(3);
    let found = htable.lookup(&hnode, &hash_eq);
    let found = found.expect("Failed to get node");
    htable.detach(found).expect("Failed to delete node");
    assert!(htable.len() == 4);

    let hnode = HNode::from_hash(5);
    let found = htable.lookup(&hnode, &hash_eq);
    let found = found.expect("Failed to get node");
    htable.detach(found).expect("Failed to delete node");
    assert!(htable.len() == 3);

    let hnode = HNode::from_hash(1);
    let found = htable.lookup(&hnode, &hash_eq);
    let found = found.expect("Failed to get node");
    htable.detach(found).expect("Failed to delete node");
    assert!(htable.len() == 2);
}

#[test]
fn inner_hashtable_iter() {
    let hashes = [1, 2, 3, 4, 5];
    let mut htable = InnerHashTable::init(2).expect("Failed to init hashtable");
    for hash in hashes {
        let hnode = HNode::from_hash(hash);
        htable.insert(hnode).expect("Failed to insert");
    }

    let mut ht_iter = htable.iter();

    assert!(ht_iter.next().unwrap().hash() == 4);
    assert!(ht_iter.next().unwrap().hash() == 2);
    assert!(ht_iter.next().unwrap().hash() == 5);
    assert!(ht_iter.next().unwrap().hash() == 3);
    assert!(ht_iter.next().unwrap().hash() == 1);
    assert!(ht_iter.next() == None);
}

#[test]
fn hashtable_insert() {
    let keys = [("One", "pear"), ("Four", "apples"), ("Seven", "cars")];
    let mut ht = HashTable::default();

    for (key, value) in keys {
        ht.insert(key.to_string(), value.to_string())
            .expect("Failed to insert key, value");
    }

    let a = ht.lookup("Four".to_string()).expect("Unable to find key");
    assert_eq!(a, "apples");
}

#[test]
fn inner_init_refuses_bad_sizes() {
    assert!(matches!(InnerHashTable::init(0), Err(InnerHashTableError::NegativeSize)));
    assert!(matches!(InnerHashTable::init(6), Err(InnerHashTableError::SizeNotPowerOfTwo(6))));
    assert!(matches!(
        InnerHashTable::init(usize::MAX / 2 + 1),
        Err(InnerHashTableError::LayoutError(_))
    ));
    assert!(InnerHashTable::init(1).is_ok());
}

#[test]
fn inner_insert_files_under_masked_hash() {
    let mut htable = InnerHashTable::init(4).expect("init");
    htable.insert(HNode::from_hash(6)).expect("insert");
    htable.insert(HNode::from_hash(2)).expect("insert");
    let found = htable.lookup(&HNode::from_hash(6), &hash_eq).expect("found");
    assert_eq!(found, (2, 1));
    let found = htable.lookup(&HNode::from_hash(2), &hash_eq).expect("found");
    assert_eq!(found, (2, 0));
}

#[test]
fn inner_lookup_honours_eq() {
    let mut htable = InnerHashTable::init(4).expect("init");
    htable.insert(HNode::from_hash(1)).expect("insert");
    let never = |_a: &HNode, _b: &HNode| false;
    assert!(htable.lookup(&HNode::from_hash(1), &never).is_none());
}

#[test]
fn inner_insert_lookup_detach_round_trip() {
    let mut htable = InnerHashTable::init(2).expect("init");
    htable.insert(HNode::from_hash(1)).expect("insert");
    htable.insert(HNode::from_hash(3)).expect("insert");
    let link = htable.lookup(&HNode::from_hash(5), &hash_eq);
    assert!(link.is_none());
    htable.insert(HNode::from_hash(5)).expect("insert");
    let link = htable.lookup(&HNode::from_hash(5), &hash_eq).expect("found");
    assert_eq!(link, (1, 0));
    let node = htable.detach(link).expect("node");
    assert_eq!(node.hash(), 5);
    assert_eq!(htable.len(), 2);
    let mut it = htable.iter();
    assert_eq!(it.next().expect("node").hash(), 3);
    assert_eq!(it.next().expect("node").hash(), 1);
    assert!(it.next().is_none());
}

#[test]
fn inner_default_has_one_slot() {
    let mut htable = InnerHashTable::default();
    assert_eq!(htable.mask(), 0);
    assert_eq!(htable.len(), 0);
    htable.insert(HNode::from_hash(9)).expect("insert");
    assert_eq!(htable.lookup(&HNode::from_hash(9), &hash_eq), Some((0, 0)));
}

#[test]
fn map_default_grows_on_demand() {
    let mut map = HashMap::default();
    for hash in 0..40u64 {
        map.insert(HNode::from_hash(hash)).expect("insert");
    }
    for hash in 0..40u64 {
        assert!(map.lookup(&HNode::from_hash(hash), hash_eq).is_some());
    }
}

#[test]
fn map_rehashes_and_keeps_every_node() {
    let mut map = HashMap::init(1).expect("init");
    for hash in 0..200u64 {
        map.insert(HNode::from_hash(hash)).expect("insert");
    }
    for hash in 0..200u64 {
        let found = map.lookup(&HNode::from_hash(hash), hash_eq).expect("present");
        assert_eq!(found.hash(), hash);
    }
    assert!(map.lookup(&HNode::from_hash(500), hash_eq).is_none());
}

#[test]
fn map_trigger_rehashing_refused_while_running() {
    let mut map = HashMap::init(1).expect("init");
    for hash in 0..8u64 {
        map.insert(HNode::from_hash(hash)).expect("insert");
    }
    map.trigger_rehashing().expect("first rehash");
    map.insert(HNode::from_hash(100)).expect("insert");
    let again = map.trigger_rehashing();
    assert!(matches!(again, Ok(()) | Err(HashMapError::OldTableNotEmpty(_))));
}

#[test]
fn map_trigger_rehashing_twice_is_refused() {
    let mut map = HashMap::init(4).expect("init");
    map.insert(HNode::from_hash(1)).expect("insert");
    map.trigger_rehashing().expect("first rehash");
    assert!(matches!(map.trigger_rehashing(), Err(HashMapError::OldTableNotEmpty(1))));
    map.help_rehashing().expect("help");
    map.trigger_rehashing().expect("rehash after the older table emptied");
}

#[test]
fn map_delete_removes_one_node() {
    let mut map = HashMap::init(2).expect("init");
    map.insert(HNode::from_hash(3)).expect("insert");
    map.insert(HNode::from_hash(3)).expect("insert");
    assert!(map.delete(&HNode::from_hash(3), hash_eq).is_some());
    assert!(map.lookup(&HNode::from_hash(3), hash_eq).is_some());
    assert!(map.delete(&HNode::from_hash(3), hash_eq).is_some());
    assert!(map.lookup(&HNode::from_hash(3), hash_eq).is_none());
    assert!(map.delete(&HNode::from_hash(3), hash_eq).is_none());
}

#[test]
fn hashtable_lookup_misses_absent_key() {
    let mut ht = HashTable::new(2);
    ht.insert("abc".to_string(), "1".to_string()).expect("insert");
    ht.insert("xyz".to_string(), "2".to_string()).expect("insert");
    assert_eq!(ht.lookup("xyz".to_string()).expect("found"), "2");
    assert_eq!(ht.lookup("abc".to_string()).expect("found"), "1");
    assert!(ht.lookup("abd".to_string()).is_none());
    assert_eq!(ht.len(), 2);
}

#[test]
fn hashtable_len_counts_across_rehash() {
    let mut ht = HashTable::default();
    for i in 0..100 {
        ht.insert(format!("key{}", i), format!("value{}", i)).expect("insert");
    }
    assert_eq!(ht.len(), 100);
    for i in 0..100 {
        assert_eq!(ht.lookup(format!("key{}", i)).expect("found"), &format!("value{}", i));
    }
    let mut it = ht.iter();
    assert!(it.next().is_none());
}

#[test]
fn hashtable_same_key_compares_entry_keys() {
    let mut ht = HashTable::new(2);
    assert!(!ht.same_key(&HNode::from_hash(0), &HNode::from_hash(0)));
    ht.insert("abc".to_string(), "1".to_string()).expect("insert");
    assert!(ht.same_key(&HNode::from_hash(3), &HNode::from_hash(7)));
    assert!(HNode::from_hash(3) != HNode::from_hash(7));
}
