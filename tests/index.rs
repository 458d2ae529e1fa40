use lsm_btree_db::btree::BTree;
use lsm_btree_db::key::{compare_keys, KeyOrder};
use lsm_btree_db::types::{DatabaseConfig, Entry, OperationId};

fn config_with_order(order: usize) -> DatabaseConfig {
    let mut c = DatabaseConfig::default();
    c.btree_node_size = order;
    c
}

fn id(sequence: u64) -> OperationId {
    OperationId::new(7, sequence)
}

fn scan_keys(entries: &[Entry]) -> Vec<Vec<u8>> {
    entries.iter().map(|e| e.key.clone()).collect()
}

#[test]
fn stale_write_is_rejected() {
    let mut t = BTree::new(config_with_order(4));
    t.put(b"k".to_vec(), b"v1".to_vec(), id(2));
    t.put(b"k".to_vec(), b"v2".to_vec(), id(1));
    let e = t.get(&b"k".to_vec()).unwrap();
    assert_eq!(e.value, Some(b"v1".to_vec()));
    assert_eq!(e.operation_id, id(2));
    assert_eq!(t.size(), 1);
}

#[test]
fn newer_write_replaces_older() {
    let mut t = BTree::new(config_with_order(4));
    t.put(b"k".to_vec(), b"v1".to_vec(), id(1));
    t.put(b"k".to_vec(), b"v2".to_vec(), id(2));
    assert_eq!(t.get(&b"k".to_vec()).unwrap().value, Some(b"v2".to_vec()));
}

#[test]
fn stale_delete_is_rejected() {
    let mut t = BTree::new(config_with_order(4));
    t.put(b"k".to_vec(), b"v".to_vec(), id(5));
    t.delete(b"k".to_vec(), id(3));
    let e = t.get(&b"k".to_vec()).unwrap();
    assert!(!e.is_deleted);
    assert_eq!(e.value, Some(b"v".to_vec()));
}

#[test]
fn delete_leaves_tombstone() {
    let mut t = BTree::new(config_with_order(4));
    t.put(b"k".to_vec(), b"v".to_vec(), id(1));
    t.delete(b"k".to_vec(), id(2));
    let e = t.get(&b"k".to_vec()).unwrap();
    assert!(e.is_deleted);
    assert_eq!(e.value, None);
    assert_eq!(e.operation_id, id(2));
    assert_eq!(t.size(), 1);
}

#[test]
fn delete_of_unseen_key_is_recorded() {
    let mut t = BTree::new(config_with_order(4));
    t.delete(b"ghost".to_vec(), id(1));
    assert_eq!(t.size(), 1);
    assert!(t.get(&b"ghost".to_vec()).unwrap().is_deleted);
    assert!(t.scan(None, None).is_empty());
}

#[test]
fn get_of_unseen_key_is_none() {
    let mut t = BTree::new(config_with_order(4));
    assert!(t.get(&b"a".to_vec()).is_none());
    t.put(b"b".to_vec(), b"1".to_vec(), id(1));
    assert!(t.get(&b"a".to_vec()).is_none());
    assert!(t.get(&b"c".to_vec()).is_none());
    assert!(t.get(&b"".to_vec()).is_none());
}

#[test]
fn splits_keep_every_key_in_order() {
    let mut t = BTree::new(config_with_order(4));
    let mut expected: Vec<Vec<u8>> = Vec::new();
    let mut x: u32 = 17;
    for n in 0..300u64 {
        x = x.wrapping_mul(1103515245).wrapping_add(12345) % 1000;
        let k = x.to_be_bytes().to_vec();
        t.put(k.clone(), n.to_be_bytes().to_vec(), id(n + 1));
        if !expected.contains(&k) {
            expected.push(k);
        }
    }
    expected.sort();
    let got = t.scan(None, None);
    assert_eq!(scan_keys(&got), expected);
    assert_eq!(t.size(), expected.len());
    for k in &expected {
        assert_eq!(t.get(k).unwrap().key, *k);
    }
}

#[test]
fn scan_keeps_latest_values() {
    let mut t = BTree::new(config_with_order(3));
    for round in 0..3u64 {
        for k in 0..20u8 {
            t.put(vec![k], vec![k, round as u8], id(round * 100 + k as u64 + 1));
        }
    }
    let got = t.scan(None, None);
    assert_eq!(got.len(), 20);
    for (i, e) in got.iter().enumerate() {
        assert_eq!(e.key, vec![i as u8]);
        assert_eq!(e.value, Some(vec![i as u8, 2]));
    }
}

#[test]
fn scan_respects_bounds() {
    let mut t = BTree::new(config_with_order(4));
    for k in 0..50u8 {
        t.put(vec![k], vec![k], id(k as u64 + 1));
    }
    let got = t.scan(Some(vec![10]), Some(vec![20]));
    assert_eq!(scan_keys(&got), (10..20u8).map(|k| vec![k]).collect::<Vec<_>>());
    let from = t.scan(Some(vec![45]), None);
    assert_eq!(scan_keys(&from), (45..50u8).map(|k| vec![k]).collect::<Vec<_>>());
    let upto = t.scan(None, Some(vec![3]));
    assert_eq!(scan_keys(&upto), vec![vec![0u8], vec![1], vec![2]]);
}

#[test]
fn scan_of_empty_range_is_empty() {
    let mut t = BTree::new(config_with_order(4));
    for k in 0..10u8 {
        t.put(vec![k], vec![k], id(k as u64 + 1));
    }
    assert!(t.scan(Some(vec![5]), Some(vec![5])).is_empty());
    assert!(t.scan(Some(vec![7]), Some(vec![2])).is_empty());
    assert!(t.scan(Some(vec![20]), None).is_empty());
    assert!(BTree::new(config_with_order(4)).scan(None, None).is_empty());
}

#[test]
fn scan_skips_tombstones() {
    let mut t = BTree::new(config_with_order(4));
    for k in 0..10u8 {
        t.put(vec![k], vec![k], id(k as u64 + 1));
    }
    t.delete(vec![3], id(100));
    t.delete(vec![7], id(101));
    let got = t.scan(Some(vec![2]), Some(vec![9]));
    assert_eq!(scan_keys(&got), vec![vec![2u8], vec![4], vec![5], vec![6], vec![8]]);
}

#[test]
fn scan_bounds_on_prefixes() {
    let mut t = BTree::new(config_with_order(4));
    t.put(b"a".to_vec(), b"1".to_vec(), id(1));
    t.put(b"ab".to_vec(), b"2".to_vec(), id(2));
    t.put(b"abc".to_vec(), b"3".to_vec(), id(3));
    t.put(b"b".to_vec(), b"4".to_vec(), id(4));
    let got = t.scan(Some(b"ab".to_vec()), Some(b"b".to_vec()));
    assert_eq!(scan_keys(&got), vec![b"ab".to_vec(), b"abc".to_vec()]);
}

#[test]
fn apply_order_does_not_matter() {
    let writes: Vec<(u8, u64, bool)> = vec![
        (1, 1, false), (2, 2, false), (1, 3, true), (3, 4, false), (2, 5, false),
        (1, 6, false), (4, 7, true), (3, 8, true), (5, 9, false),
    ];
    let mut forward = BTree::new(config_with_order(3));
    let mut backward = BTree::new(config_with_order(3));
    for &(k, s, del) in writes.iter() {
        if del { forward.delete(vec![k], id(s)); } else { forward.put(vec![k], vec![k, s as u8], id(s)); }
    }
    for &(k, s, del) in writes.iter().rev() {
        if del { backward.delete(vec![k], id(s)); } else { backward.put(vec![k], vec![k, s as u8], id(s)); }
    }
    for k in 0..7u8 {
        assert_eq!(forward.get(&vec![k]), backward.get(&vec![k]));
    }
    assert_eq!(forward.get(&vec![1]).unwrap().value, Some(vec![1, 6]));
    assert!(forward.get(&vec![3]).unwrap().is_deleted);
    assert_eq!(forward.scan(None, None), backward.scan(None, None));
}

#[test]
fn small_node_size_is_raised_to_minimum() {
    let mut t = BTree::new(config_with_order(0));
    for k in 0..30u8 {
        t.put(vec![k], vec![k], id(k as u64 + 1));
    }
    assert_eq!(t.size(), 30);
    assert_eq!(t.scan(None, None).len(), 30);
}

#[test]
fn keys_compare_byte_lexicographically() {
    assert_eq!(compare_keys(&vec![1, 2], &vec![1, 2, 3]), KeyOrder::Less);
    assert_eq!(compare_keys(&vec![2], &vec![1, 9]), KeyOrder::Greater);
    assert_eq!(compare_keys(&vec![4, 5], &vec![4, 5]), KeyOrder::Equal);
    assert_eq!(compare_keys(&vec![], &vec![0]), KeyOrder::Less);
    assert_eq!(compare_keys(&vec![0, 255], &vec![1]), KeyOrder::Less);
}

#[test]
fn operation_ids_order_by_timestamp_then_sequence() {
    assert!(OperationId::new(1, 9).precedes(&OperationId::new(2, 0)));
    assert!(OperationId::new(3, 1).precedes(&OperationId::new(3, 2)));
    assert!(!OperationId::new(3, 2).precedes(&OperationId::new(3, 2)));
    assert!(!OperationId::new(4, 0).precedes(&OperationId::new(3, 9)));
}

#[test]
fn entries_copy_their_content() {
    let e = Entry::new_put(b"key".to_vec(), b"value".to_vec(), id(4));
    let d = e.duplicate();
    assert_eq!(d, e);
    let t = Entry::new_delete(b"key".to_vec(), id(5));
    assert!(t.is_deleted);
    assert_eq!(t.value, None);
    assert_eq!(t.duplicate(), t);
}

#[test]
fn default_config_values() {
    let c = DatabaseConfig::default();
    assert_eq!(c.max_memtable_size, 1024 * 1024);
    assert_eq!(c.max_sstable_size, 10 * 1024 * 1024);
    assert_eq!(c.max_levels, 7);
    assert_eq!(c.compaction_threshold, 4);
    assert_eq!(c.btree_node_size, 4096);
}

#[test]
fn operation_id_comparison_operators_agree() {
    let a = OperationId::new(1, 5);
    let b = OperationId::new(2, 1);
    let c = OperationId::new(2, 3);
    assert!(a < b && b < c && a < c);
    assert_eq!(b.partial_cmp(&b), Some(std::cmp::Ordering::Equal));
    assert_eq!(c.cmp(&a), std::cmp::Ordering::Greater);
    let mut ids = vec![c, a, b];
    ids.sort();
    assert_eq!(ids, vec![a, b, c]);
}
