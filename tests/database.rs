use lsm_btree_db::database::{Database, DatabaseBuilder};
use lsm_btree_db::error::DatabaseError;
use lsm_btree_db::lsm::LSMTree;
use lsm_btree_db::types::DatabaseConfig;

fn temp_path(name: &str) -> String {
    let nanos = std::time::SystemTime::now()
        .duration_since(std::time::UNIX_EPOCH)
        .unwrap()
        .as_nanos();
    format!("/tmp/lsm_btree_db_tests/{}_{}", name, nanos)
}

fn config_with_order(order: usize) -> DatabaseConfig {
    let mut c = DatabaseConfig::default();
    c.btree_node_size = order;
    c
}

fn key(n: u32) -> Vec<u8> {
    n.to_be_bytes().to_vec()
}

#[test]
fn thousand_keys_with_order_four() {
    let mut db = Database::new(&temp_path("thousand"), config_with_order(4)).unwrap();
    for n in 1..=1000u32 {
        db.put(key(n), format!("v{}", n).into_bytes()).unwrap();
    }
    assert_eq!(db.index().size(), 1000);
    let all = db.index().scan(None, None);
    assert_eq!(all.len(), 1000);
    for (i, e) in all.iter().enumerate() {
        assert_eq!(e.key, key(i as u32 + 1));
    }
    db.delete(key(500)).unwrap();
    assert_eq!(db.get(&key(500)).unwrap(), None);
    let t = db.index().get(&key(500)).unwrap();
    assert!(t.is_deleted);
    assert_eq!(t.value, None);
    assert_eq!(db.get(&key(501)).unwrap(), Some(b"v501".to_vec()));
}

#[test]
fn tombstone_wins_over_durable_data() {
    let mut db = Database::new(&temp_path("tombstone"), config_with_order(4)).unwrap();
    db.put(b"k".to_vec(), b"v".to_vec()).unwrap();
    assert_eq!(db.get(&b"k".to_vec()).unwrap(), Some(b"v".to_vec()));
    db.delete(b"k".to_vec()).unwrap();
    assert_eq!(db.get(&b"k".to_vec()).unwrap(), None);
}

#[test]
fn key_only_in_durable_store_is_served() {
    let path = temp_path("fallback");
    {
        let mut store = LSMTree::new(&path).unwrap();
        let first = store.put(&b"old".to_vec(), &b"durable".to_vec()).unwrap();
        assert_eq!(first.sequence, 1);
        store.flush().unwrap();
    }
    let db = Database::new(&path, config_with_order(4)).unwrap();
    assert!(db.index().get(&b"old".to_vec()).is_none());
    assert_eq!(db.get(&b"old".to_vec()).unwrap(), Some(b"durable".to_vec()));
    assert_eq!(db.get(&b"missing".to_vec()).unwrap(), None);
}

#[test]
fn sequence_numbers_increase_per_write() {
    let mut store = LSMTree::new(&temp_path("sequence")).unwrap();
    let a = store.put(&b"a".to_vec(), &b"1".to_vec()).unwrap();
    let b = store.delete(&b"a".to_vec()).unwrap();
    let c = store.put(&b"b".to_vec(), &b"2".to_vec()).unwrap();
    assert_eq!((a.sequence, b.sequence, c.sequence), (1, 2, 3));
    assert!(a.precedes(&b) && b.precedes(&c));
    assert_eq!(store.get(&b"a".to_vec()).unwrap(), None);
    assert_eq!(store.get(&b"b".to_vec()).unwrap(), Some(b"2".to_vec()));
}

#[test]
fn closed_store_rejects_operations() {
    let mut db = Database::new(&temp_path("closed"), config_with_order(4)).unwrap();
    db.put(b"k".to_vec(), b"v".to_vec()).unwrap();
    assert_eq!(db.close(), Ok(()));
    assert_eq!(db.close(), Ok(()));
    assert_eq!(db.put(b"k".to_vec(), b"w".to_vec()), Err(DatabaseError::DatabaseClosed));
    assert_eq!(db.delete(b"k".to_vec()), Err(DatabaseError::DatabaseClosed));
    assert_eq!(db.get(&b"k".to_vec()), Err(DatabaseError::DatabaseClosed));
    assert_eq!(db.flush(), Err(DatabaseError::DatabaseClosed));
    assert_eq!(db.index().get(&b"k".to_vec()).unwrap().value, Some(b"v".to_vec()));
}

#[test]
fn unusable_path_is_an_invalid_operation() {
    let r = Database::new("/proc/lsm_btree_db_cannot_be_here/x", DatabaseConfig::default());
    assert!(matches!(r, Err(DatabaseError::InvalidOperation(_))));
}

#[test]
fn builder_uses_given_config_and_path() {
    let b = DatabaseBuilder::new()
        .with_config(config_with_order(5))
        .with_base_path(temp_path("builder"));
    assert_eq!(b.effective_config().btree_node_size, 5);
    let mut db = b.build().unwrap();
    db.put(b"x".to_vec(), b"y".to_vec()).unwrap();
    assert_eq!(db.get(&b"x".to_vec()).unwrap(), Some(b"y".to_vec()));
    db.flush().unwrap();
}

#[test]
fn builder_defaults_to_default_config() {
    let b = DatabaseBuilder::new();
    assert_eq!(b.effective_config(), DatabaseConfig::default());
}

#[test]
fn keys_out_of_bounds_are_rejected() {
    let mut db = Database::new(&temp_path("bounds"), config_with_order(4)).unwrap();
    let bounds = Err(DatabaseError::InvalidOperation("key or value out of bounds".to_string()));
    assert_eq!(db.put(Vec::new(), b"v".to_vec()), bounds);
    assert_eq!(db.delete(Vec::new()), bounds);
    let long = vec![7u8; 65536];
    assert_eq!(db.put(long.clone(), b"v".to_vec()), bounds);
    assert_eq!(db.delete(long.clone()), bounds);
    assert_eq!(db.get(&long), Ok(None));
    assert_eq!(db.get(&Vec::new()), Ok(None));
    assert_eq!(db.index().size(), 0);
    let longest = vec![7u8; 65535];
    db.put(longest.clone(), b"v".to_vec()).unwrap();
    assert_eq!(db.get(&longest).unwrap(), Some(b"v".to_vec()));
}

#[test]
fn counter_resumes_after_reopen() {
    let path = temp_path("resume");
    {
        let mut store = LSMTree::new(&path).unwrap();
        store.put(&b"a".to_vec(), &b"1".to_vec()).unwrap();
        store.put(&b"a".to_vec(), &b"2".to_vec()).unwrap();
        store.flush().unwrap();
    }
    let mut store = LSMTree::new(&path).unwrap();
    assert_eq!(store.get(&b"a".to_vec()).unwrap(), Some(b"2".to_vec()));
    let next = store.put(&b"a".to_vec(), &b"3".to_vec()).unwrap();
    assert_eq!(next.sequence, 3);
    assert_eq!(store.get(&b"a".to_vec()).unwrap(), Some(b"3".to_vec()));
}

#[test]
fn writes_are_read_back_in_order() {
    let mut db = Database::new(&temp_path("readback"), config_with_order(3)).unwrap();
    for round in 0..5u8 {
        for k in 1..=20u8 {
            db.put(vec![k], vec![k, round]).unwrap();
            assert_eq!(db.get(&vec![k]).unwrap(), Some(vec![k, round]));
        }
    }
    db.delete(vec![9]).unwrap();
    assert_eq!(db.get(&vec![9]).unwrap(), None);
    db.put(vec![9], b"back".to_vec()).unwrap();
    assert_eq!(db.get(&vec![9]).unwrap(), Some(b"back".to_vec()));
}
