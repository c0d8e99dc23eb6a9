use kvserver::database::RedisDatabase;
use std::sync::Arc;

#[test]
fn empty_store_has_nothing() {
    let db = RedisDatabase::new();
    assert_eq!(db.get("k"), None);
}

#[test]
fn insert_then_get() {
    let mut db = RedisDatabase::new();
    assert_eq!(db.insert("k", "v", None), None);
    assert_eq!(db.get("k"), Some(&"v".to_string()));
    assert_eq!(db.get("other"), None);
}

#[test]
fn overwrite_keeps_only_last_value() {
    let mut db = RedisDatabase::new();
    assert_eq!(db.insert("k", "a", None), None);
    assert_eq!(db.insert("k", "b", None), Some("a".to_string()));
    assert_eq!(db.get("k"), Some(&"b".to_string()));
}

#[test]
fn overwrite_drops_old_expiry() {
    let mut db = RedisDatabase::new();
    db.insert_at("k", "a", Some(10), 0);
    db.insert_at("k", "b", None, 5);
    assert_eq!(db.get_at("k", 1_000_000), Some(&"b".to_string()));
}

#[test]
fn lazy_expiration_at_given_instants() {
    let mut db = RedisDatabase::new();
    db.insert_at("k", "v", Some(100), 1000);
    assert_eq!(db.get_at("k", 1000), Some(&"v".to_string()));
    assert_eq!(db.get_at("k", 1100), Some(&"v".to_string()));
    assert_eq!(db.get_at("k", 1101), None);
    assert_eq!(db.get_at("k", 5000), None);
    // the expired entry is still there: the next write hands its value back
    assert_eq!(db.insert_at("k", "w", None, 6000), Some("v".to_string()));
    assert_eq!(db.get_at("k", 6000), Some(&"w".to_string()));
}

#[test]
fn lazy_expiration_with_clock() {
    let mut db = RedisDatabase::new();
    db.insert("k", "v", Some(100));
    assert_eq!(db.get("k"), Some(&"v".to_string()));
}

#[test]
fn huge_ttl_does_not_overflow() {
    let mut db = RedisDatabase::new();
    db.insert_at("k", "v", Some(u64::MAX), u64::MAX);
    assert_eq!(db.get_at("k", u64::MAX), Some(&"v".to_string()));
}

#[test]
fn distinct_keys_sequential() {
    let mut db = RedisDatabase::new();
    for i in 0..50 {
        db.insert(&format!("key{}", i), &format!("value{}", i), None);
    }
    for i in 0..50 {
        assert_eq!(db.get(&format!("key{}", i)), Some(&format!("value{}", i)));
    }
}

#[test]
fn distinct_keys_concurrent() {
    let runtime = tokio::runtime::Builder::new_multi_thread()
        .worker_threads(4)
        .build()
        .unwrap();
    let db = Arc::new(tokio::sync::RwLock::new(RedisDatabase::new()));
    runtime.block_on(async {
        let mut handles = Vec::new();
        for i in 0..64 {
            let db = Arc::clone(&db);
            handles.push(tokio::spawn(async move {
                let mut guard = db.write().await;
                guard.insert(&format!("key{}", i), &format!("value{}", i), None);
            }));
        }
        for h in handles {
            h.await.unwrap();
        }
        let guard = db.read().await;
        for i in 0..64 {
            assert_eq!(guard.get(&format!("key{}", i)), Some(&format!("value{}", i)));
        }
    });
}
