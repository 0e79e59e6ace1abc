use tiger_cache::config::TigerCacheConfig;
use tiger_cache::document::{Document, FieldValue};
use tiger_cache::document_cache::DocumentCache;
use tiger_cache::index_cache::IndexCache;
use tiger_cache::lru_cache::LruCache;
use tiger_cache::memory_manager::{MemoryEvent, MemoryManager, MemoryPressureLevel};
use tiger_cache::page::{Page, PageCacheEntry, PageStatus};
use tiger_cache::query_cache::QueryCache;
use tiger_cache::search::SearchOptions;
use tiger_cache::storage_config::{StorageConfig, StorageType};
use tiger_cache::storage_engine::MemoryStorageEngine;

#[test]
fn test_lru_put_get_remove() {
    let mut c: LruCache<u64> = LruCache::new(100);
    assert_eq!(c.put(vec![1], 10, 8), None);
    assert_eq!(c.put(vec![2], 20, 8), None);
    // replacing a present key hands the previous value back
    assert_eq!(c.put(vec![1], 11, 8), Some(10));
    assert_eq!(c.len(), 2);
    assert_eq!(c.get(&vec![1]), Some(&11));
    assert_eq!(c.get(&vec![3]), None);
    assert_eq!(c.remove(&vec![1]), Some(11));
    assert_eq!(c.get(&vec![1]), None);
    assert_eq!(c.len(), 1);
    c.clear();
    assert!(c.is_empty());
    assert_eq!(c.size(), 0);
}

#[test]
fn test_lru_size_budget() {
    // with nothing pinned, the total stays within the budget whenever the
    // new entry itself fits it
    let mut c: LruCache<u64> = LruCache::new(100);
    for i in 0..50u32 {
        let _ = c.put(vec![i], i as u64, 10);
        assert!(c.size() <= 100);
    }
    assert!(c.len() <= 10);
    // an entry larger than the whole budget overshoots by itself alone
    let _ = c.put(vec![999], 1, 150);
    assert!(c.size() <= 100 + 150);
}

#[test]
fn test_lru_eviction_is_oldest_first() {
    let mut c: LruCache<u64> = LruCache::new(30);
    let _ = c.put(vec![1], 1, 10);
    let _ = c.put(vec![2], 2, 10);
    let _ = c.put(vec![3], 3, 10);
    // refresh key 1, then force one eviction: key 2 is now the oldest
    let _ = c.get(&vec![1]);
    let _ = c.put(vec![4], 4, 10);
    assert!(c.get(&vec![1]).is_some());
    assert!(c.get(&vec![2]).is_none());
}

#[test]
fn test_lru_replacement_adjusts_size() {
    let mut c: LruCache<u64> = LruCache::new(100);
    assert_eq!(c.put(vec![7], 1, 40), None);
    assert_eq!(c.size(), 40);
    assert_eq!(c.put(vec![7], 2, 10), Some(1));
    assert_eq!(c.size(), 10);
    assert_eq!(c.get(&vec![7]), Some(&2));
    assert_eq!(c.len(), 1);
}

#[test]
fn test_document_cache_roundtrip() {
    let mut dc = DocumentCache::new(1 << 16);
    let mut doc = Document::new("d1");
    doc.add_field("title", FieldValue::text("cached"));
    dc.put(doc);
    assert!(dc.get("d1").is_some());
    assert_eq!(dc.get("d1").unwrap().id, "d1");
    assert!(dc.get("d2").is_none());
    dc.remove("d1");
    assert!(dc.get("d1").is_none());
}

#[test]
fn test_index_cache_roundtrip() {
    let mut ic = IndexCache::new(1 << 16, 1 << 16);
    ic.put_trigram(3, vec![1, 2, 3]);
    ic.put_inverted(5, vec![9]);
    assert_eq!(ic.get_trigram(3).unwrap(), &vec![1, 2, 3]);
    assert_eq!(ic.get_inverted(5).unwrap(), &vec![9]);
    assert!(ic.get_trigram(4).is_none());
    ic.clear();
    assert!(ic.get_trigram(3).is_none());
}

#[test]
fn test_query_cache_roundtrip() {
    let mut qc = QueryCache::new(1 << 16);
    let o = SearchOptions::default();
    assert!(qc.get("apple", &o).is_none());
    qc.put("apple", &o, Vec::new());
    assert!(qc.get("apple", &o).is_some());
    // a different option set is a different key
    let o2 = SearchOptions { max_distance: 0, score_threshold: 0, limit: 100 };
    assert!(qc.get("apple", &o2).is_none());
    qc.clear();
    assert!(qc.get("apple", &o).is_none());
}

#[test]
fn test_memory_pressure_levels() {
    let mut mm = MemoryManager::new(1000);
    assert_eq!(mm.current_usage(), 0);
    assert_eq!(mm.max_memory(), 1000);
    assert!(mm.allocate(400));
    let events = mm.sample(1);
    assert!(events.is_empty()); // still Low, nothing crossed
    assert_eq!(mm.pressure_level(), MemoryPressureLevel::Low);

    assert!(mm.allocate(400)); // 800: exactly 80% is still Medium
    let events = mm.sample(2);
    assert_eq!(events.len(), 1);
    assert!(matches!(events[0], MemoryEvent::PressureChanged(MemoryPressureLevel::Medium)));

    assert!(mm.allocate(150)); // 950: exactly 95% is High
    let events = mm.sample(3);
    assert!(matches!(events[0], MemoryEvent::PressureChanged(MemoryPressureLevel::High)));

    assert!(!mm.allocate(100)); // 1050: over the ceiling
    let events = mm.sample(4);
    assert_eq!(events.len(), 3);
    assert!(matches!(events[0], MemoryEvent::PressureChanged(MemoryPressureLevel::Critical)));
    assert!(matches!(events[1], MemoryEvent::MemoryExceeded { current: 1050, max: 1000 }));
    // the request brings usage back under four fifths of the ceiling
    assert!(matches!(events[2], MemoryEvent::EvictionRequired { bytes_to_free: 250 }));

    mm.free(600);
    assert_eq!(mm.current_usage(), 450);
    mm.free(10_000);
    assert_eq!(mm.current_usage(), 0);
}

#[test]
fn test_storage_engine_kv() {
    let mut e = MemoryStorageEngine::new();
    let k = b"doc:1".to_vec();
    let v = b"payload".to_vec();
    assert!(e.get_value(&k).is_none());
    assert!(!e.exists_value(&k));
    e.put_value(&k, &v);
    assert_eq!(e.get_value(&k), Some(v.clone()));
    assert!(e.exists_value(&k));
    let v2 = b"other".to_vec();
    e.put_value(&k, &v2);
    assert_eq!(e.get_value(&k), Some(v2));
    e.delete_value(&k);
    assert!(e.get_value(&k).is_none());
    assert_eq!(e.key_count(), 0);
    // the stats tally every read and write above
    let stats = e.stats();
    assert_eq!(stats.read_count, 6);
    assert_eq!(stats.write_count, 3);
    assert_eq!(stats.key_count, 0);
}

#[test]
fn test_storage_engine_pages() {
    let mut e = MemoryStorageEngine::new();
    assert!(e.get_page(7).is_none());
    let mut p = Page::new_empty(7, 8);
    p.mark_dirty();
    e.put_page(p);
    let back = e.get_page(7).unwrap();
    assert_eq!(back.id, 7);
    assert_eq!(back.data.len(), 8);
    assert!(back.is_dirty());
    // replacing under the same id keeps one page
    e.put_page(Page::new_empty(7, 4));
    assert_eq!(e.get_page(7).unwrap().data.len(), 4);
    assert_eq!(e.stats().page_count, 1);
    assert!(e.flush().is_ok());
    assert!(e.close().is_ok());
}

#[test]
fn test_storage_transaction() {
    let mut e = MemoryStorageEngine::new();
    let k1 = b"a".to_vec();
    let k2 = b"b".to_vec();
    e.put_value(&k1, &b"old".to_vec());

    let mut tx = e.begin_transaction();
    tx.put(&k1, &b"new".to_vec()).unwrap();
    tx.put(&k2, &b"fresh".to_vec()).unwrap();
    // read-your-writes inside the transaction
    assert_eq!(tx.get(&mut e, &k1), Some(b"new".to_vec()));
    assert!(tx.contains_key(&mut e, &k2));
    // nothing visible outside before commit
    assert_eq!(e.get_value(&k1), Some(b"old".to_vec()));
    assert!(e.get_value(&k2).is_none());

    tx.commit(&mut e).unwrap();
    assert_eq!(e.get_value(&k1), Some(b"new".to_vec()));
    assert_eq!(e.get_value(&k2), Some(b"fresh".to_vec()));
    // a double commit is refused
    assert!(tx.commit(&mut e).is_err());
}

#[test]
fn test_transaction_abort() {
    let mut e = MemoryStorageEngine::new();
    let k = b"a".to_vec();
    let mut tx = e.begin_transaction();
    tx.put(&k, &b"x".to_vec()).unwrap();
    tx.abort().unwrap();
    assert!(tx.commit(&mut e).is_err());
    assert!(e.get_value(&k).is_none());
}

#[test]
fn test_page_lifecycle() {
    let mut p = Page::new_empty(7, 16);
    assert_eq!(p.id, 7);
    assert_eq!(p.size(), 16);
    assert!(!p.is_dirty());
    p.mark_dirty();
    assert!(p.is_dirty());
    assert_eq!(p.status, PageStatus::Dirty);
    p.mark_clean();
    assert!(!p.is_dirty());
    p.touch(42);
    assert_eq!(p.last_access, 42);
    p.increment_ref_count();
    p.increment_ref_count();
    assert_eq!(p.ref_count, 2);
    p.decrement_ref_count();
    assert_eq!(p.ref_count, 1);

    let mut e = PageCacheEntry::new(p, false);
    assert!(!e.is_pinned());
    e.pin();
    assert!(e.is_pinned());
    e.unpin();
    assert!(!e.is_pinned());
    assert_eq!(e.id(), 7);
    assert_eq!(e.ref_count(), 1);
    assert_eq!(e.last_access(), 42);
    assert!(!e.is_dirty());
}

#[test]
fn test_config_presets() {
    let d = TigerCacheConfig::new();
    assert_eq!(d.max_distance, 2);
    assert_eq!(d.score_threshold, 0);
    assert_eq!(d.max_results, 100);

    let dev = TigerCacheConfig::development();
    assert!(dev.collect_metrics);

    let prod = TigerCacheConfig::production();
    assert!(prod.storage.sync_writes);

    let low = TigerCacheConfig::low_memory();
    assert_eq!(low.max_distance, 1);
    assert_eq!(low.score_threshold, 500);
    assert_eq!(low.max_results, 50);
    assert!(!low.enable_background_ops);

    let c = TigerCacheConfig::new()
        .with_max_distance(3)
        .with_cache_size(1234)
        .with_storage_type(StorageType::Memory);
    assert_eq!(c.max_distance, 3);
    assert_eq!(c.storage.cache_size, 1234);

    let s = StorageConfig::new().with_page_size(1024).with_sync_writes(true);
    assert_eq!(s.page_size, 1024);
    assert!(s.sync_writes);
}
