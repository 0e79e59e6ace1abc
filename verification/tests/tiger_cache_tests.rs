use tiger_cache::document::{Document, FieldValue};
use tiger_cache::search::SearchOptions;
use tiger_cache::tiger_cache::TigerCache;

#[test]
fn test_new() {
    let mut cache = TigerCache::new();
    assert_eq!(cache.document_count(), 0);
    assert!(!cache.is_path_bound());
    assert!(cache.commit().is_err());
}

#[test]
fn test_default() {
    let mut cache: TigerCache = Default::default();
    assert_eq!(cache.document_count(), 0);
    assert!(!cache.is_path_bound());
    assert!(cache.commit().is_err());
}

#[test]
fn test_set_indexed_fields() {
    let mut cache = TigerCache::new();
    let fields = vec!["title".to_string(), "description".to_string()];

    cache.set_indexed_fields(fields.clone());

    let mut doc = Document::new("test");
    doc.add_field("title", FieldValue::text("Test Title"));
    doc.add_field("description", FieldValue::text("Test Description"));
    doc.add_field("irrelevant", FieldValue::text("This should not be indexed"));

    cache.add_document(doc).unwrap();

    // Search for a term in the indexed fields
    let results = cache.search("title", None).unwrap();
    assert!(!results.is_empty());

    // Search for a term in the non-indexed field
    let results = cache.search("irrelevant", None).unwrap();
    assert!(results.is_empty());
}

#[test]
fn tiger_cache_test_add_document() {
    let mut cache = TigerCache::new();
    let mut doc = Document::new("test");
    doc.add_field("title", FieldValue::text("Test Title"));

    cache.add_document(doc).unwrap();
    assert_eq!(cache.document_count(), 1);

    let retrieved = cache.get_document("test").unwrap();
    assert_eq!(retrieved.id, "test");
}

#[test]
fn tiger_cache_test_remove_document() {
    let mut cache = TigerCache::new();
    let mut doc = Document::new("test");
    doc.add_field("title", FieldValue::text("Test Title"));

    cache.add_document(doc).unwrap();
    assert_eq!(cache.document_count(), 1);

    cache.remove_document("test").unwrap();
    assert_eq!(cache.document_count(), 0);
    assert!(cache.get_document("test").is_none());
}

#[test]
fn test_remove_nonexistent_document() {
    let mut cache = TigerCache::new();
    let result = cache.remove_document("nonexistent");
    assert!(result.is_err());
}

#[test]
fn test_get_document() {
    let mut cache = TigerCache::new();
    let mut doc = Document::new("test");
    doc.add_field("title", FieldValue::text("Test Title"));

    cache.add_document(doc).unwrap();

    let retrieved = cache.get_document("test");
    assert!(retrieved.is_some());
    assert_eq!(retrieved.unwrap().id, "test");

    let nonexistent = cache.get_document("nonexistent");
    assert!(nonexistent.is_none());
}

#[test]
fn test_document_count() {
    let mut cache = TigerCache::new();
    assert_eq!(cache.document_count(), 0);

    let mut doc1 = Document::new("test1");
    doc1.add_field("title", FieldValue::text("Test Title 1"));
    cache.add_document(doc1).unwrap();
    assert_eq!(cache.document_count(), 1);

    let mut doc2 = Document::new("test2");
    doc2.add_field("title", FieldValue::text("Test Title 2"));
    cache.add_document(doc2).unwrap();
    assert_eq!(cache.document_count(), 2);

    cache.remove_document("test1").unwrap();
    assert_eq!(cache.document_count(), 1);

    cache.clear();
    assert_eq!(cache.document_count(), 0);
}

#[test]
fn test_search() {
    let mut cache = TigerCache::new();

    let mut doc1 = Document::new("test1");
    doc1.add_field("title", FieldValue::text("Apple iPhone"));
    cache.add_document(doc1).unwrap();

    let mut doc2 = Document::new("test2");
    doc2.add_field("title", FieldValue::text("Samsung Galaxy"));
    cache.add_document(doc2).unwrap();

    // Exact match
    let results = cache.search("Apple", None).unwrap();
    assert!(!results.is_empty());
    assert_eq!(results[0].document.id, "test1");

    // Fuzzy match
    let results = cache.search("Samsnug", None).unwrap();
    assert!(!results.is_empty());
    assert_eq!(results[0].document.id, "test2");

    // With options
    let options = SearchOptions { max_distance: 1, score_threshold: 0, limit: 1 };

    let results = cache.search("Aple", Some(options)).unwrap();
    assert!(!results.is_empty());
    assert_eq!(results[0].document.id, "test1");
}

#[test]
fn test_commit_without_path() {
    let mut cache = TigerCache::new();
    let result = cache.commit();
    assert!(result.is_err());
}

#[test]
fn tiger_cache_test_clear() {
    let mut cache = TigerCache::new();

    let mut doc = Document::new("test");
    doc.add_field("title", FieldValue::text("Test Title"));
    cache.add_document(doc).unwrap();

    assert_eq!(cache.document_count(), 1);

    cache.clear();
    assert_eq!(cache.document_count(), 0);
    assert!(cache.get_document("test").is_none());
}

#[test]
fn test_query_cache_consistency() {
    // a search after a mutation reflects the current index, never a stale
    // cached result
    let mut cache = TigerCache::new();
    let mut doc = Document::new("a");
    doc.add_field("title", FieldValue::text("apple pie"));
    cache.add_document(doc).unwrap();

    let r1 = cache.search("apple", None).unwrap();
    assert_eq!(r1.len(), 1);
    // repeat: served from the cache, same answer
    let r2 = cache.search("apple", None).unwrap();
    assert_eq!(r2.len(), 1);
    assert_eq!(r2[0].document.id, "a");
    assert_eq!(r2[0].score, r1[0].score);

    cache.remove_document("a").unwrap();
    let r3 = cache.search("apple", None).unwrap();
    assert!(r3.is_empty());
}

#[test]
fn test_commit_with_storage() {
    // a path-bound instance brings up the in-memory engine; ingestion
    // persists each document and commit stores the snapshot and flushes
    let config = tiger_cache::config::TigerCacheConfig::new().with_storage_path("store");
    let mut cache = tiger_cache::tiger_cache::TigerCache::with_config(config);
    assert!(cache.is_path_bound());

    let mut doc = Document::new("persisted");
    doc.add_field("title", FieldValue::text("kept on disk"));
    cache.add_document(doc).unwrap();
    let stats = cache.storage_stats().unwrap();
    assert_eq!(stats.key_count, 1); // doc:<id>

    cache.commit().unwrap();
    let stats = cache.storage_stats().unwrap();
    assert_eq!(stats.key_count, 2); // doc:<id> and index_metadata

    cache.remove_document("persisted").unwrap();
    let stats = cache.storage_stats().unwrap();
    assert_eq!(stats.key_count, 1); // the document entry is gone

    assert!(cache.flush().is_ok());
    assert!(cache.close().is_ok());
}

#[test]
fn test_snapshot_round_trip() {
    // serialise an index, decode the bytes back, replay the documents:
    // the rebuilt engine answers like the original
    let mut index = tiger_cache::index::Index::new();
    index.set_indexed_fields(vec!["title".to_string()]);
    let mut d1 = Document::new("alpha");
    d1.add_field("title", FieldValue::text("red apples"));
    d1.add_field("note", FieldValue::integer(7));
    index.add_document(d1).unwrap();
    let mut d2 = Document::new("beta");
    d2.add_field("title", FieldValue::text("green pears"));
    index.add_document(d2).unwrap();

    let bytes = index.snapshot_bytes();
    let (cfg, docs) = tiger_cache::codec::decode_snapshot(&bytes).unwrap();
    assert_eq!(cfg, vec!["title".to_string()]);
    assert_eq!(docs.len(), 2);

    let mut rebuilt = TigerCache::new();
    rebuilt.set_indexed_fields(cfg);
    rebuilt.add_documents_batch(docs).unwrap();
    assert_eq!(rebuilt.document_count(), 2);
    assert_eq!(
        rebuilt.get_document("alpha").unwrap().get_text_field("note"),
        Some("7".to_string())
    );
    let results = rebuilt.search("apples", None).unwrap();
    assert_eq!(results.len(), 1);
    assert_eq!(results[0].document.id, "alpha");
    // a note-field term is not indexed, as the snapshot's field list says
    assert!(rebuilt.search("7", None).unwrap().is_empty());
}

#[test]
fn test_invalid_document_rejected() {
    // duplicate field names violate the document schema
    let mut cache = TigerCache::new();
    let doc = Document {
        id: "dup".to_string(),
        fields: vec![
            ("k".to_string(), FieldValue::text("one")),
            ("k".to_string(), FieldValue::text("two")),
        ],
    };
    let r = cache.add_document(doc);
    assert!(matches!(r, Err(tiger_cache::error::TigerCacheError::InvalidDocument(_))));
    assert_eq!(cache.document_count(), 0);
}
