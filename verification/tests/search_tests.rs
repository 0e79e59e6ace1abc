use tiger_cache::document::{Document, FieldValue};
use tiger_cache::index::Index;
use tiger_cache::search::{CachedSearchEngine, SearchOptions};

fn create_test_index() -> Index {
    let mut index = Index::new();

    let mut doc1 = Document::new("doc1");
    doc1.add_field("title", FieldValue::text("Apple iPhone"));
    doc1.add_field("description", FieldValue::text("The latest smartphone from Apple"));

    let mut doc2 = Document::new("doc2");
    doc2.add_field("title", FieldValue::text("Samsung Galaxy"));
    doc2.add_field("description", FieldValue::text("Android smartphone with great features"));

    let mut doc3 = Document::new("doc3");
    doc3.add_field("title", FieldValue::text("Google Pixel"));
    doc3.add_field("description", FieldValue::text("Smartphone with the best camera"));

    index.add_document(doc1).unwrap();
    index.add_document(doc2).unwrap();
    index.add_document(doc3).unwrap();

    index
}

#[test]
fn test_search_exact_match() {
    let index = create_test_index();

    let results = index.search("Apple", None).unwrap();
    assert!(!results.is_empty());
    assert_eq!(results[0].document.id, "doc1");
}

#[test]
fn test_search_fuzzy_match() {
    let index = create_test_index();

    // Misspelled "Apple" as "Aple"
    let results = index.search("Aple", None).unwrap();
    assert!(!results.is_empty());
    assert_eq!(results[0].document.id, "doc1");

    // Misspelled "Samsung" as "Samsnug"
    let results = index.search("Samsnug", None).unwrap();
    assert!(!results.is_empty());
    assert_eq!(results[0].document.id, "doc2");
}

#[test]
fn test_search_with_options() {
    let index = create_test_index();

    let options = SearchOptions { max_distance: 1, score_threshold: 500, limit: 1 };

    // This should still match with distance 1
    let results = index.search("Aple", Some(options.clone())).unwrap();
    assert!(!results.is_empty());

    // This should not match with max_distance 0 (too many errors)
    let options_strict = SearchOptions { max_distance: 0, score_threshold: 500, limit: 1 };
    let results = index.search("Appple", Some(options_strict)).unwrap();
    assert!(results.is_empty());
}

#[test]
fn test_exact_match_ranked_first() {
    // a document containing the token uniquely comes first, score positive
    let index = create_test_index();
    let options = SearchOptions { max_distance: 0, score_threshold: 0, limit: 100 };
    let results = index.search("galaxy", Some(options)).unwrap();
    assert_eq!(results.len(), 1);
    assert_eq!(results[0].document.id, "doc2");
    assert!(results[0].score > 0);
}

#[test]
fn test_fuzzy_recall_within_two_edits() {
    let index = create_test_index();
    // each query is within edit distance two of an indexed token
    for (q, id) in [("iphnoe", "doc1"), ("galaxi", "doc2"), ("pixel", "doc3")] {
        let results = index.search(q, None).unwrap();
        assert!(!results.is_empty());
        assert!(results.iter().any(|r| r.document.id == id));
    }
}

#[test]
fn test_scores_sorted_descending_with_id_ties() {
    let index = create_test_index();
    let results = index.search("smartphone", None).unwrap();
    assert_eq!(results.len(), 3);
    for w in results.windows(2) {
        assert!(
            w[0].score > w[1].score
                || (w[0].score == w[1].score && w[0].document.id < w[1].document.id)
        );
    }
}

#[test]
fn test_cached_search_engine() {
    let index = create_test_index();
    let mut engine = CachedSearchEngine::new(1 << 20, &index);
    let o = SearchOptions { max_distance: 2, score_threshold: 0, limit: 100 };
    let first = engine.search_with_cache(&index, "Apple", o).unwrap();
    let second = engine.search_with_cache(&index, "Apple", o).unwrap();
    assert_eq!(first.len(), second.len());
    assert_eq!(first[0].document.id, second[0].document.id);
    assert_eq!(first[0].score, second[0].score);
}

#[test]
fn test_default_search_options() {
    let o = SearchOptions::default();
    assert_eq!(o.max_distance, 2);
    assert_eq!(o.score_threshold, 0);
    assert_eq!(o.limit, 100);
}
