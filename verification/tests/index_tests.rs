use tiger_cache::document::{Document, FieldValue};
use tiger_cache::index::Index;

fn create_test_document(id: &str) -> Document {
    let mut doc = Document::new(id);
    doc.add_field("title", FieldValue::text("Test Document"));
    doc.add_field("content", FieldValue::text("This is a test document for searching"));
    doc
}

#[test]
fn index_test_add_document() {
    let mut index = Index::new();
    let doc = create_test_document("doc1");

    assert!(index.add_document(doc).is_ok());
    assert_eq!(index.document_count(), 1);

    // Check that tokens were indexed
    let test_id = index.interner().get_id("test");
    let document_id = index.interner().get_id("document");
    assert!(test_id.is_some());
    assert!(document_id.is_some());

    // Check that trigrams were generated
    let tes_id = index.interner().get_id("tes");
    let est_id = index.interner().get_id("est");
    assert!(tes_id.is_some());
    assert!(est_id.is_some());
}

#[test]
fn index_test_remove_document() {
    let mut index = Index::new();
    let doc = create_test_document("doc1");

    index.add_document(doc).unwrap();
    assert_eq!(index.document_count(), 1);

    assert!(index.remove_document("doc1").is_ok());
    assert_eq!(index.document_count(), 0);

    // Check that the document was removed from every inverted posting
    for (_, s) in index.interner().iter() {
        let docs = index.get_documents_for_token(&s);
        assert!(!docs.contains(&"doc1".to_string()));
    }
}

#[test]
fn test_find_candidate_tokens() {
    let mut index = Index::new();
    let doc = create_test_document("doc1");

    index.add_document(doc).unwrap();

    let candidates = index.find_candidate_tokens("test");
    assert!(candidates.contains(&"test".to_string()));

    // Should find similar words with shared trigrams
    let candidates = index.find_candidate_tokens("documant"); // Misspelled
    assert!(candidates.contains(&"document".to_string()));
}

#[test]
fn test_replacement_semantics() {
    // add(d); remove(d.id); add(d') behaves like a single add(d') on an
    // empty index, observed through search, get and count
    let mut a = Index::new();
    let mut d = Document::new("x");
    d.add_field("title", FieldValue::text("old words here"));
    a.add_document(d).unwrap();
    a.remove_document("x").unwrap();
    let mut d2 = Document::new("x");
    d2.add_field("title", FieldValue::text("new content"));
    a.add_document(d2).unwrap();

    let mut b = Index::new();
    let mut d3 = Document::new("x");
    d3.add_field("title", FieldValue::text("new content"));
    b.add_document(d3).unwrap();

    assert_eq!(a.document_count(), b.document_count());
    for q in ["new", "content", "old", "words", "nwe", "contnet"] {
        let ra = a.search(q, None).unwrap();
        let rb = b.search(q, None).unwrap();
        assert_eq!(ra.len(), rb.len());
        for (x, y) in ra.iter().zip(rb.iter()) {
            assert_eq!(x.document.id, y.document.id);
            assert_eq!(x.score, y.score);
        }
    }
    assert!(a.get_document("x").is_some());
    assert_eq!(
        a.get_document("x").unwrap().get_text_field("title"),
        b.get_document("x").unwrap().get_text_field("title")
    );
}

#[test]
fn test_reinsert_same_id_replaces() {
    let mut index = Index::new();
    let mut d = Document::new("x");
    d.add_field("title", FieldValue::text("alpha"));
    index.add_document(d).unwrap();
    let mut d2 = Document::new("x");
    d2.add_field("title", FieldValue::text("beta"));
    index.add_document(d2).unwrap();

    assert_eq!(index.document_count(), 1);
    assert!(index.search("alpha", None).unwrap().is_empty());
    assert_eq!(index.search("beta", None).unwrap().len(), 1);
    // the posting holds the document exactly once
    assert_eq!(index.get_documents_for_token("beta"), vec!["x".to_string()]);
}
