use tiger_cache::document::{Document, FieldValue};

#[test]
fn test_document_creation() {
    let doc = Document::new("test_id");
    assert_eq!(doc.id, "test_id");
    assert!(doc.fields.is_empty());
}

#[test]
fn test_add_field_string() {
    let mut doc = Document::new("test_id");
    doc.add_field("title", FieldValue::text("Test Title"));

    assert_eq!(doc.fields.len(), 1);
    assert!(doc.fields.iter().any(|f| f.0 == "title"));

    if let FieldValue::Text(value) = &doc.fields[0].1 {
        assert_eq!(value, "Test Title");
    } else {
        panic!("Field value is not a string");
    }
}

#[test]
fn test_add_field_number() {
    let mut doc = Document::new("test_id");
    doc.add_field("count", FieldValue::integer(42));

    assert_eq!(doc.fields.len(), 1);
    assert!(doc.fields.iter().any(|f| f.0 == "count"));

    if let FieldValue::Integer(value) = &doc.fields[0].1 {
        assert_eq!(*value, 42);
    } else {
        panic!("Field value is not a number");
    }
}

#[test]
fn test_add_field_boolean() {
    let mut doc = Document::new("test_id");
    doc.add_field("active", FieldValue::boolean(true));

    assert_eq!(doc.fields.len(), 1);
    assert!(doc.fields.iter().any(|f| f.0 == "active"));

    if let FieldValue::Boolean(value) = &doc.fields[0].1 {
        assert_eq!(*value, true);
    } else {
        panic!("Field value is not a boolean");
    }
}

#[test]
fn test_add_multiple_fields() {
    let mut doc = Document::new("test_id");
    doc.add_field("title", FieldValue::text("Test Title"));
    doc.add_field("count", FieldValue::integer(42));
    doc.add_field("active", FieldValue::boolean(true));

    assert_eq!(doc.fields.len(), 3);
    assert!(doc.fields.iter().any(|f| f.0 == "title"));
    assert!(doc.fields.iter().any(|f| f.0 == "count"));
    assert!(doc.fields.iter().any(|f| f.0 == "active"));
}

#[test]
fn test_get_text_field_string() {
    let mut doc = Document::new("test_id");
    doc.add_field("title", FieldValue::text("Test Title"));

    let value = doc.get_text_field("title");
    assert_eq!(value, Some("Test Title".to_string()));
}

#[test]
fn test_get_text_field_number() {
    let mut doc = Document::new("test_id");
    doc.add_field("count", FieldValue::integer(42));

    let value = doc.get_text_field("count");
    assert_eq!(value, Some("42".to_string()));
}

#[test]
fn test_get_text_field_boolean() {
    let mut doc = Document::new("test_id");
    doc.add_field("active", FieldValue::boolean(true));

    let value = doc.get_text_field("active");
    assert_eq!(value, Some("true".to_string()));
}

#[test]
fn test_get_text_field_nonexistent() {
    let doc = Document::new("test_id");
    let value = doc.get_text_field("nonexistent");
    assert_eq!(value, None);
}

#[test]
fn test_get_all_text_fields() {
    let mut doc = Document::new("test_id");
    doc.add_field("title", FieldValue::text("Test Title"));
    doc.add_field("description", FieldValue::text("Test Description"));
    doc.add_field("count", FieldValue::integer(42));
    doc.add_field("active", FieldValue::boolean(true));

    let fields = doc.get_all_text_fields();
    assert_eq!(fields.len(), 4);
    assert!(fields.contains(&"Test Title".to_string()));
    assert!(fields.contains(&"Test Description".to_string()));
    assert!(fields.contains(&"42".to_string()));
    assert!(fields.contains(&"true".to_string()));
}

#[test]
fn test_get_all_text_fields_with_complex_types() {
    let mut doc = Document::new("test_id");
    doc.add_field("title", FieldValue::text("Test Title"));
    doc.add_field(
        "tags",
        FieldValue::Array(vec![FieldValue::text("tag1"), FieldValue::text("tag2")]),
    );
    doc.add_field(
        "metadata",
        FieldValue::Object(vec![("key".to_string(), FieldValue::text("value"))]),
    );

    let fields = doc.get_all_text_fields();
    assert_eq!(fields.len(), 1);
    assert!(fields.contains(&"Test Title".to_string()));
    // Complex types (arrays and objects) should be filtered out
}

#[test]
fn test_negative_integer_coercion() {
    let mut doc = Document::new("neg");
    doc.add_field("n", FieldValue::integer(-37));
    assert_eq!(doc.get_text_field("n"), Some("-37".to_string()));
}

#[test]
fn test_field_replacement() {
    let mut doc = Document::new("r");
    doc.add_field("k", FieldValue::text("one"));
    doc.add_field("k", FieldValue::text("two"));
    assert_eq!(doc.fields.len(), 1);
    assert_eq!(doc.get_text_field("k"), Some("two".to_string()));
}
