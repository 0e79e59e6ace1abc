use tiger_cache::intern::{StringId, StringInterner};

#[test]
fn test_basic_interning() {
    let mut interner = StringInterner::new();

    let id1 = interner.intern("hello").unwrap();
    let id2 = interner.intern("world").unwrap();
    let id3 = interner.intern("hello").unwrap(); // Duplicate

    assert_eq!(id1, id3); // Same string should get same ID
    assert_ne!(id1, id2); // Different strings should get different IDs

    assert_eq!(interner.get(id1), Some("hello"));
    assert_eq!(interner.get(id2), Some("world"));
    assert_eq!(interner.len(), 2); // Only 2 unique strings
}

#[test]
fn test_get_id() {
    let mut interner = StringInterner::new();

    let id = interner.intern("test").unwrap();
    assert_eq!(interner.get_id("test"), Some(id));
    assert_eq!(interner.get_id("nonexistent"), None);
}

#[test]
fn test_clear() {
    let mut interner = StringInterner::new();

    interner.intern("hello").unwrap();
    interner.intern("world").unwrap();
    assert_eq!(interner.len(), 2);

    interner.clear();
    assert_eq!(interner.len(), 0);
    assert!(interner.is_empty());
}

#[test]
fn test_intern_round_trip() {
    // get(intern(s)) == s, across a batch of strings
    let mut interner = StringInterner::new();
    for s in ["", "a", "apple", "Apple", "$$a", "longer string with spaces"] {
        let id = interner.intern(s).unwrap();
        assert_eq!(interner.get(id), Some(s));
    }
}

#[test]
fn test_ids_are_dense_from_zero() {
    let mut interner = StringInterner::new();
    let a = interner.intern("a").unwrap();
    let b = interner.intern("b").unwrap();
    assert_eq!(a, StringId::new(0));
    assert_eq!(b.as_u32(), 1);
    let pairs = interner.iter();
    assert_eq!(pairs.len(), 2);
    assert_eq!(pairs[0].1, "a");
    assert_eq!(pairs[1].1, "b");
}
