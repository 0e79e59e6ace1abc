use tiger_cache::trigram::{extract_tokens, generate_trigrams, normalize_text};

#[test]
fn test_normalize_text() {
    assert_eq!(normalize_text("Hello, World!"), "hello world");
    assert_eq!(normalize_text("  Test-123  "), "test123");
    assert_eq!(normalize_text(""), "");
}

#[test]
fn test_extract_tokens() {
    assert_eq!(extract_tokens("Hello, World!"), vec!["hello", "world"]);
    assert_eq!(extract_tokens("  Multiple   Spaces  "), vec!["multiple", "spaces"]);
    assert_eq!(extract_tokens(""), Vec::<String>::new());
}

#[test]
fn test_generate_trigrams() {
    let trigrams = generate_trigrams("apple");
    assert!(trigrams.contains(&"$$a".to_string()));
    assert!(trigrams.contains(&"$ap".to_string()));
    assert!(trigrams.contains(&"app".to_string()));
    assert!(trigrams.contains(&"ppl".to_string()));
    assert!(trigrams.contains(&"ple".to_string()));
    assert!(trigrams.contains(&"le$".to_string()));
    assert_eq!(trigrams.len(), 6);

    // Empty string should return empty set
    assert_eq!(generate_trigrams("").len(), 0);

    // Short strings
    assert_eq!(generate_trigrams("a").len(), 2); // $$a, $a$
    assert_eq!(generate_trigrams("ab").len(), 3); // $$a, $ab, ab$
}

#[test]
fn test_trigram_set_of_single_char() {
    // trigrams of "a" are exactly {"$$a", "$a$"}
    let trigrams = generate_trigrams("a");
    assert!(trigrams.contains(&"$$a".to_string()));
    assert!(trigrams.contains(&"$a$".to_string()));
    assert_eq!(trigrams.len(), 2);
}

#[test]
fn test_tokenise_idempotent_on_normalised_text() {
    // tokenising already-normalised text changes nothing
    for t in ["Hello, World!", "  A  B  C ", "MiXeD-CaSe_42", ""] {
        let once = normalize_text(t);
        assert_eq!(extract_tokens(&once), extract_tokens(t));
    }
}

#[test]
fn test_trigram_window_count() {
    // a non-empty token of length n yields n + 1 windows; duplicates collapse
    assert_eq!(generate_trigrams("abc").len(), 4);
    assert_eq!(generate_trigrams("abcd").len(), 5);
    // the windows of "aaa" are $$a, $aa, aaa and aa$, all distinct
    assert_eq!(generate_trigrams("aaa").len(), 4);
}

#[test]
fn test_normalize_keeps_inner_whitespace_runs() {
    // inner runs survive normalisation; the split drops the empties
    assert_eq!(normalize_text("a   b"), "a   b");
    assert_eq!(extract_tokens("a   b"), vec!["a", "b"]);
}
