use std::collections::HashSet;

use inverted_index::iindex::InvertedIndex;

#[test]
fn test_insert_and_retrieve_document() {
    let mut index = InvertedIndex::new();
    index.insert_document("hello world");

    assert_eq!(index.get_document(0), Some(&"hello world".to_string()));
}

#[test]
fn test_multiple_documents() {
    let mut index = InvertedIndex::new();
    index.insert_document("hello world");
    index.insert_document("foo bar");
    index.insert_document("hello foo");

    assert_eq!(index.get_document(0), Some(&"hello world".to_string()));
    assert_eq!(index.get_document(1), Some(&"foo bar".to_string()));
    assert_eq!(index.get_document(2), Some(&"hello foo".to_string()));
}

#[test]
fn test_search_or_single_match() {
    let mut index = InvertedIndex::new();
    index.insert_document("hello world");
    index.insert_document("foo bar");

    let results = index.search_or("hello");
    assert_eq!(results, vec![0].into_iter().collect());
}

#[test]
fn test_search_or_multiple_matches() {
    let mut index = InvertedIndex::new();
    index.insert_document("hello world");
    index.insert_document("hello foo");
    index.insert_document("bar baz");

    let results = index.search_or("hello");
    assert_eq!(results.len(), 2);
    assert!(results.contains(&0));
    assert!(results.contains(&1));
}

#[test]
fn test_search_or_multiple_tokens() {
    let mut index = InvertedIndex::new();
    index.insert_document("hello world");
    index.insert_document("foo bar");
    index.insert_document("baz qux");

    let results = index.search_or("hello foo");
    assert_eq!(results.len(), 2);
    assert!(results.contains(&0));
    assert!(results.contains(&1));
}

#[test]
fn test_search_or_no_matches() {
    let mut index = InvertedIndex::new();
    index.insert_document("hello world");

    let results = index.search_or("notfound");
    assert!(results.is_empty());
}

#[test]
fn test_search_and_all_tokens_present() {
    let mut index = InvertedIndex::new();
    index.insert_document("hello world");
    index.insert_document("hello foo world");
    index.insert_document("foo bar");

    let results = index.search_and("hello world");
    assert_eq!(results.len(), 2);
    assert!(results.contains(&0));
    assert!(results.contains(&1));
}

#[test]
fn test_search_and_partial_match() {
    let mut index = InvertedIndex::new();
    index.insert_document("hello world");
    index.insert_document("hello foo");
    index.insert_document("world bar");

    let results = index.search_and("hello world");
    assert_eq!(results.len(), 1);
    assert!(results.contains(&0));
}

#[test]
fn test_search_and_no_matches() {
    let mut index = InvertedIndex::new();
    index.insert_document("hello world");
    index.insert_document("foo bar");

    let results = index.search_and("hello notfound");
    assert!(results.is_empty());
}

#[test]
fn test_search_and_single_token() {
    let mut index = InvertedIndex::new();
    index.insert_document("hello world");
    index.insert_document("foo bar");

    let results = index.search_and("hello");
    assert_eq!(results.len(), 1);
    assert!(results.contains(&0));
}

#[test]
fn test_case_insensitive_search() {
    let mut index = InvertedIndex::new();
    index.insert_document("Hello World");

    let results = index.search_or("hello");
    assert!(results.contains(&0));
}

#[test]
fn test_punctuation_removed() {
    let mut index = InvertedIndex::new();
    index.insert_document("Hello, World!");

    let results = index.search_or("hello world");
    assert_eq!(results.len(), 1);
    assert!(results.contains(&0));
}

#[test]
fn empty_index_answers_nothing() {
    let index = InvertedIndex::new();

    assert!(index.search_or("anything").is_empty());
    assert!(index.search_and("anything").is_empty());
    assert_eq!(index.get_document(0), None);
}

#[test]
fn get_beyond_insertions_is_absent() {
    let mut index = InvertedIndex::new();
    index.insert_document("hello world");
    index.insert_document("foo bar");

    assert_eq!(index.get_document(2), None);
    assert_eq!(index.get_document(5), None);
}

#[test]
fn and_and_or_over_three_documents() {
    let mut index = InvertedIndex::new();
    index.insert_document("hello world");
    index.insert_document("hello foo");
    index.insert_document("world bar");

    let and_hits = index.search_and("hello world");
    assert_eq!(and_hits, vec![0].into_iter().collect());

    let or_hits = index.search_or("hello world");
    assert_eq!(or_hits, vec![0, 1, 2].into_iter().collect());
}

#[test]
fn and_results_are_a_subset_of_or_results() {
    let mut index = InvertedIndex::new();
    index.insert_document("hello world");
    index.insert_document("hello foo world");
    index.insert_document("foo bar");
    index.insert_document("");

    for query in ["hello world", "foo", "hello bar", "notfound", ""] {
        let and_hits = index.search_and(query);
        let or_hits = index.search_or(query);
        assert!(and_hits.is_subset(&or_hits));
    }
}

#[test]
fn absent_token_empties_and_search() {
    let mut index = InvertedIndex::new();
    index.insert_document("hello world");
    index.insert_document("hello foo world");

    // "hello" and "world" are in every document, yet one unseen token
    // empties the intersection.
    let results = index.search_and("hello world notfound");
    assert!(results.is_empty());
}

#[test]
fn duplicate_text_gets_a_fresh_id() {
    let mut index = InvertedIndex::new();
    index.insert_document("hello world");
    index.insert_document("hello world");

    assert_eq!(index.get_document(0), Some(&"hello world".to_string()));
    assert_eq!(index.get_document(1), Some(&"hello world".to_string()));
    let results = index.search_or("hello");
    assert_eq!(results, vec![0, 1].into_iter().collect());
}

#[test]
fn empty_document_is_stored_but_never_matched() {
    let mut index = InvertedIndex::new();
    index.insert_document("");
    index.insert_document("hello");

    assert_eq!(index.get_document(0), Some(&"".to_string()));
    let results = index.search_or("hello");
    assert_eq!(results, vec![1].into_iter().collect());
}

#[test]
fn empty_and_unrecognized_queries_yield_empty_sets() {
    let mut index = InvertedIndex::new();
    index.insert_document("hello world");

    assert!(index.search_or("").is_empty());
    assert!(index.search_and("").is_empty());
    assert!(index.search_or("!!! ...").is_empty());
    assert!(index.search_and("!!! ...").is_empty());
}

#[test]
fn queries_do_not_disturb_stored_documents() {
    let mut index = InvertedIndex::new();
    index.insert_document("hello world");
    index.insert_document("foo bar");

    let _ = index.search_or("foo");
    let _ = index.search_and("bar");
    assert_eq!(index.get_document(1), Some(&"foo bar".to_string()));
    let _: HashSet<usize> = index.search_or("hello");
    assert_eq!(index.get_document(0), Some(&"hello world".to_string()));
}
