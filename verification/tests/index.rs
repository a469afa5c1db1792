use crabby_search::index::{count_tokens, InvertedIndex};

fn tokens(words: &[&str]) -> Vec<String> {
    words.iter().map(|w| w.to_string()).collect()
}

fn average_length(index: &InvertedIndex) -> f64 {
    if index.document_count() == 0 {
        0.0
    } else {
        index.total_length() as f64 / index.document_count() as f64
    }
}

#[test]
fn counts_documents_and_terms() {
    let mut index = InvertedIndex::new();
    index.add(1, &tokens(&["rust", "rust", "search"]));
    index.add(2, &tokens(&["search", "engine"]));
    assert_eq!(index.document_count(), 2);
    assert_eq!(index.term_count(), 3);
    assert_eq!(index.document_frequency("search"), 2);
    assert_eq!(index.document_frequency("rust"), 1);
}

#[test]
fn remove_clears_empty_terms() {
    let mut index = InvertedIndex::new();
    index.add(1, &tokens(&["only", "here"]));
    index.remove(1);
    assert_eq!(index.document_count(), 0);
    assert_eq!(index.term_count(), 0);
    assert_eq!(average_length(&index), 0.0);
}

#[test]
fn postings_hold_term_frequencies() {
    let mut index = InvertedIndex::new();
    index.add(2, &tokens(&["rust", "rust", "rust", "search"]));
    index.add(6, &tokens(&["rust", "search"]));
    let rust = index.postings_for("rust").unwrap();
    assert_eq!(rust.len(), 2);
    assert_eq!(rust.get(&2), Some(&3));
    assert_eq!(rust.get(&6), Some(&1));
    assert!(index.postings_for("missing").is_none());
    assert_eq!(index.document_frequency("missing"), 0);
}

#[test]
fn lengths_and_total() {
    let mut index = InvertedIndex::new();
    index.add(1, &tokens(&["a", "b", "c"]));
    index.add(2, &tokens(&["a"]));
    assert_eq!(index.document_length(1), 3);
    assert_eq!(index.document_length(2), 1);
    assert_eq!(index.document_length(9), 0);
    assert_eq!(index.total_length(), 4);
    assert_eq!(average_length(&index), 2.0);
    index.remove(1);
    assert_eq!(index.total_length(), 1);
    assert_eq!(index.document_frequency("a"), 1);
    assert_eq!(index.document_frequency("b"), 0);
    assert_eq!(index.term_count(), 1);
}

#[test]
fn remove_of_unknown_document_changes_nothing() {
    let mut index = InvertedIndex::new();
    index.add(1, &tokens(&["x"]));
    index.remove(5);
    assert_eq!(index.document_count(), 1);
    assert_eq!(index.term_count(), 1);
    assert_eq!(index.total_length(), 1);
}

#[test]
fn adding_a_document_again_overwrites_its_counts() {
    let mut index = InvertedIndex::new();
    index.add(1, &tokens(&["x", "x"]));
    index.add(1, &tokens(&["x", "y"]));
    let x = index.postings_for("x").unwrap();
    assert_eq!(x.len(), 1);
    assert_eq!(x.get(&1), Some(&1));
    assert_eq!(index.document_length(1), 2);
    assert_eq!(index.total_length(), 4);
    assert_eq!(index.document_count(), 1);
}

#[test]
fn top_terms_by_frequency_then_term() {
    let mut index = InvertedIndex::new();
    index.add(1, &tokens(&["b", "a", "c"]));
    index.add(2, &tokens(&["b", "c"]));
    index.add(3, &tokens(&["c", "d"]));
    let top = index.top_terms(10);
    assert_eq!(
        top,
        vec![
            ("c".to_string(), 3),
            ("b".to_string(), 2),
            ("a".to_string(), 1),
            ("d".to_string(), 1)
        ]
    );
    assert_eq!(index.top_terms(2), vec![("c".to_string(), 3), ("b".to_string(), 2)]);
    assert!(index.top_terms(0).is_empty());
}

#[test]
fn top_terms_order_terms_by_bytes() {
    let mut index = InvertedIndex::new();
    index.add(1, &tokens(&["é", "z", "ab", "a"]));
    let top = index.top_terms(10);
    let terms: Vec<&str> = top.iter().map(|(t, _)| t.as_str()).collect();
    assert_eq!(terms, vec!["a", "ab", "z", "é"]);
}

#[test]
fn counts_tokens_once_each() {
    let counts = count_tokens(&tokens(&["a", "b", "a", "a"])).unwrap();
    let mut counts: Vec<(String, u32)> = counts;
    counts.sort();
    assert_eq!(counts, vec![("a".to_string(), 3), ("b".to_string(), 1)]);
    assert!(count_tokens(&[]).unwrap().is_empty());
}

#[test]
fn frequencies_of_a_document_add_up_to_its_length() {
    let mut index = InvertedIndex::new();
    index.add(1, &tokens(&["a", "b", "a", "c", "a"]));
    index.add(2, &tokens(&["b", "d"]));
    let mut sum = 0;
    for term in ["a", "b", "c", "d"] {
        if let Some(postings) = index.postings_for(term) {
            for (id, frequency) in postings {
                if *id == 1 {
                    sum += *frequency;
                }
            }
        }
    }
    assert_eq!(sum, 5);
    assert_eq!(index.document_length(1), 5);
    assert_eq!(index.total_length(), 7);
}

#[test]
fn remove_right_after_add_restores_the_index() {
    let mut index = InvertedIndex::new();
    index.add(1, &tokens(&["rust", "search"]));
    index.add(2, &tokens(&["search", "engine"]));
    let before_terms = index.term_count();
    let before_total = index.total_length();
    index.add(3, &tokens(&["rust", "new", "new"]));
    index.remove(3);
    assert_eq!(index.term_count(), before_terms);
    assert_eq!(index.total_length(), before_total);
    assert_eq!(index.document_count(), 2);
    assert!(index.postings_for("new").is_none());
    let rust = index.postings_for("rust").unwrap();
    assert_eq!(rust.len(), 1);
    assert_eq!(rust.get(&1), Some(&1));
    assert_eq!(index.document_length(3), 0);
    assert_eq!(index.top_terms(2), vec![("search".to_string(), 2), ("engine".to_string(), 1)]);
}
