use crabby_search::engine::SearchEngine;

#[test]
fn indexes_and_reads_back_documents() {
    let mut engine = SearchEngine::new();
    let doc = engine.index_document("Title".to_string(), "Hello hello world".to_string());
    assert_eq!(doc.id, 1);
    assert_eq!(doc.title, "Title");
    let stored = engine.document(1).unwrap();
    assert_eq!(stored.content, "Hello hello world");
    assert_eq!(engine.document_length(1), 3);
    assert!(engine.document(2).is_none());
    assert_eq!(engine.document_length(2), 0);
}

#[test]
fn delete_removes_from_store_and_index() {
    let mut engine = SearchEngine::new();
    engine.index_document("a".to_string(), "alpha beta".to_string());
    engine.index_document("b".to_string(), "beta gamma".to_string());
    assert!(engine.delete_document(1));
    assert!(!engine.delete_document(1));
    assert!(!engine.delete_document(42));
    assert!(engine.document(1).is_none());
    let stats = engine.stats();
    assert_eq!(stats.document_count, 1);
    assert_eq!(stats.term_count, 2);
    assert_eq!(stats.total_length, 2);
    assert!(engine.plan_query("alpha").candidates.is_empty());
}

#[test]
fn delete_undoes_index() {
    let mut engine = SearchEngine::new();
    engine.index_document("a".to_string(), "one two".to_string());
    let before = engine.stats();
    let doc = engine.index_document("b".to_string(), "two three three".to_string());
    assert!(engine.delete_document(doc.id));
    let after = engine.stats();
    assert_eq!(before.document_count, after.document_count);
    assert_eq!(before.term_count, after.term_count);
    assert_eq!(before.total_length, after.total_length);
    assert_eq!(before.top_terms, after.top_terms);
    let next = engine.index_document("c".to_string(), "x".to_string());
    assert_eq!(next.id, 3);
}

#[test]
fn documents_are_listed_by_id() {
    let mut engine = SearchEngine::new();
    for i in 0..5 {
        engine.index_document(format!("t{}", i), format!("content {}", i));
    }
    engine.delete_document(3);
    let ids: Vec<u64> = engine.documents().iter().map(|d| d.id).collect();
    assert_eq!(ids, vec![1, 2, 4, 5]);
}

#[test]
fn stats_report_counts_and_top_terms() {
    let mut engine = SearchEngine::new();
    engine.index_document("a".to_string(), "search rust".to_string());
    engine.index_document("b".to_string(), "search index".to_string());
    engine.index_document("c".to_string(), "search".to_string());
    let stats = engine.stats();
    assert_eq!(stats.document_count, 3);
    assert_eq!(stats.term_count, 3);
    assert_eq!(stats.total_length, 5);
    assert_eq!(
        stats.top_terms,
        vec![
            ("search".to_string(), 3),
            ("index".to_string(), 1),
            ("rust".to_string(), 1)
        ]
    );
}

#[test]
fn try_index_document_indexes_ordinary_text() {
    let mut engine = SearchEngine::new();
    let doc = engine.try_index_document("t".to_string(), "some words".to_string()).unwrap();
    assert_eq!(doc.id, 1);
    assert_eq!(engine.document_length(1), 2);
}

#[test]
fn empty_content_is_indexed_with_no_tokens() {
    let mut engine = SearchEngine::new();
    let doc = engine.index_document("t".to_string(), String::new());
    assert_eq!(engine.document_length(doc.id), 0);
    assert_eq!(engine.stats().document_count, 1);
    assert_eq!(engine.stats().term_count, 0);
}

#[test]
fn total_length_is_the_sum_of_document_lengths() {
    let mut engine = SearchEngine::new();
    engine.index_document("a".to_string(), "one two three".to_string());
    engine.index_document("b".to_string(), "four five".to_string());
    engine.index_document("c".to_string(), "six".to_string());
    engine.delete_document(2);
    let sum: u64 = engine
        .documents()
        .iter()
        .map(|d| engine.document_length(d.id) as u64)
        .sum();
    assert_eq!(engine.stats().total_length, sum);
    assert_eq!(sum, 4);
}

#[test]
fn no_term_is_in_more_documents_than_stored() {
    let mut engine = SearchEngine::new();
    engine.index_document("a".to_string(), "x y".to_string());
    engine.index_document("b".to_string(), "x".to_string());
    engine.index_document("c".to_string(), "x z z".to_string());
    let stats = engine.stats();
    assert!(stats.top_terms.iter().all(|(_, df)| *df >= 1 && *df <= stats.document_count));
    assert_eq!(stats.top_terms[0], ("x".to_string(), 3));
}

#[test]
fn shared_term_makes_a_document_match() {
    let mut engine = SearchEngine::new();
    let doc = engine.index_document("t".to_string(), "Ownership, borrowing!".to_string());
    let plan = engine.plan_query("BORROWING rules");
    assert_eq!(plan.candidates.len(), 1);
    assert_eq!(plan.candidates[0].id, doc.id);
}

#[test]
fn delete_after_index_leaves_documents_and_plans_unchanged() {
    let mut engine = SearchEngine::new();
    engine.index_document("a".to_string(), "rust search".to_string());
    engine.index_document("b".to_string(), "search engine".to_string());
    let ids_before: Vec<u64> = engine.documents().iter().map(|d| d.id).collect();
    let plan_before = engine.plan_query("search rust engine");
    let doc = engine.index_document("c".to_string(), "rust engine engine".to_string());
    assert!(engine.delete_document(doc.id));
    let ids_after: Vec<u64> = engine.documents().iter().map(|d| d.id).collect();
    assert_eq!(ids_before, ids_after);
    let plan_after = engine.plan_query("search rust engine");
    assert_eq!(plan_before.document_count, plan_after.document_count);
    assert_eq!(plan_before.total_length, plan_after.total_length);
    let view = |p: &crabby_search::search::QueryPlan| {
        p.candidates
            .iter()
            .map(|c| {
                (
                    c.id,
                    c.contributions
                        .iter()
                        .map(|x| (x.term_frequency, x.document_frequency, x.document_length))
                        .collect::<Vec<_>>(),
                )
            })
            .collect::<Vec<_>>()
    };
    assert_eq!(view(&plan_before), view(&plan_after));
}
