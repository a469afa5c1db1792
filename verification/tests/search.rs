use crabby_search::engine::SearchEngine;
use crabby_search::search::{contains_chars, rank, snippet};

const K1: f64 = 1.2;
const B: f64 = 0.75;

struct Hit {
    id: u64,
    title: String,
    score: f64,
    snippet: String,
}

/// BM25 over the engine's query plan, ranked by the library.
fn search(engine: &SearchEngine, query: &str, limit: usize) -> Vec<Hit> {
    let plan = engine.plan_query(query);
    if plan.terms.is_empty() {
        return Vec::new();
    }
    let total_docs = plan.document_count as f64;
    let average_length = if plan.document_count == 0 {
        0.0
    } else {
        plan.total_length as f64 / plan.document_count as f64
    };
    let normalizer = if average_length > 0.0 { average_length } else { 1.0 };
    let mut keyed = Vec::new();
    let mut scores = Vec::new();
    for candidate in &plan.candidates {
        let mut score = 0.0;
        for c in &candidate.contributions {
            let df = c.document_frequency as f64;
            let idf = (((total_docs - df + 0.5) / (df + 0.5)) + 1.0).ln();
            let tf = c.term_frequency as f64;
            let length = c.document_length as f64;
            let denominator = tf + K1 * (1.0 - B + B * length / normalizer);
            score += idf * (tf * (K1 + 1.0)) / denominator;
        }
        keyed.push((score.to_bits(), candidate.id));
        scores.push((candidate.id, score));
    }
    let ranked = rank(&keyed, limit);
    engine
        .hits(&ranked, &plan.terms)
        .into_iter()
        .map(|hit| Hit {
            id: hit.id,
            title: hit.title,
            score: scores.iter().find(|(i, _)| *i == hit.id).unwrap().1,
            snippet: hit.snippet,
        })
        .collect()
}

#[test]
fn ranks_most_relevant_document_first() {
    let mut engine = SearchEngine::new();
    engine.index_document(
        "rust".to_string(),
        "rust is a systems language with rust ownership and rust safety".to_string(),
    );
    engine.index_document(
        "cooking".to_string(),
        "a recipe for soup with carrots and onions".to_string(),
    );
    engine.index_document(
        "mixed".to_string(),
        "this article mentions rust once near the end".to_string(),
    );

    let results = search(&engine, "rust", 10);
    assert_eq!(results.first().map(|r| r.title.as_str()), Some("rust"));
    assert!(results.iter().all(|r| r.title != "cooking"));
}

#[test]
fn empty_query_returns_nothing() {
    let mut engine = SearchEngine::new();
    engine.index_document("a".to_string(), "some content here".to_string());
    assert!(search(&engine, "   ", 10).is_empty());
}

#[test]
fn plan_lists_matching_documents_with_statistics() {
    let mut engine = SearchEngine::new();
    engine.index_document("a".to_string(), "rust rust search".to_string());
    engine.index_document("b".to_string(), "cooking".to_string());
    engine.index_document("c".to_string(), "search engine".to_string());
    let plan = engine.plan_query("Search RUST");
    assert_eq!(plan.terms, vec!["search", "rust"]);
    assert_eq!(plan.document_count, 3);
    assert_eq!(plan.total_length, 6);
    let ids: Vec<u64> = plan.candidates.iter().map(|c| c.id).collect();
    assert_eq!(ids, vec![1, 3]);
    let first: Vec<(u32, usize, u32)> = plan.candidates[0]
        .contributions
        .iter()
        .map(|c| (c.term_frequency, c.document_frequency, c.document_length))
        .collect();
    assert_eq!(first, vec![(1, 2, 3), (2, 1, 3)]);
    let third: Vec<(u32, usize, u32)> = plan.candidates[1]
        .contributions
        .iter()
        .map(|c| (c.term_frequency, c.document_frequency, c.document_length))
        .collect();
    assert_eq!(third, vec![(1, 2, 2)]);
}

#[test]
fn repeated_query_terms_count_twice() {
    let mut engine = SearchEngine::new();
    engine.index_document("a".to_string(), "rust".to_string());
    let plan = engine.plan_query("rust rust");
    assert_eq!(plan.candidates.len(), 1);
    assert_eq!(plan.candidates[0].contributions.len(), 2);
}

#[test]
fn unknown_terms_are_skipped() {
    let mut engine = SearchEngine::new();
    engine.index_document("a".to_string(), "rust".to_string());
    let plan = engine.plan_query("python");
    assert_eq!(plan.terms, vec!["python"]);
    assert!(plan.candidates.is_empty());
}

#[test]
fn rank_orders_by_key_then_id_and_truncates() {
    let scored = vec![(5, 1), (7, 2), (5, 0), (1, 9)];
    assert_eq!(rank(&scored, 10), vec![(7, 2), (5, 0), (5, 1), (1, 9)]);
    assert_eq!(rank(&scored, 2), vec![(7, 2), (5, 0)]);
    assert!(rank(&scored, 0).is_empty());
    assert!(rank(&Vec::new(), 3).is_empty());
}

#[test]
fn ranking_follows_scores_as_floats() {
    let mut engine = SearchEngine::new();
    engine.index_document("long".to_string(), "rust one two three four five six seven".to_string());
    engine.index_document("short".to_string(), "rust".to_string());
    engine.index_document("none".to_string(), "nothing here".to_string());
    let results = search(&engine, "rust", 5);
    let titles: Vec<&str> = results.iter().map(|r| r.title.as_str()).collect();
    assert_eq!(titles, vec!["short", "long"]);
    assert!(results[0].score > results[1].score);
    assert!(results.iter().all(|r| r.score > 0.0));
    assert_eq!(results[0].id, 2);
}

#[test]
fn snippet_of_short_content_is_whole() {
    let terms = vec!["rust".to_string()];
    assert_eq!(snippet("Learn  Rust\tquickly", &terms), "Learn Rust quickly");
    assert_eq!(snippet("   ", &terms), "");
}

#[test]
fn snippet_windows_long_content() {
    let words: Vec<String> = (0..100).map(|i| format!("w{}", i)).collect();
    let content = words.join(" ");
    let terms = vec!["w50".to_string()];
    let expected = format!("... {} ...", words[35..65].join(" "));
    assert_eq!(snippet(&content, &terms), expected);
    let none = vec!["zzz".to_string()];
    assert_eq!(snippet(&content, &none), format!("{} ...", words[0..30].join(" ")));
    let late = vec!["w99".to_string()];
    assert_eq!(snippet(&content, &late), format!("... {}", words[84..100].join(" ")));
}

#[test]
fn snippet_matches_inside_words_case_insensitively() {
    let words: Vec<String> = (0..40).map(|i| format!("x{}", i)).collect();
    let mut content_words = words.clone();
    content_words[20] = "Rustacean".to_string();
    let content = content_words.join(" ");
    let terms = vec!["rust".to_string()];
    let expected = format!("... {}", content_words[5..35].join(" ") + " ...");
    assert_eq!(snippet(&content, &terms), expected);
}

#[test]
fn contains_chars_finds_parts() {
    let hay: Vec<char> = "search".chars().collect();
    let yes: Vec<char> = "arc".chars().collect();
    let no: Vec<char> = "arcs".chars().collect();
    let empty: Vec<char> = Vec::new();
    assert!(contains_chars(&hay, &yes));
    assert!(!contains_chars(&hay, &no));
    assert!(contains_chars(&hay, &empty));
    assert!(contains_chars(&hay, &hay));
    assert!(!contains_chars(&empty, &yes));
}

#[test]
fn rank_with_a_smaller_limit_is_a_prefix() {
    let scored = vec![(5u64, 1u64), (9, 2), (7, 3), (9, 4), (1, 5)];
    let long = rank(&scored, 4);
    let short = rank(&scored, 2);
    assert_eq!(long, vec![(9, 2), (9, 4), (7, 3), (5, 1)]);
    assert_eq!(short, long[..2].to_vec());
    assert!(rank(&scored, 0).is_empty());
}

#[test]
fn planning_twice_gives_the_same_plan() {
    let mut engine = SearchEngine::new();
    engine.index_document("a".to_string(), "rust search engine".to_string());
    engine.index_document("b".to_string(), "search everything".to_string());
    let first = engine.plan_query("search rust");
    let second = engine.plan_query("search rust");
    assert_eq!(first.terms, second.terms);
    assert_eq!(first.document_count, second.document_count);
    assert_eq!(first.total_length, second.total_length);
    let ids = |p: &crabby_search::search::QueryPlan| p.candidates.iter().map(|c| c.id).collect::<Vec<u64>>();
    assert_eq!(ids(&first), ids(&second));
    assert_eq!(ids(&first), vec![1, 2]);
}

#[test]
fn stored_documents_are_found_after_any_history() {
    let mut engine = SearchEngine::new();
    engine.index_document("a".to_string(), "apple banana".to_string());
    engine.index_document("b".to_string(), "banana cherry".to_string());
    engine.index_document("c".to_string(), "cherry apple".to_string());
    assert!(engine.delete_document(2));
    engine.index_document("d".to_string(), "banana date".to_string());
    assert!(engine.delete_document(1));
    let plan = engine.plan_query("banana apple");
    let ids: Vec<u64> = plan.candidates.iter().map(|c| c.id).collect();
    assert_eq!(ids, vec![3, 4]);
    let plan = engine.plan_query("cherry");
    let ids: Vec<u64> = plan.candidates.iter().map(|c| c.id).collect();
    assert_eq!(ids, vec![3]);
}

#[test]
fn uppercase_query_plans_the_same() {
    let mut engine = SearchEngine::new();
    engine.index_document("a".to_string(), "Rust search engine".to_string());
    engine.index_document("b".to_string(), "cooking with rust".to_string());
    let lower = engine.plan_query("rust engine");
    let upper = engine.plan_query(&"rust engine".to_ascii_uppercase());
    assert_eq!(lower.terms, upper.terms);
    let ids = |p: &crabby_search::search::QueryPlan| p.candidates.iter().map(|c| c.id).collect::<Vec<u64>>();
    assert_eq!(ids(&lower), ids(&upper));
    assert_eq!(ids(&upper), vec![1, 2]);
}

#[test]
fn a_document_is_found_by_each_of_its_tokens() {
    let mut engine = SearchEngine::new();
    engine.index_document("a".to_string(), "Verified Search, in Rust!".to_string());
    engine.index_document("b".to_string(), "something else".to_string());
    for token in crabby_search::tokenizer::tokenize("Verified Search, in Rust!") {
        let plan = engine.plan_query(&token);
        assert!(plan.candidates.iter().any(|c| c.id == 1));
    }
}

#[test]
fn hits_keep_ranking_order_and_skip_missing_documents() {
    let mut engine = SearchEngine::new();
    engine.index_document("first".to_string(), "alpha beta".to_string());
    engine.index_document("second".to_string(), "beta gamma".to_string());
    let terms = vec!["beta".to_string()];
    let ranked = vec![(9u64, 2u64), (7, 7), (5, 1)];
    let hits = engine.hits(&ranked, &terms);
    let ids: Vec<u64> = hits.iter().map(|h| h.id).collect();
    assert_eq!(ids, vec![2, 1]);
    assert_eq!(hits[0].title, "second");
    assert_eq!(hits[0].snippet, "beta gamma");
    let shorter = engine.hits(&ranked[..1].to_vec(), &terms);
    assert_eq!(shorter.len(), 1);
    assert_eq!(shorter[0].id, hits[0].id);
    assert_eq!(shorter[0].title, hits[0].title);
}

#[test]
fn search_with_a_smaller_limit_gives_the_first_results() {
    let mut engine = SearchEngine::new();
    engine.index_document("a".to_string(), "rust rust rust".to_string());
    engine.index_document("b".to_string(), "rust and more words".to_string());
    engine.index_document("c".to_string(), "a little rust here and there".to_string());
    let long = search(&engine, "rust", 3);
    let short = search(&engine, "rust", 2);
    assert_eq!(long.len(), 3);
    assert_eq!(short.len(), 2);
    for i in 0..2 {
        assert_eq!(short[i].id, long[i].id);
        assert_eq!(short[i].title, long[i].title);
        assert_eq!(short[i].score, long[i].score);
        assert_eq!(short[i].snippet, long[i].snippet);
    }
    assert!(search(&engine, "rust", 0).is_empty());
}

#[test]
fn snippet_splits_on_unicode_white_space() {
    let terms = vec!["rust".to_string()];
    assert_eq!(snippet("Learn\u{2003}Rust\u{3000}now", &terms), "Learn Rust now");
}
