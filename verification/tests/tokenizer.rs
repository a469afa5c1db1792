use crabby_search::tokenizer::tokenize;

#[test]
fn splits_and_lowercases() {
    assert_eq!(tokenize("Hello, World!"), vec!["hello", "world"]);
}

#[test]
fn keeps_alphanumeric_runs() {
    assert_eq!(tokenize("rust2021 is fast"), vec!["rust2021", "is", "fast"]);
}

#[test]
fn empty_text_yields_no_tokens() {
    assert!(tokenize("   ,. ").is_empty());
}

#[test]
fn tokenizes_the_concepts_example() {
    assert_eq!(tokenize("Rust, the Language!"), vec!["rust", "the", "language"]);
}

#[test]
fn lowercases_non_ascii_letters() {
    assert_eq!(tokenize("ÉCOLE été"), vec!["école", "été"]);
}

#[test]
fn keeps_a_trailing_run() {
    assert_eq!(tokenize("a-b"), vec!["a", "b"]);
    assert_eq!(tokenize("end"), vec!["end"]);
}

#[test]
fn every_token_is_non_empty_and_no_more_than_chars() {
    let text = "  x  yy,,zzz.. ";
    let tokens = tokenize(text);
    assert!(tokens.iter().all(|t| !t.is_empty()));
    assert!(tokens.len() <= text.chars().count());
    assert_eq!(tokens, vec!["x", "yy", "zzz"]);
}

#[test]
fn a_separator_splits_the_token_stream() {
    let joined = tokenize("Hello wor-ld Rust");
    let mut parts = tokenize("Hello wor");
    parts.extend(tokenize("ld Rust"));
    assert_eq!(joined, parts);
    assert_eq!(joined, vec!["hello", "wor", "ld", "rust"]);
}

#[test]
fn a_space_splits_the_token_stream() {
    let a = "Hello, World";
    let b = "RUST2021 rocks";
    let mut parts = tokenize(a);
    parts.extend(tokenize(b));
    assert_eq!(tokenize(&format!("{} {}", a, b)), parts);
}

#[test]
fn ascii_case_does_not_change_tokens() {
    let query = "Rust search-Engine 42x";
    assert_eq!(tokenize(&query.to_ascii_uppercase()), tokenize(query));
    assert_eq!(tokenize("ABC xyz"), vec!["abc", "xyz"]);
}

#[test]
fn each_ascii_token_tokenizes_to_itself() {
    for token in tokenize("The Quick-Brown fox, 2024!") {
        assert_eq!(tokenize(&token), vec![token.clone()]);
    }
}
