use crabby_search::api::{
    create_document, get_document, list_documents, preview, CreateDocumentRequest, RequestError,
    SearchParams,
};
use crabby_search::engine::SearchEngine;

#[test]
fn blank_content_is_refused() {
    let mut engine = SearchEngine::new();
    let request = CreateDocumentRequest { title: Some("t".to_string()), content: " \n\t ".to_string() };
    assert_eq!(create_document(&mut engine, request).err(), Some(RequestError::ContentRequired));
    assert!(engine.documents().is_empty());
}

#[test]
fn missing_or_blank_title_becomes_untitled() {
    let mut engine = SearchEngine::new();
    let a = create_document(
        &mut engine,
        CreateDocumentRequest { title: None, content: "body text".to_string() },
    )
    .unwrap();
    assert_eq!(a.title, "untitled");
    let b = create_document(
        &mut engine,
        CreateDocumentRequest { title: Some("  ".to_string()), content: "more".to_string() },
    )
    .unwrap();
    assert_eq!(b.title, "untitled");
    let c = create_document(
        &mut engine,
        CreateDocumentRequest { title: Some(" Kept ".to_string()), content: "x".to_string() },
    )
    .unwrap();
    assert_eq!(c.title, " Kept ");
    assert_eq!((a.id, b.id, c.id), (1, 2, 3));
}

#[test]
fn created_summary_has_length_and_preview() {
    let mut engine = SearchEngine::new();
    let s = create_document(
        &mut engine,
        CreateDocumentRequest { title: Some("T".to_string()), content: "  Two words  ".to_string() },
    )
    .unwrap();
    assert_eq!(s.length, 2);
    assert_eq!(s.preview, "Two words");
}

#[test]
fn preview_cuts_long_content() {
    let long: String = std::iter::repeat('a').take(200).collect();
    let expected = format!("{}...", &long[..160]);
    assert_eq!(preview(&long), expected);
    let exact: String = std::iter::repeat('b').take(160).collect();
    assert_eq!(preview(&exact), exact);
    assert_eq!(preview("  short  "), "short");
    let wide: String = std::iter::repeat('é').take(161).collect();
    assert_eq!(preview(&wide).chars().count(), 163);
}

#[test]
fn lists_and_gets_documents() {
    let mut engine = SearchEngine::new();
    engine.index_document("a".to_string(), "one two three".to_string());
    engine.index_document("b".to_string(), "four".to_string());
    let list = list_documents(&engine);
    assert_eq!(list.len(), 2);
    assert_eq!(list[0].id, 1);
    assert_eq!(list[0].length, 3);
    assert_eq!(list[1].title, "b");
    assert_eq!(list[1].preview, "four");
    let detail = get_document(&engine, 2).unwrap();
    assert_eq!(detail.content, "four");
    assert_eq!(detail.length, 1);
    assert!(get_document(&engine, 7).is_none());
}

#[test]
fn search_limit_defaults_to_twenty() {
    let params = SearchParams { q: "x".to_string(), limit: None };
    assert_eq!(params.limit_or_default(), 20);
    let params = SearchParams { q: "x".to_string(), limit: Some(3) };
    assert_eq!(params.limit_or_default(), 3);
}

#[test]
fn preview_drops_surrounding_white_space() {
    assert_eq!(preview("  hello world  "), "hello world");
    assert_eq!(preview("\u{3000}hello\u{00A0}"), "hello");
    assert_eq!(preview(" \t\n "), "");
}
