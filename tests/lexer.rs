use search_engine::lexer::{stem_word, Lexer};
use search_engine::markup::parse_xml_text;
use search_engine::scorer::query_terms;

fn chars(s: &str) -> Vec<char> {
    s.chars().collect()
}

fn all_tokens(s: &str) -> Vec<String> {
    let content = chars(s);
    let mut lexer = Lexer::new(&content);
    let mut out = Vec::new();
    while let Some(t) = lexer.next_token() {
        out.push(t);
    }
    out
}

#[test]
fn stem_word_reduces_plurals_and_inflections() {
    assert_eq!(stem_word("cats".to_string()), "cat");
    assert_eq!(stem_word("running".to_string()), "run");
    assert_eq!(stem_word("cat".to_string()), "cat");
}

#[test]
fn lexer_splits_words_numbers_and_punctuation() {
    assert_eq!(all_tokens("cats, 2024 dogs!"), vec!["cat", ",", "2024", "dog", "!"]);
}

#[test]
fn lexer_skips_leading_and_trailing_whitespace() {
    assert_eq!(all_tokens("  \t the   cat \n "), vec!["the", "cat"]);
}

#[test]
fn lexer_on_empty_or_blank_input_yields_nothing() {
    assert!(all_tokens("").is_empty());
    assert!(all_tokens("   \n\t ").is_empty());
}

#[test]
fn lexer_word_runs_include_trailing_digits() {
    assert_eq!(all_tokens("abc123 456def"), vec!["abc123", "456", "def"]);
}

#[test]
fn lexer_next_matches_next_token() {
    let content = chars("the cat");
    let mut a = Lexer::new(&content);
    let mut b = Lexer::new(&content);
    assert_eq!(a.next(), b.next_token());
    assert_eq!(a.next(), b.next_token());
    assert_eq!(a.next(), None);
    assert_eq!(b.next_token(), None);
}

#[test]
fn query_terms_tokenize_like_documents() {
    let q = chars("running cats");
    assert_eq!(query_terms(&q), vec!["run".to_string(), "cat".to_string()]);
}

#[test]
fn xml_text_joins_character_data_with_spaces() {
    let text = parse_xml_text(b"<doc><p>the cat</p><p>sat</p></doc>");
    assert_eq!(text, Some("the cat sat ".to_string()));
}

#[test]
fn xml_text_unescapes_entities() {
    let text = parse_xml_text(b"<doc>a &amp; b</doc>");
    assert_eq!(text, Some("a & b ".to_string()));
}

#[test]
fn xml_text_of_malformed_document_is_none() {
    assert_eq!(parse_xml_text(b"<doc><p>unclosed</doc>"), None);
}
