use ramus_core::block::Block;
use ramus_core::links::{extract_links, extract_tags, flatten_blocks, is_tag_char};

#[test]
fn extract_links_finds_basic_link() {
    assert_eq!(extract_links("vedi [[Progetto X]] per dettagli"), vec!["Progetto X"]);
}

#[test]
fn extract_links_finds_multiple() {
    assert_eq!(
        extract_links("[[Uno]] e poi [[Due]]"),
        vec!["Uno".to_string(), "Due".to_string()]
    );
}

#[test]
fn extract_links_no_match_without_brackets() {
    assert_eq!(extract_links("niente link qui"), Vec::<String>::new());
}

#[test]
fn extract_links_ignores_unclosed_delimiter() {
    assert_eq!(extract_links("apre [[ma non chiude"), Vec::<String>::new());
}

#[test]
fn extract_links_ignores_empty_brackets() {
    assert_eq!(extract_links("vuoto [[]] qui"), Vec::<String>::new());
}

#[test]
fn extract_links_is_utf8_safe() {
    assert_eq!(extract_links("café [[città]] è qui"), vec!["città"]);
}

#[test]
fn extract_links_single_bracket_inside_restarts_search() {
    assert_eq!(extract_links("[[a]b]] [[c]]"), vec!["c"]);
    assert_eq!(extract_links("[[[x]]"), vec!["[x"]);
}

#[test]
fn extract_tags_finds_multiple_consecutive() {
    assert_eq!(
        extract_tags("#uno#due #tre-quattro"),
        vec!["uno".to_string(), "due".to_string(), "tre-quattro".to_string()]
    );
}

#[test]
fn extract_tags_no_match_without_hash() {
    assert_eq!(extract_tags("niente tag qui"), Vec::<String>::new());
}

#[test]
fn extract_tags_ignores_bare_hash() {
    assert_eq!(extract_tags("prezzo # non è un tag"), Vec::<String>::new());
}

#[test]
fn extract_tags_is_utf8_safe() {
    assert_eq!(extract_tags("città #lavoro è bella"), vec!["lavoro"]);
}

#[test]
fn extract_tags_stops_at_non_ascii_letter() {
    assert_eq!(extract_tags("#perché"), vec!["perch"]);
}

#[test]
fn tag_characters_are_ascii_word_or_dash() {
    assert!(is_tag_char('a') && is_tag_char('Z') && is_tag_char('7') && is_tag_char('_') && is_tag_char('-'));
    assert!(!is_tag_char('è') && !is_tag_char(' ') && !is_tag_char('#'));
}

#[test]
fn flatten_visits_blocks_in_preorder() {
    let blocks = vec![
        Block { content: "a".to_string(), children: vec![Block::new("b"), Block { content: "c".to_string(), children: vec![Block::new("d")] }] },
        Block::new("e"),
    ];
    let flat: Vec<&str> = flatten_blocks(&blocks).into_iter().map(|b| b.content.as_str()).collect();
    assert_eq!(flat, vec!["a", "b", "c", "d", "e"]);
}
