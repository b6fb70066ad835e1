use ramus_core::block::Page;
use ramus_core::parser::parse;
use ramus_core::search::{search_document, search_hit, search_query, MAX_SEARCH_RESULTS};

#[test]
fn search_with_empty_query_is_empty_without_parsing() {
    assert_eq!(search_query(""), None);
    assert_eq!(search_query("   \t\n"), None);
}

#[test]
fn query_is_trimmed() {
    assert_eq!(search_query("  caffè latte \n"), Some("caffè latte".to_string()));
}

#[test]
fn journal_hit_reports_journal_kind() {
    let page = Page { path: "journals/2026-01-01.md".to_string(), title: None, blocks: parse("- riunione\n").unwrap() };
    let doc = search_document("journals/2026-01-01.md", &page);
    assert_eq!(doc.kind, "journal");
    assert_eq!(doc.title, "");
}

#[test]
fn document_joins_block_texts_in_preorder() {
    let page = Page {
        path: "pages/p.md".to_string(),
        title: Some("Progetto".to_string()),
        blocks: parse("- uno\n  - due\n- tre\n").unwrap(),
    };
    let doc = search_document("pages/p.md", &page);
    assert_eq!(doc.path, "pages/p.md");
    assert_eq!(doc.kind, "page");
    assert_eq!(doc.title, "Progetto");
    assert_eq!(doc.content, "uno\ndue\ntre");
}

#[test]
fn hit_fills_missing_fields_and_drops_empty_title() {
    let hit = search_hit(None, Some("page".to_string()), Some(String::new()), "<b>x</b>".to_string());
    assert_eq!(hit.path, "");
    assert_eq!(hit.kind, "page");
    assert_eq!(hit.title, None);
    assert_eq!(hit.snippet_html, "<b>x</b>");
    let hit = search_hit(Some("pages/a.md".to_string()), None, Some("A".to_string()), String::new());
    assert_eq!(hit.title, Some("A".to_string()));
    assert_eq!(MAX_SEARCH_RESULTS, 20);
}
