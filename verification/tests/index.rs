use ramus_core::block::{Block, Page};
use ramus_core::index::{page_kind, page_rows, plan_sync, select_backlinks, LinkRow};
use ramus_core::parser::parse;

fn entries(list: &[(&str, i64)]) -> Vec<(String, i64)> {
    list.iter().map(|(p, m)| (p.to_string(), *m)).collect()
}

#[test]
fn sync_outcome_reports_refreshed_and_removed_paths() {
    let disk = entries(&[("pages/uno.md", 100), ("pages/due.md", 100)]);
    let first = plan_sync(&disk, &Vec::new());
    let mut refreshed = first.refreshed.clone();
    refreshed.sort();
    assert_eq!(refreshed, vec!["pages/due.md", "pages/uno.md"]);
    assert_eq!(first.removed, Vec::<String>::new());

    let unchanged = plan_sync(&disk, &disk);
    assert_eq!(unchanged.refreshed, Vec::<String>::new());
    assert_eq!(unchanged.removed, Vec::<String>::new());

    let after_removal = plan_sync(&entries(&[("pages/due.md", 100)]), &disk);
    assert_eq!(after_removal.refreshed, Vec::<String>::new());
    assert_eq!(after_removal.removed, vec!["pages/uno.md".to_string()]);
}

#[test]
fn sync_after_external_modification_refreshes_only_that_page() {
    let indexed = entries(&[("pages/uno.md", 100), ("pages/due.md", 100)]);
    let disk = entries(&[("pages/uno.md", 102), ("pages/due.md", 100)]);
    let outcome = plan_sync(&disk, &indexed);
    assert_eq!(outcome.refreshed, vec!["pages/uno.md".to_string()]);
    assert!(outcome.removed.is_empty());
}

#[test]
fn page_kind_by_folder() {
    assert_eq!(page_kind("journals/2026-01-01.md"), "journal");
    assert_eq!(page_kind("pages/uno.md"), "page");
    assert_eq!(page_kind("journals"), "page");
}

#[test]
fn page_rows_flatten_blocks_with_links_and_tags() {
    let page = Page {
        path: "pages/uno.md".to_string(),
        title: Some("Uno".to_string()),
        blocks: parse("- nota su [[Progetto X]] #lavoro\n  - figlio #a#b\n- fine\n").unwrap(),
    };
    let rows = page_rows("pages/uno.md", &page);
    assert_eq!(rows.kind, "page");
    assert_eq!(rows.title, Some("Uno".to_string()));
    assert_eq!(rows.blocks.len(), 3);
    assert_eq!(rows.blocks[0].position, 0);
    assert_eq!(rows.blocks[0].links, vec!["Progetto X".to_string()]);
    assert_eq!(rows.blocks[0].tags, vec!["lavoro".to_string()]);
    assert_eq!(rows.blocks[1].content, "figlio #a#b");
    assert_eq!(rows.blocks[1].tags, vec!["a".to_string(), "b".to_string()]);
    assert_eq!(rows.blocks[2].position, 2);
    assert!(rows.blocks[2].links.is_empty());
}

fn link(target: &str, content: &str, path: &str, title: Option<&str>) -> LinkRow {
    LinkRow {
        target_title: target.to_string(),
        block_content: content.to_string(),
        source_path: path.to_string(),
        source_title: title.map(|t| t.to_string()),
    }
}

#[test]
fn find_backlinks_from_journal_to_page_and_back() {
    let rows = vec![
        link("Pagina A", "[[Pagina A]]", "journals/2026-01-01.md", None),
        link("Pagina A", "[[Pagina A]]", "pages/pagina-b.md", Some("Pagina B")),
        link("Pagina B", "[[Pagina B]]", "pages/pagina-a.md", Some("Pagina A")),
    ];
    let backlinks = select_backlinks("Pagina A", rows);
    let mut sources: Vec<String> = backlinks.into_iter().map(|b| b.source_path).collect();
    sources.sort();
    assert_eq!(sources, vec!["journals/2026-01-01.md", "pages/pagina-b.md"]);
}

#[test]
fn find_backlinks_on_never_linked_title_is_empty_not_error() {
    let rows = vec![link("Altra", "[[Altra]]", "pages/uno.md", None)];
    assert_eq!(select_backlinks("Mai Linkata", rows), Vec::new());
}

#[test]
fn backlinks_compare_titles_by_slug() {
    let rows = vec![link("progetto   x", "vedi [[progetto   x]]", "pages/p.md", Some("P"))];
    let found = select_backlinks("Progetto X", rows);
    assert_eq!(found.len(), 1);
    assert_eq!(found[0].block_content, "vedi [[progetto   x]]");
    assert_eq!(found[0].source_title, Some("P".to_string()));
}

#[test]
fn an_empty_page_has_no_rows() {
    let page = Page { path: "journals/2026-01-01.md".to_string(), title: None, blocks: Vec::<Block>::new() };
    let rows = page_rows("journals/2026-01-01.md", &page);
    assert_eq!(rows.kind, "journal");
    assert!(rows.blocks.is_empty());
}
