use ramus_core::block::Block;
use ramus_core::error::CoreError;
use ramus_core::journal_date::JournalDate;
use ramus_core::listing::{journal_file_date, md_stem};
use ramus_core::parser::render;
use ramus_core::slug::{slug_from_lowercase, slugify};
use ramus_core::vault::{new_page_text, page_from_text, page_text_to_write, PageSummary, Vault};

fn vault() -> Vault {
    Vault::new("/home/x/Journal".to_string())
}

fn names(list: &[&str]) -> Vec<String> {
    list.iter().map(|s| s.to_string()).collect()
}

#[test]
fn resolve_rejects_parent_traversal() {
    let vault = vault();
    assert!(matches!(vault.resolve("../outside.md"), Err(CoreError::InvalidPath(_))));
    assert!(matches!(vault.resolve("journals/../../outside.md"), Err(CoreError::InvalidPath(_))));
}

#[test]
fn resolve_rejects_absolute_path() {
    let vault = vault();
    assert!(matches!(vault.resolve("/etc/passwd"), Err(CoreError::InvalidPath(_))));
}

#[test]
fn resolve_joins_relative_paths_under_the_root() {
    let vault = vault();
    assert_eq!(vault.resolve("pages/a.md").unwrap(), "/home/x/Journal/pages/a.md");
    assert_eq!(Vault::new("/root/".to_string()).resolve("a..b.md").unwrap(), "/root/a..b.md");
    match vault.resolve("./a.md") {
        Err(CoreError::InvalidPath(p)) => assert_eq!(p, "./a.md"),
        other => panic!("unexpected: {other:?}"),
    }
}

#[test]
fn write_then_read_round_trips() {
    let blocks = vec![Block::new("ciao"), Block::new("mondo")];
    let text = page_text_to_write(None, &blocks);
    let page = page_from_text("pages/test.md", &text).unwrap();
    assert_eq!(page.blocks, blocks);
}

#[test]
fn open_today_creates_file_once() {
    let vault = vault();
    let today = JournalDate::today();
    let (first, created) = vault.open_today(&today, None).unwrap();
    assert_eq!(first.blocks, vec![Block::new("")]);
    let written = created.unwrap();
    assert_eq!(written, "- \n");
    assert_eq!(first.path, Vault::journal_relative_path(today));

    let rewritten = page_text_to_write(Some(&written), &[Block::new("scritto")]);
    let (second, created_again) = vault.open_today(&today, Some(&rewritten)).unwrap();
    assert_eq!(second.blocks, vec![Block::new("scritto")]);
    assert!(created_again.is_none());
}

#[test]
fn slugify_lowercases_and_dashes_spaces() {
    assert_eq!(slugify("Nome Pagina"), "nome-pagina");
    assert_eq!(slugify("  Molti   Spazi  "), "molti-spazi");
}

#[test]
fn slugify_lowercases_beyond_ascii() {
    assert_eq!(slugify("Città Ù"), "città-ù");
    assert_eq!(slugify("   "), "");
}

#[test]
fn page_relative_path_uses_slug() {
    assert_eq!(Vault::page_relative_path("Nome Pagina"), "pages/nome-pagina.md");
}

#[test]
fn journal_relative_path_uses_the_iso_date() {
    let d = JournalDate::from_ymd_opt(2026, 9, 2).unwrap();
    assert_eq!(Vault::journal_relative_path(d), "journals/2026-09-02.md");
}

fn listed(vault: &Vault, files: &[&str], before: Option<JournalDate>, limit: usize) -> Vec<String> {
    vault
        .list_journals(&names(files), before, limit)
        .into_iter()
        .map(Vault::journal_relative_path)
        .collect()
}

#[test]
fn list_journals_is_descending() {
    let vault = vault();
    let dates = listed(&vault, &["2026-01-01.md", "2026-01-03.md", "2026-01-02.md"], None, 10);
    assert_eq!(dates, vec!["journals/2026-01-03.md", "journals/2026-01-02.md", "journals/2026-01-01.md"]);
}

#[test]
fn list_journals_skips_missing_days() {
    let vault = vault();
    let pages = vault.list_journals(&names(&["2026-01-01.md", "2026-01-05.md"]), None, 10);
    assert_eq!(pages.len(), 2);
}

#[test]
fn list_journals_respects_before_and_limit() {
    let vault = vault();
    let files = ["2026-01-01.md", "2026-01-02.md", "2026-01-03.md", "2026-01-04.md", "2026-01-05.md"];
    let before = JournalDate::parse("2026-01-04").unwrap();
    let dates = listed(&vault, &files, Some(before), 2);
    assert_eq!(dates, vec!["journals/2026-01-03.md", "journals/2026-01-02.md"]);
}

#[test]
fn list_journals_ignores_non_date_filenames() {
    let vault = vault();
    let pages = vault.list_journals(&names(&["2026-01-01.md", "note.txt", "README.md"]), None, 10);
    assert_eq!(pages.len(), 1);
}

#[test]
fn list_journals_on_empty_vault_is_empty_not_error() {
    let vault = vault();
    assert_eq!(vault.list_journals(&Vec::new(), None, 10), Vec::new());
}

#[test]
fn list_journals_caps_the_limit() {
    let vault = vault();
    let mut files = Vec::new();
    let mut d = JournalDate::from_ymd_opt(2026, 1, 1).unwrap();
    for _ in 0..120 {
        files.push(format!("{}.md", d.to_file_stem()));
        d = d.succ();
    }
    let listed = vault.list_journals(&files, None, 1000);
    assert_eq!(listed.len(), 90);
    assert_eq!(listed[0].to_file_stem(), "2026-04-30");
    assert_eq!(vault.list_journals(&files, None, 0).len(), 0);
}

#[test]
fn stats_counts_journals_and_pages_ignoring_junk() {
    let vault = vault();
    let stats = vault.stats(&names(&["2026-01-01.md", "2026-01-02.md", "README.md"]), &names(&["uno.md", "note.txt"]));
    assert_eq!(stats.journal_count, 2);
    assert_eq!(stats.page_count, 1);
}

#[test]
fn stats_on_empty_vault_is_zero_not_error() {
    let vault = vault();
    let stats = vault.stats(&Vec::new(), &Vec::new());
    assert_eq!(stats.journal_count, 0);
    assert_eq!(stats.page_count, 0);
}

#[test]
fn open_page_creates_file_with_title_in_front_matter() {
    let vault = vault();
    let (page, created) = vault.open_page("Progetto X", None).unwrap();
    assert_eq!(page.title, Some("Progetto X".to_string()));
    assert_eq!(page.blocks, vec![Block::new("")]);
    assert_eq!(page.path, "pages/progetto-x.md");
    assert_eq!(created.unwrap(), "---\ntitle: Progetto X\n---\n- \n");
}

#[test]
fn open_page_on_existing_page_does_not_overwrite() {
    let vault = vault();
    let (_, created) = vault.open_page("Progetto X", None).unwrap();
    let written = page_text_to_write(Some(&created.unwrap()), &[Block::new("scritto")]);
    let (second, created_again) = vault.open_page("Progetto X", Some(&written)).unwrap();
    assert_eq!(second.title, Some("Progetto X".to_string()));
    assert_eq!(second.blocks, vec![Block::new("scritto")]);
    assert!(created_again.is_none());
}

#[test]
fn write_page_preserves_existing_front_matter() {
    let existing = new_page_text("Progetto X");
    let written = page_text_to_write(Some(&existing), &[Block::new("nuovo contenuto")]);
    let reloaded = page_from_text("pages/progetto-x.md", &written).unwrap();
    assert_eq!(reloaded.title, Some("Progetto X".to_string()));
    assert_eq!(reloaded.blocks, vec![Block::new("nuovo contenuto")]);
}

#[test]
fn write_page_on_journal_is_unaffected_by_front_matter_logic() {
    let written = page_text_to_write(Some("- \n"), &[Block::new("scritto")]);
    assert_eq!(written, "- scritto\n");
    let reloaded = page_from_text("journals/2026-01-01.md", &written).unwrap();
    assert_eq!(reloaded.title, None);
    assert_eq!(reloaded.blocks, vec![Block::new("scritto")]);
}

#[test]
fn list_pages_returns_slug_and_title_sorted_by_title() {
    let vault = vault();
    let pages = vec![
        ("zeta".to_string(), new_page_text("Zeta")),
        ("alpha".to_string(), new_page_text("Alpha")),
    ];
    assert_eq!(
        vault.list_pages(pages),
        vec![
            PageSummary { slug: "alpha".to_string(), title: "Alpha".to_string() },
            PageSummary { slug: "zeta".to_string(), title: "Zeta".to_string() },
        ]
    );
}

#[test]
fn list_pages_falls_back_to_slug_without_title() {
    let vault = vault();
    let pages = vec![("senza-titolo".to_string(), render(&[Block::new("x")]))];
    assert_eq!(
        vault.list_pages(pages),
        vec![PageSummary { slug: "senza-titolo".to_string(), title: "senza-titolo".to_string() }]
    );
}

#[test]
fn list_pages_on_empty_vault_is_empty_not_error() {
    let vault = vault();
    assert_eq!(vault.list_pages(Vec::new()), Vec::new());
}

#[test]
fn list_pages_keeps_the_given_order_for_equal_titles() {
    let vault = vault();
    let pages = vec![
        ("b".to_string(), new_page_text("Stesso")),
        ("a".to_string(), new_page_text("Stesso")),
        ("c".to_string(), new_page_text("Primo")),
        ("Z".to_string(), "- z\n".to_string()),
    ];
    let slugs: Vec<String> = vault.list_pages(pages).into_iter().map(|p| p.slug).collect();
    assert_eq!(slugs, vec!["c", "b", "a", "Z"]);
}

#[test]
fn md_stem_and_journal_names() {
    assert_eq!(md_stem("uno.md"), Some("uno".to_string()));
    assert_eq!(md_stem(".md"), Some("".to_string()));
    assert_eq!(md_stem("uno.txt"), None);
    assert_eq!(journal_file_date("2026-01-02.md"), JournalDate::from_ymd_opt(2026, 1, 2));
    assert_eq!(journal_file_date("2026-01-02.txt"), None);
}

#[test]
fn malformed_page_text_is_an_error() {
    assert!(matches!(page_from_text("pages/x.md", "---\ntitle: X\n---\nniente trattino\n"), Err(CoreError::MalformedBlock { line: 1, .. })));
}

#[test]
fn write_page_keeps_a_front_matter_closed_at_the_end_of_the_file() {
    let written = page_text_to_write(Some("---\ntitle: Progetto X\n---"), &[Block::new("scritto")]);
    assert_eq!(written, "---\ntitle: Progetto X\n---\n- scritto\n");
    let reloaded = page_from_text("pages/progetto-x.md", &written).unwrap();
    assert_eq!(reloaded.title, Some("Progetto X".to_string()));
    assert_eq!(reloaded.blocks, vec![Block::new("scritto")]);
    let bare = page_text_to_write(Some("---\n---"), &[Block::new("")]);
    assert_eq!(bare, "---\n---\n- \n");
    assert!(page_from_text("pages/x.md", &bare).is_ok());
}

#[test]
fn slug_of_lowered_text_joins_words_with_dashes() {
    assert_eq!(slug_from_lowercase("nome   pagina"), "nome-pagina");
    assert_eq!(slug_from_lowercase("  a\tb\nc "), "a-b-c");
    assert_eq!(slug_from_lowercase(""), "");
}
