use ramus_core::error::{CoreError, ParamValue};

fn code_and_params(err: &CoreError) -> (String, Vec<(String, ParamValue)>) {
    (err.code().to_string(), err.params())
}

fn text(name: &str, value: &str) -> (String, ParamValue) {
    (name.to_string(), ParamValue::Text(value.to_string()))
}

#[test]
fn invalid_path_has_path_param() {
    let err = CoreError::InvalidPath("../fuori".to_string());
    let (code, params) = code_and_params(&err);
    assert_eq!(code, "invalid_path");
    assert_eq!(params, vec![text("path", "../fuori")]);
}

#[test]
fn page_not_found_has_path_param() {
    let err = CoreError::PageNotFound("2026-09-04.md".to_string());
    let (code, params) = code_and_params(&err);
    assert_eq!(code, "page_not_found");
    assert_eq!(params, vec![text("path", "2026-09-04.md")]);
}

#[test]
fn invalid_date_has_date_param() {
    let err = CoreError::InvalidDate("non-una-data".to_string());
    let (code, params) = code_and_params(&err);
    assert_eq!(code, "invalid_date");
    assert_eq!(params, vec![text("date", "non-una-data")]);
}

#[test]
fn malformed_block_has_line_and_reason_params() {
    let err = CoreError::MalformedBlock { line: 3, reason: "prefisso mancante".to_string() };
    let (code, params) = code_and_params(&err);
    assert_eq!(code, "malformed_block");
    assert_eq!(params, vec![("line".to_string(), ParamValue::Number(3)), text("reason", "prefisso mancante")]);
}

#[test]
fn io_has_path_and_detail_params() {
    let err = CoreError::Io { path: "/tmp/vault/nota.md".to_string(), detail: "file non trovato".to_string() };
    let (code, params) = code_and_params(&err);
    assert_eq!(code, "io");
    assert_eq!(params[0], text("path", "/tmp/vault/nota.md"));
    match &params[1] {
        (name, ParamValue::Text(detail)) => {
            assert_eq!(name, "detail");
            assert!(detail.contains("file non trovato"));
        }
        other => panic!("unexpected: {other:?}"),
    }
}

#[test]
fn config_error_has_detail_param() {
    let err = CoreError::Config("messaggio dinamico da serde_json".to_string());
    let (code, params) = code_and_params(&err);
    assert_eq!(code, "config_error");
    assert_eq!(params, vec![text("detail", "messaggio dinamico da serde_json")]);
}

#[test]
fn poisoned_lock_variants_have_empty_params() {
    for (err, expected_code) in [
        (CoreError::PoisonedConfigLock, "poisoned_config_lock"),
        (CoreError::PoisonedIndexLock, "poisoned_index_lock"),
        (CoreError::PoisonedSearchIndexLock, "poisoned_search_index_lock"),
        (CoreError::PoisonedWatcherLock, "poisoned_watcher_lock"),
    ] {
        let (code, params) = code_and_params(&err);
        assert_eq!(code, expected_code);
        assert!(params.is_empty());
    }
}

#[test]
fn outside_errors_have_a_detail_param() {
    for (err, expected_code) in [
        (CoreError::Index("db".to_string()), "index_error"),
        (CoreError::Search("idx".to_string()), "search_error"),
        (CoreError::Git("repo".to_string()), "git_error"),
    ] {
        let (code, params) = code_and_params(&err);
        assert_eq!(code, expected_code);
        assert_eq!(params.len(), 1);
        assert_eq!(params[0].0, "detail");
    }
}

#[test]
fn messages_name_the_failing_value() {
    assert_eq!(
        CoreError::InvalidPath("../fuori".to_string()).message(),
        "percorso non valido all'interno del vault: ../fuori"
    );
    assert_eq!(
        CoreError::MalformedBlock { line: 12, reason: "x".to_string() }.message(),
        "riga malformata nel blocco 12: x"
    );
    assert_eq!(
        CoreError::Io { path: "/v/a.md".to_string(), detail: "negato".to_string() }.message(),
        "errore di I/O su /v/a.md: negato"
    );
    assert_eq!(CoreError::PoisonedWatcherLock.message(), "stato del watcher corrotto");
}
