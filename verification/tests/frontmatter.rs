use ramus_core::frontmatter::{extract_title, split_front_matter};

#[test]
fn splits_well_formed_front_matter() {
    let text = "---\ntitle: Progetto X\n---\n- primo blocco\n";
    let (front, body) = split_front_matter(text);
    assert_eq!(front, Some("---\ntitle: Progetto X\n---\n"));
    assert_eq!(body, "- primo blocco\n");
}

#[test]
fn round_trips_by_concatenation() {
    let text = "---\ntitle: Progetto X\n---\n- a\n  - b\n";
    let (front, body) = split_front_matter(text);
    let rejoined = format!("{}{}", front.unwrap_or(""), body);
    assert_eq!(rejoined, text);
}

#[test]
fn no_front_matter_returns_whole_text_as_body() {
    let text = "- primo blocco\n";
    assert_eq!(split_front_matter(text), (None, text));
}

#[test]
fn unclosed_front_matter_is_treated_as_no_front_matter() {
    let text = "---\ntitle: Progetto X\n- primo blocco\n";
    assert_eq!(split_front_matter(text), (None, text));
}

#[test]
fn extracts_title() {
    let front = "---\ntitle: Progetto X\n---\n";
    assert_eq!(extract_title(front), Some("Progetto X".to_string()));
}

#[test]
fn ignores_unknown_fields_without_losing_them_in_split() {
    let front = "---\ntags: [a, b]\ntitle: Progetto X\n---\n";
    assert_eq!(extract_title(front), Some("Progetto X".to_string()));
}

#[test]
fn missing_title_field_returns_none() {
    let front = "---\ntags: [a, b]\n---\n";
    assert_eq!(extract_title(front), None);
}

#[test]
fn empty_text_has_no_front_matter() {
    assert_eq!(split_front_matter(""), (None, ""));
}

#[test]
fn front_matter_closed_at_end_of_text_without_newline() {
    let text = "---\ntitle: A\n---";
    assert_eq!(split_front_matter(text), (Some(text), ""));
}

#[test]
fn title_value_is_trimmed_and_first_non_empty_wins() {
    assert_eq!(extract_title("title:   \ntitle:  Secondo  \ntitle: Terzo\n"), Some("Secondo".to_string()));
    assert_eq!(extract_title("title:\n"), None);
}

#[test]
fn title_with_carriage_return_is_trimmed() {
    assert_eq!(extract_title("---\r\ntitle: Con CR\r\n---\r\n"), Some("Con CR".to_string()));
}
