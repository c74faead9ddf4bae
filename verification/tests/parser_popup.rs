use repo_tree::registry::{parse_v1compatibility_fields, ManifestView};
use repo_tree::strutil::{count_lines, join_with_newlines, split_at_last, trim_end_char, truncate_chars};
use repo_tree::ui::{App, Key};

fn s(x: &str) -> String {
    x.to_string()
}

fn demo_catalog() -> Vec<(String, Vec<(String, Vec<String>)>)> {
    vec![
        (s("a"), vec![(s("x"), vec![s("1.0")]), (s("y"), vec![])]),
        (s("b"), vec![(s("z"), vec![s("2.0"), s("latest")])]),
    ]
}

fn first_inner() -> String {
    s("{\"id\":\"0123456789abcdef\",\"parent\":\"fedcba9876543210\",\
        \"os\":\"linux\",\"created\":\"2020-01-01T00:00:00Z\",\
        \"container_config\":{\"Cmd\":[\"/bin/sh\",\"-c\",\"echo hi\"]},\
        \"config\":{\"User\":\"root\"}}")
}

fn demo_manifest_text() -> String {
    let mut text = String::from("{\"schemaVersion\":1,\"history\":[");
    text.push_str(&format!(
        "{{\"v1Compatibility\":{}}}",
        serde_json::to_string(&serde_json::Value::String(first_inner())).unwrap()
    ));
    text.push_str(",{\"v1Compatibility\":\"not json at all\"}");
    text.push_str(",{\"v1Compatibility\":\"{\\\"id\\\":\\\"shortid\\\"}\"}");
    text.push_str("]}");
    text
}

#[test]
fn parser_skips_malformed_entries_and_truncates_ids() {
    let manifest = ManifestView {
        entries: vec![
            Some(first_inner()),
            Some(s("not json at all")),
            Some(s("{\"id\":\"shortid\"}")),
        ],
        pretty: s("pretty text"),
    };
    let (rows, pretty) = parse_v1compatibility_fields(&manifest);
    assert_eq!(rows.len(), 2);
    assert_eq!(rows[0].id, "01234567");
    assert_eq!(rows[0].parent, "fedcba98");
    assert_eq!(rows[0].os, "linux");
    assert_eq!(rows[0].created, "2020-01-01T00:00:00Z");
    assert_eq!(rows[0].cmd, "/bin/sh\n-c\necho hi");
    assert_eq!(rows[0].config, "{\"User\":\"root\"}");
    assert_eq!(rows[1].id, "shortid");
    assert_eq!(rows[1].parent, "");
    assert_eq!(rows[1].os, "");
    assert_eq!(rows[1].cmd, "");
    assert_eq!(rows[1].config, "");
    assert_eq!(pretty, "pretty text");
}

#[test]
fn parser_filters_non_string_command_items() {
    let manifest = ManifestView {
        entries: vec![Some(s("{\"container_config\":{\"Cmd\":[1,\"a\",true,\"b\"]}}"))],
        pretty: String::new(),
    };
    let (rows, _) = parse_v1compatibility_fields(&manifest);
    assert_eq!(rows.len(), 1);
    assert_eq!(rows[0].cmd, "a\nb");
}

#[test]
fn parser_accepts_manifest_without_history() {
    let manifest = ManifestView { entries: Vec::new(), pretty: s("the whole document") };
    let (rows, pretty) = parse_v1compatibility_fields(&manifest);
    assert!(rows.is_empty());
    assert_eq!(pretty, "the whole document");
}

#[test]
fn parser_skips_entries_without_inner_document() {
    let manifest = ManifestView {
        entries: vec![None, Some(s("{}"))],
        pretty: String::new(),
    };
    let (rows, _) = parse_v1compatibility_fields(&manifest);
    assert_eq!(rows.len(), 1);
    assert_eq!(rows[0].id, "");
}

#[test]
fn opening_on_non_tag_row_is_rejected() {
    let mut app = App::new(demo_catalog());
    app.selected_index = 0;
    let before_items = app.items.clone();
    let opened = app.open_popup("{}");
    assert!(!opened);
    assert!(!app.popup_open);
    assert_eq!(app.popup_content, "");
    assert_eq!(app.items, before_items);
    assert_eq!(app.selected_index, 0);
}

#[test]
fn opening_with_invalid_manifest_leaves_state_unchanged() {
    let mut app = App::new(demo_catalog());
    app.selected_index = 2;
    let opened = app.open_popup("this is not json");
    assert!(!opened);
    assert!(!app.popup_open);
    assert_eq!(app.popup_content, "");
}

#[test]
fn opening_on_tag_row_shows_table_and_manifest() {
    let mut app = App::new(demo_catalog());
    app.selected_index = 2;
    app.popup_scroll_offset = 9;
    app.popup_scroll_offset_x = 9;
    let text = demo_manifest_text();
    let opened = app.open_popup(&text);
    assert!(opened);
    assert!(app.popup_open);
    assert_eq!(app.popup_scroll_offset, 0);
    assert_eq!(app.popup_scroll_offset_x, 0);
    let manifest: serde_json::Value = serde_json::from_str(&text).unwrap();
    let pretty = serde_json::to_string_pretty(&manifest).unwrap();
    assert!(app.popup_content.contains("01234567"));
    assert!(app.popup_content.contains("fedcba98"));
    assert!(app.popup_content.contains("shortid"));
    assert!(app.popup_content.contains("\n------------------------\n"));
    assert!(app.popup_content.ends_with(&pretty));
}

#[test]
fn opening_without_history_still_shows_the_manifest() {
    let mut app = App::new(demo_catalog());
    app.selected_index = 2;
    let text = "{\"schemaVersion\":1}";
    assert!(app.open_popup(text));
    let manifest: serde_json::Value = serde_json::from_str(text).unwrap();
    let pretty = serde_json::to_string_pretty(&manifest).unwrap();
    assert!(app.popup_content.ends_with(&pretty));
}

#[test]
fn popup_vertical_scroll_is_clamped() {
    let mut app = App::new(demo_catalog());
    app.popup_open = true;
    app.popup_content = s("l1\nl2\nl3\nl4\nl5\nl6\nl7\nl8\nl9\nl10");
    app.handle_popup_input(Key::Down, 4);
    assert_eq!(app.popup_scroll_offset, 3);
    app.handle_popup_input(Key::Down, 4);
    assert_eq!(app.popup_scroll_offset, 6);
    app.handle_popup_input(Key::Down, 4);
    assert_eq!(app.popup_scroll_offset, 6);
    app.handle_popup_input(Key::PageDown, 4);
    assert_eq!(app.popup_scroll_offset, 6);
    app.handle_popup_input(Key::Up, 4);
    assert_eq!(app.popup_scroll_offset, 3);
    app.handle_popup_input(Key::PageUp, 4);
    assert_eq!(app.popup_scroll_offset, 0);
    app.handle_popup_input(Key::Up, 4);
    assert_eq!(app.popup_scroll_offset, 0);
}

#[test]
fn popup_horizontal_scroll_steps_by_ten() {
    let mut app = App::new(demo_catalog());
    app.popup_open = true;
    app.popup_content = s("wide line");
    app.handle_popup_input(Key::Right, 4);
    app.handle_popup_input(Key::Right, 4);
    assert_eq!(app.popup_scroll_offset_x, 20);
    app.handle_popup_input(Key::Left, 4);
    assert_eq!(app.popup_scroll_offset_x, 10);
    app.handle_popup_input(Key::Left, 4);
    app.handle_popup_input(Key::Left, 4);
    assert_eq!(app.popup_scroll_offset_x, 0);
}

#[test]
fn escape_closes_the_popup_and_resets_scroll() {
    let mut app = App::new(demo_catalog());
    app.popup_open = true;
    app.popup_content = s("something\nlong");
    app.popup_scroll_offset = 5;
    app.popup_scroll_offset_x = 30;
    app.handle_popup_input(Key::Esc, 4);
    assert!(!app.popup_open);
    assert_eq!(app.popup_content, "");
    assert_eq!(app.popup_scroll_offset, 0);
    assert_eq!(app.popup_scroll_offset_x, 0);
}

#[test]
fn enter_with_open_popup_closes_it() {
    let mut app = App::new(demo_catalog());
    app.popup_open = true;
    app.popup_content = s("something");
    app.popup_scroll_offset = 2;
    let request = app.handle_main_input(Key::Enter, 5);
    assert_eq!(request, None);
    assert!(!app.popup_open);
    assert_eq!(app.popup_content, "");
    assert_eq!(app.popup_scroll_offset, 0);
    assert_eq!(app.popup_scroll_offset_x, 0);
}

#[test]
fn string_helpers_count_truncate_join_split() {
    assert_eq!(count_lines(""), 0);
    assert_eq!(count_lines("a"), 1);
    assert_eq!(count_lines("a\nb"), 2);
    assert_eq!(count_lines("a\n"), 1);
    assert_eq!(count_lines("\n\n"), 2);
    assert_eq!(truncate_chars("0123456789", 8), "01234567");
    assert_eq!(truncate_chars("short", 8), "short");
    assert_eq!(join_with_newlines(&vec![s("a"), s("b"), s("c")]), "a\nb\nc");
    assert_eq!(join_with_newlines(&Vec::new()), "");
    assert_eq!(split_at_last("b/z/latest", '/'), (s("b/z"), s("latest")));
    assert_eq!(trim_end_char("http://x///", '/'), "http://x");
    assert_eq!(trim_end_char("///", '/'), "");
}
