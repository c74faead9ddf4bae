use repo_tree::registry::{
    get_registry_url, group_images_by_depth, set_registry_url, split_image_depths, RegistryConfig,
};
use repo_tree::ui::{App, Key};

fn s(x: &str) -> String {
    x.to_string()
}

fn demo_catalog() -> Vec<(String, Vec<(String, Vec<String>)>)> {
    vec![
        (s("a"), vec![(s("x"), vec![s("1.0")]), (s("y"), vec![])]),
        (s("b"), vec![(s("z"), vec![s("2.0"), s("latest")])]),
    ]
}

#[test]
fn registry_url_is_normalized() {
    let mut config = RegistryConfig { url: String::new() };
    set_registry_url(&mut config, "http://registry.example//");
    assert_eq!(get_registry_url(&config), "http://registry.example/v2/");
    set_registry_url(&mut config, "http://registry.example");
    assert_eq!(get_registry_url(&config), "http://registry.example/v2/");
}

#[test]
fn split_image_depths_at_first_separator() {
    assert_eq!(split_image_depths("team/service"), (s("team"), s("service")));
    assert_eq!(split_image_depths("a/b/c"), (s("a"), s("b/c")));
    assert_eq!(split_image_depths("solo"), (s("solo"), s("")));
}

#[test]
fn grouping_keeps_fetch_order() {
    let images = vec![s("a/x"), s("a/y"), s("b/z")];
    let grouped = group_images_by_depth(images);
    assert_eq!(
        grouped,
        vec![(s("a"), vec![s("x"), s("y")]), (s("b"), vec![s("z")])]
    );
}

#[test]
fn grouping_of_empty_catalog_is_empty() {
    let grouped = group_images_by_depth(Vec::new());
    assert!(grouped.is_empty());
}

#[test]
fn flatten_demo_catalog() {
    let app = App::new(demo_catalog());
    assert_eq!(app.items.len(), 8);
    assert_eq!(app.item_types, vec![1, 2, 3, 2, 1, 2, 3, 3]);
    assert_eq!(
        app.items,
        vec![
            s("├── a"),
            s("│   ├── x"),
            s("│   │   └── 1.0"),
            s("│   └── y"),
            s("└── b"),
            s("    └── z"),
            s("        ├── 2.0"),
            s("        └── latest"),
        ]
    );
    assert_eq!(
        app.full_image_names,
        vec![
            s("a"),
            s("a/x"),
            s("a/x/1.0"),
            s("a/y"),
            s("b"),
            s("b/z"),
            s("b/z/2.0"),
            s("b/z/latest"),
        ]
    );
    assert_eq!(app.selected_index, 0);
    assert_eq!(app.scroll_offset, 0);
    assert!(!app.popup_open);
}

#[test]
fn flatten_empty_catalog() {
    let app = App::new(Vec::new());
    assert!(app.items.is_empty());
    assert!(app.item_types.is_empty());
    assert!(app.full_image_names.is_empty());
}

#[test]
fn next_advances_and_stops_at_last_row() {
    let mut app = App::new(demo_catalog());
    for expected in 1..8 {
        app.next(5);
        assert_eq!(app.selected_index, expected);
    }
    app.next(5);
    assert_eq!(app.selected_index, 7);
    assert_eq!(app.scroll_offset, 3);
}

#[test]
fn previous_stops_at_first_row() {
    let mut app = App::new(demo_catalog());
    app.previous();
    assert_eq!(app.selected_index, 0);
    assert_eq!(app.scroll_offset, 0);
    app.next(5);
    app.previous();
    assert_eq!(app.selected_index, 0);
}

#[test]
fn scroll_follows_selection_by_single_rows() {
    let mut app = App::new(demo_catalog());
    app.next(3);
    app.next(3);
    assert_eq!(app.scroll_offset, 0);
    app.next(3);
    assert_eq!(app.selected_index, 3);
    assert_eq!(app.scroll_offset, 1);
    app.previous();
    app.previous();
    app.previous();
    assert_eq!(app.selected_index, 0);
    assert_eq!(app.scroll_offset, 0);
}

#[test]
fn page_down_lands_on_min_of_jump_and_last() {
    let mut app = App::new(demo_catalog());
    app.next_page(3);
    assert_eq!(app.selected_index, 3);
    assert_eq!(app.scroll_offset, 1);
    app.next_page(3);
    assert_eq!(app.selected_index, 6);
    app.next_page(3);
    assert_eq!(app.selected_index, 7);
    assert_eq!(app.scroll_offset, 5);
}

#[test]
fn page_up_lands_on_max_of_jump_and_zero() {
    let mut app = App::new(demo_catalog());
    app.next_page(3);
    app.next_page(3);
    assert_eq!(app.selected_index, 6);
    app.previous_page(3);
    assert_eq!(app.selected_index, 3);
    assert_eq!(app.scroll_offset, 3);
    app.previous_page(5);
    assert_eq!(app.selected_index, 0);
    assert_eq!(app.scroll_offset, 0);
}

#[test]
fn window_invariant_holds_over_a_mixed_run() {
    let mut app = App::new(demo_catalog());
    let h = 3;
    let moves = [0, 0, 1, 0, 2, 0, 0, 3, 1, 1, 2, 3, 0];
    for m in moves {
        match m {
            0 => app.next(h),
            1 => app.previous(),
            2 => app.next_page(h),
            _ => app.previous_page(h),
        }
        assert!(app.scroll_offset <= app.selected_index);
        assert!(app.selected_index < app.scroll_offset + h);
        assert!(app.scroll_offset + h <= app.items.len() || app.scroll_offset == 0);
        assert!(app.selected_index < app.items.len());
    }
}

#[test]
fn main_input_moves_and_requests_nothing() {
    let mut app = App::new(demo_catalog());
    assert_eq!(app.handle_main_input(Key::Down, 5), None);
    assert_eq!(app.selected_index, 1);
    assert_eq!(app.handle_main_input(Key::Up, 5), None);
    assert_eq!(app.selected_index, 0);
    assert_eq!(app.handle_main_input(Key::PageDown, 5), None);
    assert_eq!(app.selected_index, 5);
    assert_eq!(app.handle_main_input(Key::PageUp, 5), None);
    assert_eq!(app.selected_index, 0);
    assert_eq!(app.handle_main_input(Key::Other, 5), None);
    assert_eq!(app.selected_index, 0);
}

#[test]
fn enter_on_tag_row_requests_its_image_and_tag() {
    let mut app = App::new(demo_catalog());
    app.selected_index = 2;
    let request = app.handle_main_input(Key::Enter, 5);
    assert_eq!(request, Some((s("a/x"), s("1.0"))));
    assert_eq!(app.selected_index, 2);
    assert!(!app.popup_open);
    app.selected_index = 7;
    let request = app.handle_main_input(Key::Enter, 5);
    assert_eq!(request, Some((s("b/z"), s("latest"))));
}

#[test]
fn enter_on_non_tag_row_requests_nothing() {
    let mut app = App::new(demo_catalog());
    let request = app.handle_main_input(Key::Enter, 5);
    assert_eq!(request, None);
    assert!(!app.popup_open);
    app.selected_index = 1;
    let request = app.handle_main_input(Key::Enter, 5);
    assert_eq!(request, None);
    assert!(!app.popup_open);
}
