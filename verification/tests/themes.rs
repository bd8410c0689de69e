use ganja_tui::component::layout::Popup;
use ganja_tui::component::themes::ThemeList;
use ganja_tui::style::{Color, Style};
use ganja_tui::theme::Theme;

/// How much room there is to draw in.
#[derive(Clone, Copy)]
struct Rect {
    width: u16,
    height: u16,
}

impl Rect {
    fn new(_x: u16, _y: u16, width: u16, height: u16) -> Rect {
        Rect { width, height }
    }
}

const AREA: Rect = Rect { width: 40, height: 16 };

/// The themes of a build.
fn names() -> Vec<String> {
    ["aura", "gruvbox", "opencode", "terminal", "tokyonight"]
        .iter()
        .map(|name| name.to_string())
        .collect()
}

fn list() -> ThemeList {
    ThemeList::new(names(), "opencode")
}

/// What a dialog reads as, line by line.
fn text(popup: &Popup) -> String {
    popup
        .lines
        .iter()
        .map(|line| line.spans.iter().map(|span| span.content.as_str()).collect::<String>())
        .collect::<Vec<_>>()
        .join("\n")
}

fn rendered(list: &ThemeList, area: Rect, theme: &Theme) -> String {
    match list.render(area.width, area.height, theme) {
        Some(popup) => {
            assert!(popup.width <= area.width && popup.height <= area.height);
            assert!(popup.lines.len() <= popup.height as usize);
            text(&popup)
        }
        None => String::new(),
    }
}

#[test]
fn the_list_shows_every_theme_this_run_has() {
    let screen = rendered(&list(), AREA, &Theme::default());

    for name in names() {
        assert!(screen.contains(&name), "{name} is missing from:\n{screen}");
    }
}

#[test]
fn the_cursor_opens_on_the_active_theme() {
    assert_eq!(list().selected(), Some("opencode"));
    assert_eq!(
        ThemeList::new(names(), "gruvbox").selected(),
        Some("gruvbox")
    );
}

#[test]
fn an_active_theme_that_is_not_in_the_list_starts_at_the_top() {
    let list = ThemeList::new(names(), "gone");

    assert_eq!(list.selected(), Some("aura"));
    assert_eq!(
        list.initial(),
        "gone",
        "cancelling still puts back what was"
    );
}

#[test]
fn the_selection_moves_within_the_list_and_clamps_at_both_ends() {
    let mut list = list();

    list.move_selection(1);
    assert_eq!(list.selected(), Some("terminal"));

    list.move_selection(99);
    assert_eq!(list.selected(), Some("tokyonight"));

    list.move_selection(-99);
    assert_eq!(list.selected(), Some("aura"));
}

#[test]
fn themes_tests_the_marker_follows_the_selection() {
    let mut list = list();
    let first = rendered(&list, AREA, &Theme::default());
    list.move_selection(-1);
    let second = rendered(&list, AREA, &Theme::default());

    assert!(first.contains("> opencode"), "got:\n{first}");
    assert!(second.contains("> gruvbox"), "got:\n{second}");
    assert!(
        !second.contains("> opencode"),
        "only one row is selected:\n{second}"
    );
}

#[test]
fn a_selection_below_the_fold_scrolls_the_list_to_it() {
    let names: Vec<String> = (0..40).map(|index| format!("theme{index:02}")).collect();
    let mut list = ThemeList::new(names, "theme00");
    let area = Rect::new(0, 0, 40, 12);

    let top = rendered(&list, area, &Theme::default());
    assert!(top.contains("theme00"), "got:\n{top}");
    assert!(!top.contains("theme39"), "got:\n{top}");

    list.move_selection(39);
    let bottom = rendered(&list, area, &Theme::default());

    assert!(bottom.contains("> theme39"), "got:\n{bottom}");
    assert!(!bottom.contains("theme00"), "got:\n{bottom}");
}

#[test]
fn a_name_too_wide_for_the_dialog_is_cut_rather_than_wrapped() {
    let list = ThemeList::new(vec!["a-".repeat(60)], "unused");

    let screen = rendered(&list, Rect::new(0, 0, 30, 10), &Theme::default());

    for line in screen.lines() {
        assert!(
            line.chars().count() <= 30,
            "a row must not overflow the dialog: {line:?}"
        );
    }
}

#[test]
fn an_empty_list_has_nothing_selected_and_does_not_panic() {
    let list = ThemeList::new(Vec::new(), "opencode");

    assert_eq!(list.selected(), None);
    rendered(&list, AREA, &Theme::default());
}

#[test]
fn themes_tests_a_zero_area_draws_nothing_and_does_not_panic() {
    let screen = rendered(&list(), Rect::new(0, 0, 0, 0), &Theme::default());

    assert!(
        screen.is_empty(),
        "a zero area has no cell to hold: {screen}"
    );
}

#[test]
fn the_dialog_is_drawn_in_the_theme_it_is_previewing() {
    let list = list();

    let mut aura = Theme::default();
    aura.fg = Style::new().fg(Color::Rgb(162, 119, 255));
    let mut gruvbox = Theme::default();
    gruvbox.fg = Style::new().fg(Color::Rgb(131, 165, 152));

    let first = list.render(40, 16, &aura).expect("there is room");
    let second = list.render(40, 16, &gruvbox).expect("there is room");

    assert_ne!(first, second, "the two themes rendered identically");
}

#[test]
fn browsing_moves_only_the_cursor() {
    let mut list = list();
    list.move_selection(2);
    list.move_selection(-1);

    assert_eq!(list.initial(), "opencode");
    assert_eq!(list.selected(), Some("terminal"));
}
