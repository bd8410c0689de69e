use ganja_tui::keybind::{key, parse, render, Action, KeybindError, Keybinds};
use ganja_tui::keys::{KeyCode, KeyEvent, KeyEventKind, KeyModifiers};

const NONE: KeyModifiers = held(false, false, false);
const SHIFT: KeyModifiers = held(true, false, false);
const CONTROL: KeyModifiers = held(false, true, false);
const CONTROL_ALT: KeyModifiers = held(false, true, true);

/// What each action is bound to before any configuration.
const ACTIONS: [(Action, &str, &str); 5] = [
    (Action::AppExit, "app_exit", "ctrl+c, ctrl+q, ctrl+d"),
    (Action::PaletteOpen, "palette_open", "ctrl+p"),
    (Action::SessionsOpen, "sessions_open", "ctrl+s"),
    (Action::ThemesOpen, "themes_open", "ctrl+t"),
    (Action::AgentCycle, "agent_cycle", "tab"),
];

const fn held(shift: bool, control: bool, alt: bool) -> KeyModifiers {
    KeyModifiers { shift, control, alt, super_key: false, hyper: false, meta: false }
}

fn pressed(code: KeyCode, modifiers: KeyModifiers) -> KeyEvent {
    KeyEvent { code, modifiers, kind: KeyEventKind::Press, state: 0 }
}

fn configured(pairs: &[(&str, &str)]) -> Vec<(String, String)> {
    pairs
        .iter()
        .map(|(name, value)| ((*name).to_owned(), (*value).to_owned()))
        .collect()
}

#[test]
fn keybind_every_default_binding_parses() {
    for (action, name, default) in ACTIONS {
        let keys = parse(default).unwrap_or_else(|bad| panic!("{name}: {bad} did not parse"));
        assert!(!keys.is_empty(), "{action:?} should bind something");
    }
}

#[test]
fn keybind_the_defaults_are_the_keys_this_frontend_has_always_used() {
    let binds = Keybinds::defaults();
    let cases = [
        (Action::AppExit, KeyCode::Char('c'), CONTROL),
        (Action::AppExit, KeyCode::Char('q'), CONTROL),
        (Action::AppExit, KeyCode::Char('d'), CONTROL),
        (
            Action::PaletteOpen,
            KeyCode::Char('p'),
            CONTROL,
        ),
        (
            Action::SessionsOpen,
            KeyCode::Char('s'),
            CONTROL,
        ),
        (
            Action::ThemesOpen,
            KeyCode::Char('t'),
            CONTROL,
        ),
        (Action::AgentCycle, KeyCode::Tab, NONE),
    ];

    for (action, code, modifiers) in cases {
        assert!(
            binds.binds(action, pressed(code, modifiers)),
            "{code:?}+{modifiers:?} should reach {action:?}"
        );
    }
}

#[test]
fn keybind_a_key_string_parses_the_shapes_a_config_file_can_write() {
    let cases = [
        ("ctrl+x", KeyCode::Char('x'), CONTROL),
        ("CTRL+X", KeyCode::Char('x'), CONTROL),
        ("f5", KeyCode::F(5), NONE),
        ("f12", KeyCode::F(12), NONE),
        ("home", KeyCode::Home, NONE),
        ("pgup", KeyCode::PageUp, NONE),
        ("esc", KeyCode::Esc, NONE),
        ("space", KeyCode::Char(' '), NONE),
        (
            "ctrl+alt+delete",
            KeyCode::Delete,
            CONTROL_ALT,
        ),
        ("shift+tab", KeyCode::Tab, SHIFT),
    ];

    for (text, code, modifiers) in cases {
        assert_eq!(
            key(text),
            Some(pressed(code, modifiers)),
            "{text} should parse"
        );
    }
}

#[test]
fn keybind_a_key_string_this_build_cannot_read_parses_to_nothing() {
    for text in ["", "ctrl+", "hyperspace+x", "f99", "notakey", "ctrl+ab"] {
        assert_eq!(key(text), None, "{text:?} should not parse");
    }
}

#[test]
fn keybind_a_config_binding_replaces_the_default_rather_than_joining_it() {
    let binds = Keybinds::from_config(&configured(&[("palette_open", "f5")]))
        .expect("a legible binding loads");

    assert!(binds.binds(
        Action::PaletteOpen,
        pressed(KeyCode::F(5), NONE)
    ));
    assert!(
        !binds.binds(
            Action::PaletteOpen,
            pressed(KeyCode::Char('p'), CONTROL)
        ),
        "the default should be gone, not kept alongside"
    );
}

#[test]
fn keybind_comma_separated_alternatives_all_reach_the_action() {
    let binds = Keybinds::from_config(&configured(&[("themes_open", "f2, ctrl+y")]))
        .expect("a legible binding loads");

    assert!(binds.binds(
        Action::ThemesOpen,
        pressed(KeyCode::F(2), NONE)
    ));
    assert!(binds.binds(
        Action::ThemesOpen,
        pressed(KeyCode::Char('y'), CONTROL)
    ));
}

#[test]
fn keybind_an_action_this_build_does_not_have_is_named_rather_than_ignored() {
    let refusal = Keybinds::from_config(&configured(&[("session_share", "ctrl+z")]))
        .expect_err("an unknown action must not load");

    assert!(
        matches!(&refusal, KeybindError::UnknownAction { name } if name == "session_share"),
        "got {refusal:?}"
    );
    assert!(
        refusal.message().contains("session_share"),
        "the message should name it: {refusal:?}"
    );
}

#[test]
fn keybind_a_key_this_build_cannot_parse_is_named_rather_than_ignored() {
    let refusal = Keybinds::from_config(&configured(&[("app_exit", "ctrl+c, hypermeta+z")]))
        .expect_err("an unparseable key must not load");

    assert!(
        matches!(&refusal, KeybindError::UnparseableKey { action, key }
            if action == "app_exit" && key == "hypermeta+z"),
        "got {refusal:?}"
    );
    assert!(
        refusal.message().contains("hypermeta+z"),
        "the message should name it: {refusal:?}"
    );
}

#[test]
fn keybind_a_shifted_binding_answers_to_the_key_the_terminal_actually_reports() {
    let binds = Keybinds::from_config(&configured(&[("agent_cycle", "shift+a")]))
        .expect("a legible binding loads");

    let cases = [
        (KeyCode::Char('A'), SHIFT, true),
        (KeyCode::Char('A'), NONE, true),
        (KeyCode::Char('a'), SHIFT, true),
        (KeyCode::Char('a'), NONE, false),
    ];

    for (code, modifiers, reaches) in cases {
        assert_eq!(
            binds.binds(Action::AgentCycle, pressed(code, modifiers)),
            reaches,
            "{code:?}+{modifiers:?}"
        );
        assert_eq!(
            binds.action(pressed(code, modifiers)) == Some(Action::AgentCycle),
            reaches,
            "{code:?}+{modifiers:?} through the lookup that has no action in hand"
        );
    }
}

#[test]
fn keybind_shift_tab_and_backtab_are_one_key_however_they_were_written() {
    for spelling in ["shift+tab", "backtab"] {
        let binds = Keybinds::from_config(&configured(&[("themes_open", spelling)]))
            .expect("a legible binding loads");

        for modifiers in [SHIFT, NONE] {
            assert!(
                binds.binds(Action::ThemesOpen, pressed(KeyCode::BackTab, modifiers)),
                "{spelling} should answer to backtab+{modifiers:?}"
            );
        }
        assert!(
            !binds.binds(
                Action::ThemesOpen,
                pressed(KeyCode::Tab, NONE)
            ),
            "{spelling} is not plain tab"
        );
        assert_eq!(
            Keybinds::defaults().action(pressed(KeyCode::BackTab, SHIFT)),
            None,
            "and cycling agents on tab is not reached by shift-tab"
        );
    }
}

#[test]
fn keybind_a_hint_spells_every_key_that_reaches_an_action() {
    let binds = Keybinds::defaults();

    assert_eq!(
        binds.hint(Action::PaletteOpen).as_deref(),
        Some("ctrl+p"),
        "one key"
    );
    assert_eq!(
        binds.hint(Action::AppExit).as_deref(),
        Some("ctrl+c, ctrl+q, ctrl+d"),
        "every alternative"
    );
}

#[test]
fn keybind_an_unbound_key_reaches_nothing() {
    assert_eq!(
        Keybinds::defaults().action(pressed(KeyCode::Char('z'), NONE)),
        None
    );
}

#[test]
fn keybind_every_action_has_a_config_name() {
    for action in Action::all() {
        assert!(!action.key().is_empty(), "{action:?} should be nameable");
    }
}

#[test]
fn keybind_tests_a_key_string_parses_the_shapes_a_config_file_can_write() {
    let cases = [
        ("ctrl+x", KeyCode::Char('x'), CONTROL),
        ("CTRL+X", KeyCode::Char('x'), CONTROL),
        ("f5", KeyCode::F(5), NONE),
        ("f12", KeyCode::F(12), NONE),
        ("home", KeyCode::Home, NONE),
        ("pgup", KeyCode::PageUp, NONE),
        ("esc", KeyCode::Esc, NONE),
        ("space", KeyCode::Char(' '), NONE),
        (
            "ctrl+alt+delete",
            KeyCode::Delete,
            CONTROL_ALT,
        ),
        ("shift+tab", KeyCode::Tab, SHIFT),
    ];

    for (text, code, modifiers) in cases {
        assert_eq!(
            key(text),
            Some(pressed(code, modifiers)),
            "{text} should parse"
        );
    }
}

#[test]
fn keybind_tests_a_key_string_this_build_cannot_read_parses_to_nothing() {
    for text in ["", "ctrl+", "hyperspace+x", "f99", "notakey", "ctrl+ab"] {
        assert_eq!(key(text), None, "{text:?} should not parse");
    }
}

#[test]
fn keybind_tests_a_config_binding_replaces_the_default_rather_than_joining_it() {
    let binds = Keybinds::from_config(&configured(&[("palette_open", "f5")]))
        .expect("a legible binding loads");

    assert!(binds.binds(
        Action::PaletteOpen,
        pressed(KeyCode::F(5), NONE)
    ));
    assert!(
        !binds.binds(
            Action::PaletteOpen,
            pressed(KeyCode::Char('p'), CONTROL)
        ),
        "the default should be gone, not kept alongside"
    );
}

#[test]
fn keybind_tests_comma_separated_alternatives_all_reach_the_action() {
    let binds = Keybinds::from_config(&configured(&[("themes_open", "f2, ctrl+y")]))
        .expect("a legible binding loads");

    assert!(binds.binds(
        Action::ThemesOpen,
        pressed(KeyCode::F(2), NONE)
    ));
    assert!(binds.binds(
        Action::ThemesOpen,
        pressed(KeyCode::Char('y'), CONTROL)
    ));
}

#[test]
fn keybind_tests_an_action_this_build_does_not_have_is_named_rather_than_ignored() {
    let refusal = Keybinds::from_config(&configured(&[("session_share", "ctrl+z")]))
        .expect_err("an unknown action must not load");

    assert!(
        matches!(&refusal, KeybindError::UnknownAction { name } if name == "session_share"),
        "got {refusal:?}"
    );
    assert!(
        refusal.message().contains("session_share"),
        "the message should name it: {refusal:?}"
    );
}

#[test]
fn keybind_tests_a_key_this_build_cannot_parse_is_named_rather_than_ignored() {
    let refusal = Keybinds::from_config(&configured(&[("app_exit", "ctrl+c, hypermeta+z")]))
        .expect_err("an unparseable key must not load");

    assert!(
        matches!(&refusal, KeybindError::UnparseableKey { action, key }
                if action == "app_exit" && key == "hypermeta+z"),
        "got {refusal:?}"
    );
    assert!(
        refusal.message().contains("hypermeta+z"),
        "the message should name it: {refusal:?}"
    );
}

#[test]
fn keybind_tests_a_shifted_binding_answers_to_the_key_the_terminal_actually_reports() {
    let binds = Keybinds::from_config(&configured(&[("agent_cycle", "shift+a")]))
        .expect("a legible binding loads");

    let cases = [
        (KeyCode::Char('A'), SHIFT, true),
        (KeyCode::Char('A'), NONE, true),
        (KeyCode::Char('a'), SHIFT, true),
        (KeyCode::Char('a'), NONE, false),
    ];

    for (code, modifiers, reaches) in cases {
        assert_eq!(
            binds.binds(Action::AgentCycle, pressed(code, modifiers)),
            reaches,
            "{code:?}+{modifiers:?}"
        );
        assert_eq!(
            binds.action(pressed(code, modifiers)) == Some(Action::AgentCycle),
            reaches,
            "{code:?}+{modifiers:?} through the lookup that has no action in hand"
        );
    }
}

#[test]
fn keybind_tests_shift_tab_and_backtab_are_one_key_however_they_were_written() {
    for spelling in ["shift+tab", "backtab"] {
        let binds = Keybinds::from_config(&configured(&[("themes_open", spelling)]))
            .expect("a legible binding loads");

        for modifiers in [SHIFT, NONE] {
            assert!(
                binds.binds(Action::ThemesOpen, pressed(KeyCode::BackTab, modifiers)),
                "{spelling} should answer to backtab+{modifiers:?}"
            );
        }
        assert!(
            !binds.binds(
                Action::ThemesOpen,
                pressed(KeyCode::Tab, NONE)
            ),
            "{spelling} is not plain tab"
        );
        assert_eq!(
            Keybinds::defaults().action(pressed(KeyCode::BackTab, SHIFT)),
            None,
            "and cycling agents on tab is not reached by shift-tab"
        );
    }
}

#[test]
fn keybind_tests_a_hint_spells_every_key_that_reaches_an_action() {
    let binds = Keybinds::defaults();

    assert_eq!(
        binds.hint(Action::PaletteOpen).as_deref(),
        Some("ctrl+p"),
        "one key"
    );
    assert_eq!(
        binds.hint(Action::AppExit).as_deref(),
        Some("ctrl+c, ctrl+q, ctrl+d"),
        "every alternative"
    );
}

#[test]
fn keybind_tests_an_unbound_key_reaches_nothing() {
    assert_eq!(
        Keybinds::defaults().action(pressed(KeyCode::Char('z'), NONE)),
        None
    );
}

#[test]
fn keybind_tests_every_action_has_a_config_name() {
    for action in Action::all() {
        assert!(!action.key().is_empty(), "{action:?} should be nameable");
    }
}

#[test]
fn an_empty_binding_parses_to_no_keys() {
    assert_eq!(parse(""), Ok(Vec::new()));

    let binds = Keybinds::from_config(&configured(&[("themes_open", "")]))
        .expect("an empty binding loads");
    assert_eq!(binds.hint(Action::ThemesOpen), None, "no keys means no hint to show");
    assert!(!binds.binds(Action::ThemesOpen, pressed(KeyCode::Char('t'), CONTROL)));
}

#[test]
fn a_rebind_that_collides_is_reached_in_the_order_of_the_actions() {
    let binds = Keybinds::from_config(&configured(&[("agent_cycle", "ctrl+t")]))
        .expect("a legible binding loads");
    let key = pressed(KeyCode::Char('t'), CONTROL);

    assert!(binds.binds(Action::AgentCycle, key));
    assert!(binds.binds(Action::ThemesOpen, key));
    assert_eq!(binds.action(key), Some(Action::ThemesOpen));
}

#[test]
fn a_hint_reads_back_as_the_keys_it_was_written_from() {
    let binds = Keybinds::from_config(&configured(&[("app_exit", "shift+é, alt+f12, +")]));
    assert!(binds.is_err(), "a plus names no key");

    let binds = Keybinds::from_config(&configured(&[("app_exit", "shift+é, alt+f12, backtab")]))
        .expect("a legible binding loads");
    let hint = binds.hint(Action::AppExit).expect("it is bound");
    let again = Keybinds::from_config(&configured(&[("app_exit", &hint)]))
        .expect("a hint is legible");
    assert_eq!(again.hint(Action::AppExit), Some(hint));
    assert!(again.binds(Action::AppExit, pressed(KeyCode::Char('É'), NONE)));
}

#[test]
fn a_key_is_written_with_what_is_held_first() {
    assert_eq!(render(pressed(KeyCode::Delete, CONTROL_ALT)), "ctrl+alt+delete");
    assert_eq!(render(pressed(KeyCode::Char(' '), NONE)), "space");
    assert_eq!(render(pressed(KeyCode::F(12), SHIFT)), "shift+f12");
}

#[test]
fn the_messages_say_what_was_refused() {
    let unknown = KeybindError::UnknownAction { name: "x".to_owned() };
    assert_eq!(
        unknown.message(),
        "unknown keybind action \"x\"; this build binds app_exit, palette_open, sessions_open, \
         themes_open, agent_cycle"
    );
    let unparseable =
        KeybindError::UnparseableKey { action: "app_exit".to_owned(), key: "hyper".to_owned() };
    assert!(unparseable.message().contains("app_exit"));
    assert!(unparseable.message().contains("\"hyper\""));
}

#[test]
fn of_several_errors_the_one_with_the_earliest_name_is_told() {
    let told = |pairs: &[(&str, &str)]| {
        Keybinds::from_config(&configured(pairs)).expect_err("both entries are wrong").message()
    };
    let (later, sooner) = (("themes_open", "nonsense+"), ("app_leave", "f5"));
    assert!(told(&[later, sooner]).contains("app_leave"));
    assert_eq!(told(&[later, sooner]), told(&[sooner, later]));
}

#[test]
fn several_entries_each_replace_their_own_keys_and_no_others() {
    let binds = Keybinds::from_config(&configured(&[
        ("themes_open", "f2"),
        ("app_exit", "f5, f6"),
        ("agent_cycle", "ctrl+g"),
    ]))
    .expect("every entry is legible");
    let reaches = |code, modifiers| binds.action(pressed(code, modifiers));

    assert_eq!(reaches(KeyCode::F(2), NONE), Some(Action::ThemesOpen));
    assert_eq!(reaches(KeyCode::F(5), NONE), Some(Action::AppExit));
    assert_eq!(reaches(KeyCode::F(6), NONE), Some(Action::AppExit));
    assert_eq!(reaches(KeyCode::Char('g'), CONTROL), Some(Action::AgentCycle));
    assert_eq!(reaches(KeyCode::Char('c'), CONTROL), None);
    assert_eq!(reaches(KeyCode::Char('t'), CONTROL), None);
    assert_eq!(reaches(KeyCode::Char('p'), CONTROL), Some(Action::PaletteOpen));
    assert_eq!(reaches(KeyCode::Char('s'), CONTROL), Some(Action::SessionsOpen));
}
