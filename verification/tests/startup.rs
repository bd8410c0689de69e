use ganja_tui::lister::NameSource;
use ganja_tui::member::{Flags, Membership};
use ganja_tui::startup::{
    assemble, configure_themes, member_notice, notice, probes_the_terminal, resumed,
    starting_agent, stored_transcript, Launch, Mode, NoHome, NotResumed, Record, Resume, Role, Themes,
};

const DEFAULT_THEME: &str = "opencode";

/// A store of sessions, newest first, each with its one prompt.
struct Store {
    ids: Vec<String>,
    prompts: Vec<&'static str>,
}

impl Store {
    fn new() -> Store {
        Store { ids: Vec::new(), prompts: Vec::new() }
    }

    /// Stores one session carrying `prompt`, and answers with its id.
    fn stored(&mut self, prompt: &'static str) -> String {
        let id = format!("ses_{}", self.ids.len());
        self.ids.insert(0, id.clone());
        self.prompts.insert(0, prompt);
        id
    }
}

/// Opens what a run resumes, as the store answers.
fn opened(store: &Store, resume: Resume) -> Result<usize, NotResumed> {
    let asked = stored_transcript(&Ok(store.ids.clone()), resume)?;
    resumed(
        store
            .ids
            .iter()
            .position(|id| *id == asked)
            .ok_or_else(|| format!("{asked} is not stored")),
    )
}

#[test]
fn resuming_a_session_the_store_does_not_hold_fails_instead_of_starting_a_fresh_one() {
    let mut store = Store::new();
    store.stored("a session that does exist");

    let refusal = opened(&store, Resume::Session("ses_missing".to_owned()))
        .expect_err("an unknown session must not resolve");

    assert!(
        refusal.message().contains("ses_missing"),
        "the refusal should name what was asked for, got: {refusal:?}"
    );
    assert_eq!(refusal.message(), "failed to resume the session: ses_missing is not stored");
}

#[test]
fn continuing_with_nothing_stored_says_so_rather_than_opening_a_blank_session() {
    let store = Store::new();

    let refusal =
        opened(&store, Resume::Latest).expect_err("an empty store has nothing to continue");

    assert!(
        refusal.message().contains("no stored session"),
        "got: {refusal:?}"
    );
}

#[test]
fn continuing_picks_the_newest_session_and_returns_its_transcript() {
    let mut store = Store::new();
    store.stored("the older conversation");
    let newest = store.stored("the newer conversation");

    let opened = opened(&store, Resume::Latest).expect("the newest session resumes");

    assert_eq!(
        store.ids[opened], newest,
        "the newest session should be the one installed"
    );
    assert_eq!(store.prompts[opened], "the newer conversation");
}

#[test]
fn resuming_by_id_returns_that_session_rather_than_the_newest() {
    let mut store = Store::new();
    let older = store.stored("the older conversation");
    store.stored("the newer conversation");

    let opened = opened(&store, Resume::Session(older.clone())).expect("a stored session resumes");

    assert_eq!(store.ids[opened], older);
    assert_eq!(store.prompts[opened], "the older conversation");
}

#[test]
fn a_named_session_is_asked_for_without_a_list() {
    let unread = Err("the directory could not be read".to_owned());
    assert_eq!(
        stored_transcript(&unread, Resume::Session("ses_7".to_owned())),
        Ok("ses_7".to_owned())
    );
    let refusal = stored_transcript(&unread, Resume::Latest).expect_err("there is no list");
    assert_eq!(
        refusal.message(),
        "failed to list the stored sessions: the directory could not be read"
    );
}

/// The themes of a build.
fn builtin() -> Themes {
    let rest = ["aura", "gruvbox", "terminal", "tokyonight"];
    Themes::new(DEFAULT_THEME.to_owned(), rest.iter().map(|name| name.to_string()).collect())
}

/// The same with a theme picked before.
fn with_stored_pick(stored: &str) -> Themes {
    let mut themes = builtin();
    assert!(themes.select(stored), "{stored} should be a builtin theme");
    themes
}

#[test]
fn a_theme_named_in_the_config_outranks_the_one_that_was_last_picked() {
    let mut themes = with_stored_pick("gruvbox");
    assert_eq!(themes.active(), "gruvbox", "the stored pick should load");

    let complaint = configure_themes(&mut themes, Some("tokyonight".to_owned()), None);

    assert_eq!(complaint, None);
    assert_eq!(themes.active(), "tokyonight");
}

#[test]
fn a_stored_pick_stands_when_the_config_names_no_theme() {
    let mut themes = with_stored_pick("aura");

    assert_eq!(configure_themes(&mut themes, None, None), None);
    assert_eq!(themes.active(), "aura");
}

#[test]
fn the_configured_mode_is_the_arm_themes_resolve_in_and_dark_is_the_default() {
    let mut themes = builtin();
    assert_eq!(themes.mode(), Mode::Dark);

    configure_themes(&mut themes, None, Some(Mode::Light));

    assert_eq!(themes.mode(), Mode::Light);
}

#[test]
fn a_configured_theme_this_build_does_not_have_is_reported_rather_than_fatal() {
    let mut themes = builtin();

    let complaint =
        configure_themes(&mut themes, Some("a-theme-nobody-shipped".to_owned()), Some(Mode::Light))
            .expect("an unknown theme should be worth saying something about");

    assert!(
        complaint.contains("a-theme-nobody-shipped"),
        "the complaint should name it: {complaint}"
    );
    assert_eq!(complaint, "no theme named \"a-theme-nobody-shipped\"; using opencode");
    assert_eq!(themes.active(), DEFAULT_THEME);
    assert_eq!(themes.mode(), Mode::Light);
}

#[test]
fn the_opening_notice_carries_whatever_startup_had_to_say() {
    let cases: [(&[Option<&str>], Option<&str>); 6] = [
        (&[None, None, None], None),
        (&[Some("provider"), None, None], Some("provider")),
        (&[None, Some("theme"), None], Some("theme")),
        (&[None, None, Some("no git")], Some("no git")),
        (
            &[Some("provider"), Some("theme"), None],
            Some("provider \u{b7} theme"),
        ),
        (
            &[Some("provider"), Some("theme"), Some("no git")],
            Some("provider \u{b7} theme \u{b7} no git"),
        ),
    ];

    for (parts, expected) in cases {
        let owned: Vec<Option<String>> = parts.iter().map(|part| part.map(str::to_owned)).collect();

        assert_eq!(notice(&owned).as_deref(), expected, "{parts:?}");
    }
}

fn launch() -> Launch {
    Launch {
        record: None,
        selected_model: "gpt-5.6".to_owned(),
        name: None,
        derived_name: "project".to_owned(),
        socket_dir: None,
        default_socket_dir: "/run/ganja".to_owned(),
        config_home: true,
        binder: true,
        lister: true,
    }
}

#[test]
fn the_bind_predicate_is_interactive_non_member() {
    let lead = assemble(launch()).expect("a lead starts");
    assert_eq!(lead.role, Role::Lead);
    assert!(lead.binds && lead.lists);

    let unserved = assemble(Launch { binder: false, lister: false, ..launch() }).expect("it starts");
    assert!(!unserved.binds && !unserved.lists);

    let record = Record { model: None, plan_mode_required: None };
    let member = assemble(Launch { record: Some(record), ..launch() }).expect("a member starts");
    assert_eq!(member.role, Role::Member);
    assert!(!member.binds && !member.lists);

    let solo = assemble(Launch { config_home: false, ..launch() }).expect("a solo session starts");
    assert_eq!(solo.role, Role::Solo);
    assert!(!solo.binds && solo.lists);
}

#[test]
fn a_member_without_a_config_home_is_refused() {
    let record = Record { model: None, plan_mode_required: None };
    assert_eq!(
        assemble(Launch { record: Some(record), config_home: false, ..launch() }),
        Err(NoHome)
    );
}

#[test]
fn a_member_runs_the_model_it_was_spawned_for() {
    let named = Record { model: Some("sonnet-5".to_owned()), plan_mode_required: None };
    let member = assemble(Launch { record: Some(named), ..launch() }).expect("a member starts");
    assert_eq!(member.model, "sonnet-5");
    assert_eq!(member.self_name, None);
    assert_eq!(member.socket_directory, None);

    let unnamed = Record { model: None, plan_mode_required: None };
    let member = assemble(Launch { record: Some(unnamed), ..launch() }).expect("a member starts");
    assert_eq!(member.model, "gpt-5.6");
}

#[test]
fn a_session_is_named_by_its_person_or_by_its_project() {
    let derived = assemble(launch()).expect("it starts");
    assert_eq!(derived.self_name.as_deref(), Some("project"));
    assert_eq!(derived.name_source, NameSource::Derived);
    assert_eq!(derived.socket_directory.as_deref(), Some("/run/ganja"));
    assert_eq!(derived.registry_directory, None);

    let named = assemble(Launch {
        name: Some("worker".to_owned()),
        socket_dir: Some("/tmp/sockets".to_owned()),
        ..launch()
    })
    .expect("it starts");
    assert_eq!(named.self_name.as_deref(), Some("worker"));
    assert_eq!(named.name_source, NameSource::User);
    assert_eq!(named.socket_directory.as_deref(), Some("/tmp/sockets"));
    assert_eq!(named.registry_directory.as_deref(), Some("/tmp/sockets"));
}

#[test]
fn a_member_that_must_plan_starts_on_the_planning_agent_unless_told_otherwise() {
    let plans = Record { model: None, plan_mode_required: Some(true) };
    let builds = Record { model: None, plan_mode_required: Some(false) };

    assert_eq!(starting_agent(None, Some(&plans)).as_deref(), Some("plan"));
    assert_eq!(
        starting_agent(Some("build".to_owned()), Some(&plans)).as_deref(),
        Some("build")
    );
    assert_eq!(starting_agent(None, Some(&builds)), None);
    assert_eq!(starting_agent(None, None), None);
}

#[test]
fn the_terminal_is_probed_unless_that_is_switched_off() {
    for (value, probed) in [
        (None, true),
        (Some("1"), false),
        (Some("true"), false),
        (Some("TRUE"), false),
        (Some("tRuE"), false),
        (Some("0"), true),
        (Some(""), true),
        (Some("yes"), true),
    ] {
        assert_eq!(probes_the_terminal(value), probed, "{value:?}");
    }
}

#[test]
fn a_pane_says_who_it_is() {
    let flags = |color: Option<&str>| Flags {
        agent_id: "worker@team".to_owned(),
        name: "worker".to_owned(),
        team: "team".to_owned(),
        color: color.map(str::to_owned),
        parent_session_id: "ses_1".to_owned(),
    };
    let plain = Membership::resolve(flags(None), true, true, None).expect("it resolves");
    assert_eq!(member_notice(&plain), "teammate worker of team");
    let blue = Membership::resolve(flags(Some("blue")), true, true, None).expect("it resolves");
    assert_eq!(member_notice(&blue), "teammate worker (blue) of team");
}
