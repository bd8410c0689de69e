use ganja_tui::component::layout::Popup;
use ganja_tui::component::team::{
    backend_label, rows, shares_the_list, spawn_request, Effect, MemberBackend, MemberView, Row,
    Spawned, Summary, TaskStatus, Team, TeamSpawn, TeamView, TeammateSpawn,
};
use ganja_tui::theme::Theme;

const BUSY: &str = "a teammate is already starting \u{b7} wait for it to finish, or Esc to close";
const TASKS: &str = "tasks";
const UNOWNED: &str = "unowned";
const SPAWN_GRAMMAR: &str =
    "<name> [--backend <backend>] [--agent <agent>] [prompt\u{2026}]";

/// How much room there is to draw in.
#[derive(Clone, Copy)]
struct Rect {
    width: u16,
    height: u16,
}

impl Rect {
    fn new(_x: u16, _y: u16, width: u16, height: u16) -> Rect {
        Rect { width, height }
    }
}

const AREA: Rect = Rect { width: 76, height: 20 };

/// A surface that is another program's.
fn foreign() -> MemberBackend {
    MemberBackend::Codex
}

fn row(name: &str, backend: MemberBackend, recent: &[&str]) -> Row {
    Row {
        name: name.to_owned(),
        backend,
        is_lead: false,
        color: None,
        recent: recent.iter().map(|call| (*call).to_owned()).collect(),
    }
}

fn lead() -> Row {
    Row {
        name: "team-lead".to_owned(),
        backend: MemberBackend::InProcess,
        is_lead: true,
        color: None,
        recent: Vec::new(),
    }
}

/// The roster every dialog here opens over: this session, one in-process
/// teammate and one running another program.
fn members() -> Vec<Row> {
    vec![
        lead(),
        row("w1", MemberBackend::InProcess, &["read(src/lib.rs)", "grep(fn spawn)"]),
        row("w2", foreign(), &[]),
    ]
}

fn dialog() -> Team {
    Team::new(members(), Vec::new())
}

/// One task on the shared list.
fn task(id: &str, status: TaskStatus, owner: &str, subject: &str, blocked_by: &[&str]) -> Summary {
    Summary {
        id: id.to_owned(),
        subject: subject.to_owned(),
        status,
        owner: owner.to_owned(),
        blocked_by: blocked_by.iter().map(|id| (*id).to_owned()).collect(),
    }
}

/// The three-task list the section tests draw.
fn tasks() -> Vec<Summary> {
    vec![
        task("1", TaskStatus::Completed, "w1", "Read the plan", &[]),
        task("2", TaskStatus::InProgress, "w1", "Wire the parser", &[]),
        task("3", TaskStatus::Pending, "", "Draw the section", &["2"]),
    ]
}

/// What a dialog reads as, line by line.
fn text(popup: &Popup) -> String {
    popup
        .lines
        .iter()
        .map(|line| line.spans.iter().map(|span| span.content.as_str()).collect::<String>())
        .collect::<Vec<_>>()
        .join("\n")
}

fn rendered(dialog: &Team, area: Rect) -> String {
    match dialog.render(area.width, area.height, SPAWN_GRAMMAR, &Theme::default()) {
        Some(popup) => {
            assert!(popup.width <= area.width && popup.height <= area.height);
            text(&popup)
        }
        None => String::new(),
    }
}

/// Types `text` into whichever free-text step is open.
fn type_in(dialog: &mut Team, text: &str) {
    for character in text.chars() {
        dialog.push(character);
    }
}

/// Reads a spawn line: a name, the two flags, and the prompt.
fn team_spawn(line: &str) -> Result<TeamSpawn, String> {
    let mut words = line.split_whitespace();
    let name = match words.next() {
        Some(name) => name.to_owned(),
        None => return Err(format!("a spawn names its teammate: {SPAWN_GRAMMAR}")),
    };
    let mut spawn = TeamSpawn { name, backend: None, agent_type: None, prompt: String::new() };
    while let Some(word) = words.next() {
        match word {
            "--backend" => spawn.backend = words.next().map(str::to_owned),
            "--agent" => spawn.agent_type = words.next().map(str::to_owned),
            _ if word.starts_with("--") => return Err(format!("{word} is not a flag of a spawn")),
            _ => {
                if !spawn.prompt.is_empty() {
                    spawn.prompt.push(' ');
                }
                spawn.prompt.push_str(word);
            }
        }
    }
    Ok(spawn)
}

/// Presses Enter.
fn submit(dialog: &mut Team) -> Option<Effect> {
    let read = dialog.spawn_line().map(|line| team_spawn(&line));
    dialog.submit(read)
}

/// Drives the dialog's spawn flow for `line` and answers with the request
/// it built.
fn spawn_through_the_dialog(line: &str) -> TeammateSpawn {
    let mut dialog = dialog();
    // Past the three members, onto the Spawn row.
    dialog.move_selection(9);
    assert!(dialog.selected_member().is_none(), "the Spawn row is last");
    assert_eq!(submit(&mut dialog), None, "Spawn opens its free-text step");
    assert!(dialog.is_typing());
    type_in(&mut dialog, line);

    match submit(&mut dialog) {
        Some(Effect::Spawn { request, typed }) => {
            assert_eq!(typed, line, "the words travel with the spawn, as typed");
            request
        }
        other => panic!("expected a spawn, got {other:?}"),
    }
}

#[test]
fn a_spawn_says_where_the_prompt_came_to_rest() {
    let mut dialog = dialog();
    dialog.spawned(&Spawned { name: "w3".to_owned(), prompt_path: "/t/teams/t1.json".to_owned() });

    let screen = rendered(&dialog, AREA);
    assert!(screen.contains("prompt persisted in cleartext at"), "got:\n{screen}");
    assert!(screen.contains("/t/teams/t1.json"), "got:\n{screen}");
    assert!(screen.contains("w3 started"), "and which spawn it is about:\n{screen}");
}

#[test]
fn a_second_spawn_during_the_first_is_refused_before_anything_is_typed() {
    let mut dialog = dialog();
    dialog.set_busy(true);
    assert!(dialog.is_busy());
    dialog.move_selection(9);

    assert_eq!(submit(&mut dialog), None);
    assert!(!dialog.is_typing(), "the input step must not even open");
    let screen = rendered(&dialog, AREA);
    assert!(
        BUSY.split(" \u{b7} ").next().is_some_and(|head| screen.contains(head)),
        "the refusal is the dialog's own sentence:\n{screen}"
    );

    dialog.set_busy(false);
    assert_eq!(submit(&mut dialog), None, "and once it is done, it opens");
    assert!(dialog.is_typing());
}

#[test]
fn every_member_lists_with_its_backend_and_its_recent_calls() {
    let screen = rendered(&dialog(), AREA);

    assert!(screen.contains("team-lead"), "got:\n{screen}");
    assert!(screen.contains("lead"), "got:\n{screen}");
    assert!(screen.contains("in-process"), "got:\n{screen}");
    assert!(screen.contains("codex"), "got:\n{screen}");
    assert!(screen.contains("read(src/lib.rs)"), "got:\n{screen}");
    assert!(screen.contains("grep(fn spawn)"), "got:\n{screen}");
}

#[test]
fn a_ring_longer_than_the_row_shows_admits_the_cut() {
    let calls: Vec<&str> = vec!["a", "b", "c", "d", "e", "f"];
    let screen =
        rendered(&Team::new(vec![row("w1", MemberBackend::InProcess, &calls)], Vec::new()), AREA);

    assert!(screen.contains("+2 earlier calls"), "got:\n{screen}");
    assert!(screen.contains("\u{23bf} f"), "the newest is shown:\n{screen}");
    assert!(!screen.contains("\u{23bf} a"), "the oldest is cut:\n{screen}");
}

#[test]
fn a_teammate_row_offers_message_and_shutdown_and_the_leads_offers_nothing() {
    let mut dialog = dialog();
    assert_eq!(dialog.selected_member().map(|row| row.name.as_str()), Some("team-lead"));
    assert_eq!(submit(&mut dialog), None, "the lead's row has nothing to open");
    assert!(!dialog.is_choosing_action());

    dialog.move_selection(1);
    assert_eq!(submit(&mut dialog), None, "Enter opens the action step");
    assert!(dialog.is_choosing_action());

    let screen = rendered(&dialog, AREA);
    assert!(screen.contains("Message"), "got:\n{screen}");
    assert!(screen.contains("Shutdown"), "got:\n{screen}");

    dialog.move_selection(1);
    assert_eq!(submit(&mut dialog), Some(Effect::Shutdown("w1".to_owned())));
    assert!(!dialog.is_choosing_action(), "and back to the roster");
}

#[test]
fn messaging_a_member_takes_the_text_in_the_dialog_itself() {
    let mut dialog = dialog();
    dialog.move_selection(1);
    submit(&mut dialog);
    assert_eq!(submit(&mut dialog), None, "Message opens the free-text step");
    assert!(dialog.is_typing());

    type_in(&mut dialog, "status?");
    assert_eq!(dialog.input(), Some("status?"));

    assert_eq!(
        submit(&mut dialog),
        Some(Effect::Message { to: "w1".to_owned(), text: "status?".to_owned() })
    );
    assert!(!dialog.is_typing());
}

#[test]
fn a_refused_spawn_line_says_why_and_keeps_what_was_typed() {
    let mut dialog = dialog();
    dialog.move_selection(9);
    submit(&mut dialog);
    type_in(&mut dialog, "w3 --nonesuch");

    assert_eq!(submit(&mut dialog), None, "nothing is sent");
    assert!(dialog.is_typing(), "and the line is still there to fix");
    assert_eq!(dialog.input(), Some("w3 --nonesuch"));

    let screen = rendered(&dialog, AREA);
    assert!(screen.contains("--nonesuch"), "got:\n{screen}");
}

#[test]
fn escaping_the_free_text_step_abandons_it_without_closing_the_dialog() {
    let mut dialog = dialog();
    dialog.move_selection(9);
    submit(&mut dialog);
    type_in(&mut dialog, "w3");

    assert!(dialog.cancel(), "the free-text step consumes Esc");
    assert!(!dialog.is_typing());
    assert_eq!(dialog.input(), None);
    assert!(!dialog.cancel(), "and the next Esc closes the dialog");
}

#[test]
fn backspace_takes_a_character_off_the_typed_line() {
    let mut dialog = dialog();
    dialog.backspace();
    dialog.push('x');
    assert_eq!(dialog.input(), None, "the list step has no line to edit");

    dialog.move_selection(9);
    submit(&mut dialog);
    type_in(&mut dialog, "w3x");
    dialog.backspace();

    assert_eq!(dialog.input(), Some("w3"));
}

#[test]
fn refreshing_keeps_the_cursor_where_it_was_and_reclamps_a_shrink() {
    let mut dialog = dialog();
    dialog.move_selection(1);
    dialog.refresh(
        vec![
            lead(),
            row("w1", MemberBackend::InProcess, &["write(src/main.rs)"]),
            row("w2", foreign(), &[]),
        ],
        Vec::new(),
    );
    assert_eq!(dialog.selected_member().map(|row| row.name.as_str()), Some("w1"));
    assert_eq!(
        dialog.selected_member().map(|row| row.recent.len()),
        Some(1),
        "and the ring is the fresh one"
    );

    dialog.move_selection(2);
    dialog.refresh(vec![lead()], Vec::new());
    assert!(dialog.selected_member().is_none(), "the cursor reclamps onto the Spawn row");
}

#[test]
fn a_refresh_that_found_the_same_roster_reports_nothing_moved() {
    let mut dialog = dialog();

    assert!(
        !dialog.refresh(
            vec![
                lead(),
                row("w1", MemberBackend::InProcess, &["read(src/lib.rs)", "grep(fn spawn)"],),
                row("w2", foreign(), &[]),
            ],
            Vec::new(),
        ),
        "an identical poll is not a reason to redraw"
    );
    assert!(
        dialog.refresh(
            vec![
                lead(),
                row("w1", MemberBackend::InProcess, &["write(src/main.rs)"]),
                row("w2", foreign(), &[]),
            ],
            Vec::new(),
        ),
        "a ring that moved is"
    );
}

#[test]
fn an_action_chosen_for_one_member_still_names_it_after_the_roster_moved() {
    let mut dialog = dialog();
    dialog.move_selection(1);
    assert_eq!(submit(&mut dialog), None, "Enter opens w1's actions");
    assert!(dialog.is_choosing_action());
    dialog.refresh(
        vec![
            lead(),
            row("w0", MemberBackend::InProcess, &[]),
            row("w1", MemberBackend::InProcess, &[]),
            row("w2", foreign(), &[]),
        ],
        Vec::new(),
    );
    assert!(dialog.is_choosing_action(), "the step is still w1's");
    let screen = rendered(&dialog, AREA);
    assert!(screen.contains("w1"), "and says so:\n{screen}");

    dialog.move_selection(1);

    assert_eq!(
        submit(&mut dialog),
        Some(Effect::Shutdown("w1".to_owned())),
        "the member Enter was pressed for, not the one at that index now"
    );
}

#[test]
fn an_action_step_whose_member_left_the_roster_drops_back_to_it() {
    let mut dialog = dialog();
    dialog.move_selection(1);
    submit(&mut dialog);
    assert!(dialog.is_choosing_action());

    assert!(
        dialog.refresh(vec![lead(), row("w2", foreign(), &[])], Vec::new()),
        "a dropped step is something moved"
    );

    assert!(!dialog.is_choosing_action(), "and back to the roster");
    assert_eq!(submit(&mut dialog), None);
    dialog.move_selection(1);
    assert_eq!(submit(&mut dialog), Some(Effect::Shutdown("w2".to_owned())));
}

#[test]
fn the_spawn_prompt_shows_the_grammar_the_refusal_names() {
    let mut dialog = dialog();
    dialog.move_selection(9);
    submit(&mut dialog);

    let screen = rendered(&dialog, AREA);
    // The dialog is narrower than the whole grammar, so what the screen
    // shows is its head.
    assert!(screen.contains(&SPAWN_GRAMMAR[..40]), "got:\n{screen}");
    assert!(
        team_spawn("").expect_err("a nameless spawn is refused").contains(SPAWN_GRAMMAR),
        "and the refusal names the same grammar"
    );
}

#[test]
fn a_typed_team_line_and_the_dialogs_step_build_the_same_request() {
    let line = team_spawn("w3 --agent explore --backend codex go").expect("the line is legible");

    assert_eq!(
        spawn_request(&line),
        spawn_through_the_dialog("w3 --agent explore --backend codex go")
    );
}

#[test]
fn the_lead_is_the_first_row_however_the_registry_ordered_it() {
    let view = TeamView {
        team: "session-abcd1234".to_owned(),
        lead: "team-lead".to_owned(),
        members: vec![
            MemberView {
                name: "w1".to_owned(),
                agent_id: "w1@session-abcd1234".to_owned(),
                backend: foreign(),
                color: Some("blue".to_owned()),
                is_lead: false,
                recent_calls: vec!["read(src/lib.rs)".to_owned()],
            },
            MemberView {
                name: "team-lead".to_owned(),
                agent_id: "team-lead@session-abcd1234".to_owned(),
                backend: MemberBackend::InProcess,
                color: None,
                is_lead: true,
                recent_calls: Vec::new(),
            },
        ],
    };

    let projected = rows(&view);

    assert_eq!(projected.len(), 2);
    assert_eq!(projected[0].name, "team-lead");
    assert!(projected[0].is_lead);
    assert_eq!(projected[1].name, "w1");
    assert_eq!(projected[1].color.as_deref(), Some("blue"));
    assert_eq!(projected[1].recent, vec!["read(src/lib.rs)".to_owned()]);
}

#[test]
fn the_tasks_section_lists_every_task_with_its_status_owner_and_blockers() {
    let mut dialog = dialog();
    assert!(dialog.refresh(members(), tasks()), "a fresh list repaints");

    let screen = rendered(&dialog, Rect::new(0, 0, 76, 40));

    assert!(screen.contains("tasks"), "the section is headed:\n{screen}");
    assert!(screen.contains("Wire the parser"), "got:\n{screen}");
    assert!(screen.contains("in_progress"), "got:\n{screen}");
    assert!(screen.contains("completed"), "got:\n{screen}");
    assert!(screen.contains("unowned"), "the unclaimed task says so:\n{screen}");
    assert!(screen.contains("(blocked by 2)"), "got:\n{screen}");
}

#[test]
fn the_tasks_section_keeps_the_order_the_list_arrived_in() {
    let mut dialog = dialog();
    dialog.refresh(members(), tasks());

    let screen = rendered(&dialog, Rect::new(0, 0, 76, 40));
    let position =
        |needle: &str| screen.find(needle).unwrap_or_else(|| panic!("{needle} is drawn"));

    assert!(position("Read the plan") < position("Wire the parser"));
    assert!(position("Wire the parser") < position("Draw the section"));
}

#[test]
fn the_tasks_section_names_the_members_that_cannot_see_the_list() {
    let mut dialog = dialog();
    dialog.refresh(members(), tasks());

    let screen = rendered(&dialog, Rect::new(0, 0, 76, 40));

    assert!(screen.contains("not visible to w2"), "the foreign member is named:\n{screen}");
    assert!(
        !screen.contains("not visible to w1"),
        "the in-process member reads the same list:\n{screen}"
    );
}

#[test]
fn a_roster_that_all_shares_the_list_draws_no_such_line() {
    let dialog = Team::new(
        vec![
            lead(),
            row("w1", MemberBackend::InProcess, &[]),
            row("w2", MemberBackend::Ganja, &[]),
        ],
        tasks(),
    );

    let screen = rendered(&dialog, Rect::new(0, 0, 76, 40));

    assert!(screen.contains("Wire the parser"), "the list is drawn:\n{screen}");
    assert!(!screen.contains("not visible to"), "and nothing is disclaimed:\n{screen}");
}

#[test]
fn a_team_that_has_filed_no_task_draws_no_tasks_section() {
    let screen = rendered(&dialog(), AREA);
    assert!(!screen.lines().any(|line| line.trim() == TASKS), "no heading over nothing:\n{screen}");
    assert!(!screen.contains(UNOWNED), "and nothing under it:\n{screen}");
}

#[test]
fn a_task_list_longer_than_the_window_is_cut_and_leaves_the_roster_standing() {
    let many: Vec<Summary> = (1..=30)
        .map(|index| task(&index.to_string(), TaskStatus::Pending, "", &format!("task {index}"), &[]))
        .collect();
    let screen = rendered(&Team::new(members(), many), AREA);

    assert!(screen.contains("team-lead"), "the roster stays on screen:\n{screen}");
    assert!(screen.contains(TASKS), "the section is drawn:\n{screen}");
    assert!(screen.contains("task 1"), "from the head of the list:\n{screen}");
    assert!(!screen.contains("task 30"), "and the tail is simply cut:\n{screen}");
}

#[test]
fn a_newline_in_a_subject_is_shown_rather_than_silently_swallowed() {
    let clean =
        rendered(&Team::new(members(), vec![task("1", TaskStatus::Pending, "", "ab", &["cd"])]), AREA);
    let dirty = rendered(
        &Team::new(members(), vec![task("1", TaskStatus::Pending, "", "a\nb", &["c\nd"])]),
        AREA,
    );

    assert_eq!(dirty.lines().count(), clean.lines().count(), "the frame holds:\n{dirty}");
    assert_eq!(
        dirty.matches(char::REPLACEMENT_CHARACTER).count(),
        2,
        "and both are shown rather than swallowed:\n{dirty}"
    );
}

#[test]
fn the_tasks_section_takes_no_cursor_position() {
    let mut dialog = dialog();
    dialog.refresh(members(), tasks());
    dialog.move_selection(3);
    assert!(dialog.selected_member().is_none(), "the Spawn row is last");
    dialog.move_selection(1);
    assert!(dialog.selected_member().is_none(), "and nothing is past it");
    assert_eq!(submit(&mut dialog), None, "Enter there still opens the spawn step");
    assert!(dialog.is_typing());
}

#[test]
fn a_task_list_that_did_not_move_is_not_a_repaint() {
    let mut dialog = dialog();
    assert!(dialog.refresh(members(), tasks()), "the first list is news");
    assert!(!dialog.refresh(members(), tasks()), "the same list is not");

    let mut moved = tasks();
    moved[2].owner = "w1".to_owned();
    assert!(dialog.refresh(members(), moved), "a claim is news again");
}

#[test]
fn a_team_with_nobody_in_it_says_so_and_still_offers_a_spawn() {
    let dialog = Team::new(Vec::new(), Vec::new());
    let screen = rendered(&dialog, AREA);

    assert!(dialog.selected_member().is_none());
    assert!(screen.contains("no team members"), "got:\n{screen}");
    assert!(screen.contains("Spawn teammate"), "got:\n{screen}");
}

#[test]
fn a_row_too_wide_for_the_column_is_cut_rather_than_wrapped() {
    let long = "very long call ".repeat(20);
    let dialog =
        Team::new(vec![row(&"w".repeat(90), MemberBackend::InProcess, &[long.as_str()])], tasks());

    for line in rendered(&dialog, Rect::new(0, 0, 60, 20)).lines() {
        assert!(line.chars().count() <= 60, "a row must not overflow the dialog: {line:?}");
    }
}

#[test]
fn team_tests_a_tiny_area_draws_without_panicking() {
    for (width, height) in [(1, 1), (3, 2), (8, 4)] {
        rendered(&dialog(), Rect::new(0, 0, width, height));
    }
}

#[test]
fn team_tests_a_zero_area_draws_nothing_and_does_not_panic() {
    let screen = rendered(&dialog(), Rect::new(0, 0, 0, 0));

    assert!(screen.is_empty(), "a zero area has no cell to hold: {screen}");
}

#[test]
fn a_spawn_request_says_what_was_typed_and_fills_in_the_kind() {
    for (line, backend, kind, prompt) in [
        ("w3 --backend in-process hold the fort", Some("in-process"), "general", "hold the fort"),
        ("w3 hold the fort", None, "general", "hold the fort"),
        ("w3 --backend ganja", Some("ganja"), "general", ""),
        ("w3 --agent explore --backend codex look around", Some("codex"), "explore", "look around"),
    ] {
        assert_eq!(
            spawn_through_the_dialog(line),
            TeammateSpawn {
                name: "w3".to_owned(),
                backend: backend.map(str::to_owned),
                agent_type: kind.to_owned(),
                prompt: prompt.to_owned(),
            },
            "{line:?}"
        );
    }
}

#[test]
fn the_backend_label_is_the_wires_own_spelling() {
    for (name, backend) in [
        ("in-process", MemberBackend::InProcess),
        ("ganja", MemberBackend::Ganja),
        ("other", MemberBackend::Foreign("other".to_owned())),
        ("codex", MemberBackend::Codex),
        ("agy", MemberBackend::Agy),
        ("grok", MemberBackend::Grok),
    ] {
        assert_eq!(backend_label(&backend), name);
        assert_eq!(
            shares_the_list(&backend),
            matches!(backend, MemberBackend::InProcess | MemberBackend::Ganja)
        );
    }
}

#[test]
fn a_notice_is_shown_until_another_replaces_it() {
    let mut dialog = dialog();
    dialog.set_notice("w1 was told".to_owned());
    assert!(rendered(&dialog, AREA).contains("w1 was told"));
    dialog.set_notice("w2 left".to_owned());
    let screen = rendered(&dialog, AREA);
    assert!(screen.contains("w2 left") && !screen.contains("w1 was told"), "got:\n{screen}");
}
