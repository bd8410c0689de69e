use ganja_tui::component::status::{
    discover_git, head_name, meter_fill, meter_severity, percent_of, truncate_spans, Activity,
    Dotgit, GitCache, HeadAt, Severity, Status, StatuslineConfig, StatuslineElement, Todos, Totals,
};
use ganja_tui::style::{Line, Span, Style};
use ganja_tui::theme::Theme;
use unicode_width::UnicodeWidthStr as _;

const HINTS: &str = "Enter send \u{b7} Alt+Enter newline \u{b7} Esc cancel \u{b7} Ctrl-C quit";
const SHELL_HINTS: &str = "Enter run \u{b7} Esc exit shell mode \u{b7} Ctrl-C quit";

/// When everything here happens, in milliseconds.
const NOW: u64 = 1_000_000;

/// A bar in no repository.
fn bar(notice: Option<String>) -> Status {
    Status::new(notice, NOW, None, GitCache::none())
}

fn text(line: &Line) -> String {
    line.spans.iter().map(|span| span.content.as_str()).collect()
}

fn rendered(status: &Status, width: u16) -> String {
    rendered_rows(status, width, 1).remove(0)
}

/// Every row of a taller render, for the rosters that earn extra lines.
fn rendered_rows(status: &Status, width: u16, height: u16) -> Vec<String> {
    let lines = status.render(width, height, NOW, &Theme::default());
    assert!(lines.len() <= height as usize);
    let mut rows: Vec<String> = lines
        .iter()
        .map(|line| {
            let row = text(line);
            assert!(row.width() <= width as usize, "{row:?} overflows {width}");
            row.trim_end().to_owned()
        })
        .collect();
    rows.resize(height as usize, String::new());
    rows
}

/// What stands in a column of a line, and how.
fn cell(line: &Line, column: usize) -> (char, Style) {
    line.spans
        .iter()
        .flat_map(|span| span.content.chars().map(|c| (c, span.style)))
        .nth(column)
        .expect("the column is drawn")
}

/// A roster's table.
fn table(elements: &[StatuslineElement]) -> StatuslineConfig {
    StatuslineConfig { elements: Some(elements.to_vec()), max_width: None, detail: None }
}

/// An amount of money, exactly as the number holds it.
fn dollars(amount: f64) -> u128 {
    (amount * 2f64.powi(80)) as u128
}

/// A status bar rendering `elements`.
fn roster(elements: &[StatuslineElement]) -> Status {
    let mut status = bar(None);
    status.set_statusline(Some(&table(elements)));
    status
}

/// A repository of a name, whose HEAD reads as it does.
fn repository(name: &str, head: &str) -> GitCache {
    let mut git = GitCache::at(Some(name.to_owned()));
    assert!(git.is_stale(1));
    git.read(1, Some(head));
    git
}

#[test]
fn an_idle_bar_shows_the_state_and_the_hints() {
    let line = rendered(&bar(None), 100);

    assert!(line.starts_with("ready"), "got {line:?}");
    assert!(line.ends_with(HINTS), "got {line:?}");
}

#[test]
fn status_a_streaming_bar_leads_with_a_spinner() {
    let mut status = bar(None);
    status.set_activity(Activity::Streaming, NOW);

    let line = rendered(&status, 100);

    assert!(status.is_streaming());
    assert!(line.contains("streaming"), "got {line:?}");
    assert!(!line.starts_with("streaming"), "got {line:?}");
}

#[test]
fn status_the_bar_names_the_agent_only_once_there_is_one() {
    let mut status = bar(None);
    assert!(rendered(&status, 100).starts_with("ready"));

    status.set_agent(Some("plan".to_owned()));

    assert!(
        rendered(&status, 100).starts_with("plan"),
        "got {:?}",
        rendered(&status, 100)
    );
}

#[test]
fn status_the_bar_carries_the_yolo_marker_only_in_a_bypassed_session() {
    let mut status = bar(None);
    let gated = rendered(&status, 100);
    assert!(!gated.contains("yolo"), "got {gated:?}");

    status.set_yolo(true);

    let bypassed = rendered(&status, 100);
    assert!(
        bypassed.starts_with("yolo"),
        "the marker is the first thing on the bar: {bypassed:?}"
    );
    assert!(
        bypassed.ends_with(HINTS),
        "and it takes its width out of the gap rather than off the hints: \
         {bypassed:?}"
    );

    status.set_yolo(false);
    assert_eq!(
        rendered(&status, 100),
        gated,
        "turning it off restores the bar cell for cell"
    );
}

#[test]
fn status_a_configured_roster_carries_the_marker_too() {
    let mut status = roster(&[StatuslineElement::Activity]);
    assert!(!rendered(&status, 100).contains("yolo"));

    status.set_yolo(true);

    let line = rendered(&status, 100);
    assert!(line.starts_with("yolo"), "got {line:?}");
    assert!(
        line.contains("ready"),
        "and the roster it was prepended to is untouched: {line:?}"
    );
}

#[test]
fn status_the_bar_names_the_queue_only_while_something_is_waiting() {
    let mut status = bar(None);
    assert!(!rendered(&status, 100).contains("queued"));

    status.set_queued(2);

    let line = rendered(&status, 100);
    assert!(line.contains("2 queued"), "got {line:?}");

    status.set_queued(0);
    assert!(!rendered(&status, 100).contains("queued"));
}

#[test]
fn status_the_bar_names_running_background_jobs_only_while_there_are_any() {
    let mut status = bar(None);
    assert!(!rendered(&status, 100).contains("bash running"));

    status.set_running_jobs(1);
    let line = rendered(&status, 100);
    assert!(line.contains("1 bash running"), "got {line:?}");

    status.set_running_jobs(0);
    assert!(!rendered(&status, 100).contains("bash running"));
}

#[test]
fn status_the_bar_names_running_children_and_queued_dialogs_only_while_there_are_any() {
    let mut status = bar(None);
    let quiet = rendered(&status, 120);
    assert!(!quiet.contains("tasks running"));
    assert!(!quiet.contains("dialogs queued"));

    status.set_running_tasks(1);
    assert!(
        !rendered(&status, 120).contains("tasks running"),
        "one delegation is not a fan-out, and the activity segment names it"
    );

    status.set_running_tasks(3);
    status.set_queued_dialogs(1);
    let line = rendered(&status, 120);
    assert!(line.contains("3 tasks running"), "got {line:?}");
    assert!(line.contains("1 dialog queued"), "got {line:?}");

    status.set_queued_dialogs(2);
    assert!(rendered(&status, 120).contains("2 dialogs queued"));

    status.set_running_tasks(0);
    status.set_queued_dialogs(0);
    let quiet = rendered(&status, 120);
    assert!(!quiet.contains("tasks running"));
    assert!(!quiet.contains("dialogs queued"));
}

#[test]
fn status_the_bar_names_the_model_and_effort_only_while_one_is_selected() {
    let mut status = bar(None);
    assert!(!rendered(&status, 100).contains('('));

    status.set_agent(Some("build".to_owned()));
    status.set_effort(Some(("opus-5".to_owned(), "max".to_owned())));

    let line = rendered(&status, 100);
    assert!(line.starts_with("build"), "got {line:?}");
    assert!(line.contains("opus-5 (max)"), "got {line:?}");

    status.set_effort(None);
    assert!(!rendered(&status, 100).contains("opus-5"));
}

#[test]
fn status_a_notice_sits_next_to_the_state() {
    let status = bar(Some("provider defaulted".to_owned()));

    assert!(
        rendered(&status, 100).contains("provider defaulted"),
        "the notice should be visible"
    );
}

#[test]
fn status_a_narrow_bar_drops_the_hints_rather_than_the_state() {
    let line = rendered(&bar(None), 12);

    assert_eq!(line, "ready");
}

#[test]
fn status_a_zero_width_bar_draws_nothing() {
    assert_eq!(rendered(&bar(None), 0), "");
}

#[test]
fn status_a_cancelled_turn_reads_as_stopped() {
    let mut status = bar(None);
    status.set_activity(Activity::Streaming, NOW);
    status.set_activity(Activity::Stopped, NOW);

    assert!(!status.is_streaming());
    assert!(rendered(&status, 100).starts_with("stopped"));
}

#[test]
fn status_spend_is_shown_compactly_next_to_the_state() {
    let mut status = bar(None);
    status.set_totals(Totals {
        input_tokens: 12_345,
        output_tokens: 1_200,
        cost: Some(dollars(0.084_2)),
    });

    let line = rendered(&status, 100);

    assert!(line.starts_with("ready"), "got {line:?}");
    assert!(line.contains("12.3k in"), "got {line:?}");
    assert!(line.contains("1.2k out"), "got {line:?}");
    assert!(line.contains("$0.0842"), "got {line:?}");
}

#[test]
fn status_an_unpriced_model_shows_tokens_without_a_price() {
    let mut status = bar(None);
    status.set_totals(Totals {
        input_tokens: 40,
        output_tokens: 7,
        cost: None,
    });

    let line = rendered(&status, 100);

    assert!(line.contains("40 in"), "got {line:?}");
    assert!(line.contains("7 out"), "got {line:?}");
    assert!(!line.contains('$'), "got {line:?}");
}

#[test]
fn status_a_sub_cent_session_still_shows_a_number() {
    let mut status = bar(None);
    status.set_totals(Totals {
        input_tokens: 0,
        output_tokens: 0,
        cost: Some(dollars(0.000_7)),
    });

    let line = rendered(&status, 100);

    assert!(line.contains("$0.0007"), "got {line:?}");
}

#[test]
fn status_a_notice_survives_beside_the_spend() {
    let mut status = bar(Some("no usable credentials".to_owned()));
    status.set_activity(Activity::Failed, NOW);
    status.set_totals(Totals {
        input_tokens: 1_000,
        output_tokens: 0,
        cost: Some(dollars(0.5)),
    });

    let line = rendered(&status, 120);

    assert!(line.starts_with("failed"), "got {line:?}");
    assert!(line.contains("1.0k in"), "got {line:?}");
    assert!(line.contains("no usable credentials"), "got {line:?}");
}

#[test]
fn status_a_failed_turn_reads_as_failed_and_explains_itself() {
    let mut status = bar(None);
    status.set_activity(Activity::Streaming, NOW);
    status.set_activity(Activity::Failed, NOW);
    status.set_notice(Some("no usable credentials".to_owned()));

    let line = rendered(&status, 100);

    assert!(!status.is_streaming());
    assert!(line.starts_with("failed"), "got {line:?}");
    assert!(line.contains("no usable credentials"), "got {line:?}");
}

#[test]
fn status_a_running_tool_names_itself_in_the_activity_label() {
    let mut status = bar(None);
    status.set_activity(Activity::Tool("shell".to_owned()), NOW);

    assert!(rendered(&status, 100).contains("tool: shell"));
}

#[test]
fn status_waiting_on_a_permission_has_its_own_label() {
    let mut status = bar(None);
    status.set_activity(Activity::Permission, NOW);

    assert!(rendered(&status, 100).contains("waiting on permission"));
}

#[test]
fn shell_mode_reminds_the_user_of_the_way_out_instead() {
    let mut status = bar(None);
    assert!(rendered(&status, 120).contains(HINTS));

    status.set_shell(true);

    let line = rendered(&status, 120);
    assert!(line.contains(SHELL_HINTS), "got {line:?}");
    assert!(!line.contains("Enter send"), "got {line:?}");

    status.set_shell(false);
    assert!(rendered(&status, 120).contains(HINTS));
}

#[test]
fn status_a_configured_roster_renders_exactly_what_it_names_in_its_order() {
    let mut status = roster(&[
        StatuslineElement::Model,
        StatuslineElement::Context,
        StatuslineElement::Tokens,
    ]);
    status.set_model(Some("opus-5".to_owned()));
    status.set_context(Some((12_000, 100_000)));
    status.set_totals(Totals {
        input_tokens: 40,
        output_tokens: 7,
        cost: None,
    });

    let line = rendered(&status, 120);

    assert_eq!(
        line, "Model: opus-5 | ctx:[#-------]12% | 40 in \u{b7} 7 out",
        "the three named elements, in the named order, and nothing else"
    );
    assert!(!line.contains("ready"), "the activity was not named");
}

#[test]
fn status_the_context_meter_shows_the_handed_in_percent_and_warns_at_seventy() {
    let theme = Theme::default();
    let calm = {
        let mut status = roster(&[StatuslineElement::Context]);
        status.set_context(Some((69, 100)));
        status
    };
    let line = rendered(&calm, 60);
    assert!(line.contains("ctx:["), "got {line:?}");
    assert!(line.contains("]69%"), "got {line:?}");

    // Column 5 is the first bar slot, right after "ctx:[".
    let (symbol, style) = cell(&calm.render(60, 1, NOW, &theme)[0], 5);
    assert_eq!(symbol, '#');
    assert_eq!(style.fg, theme.success.fg);

    let warned = {
        let mut status = roster(&[StatuslineElement::Context]);
        status.set_context(Some((70, 100)));
        status
    };
    let (symbol, style) = cell(&warned.render(60, 1, NOW, &theme)[0], 5);
    assert_eq!(symbol, '#');
    assert_eq!(
        style.fg, theme.warning.fg,
        "seventy percent is where the meter starts warning"
    );
}

#[test]
fn status_the_meter_math_holds_at_the_ladder_boundaries() {
    assert_eq!(meter_fill(0), 0);
    assert_eq!(meter_fill(69), 6);
    assert_eq!(meter_fill(70), 6);
    assert_eq!(meter_fill(84), 7);
    assert_eq!(meter_fill(85), 7);
    assert_eq!(meter_fill(100), 8);

    assert_eq!(meter_severity(0), Severity::Calm);
    assert_eq!(meter_severity(69), Severity::Calm);
    assert_eq!(meter_severity(70), Severity::Warning);
    assert_eq!(meter_severity(79), Severity::Warning);
    assert_eq!(meter_severity(80), Severity::Compact);
    assert_eq!(meter_severity(84), Severity::Compact);
    assert_eq!(meter_severity(85), Severity::Critical);
    assert_eq!(meter_severity(100), Severity::Critical);
}

#[test]
fn status_the_context_meter_never_claims_more_than_full() {
    let mut status = roster(&[StatuslineElement::Context]);
    status.set_context(Some((250_000, 100_000)));

    let line = rendered(&status, 60);

    assert!(line.contains("ctx:[########]100%"), "got {line:?}");
}

#[test]
fn status_a_narrow_roster_truncates_with_an_ellipsis() {
    let mut status = roster(&[StatuslineElement::Model]);
    status.set_model(Some("a-model-with-a-very-long-name".to_owned()));

    let line = rendered(&status, 20);

    assert_eq!(line.width(), 20, "got {line:?}");
    assert!(line.ends_with("..."), "got {line:?}");
}

#[test]
fn status_a_width_cap_truncates_before_the_terminal_edge_does() {
    let mut status = bar(None);
    let mut capped = table(&[StatuslineElement::Model]);
    capped.max_width = Some(20);
    status.set_statusline(Some(&capped));
    status.set_model(Some("a-model-with-a-very-long-name".to_owned()));

    let line = rendered(&status, 120);

    assert!(line.ends_with("..."), "got {line:?}");
    assert!(line.len() <= 20, "got {line:?}");
}

#[test]
fn status_the_git_line_reads_a_symbolic_head_as_its_branch() {
    let mut status = roster(&[StatuslineElement::Git, StatuslineElement::Activity]);
    status.set_git(repository("my-repo", "ref: refs/heads/main\n"));

    let rows = rendered_rows(&status, 60, 2);
    assert_eq!(rows[0], "repo:my-repo | branch:main");
    assert_eq!(rows[1], "ready");
    assert_eq!(status.height(), 2);
}

#[test]
fn status_a_detached_head_reads_as_a_short_hash() {
    assert_eq!(
        head_name("f0e1d2c3b4a5968778695a4b3c2d1e0f11223344\n").as_deref(),
        Some("f0e1d2c3")
    );
    assert_eq!(
        head_name("ref: refs/heads/feature/x\n").as_deref(),
        Some("feature/x")
    );
    assert_eq!(head_name(""), None);
}

#[test]
fn status_the_git_line_follows_a_branch_switch_through_the_head_mtime() {
    let mut status = roster(&[StatuslineElement::Git]);
    let mut git = repository("repo", "ref: refs/heads/main\n");
    assert!(!git.is_stale(1), "HEAD is read again only when it moved");
    status.set_git(repository("repo", "ref: refs/heads/main\n"));
    assert!(rendered_rows(&status, 60, 2)[0].contains("branch:main"));

    assert!(git.is_stale(3));
    git.read(3, Some("ref: refs/heads/next\n"));
    assert!(!git.is_stale(3));
    status.set_git(git);

    assert!(
        rendered_rows(&status, 60, 2)[0].contains("branch:next"),
        "a moved mtime invalidates the cache"
    );
}

#[test]
fn status_a_linked_worktree_resolves_head_through_its_gitdir_pointer() {
    let pointer = "gitdir: /work/main/.git/worktrees/wt\n".to_owned();
    let ancestors = vec![Dotgit::Absent, Dotgit::File(Some(pointer)), Dotgit::Directory];
    let (at, head) = discover_git(&ancestors).expect("the worktree is a repository");
    assert_eq!(at, 1);
    assert_eq!(head, HeadAt::Pointed("/work/main/.git/worktrees/wt".to_owned()));

    let mut status = roster(&[StatuslineElement::Git]);
    status.set_git(repository("wt", "ref: refs/heads/hotfix\n"));

    assert_eq!(rendered_rows(&status, 60, 2)[0], "repo:wt | branch:hotfix");
}

#[test]
fn status_a_short_area_keeps_the_main_line_over_the_extra_ones() {
    let mut status = roster(&[StatuslineElement::Git, StatuslineElement::Activity]);
    status.set_git(repository("repo", "ref: refs/heads/main\n"));

    let rows = rendered_rows(&status, 60, 1);
    assert_eq!(rows[0], "ready", "one row leaves only the main line");
}

#[test]
fn status_todos_move_their_title_to_the_detail_line_when_detail_is_on() {
    let mut status = roster(&[StatuslineElement::Todos]);
    status.set_todos(Some(Todos {
        done: 2,
        total: 5,
        current: Some("wire the meter".to_owned()),
    }));

    assert_eq!(rendered(&status, 80), "todos:2/5 (working: wire the meter)");

    let mut detailed = table(&[StatuslineElement::Todos]);
    detailed.detail = Some(true);
    status.set_statusline(Some(&detailed));
    let rows = rendered_rows(&status, 80, 2);
    assert_eq!(rows[0], "todos:2/5");
    assert_eq!(rows[1], "working: wire the meter");
    assert_eq!(status.height(), 2);
}

#[test]
fn status_the_session_element_counts_whole_minutes_from_birth() {
    let status = roster(&[StatuslineElement::Session]);

    assert_eq!(rendered(&status, 40), "session:0m");
}

#[test]
fn status_a_roster_with_hints_keeps_them_right_aligned() {
    let status = roster(&[StatuslineElement::Activity, StatuslineElement::Hints]);

    let line = rendered(&status, 100);
    assert!(line.starts_with("ready"), "got {line:?}");
    assert!(line.ends_with(HINTS), "got {line:?}");
}

#[test]
fn status_tests_a_streaming_bar_leads_with_a_spinner() {
    let mut status = bar(None);
    status.set_activity(Activity::Streaming, NOW);

    let line = rendered(&status, 100);

    assert!(status.is_streaming());
    assert!(line.contains("streaming"), "got {line:?}");
    assert!(!line.starts_with("streaming"), "got {line:?}");
}

#[test]
fn status_tests_the_bar_names_the_agent_only_once_there_is_one() {
    let mut status = bar(None);
    assert!(rendered(&status, 100).starts_with("ready"));

    status.set_agent(Some("plan".to_owned()));

    assert!(rendered(&status, 100).starts_with("plan"), "got {:?}", rendered(&status, 100));
}

#[test]
fn status_tests_the_bar_carries_the_yolo_marker_only_in_a_bypassed_session() {
    let mut status = bar(None);
    let gated = rendered(&status, 100);
    assert!(!gated.contains("yolo"), "got {gated:?}");

    status.set_yolo(true);

    let bypassed = rendered(&status, 100);
    assert!(bypassed.starts_with("yolo"), "the marker is the first thing on the bar: {bypassed:?}");

    status.set_yolo(false);
    assert_eq!(rendered(&status, 100), gated, "turning it off restores the bar cell for cell");
}

#[test]
fn status_tests_a_configured_roster_carries_the_marker_too() {
    let mut status = roster(&[StatuslineElement::Activity]);
    assert!(!rendered(&status, 100).contains("yolo"));

    status.set_yolo(true);

    let line = rendered(&status, 100);
    assert!(line.starts_with("yolo"), "got {line:?}");
    assert!(line.contains("ready"), "and the roster it was prepended to is untouched: {line:?}");
}

#[test]
fn status_tests_the_bar_names_the_queue_only_while_something_is_waiting() {
    let mut status = bar(None);
    assert!(!rendered(&status, 100).contains("queued"));

    status.set_queued(2);

    let line = rendered(&status, 100);
    assert!(line.contains("2 queued"), "got {line:?}");

    status.set_queued(0);
    assert!(!rendered(&status, 100).contains("queued"));
}

#[test]
fn status_tests_the_bar_names_running_background_jobs_only_while_there_are_any() {
    let mut status = bar(None);
    assert!(!rendered(&status, 100).contains("bash running"));

    status.set_running_jobs(1);
    let line = rendered(&status, 100);
    assert!(line.contains("1 bash running"), "got {line:?}");

    status.set_running_jobs(0);
    assert!(!rendered(&status, 100).contains("bash running"));
}

#[test]
fn status_tests_the_bar_names_running_children_and_queued_dialogs_only_while_there_are_any() {
    let mut status = bar(None);
    let quiet = rendered(&status, 120);
    assert!(!quiet.contains("tasks running"));
    assert!(!quiet.contains("dialogs queued"));

    status.set_running_tasks(1);
    assert!(
        !rendered(&status, 120).contains("tasks running"),
        "one delegation is not a fan-out, and the activity segment names it"
    );

    status.set_running_tasks(3);
    status.set_queued_dialogs(1);
    let line = rendered(&status, 120);
    assert!(line.contains("3 tasks running"), "got {line:?}");
    assert!(line.contains("1 dialog queued"), "got {line:?}");

    status.set_queued_dialogs(2);
    assert!(rendered(&status, 120).contains("2 dialogs queued"));

    status.set_running_tasks(0);
    status.set_queued_dialogs(0);
    let quiet = rendered(&status, 120);
    assert!(!quiet.contains("tasks running"));
    assert!(!quiet.contains("dialogs queued"));
}

#[test]
fn status_tests_the_bar_names_the_model_and_effort_only_while_one_is_selected() {
    let mut status = bar(None);
    assert!(!rendered(&status, 100).contains('('));

    status.set_agent(Some("build".to_owned()));
    status.set_effort(Some(("opus-5".to_owned(), "max".to_owned())));

    let line = rendered(&status, 100);
    assert!(line.starts_with("build"), "got {line:?}");
    assert!(line.contains("opus-5 (max)"), "got {line:?}");

    status.set_effort(None);
    assert!(!rendered(&status, 100).contains("opus-5"));
}

#[test]
fn status_tests_a_notice_sits_next_to_the_state() {
    let status = bar(Some("provider defaulted".to_owned()));

    assert!(rendered(&status, 100).contains("provider defaulted"), "the notice should be visible");
}

#[test]
fn status_tests_a_narrow_bar_drops_the_hints_rather_than_the_state() {
    let mut status = bar(None);
    assert_eq!(rendered(&status, 12), "ready");

    status.set_shell(true);
    assert_eq!(rendered(&status, 12), "ready");
}

#[test]
fn status_tests_a_zero_width_bar_draws_nothing() {
    assert_eq!(rendered(&bar(None), 0), "");
}

#[test]
fn status_tests_a_cancelled_turn_reads_as_stopped() {
    let mut status = bar(None);
    status.set_activity(Activity::Streaming, NOW);
    status.set_activity(Activity::Stopped, NOW);

    assert!(!status.is_streaming());
    assert!(rendered(&status, 100).starts_with("stopped"));
}

#[test]
fn status_tests_spend_is_shown_compactly_next_to_the_state() {
    let mut status = bar(None);
    status.set_totals(Totals {
        input_tokens: 12_345,
        output_tokens: 1_200,
        cost: Some(dollars(0.084_2)),
    });

    let line = rendered(&status, 100);

    assert!(line.starts_with("ready"), "got {line:?}");
    assert!(line.contains("12.3k in"), "got {line:?}");
    assert!(line.contains("1.2k out"), "got {line:?}");
    assert!(line.contains("$0.0842"), "got {line:?}");
}

#[test]
fn status_tests_an_unpriced_model_shows_tokens_without_a_price() {
    let mut status = bar(None);
    status.set_totals(Totals { input_tokens: 40, output_tokens: 7, cost: None });

    let line = rendered(&status, 100);

    assert!(line.contains("40 in"), "got {line:?}");
    assert!(line.contains("7 out"), "got {line:?}");
    assert!(!line.contains('$'), "got {line:?}");
}

#[test]
fn status_tests_a_sub_cent_session_still_shows_a_number() {
    let mut status = bar(None);
    status.set_totals(Totals { input_tokens: 0, output_tokens: 0, cost: Some(dollars(0.000_7)) });

    let line = rendered(&status, 100);

    assert!(line.contains("$0.0007"), "got {line:?}");
}

#[test]
fn status_tests_a_notice_survives_beside_the_spend() {
    let mut status = bar(Some("no usable credentials".to_owned()));
    status.set_activity(Activity::Failed, NOW);
    status.set_totals(Totals { input_tokens: 1_000, output_tokens: 0, cost: Some(dollars(0.5)) });

    let line = rendered(&status, 120);

    assert!(line.starts_with("failed"), "got {line:?}");
    assert!(line.contains("1.0k in"), "got {line:?}");
    assert!(line.contains("no usable credentials"), "got {line:?}");
}

#[test]
fn status_tests_a_failed_turn_reads_as_failed_and_explains_itself() {
    let mut status = bar(None);
    status.set_activity(Activity::Streaming, NOW);
    status.set_activity(Activity::Failed, NOW);
    status.set_notice(Some("no usable credentials".to_owned()));

    let line = rendered(&status, 100);

    assert!(!status.is_streaming());
    assert!(line.starts_with("failed"), "got {line:?}");
    assert!(line.contains("no usable credentials"), "got {line:?}");
}

#[test]
fn status_tests_a_running_tool_names_itself_in_the_activity_label() {
    let mut status = bar(None);
    status.set_activity(Activity::Tool("shell".to_owned()), NOW);

    assert!(rendered(&status, 100).contains("tool: shell"));
}

#[test]
fn status_tests_waiting_on_a_permission_has_its_own_label() {
    let mut status = bar(None);
    status.set_activity(Activity::Permission, NOW);

    assert!(rendered(&status, 100).contains("waiting on permission"));
}

#[test]
fn status_tests_a_configured_roster_renders_exactly_what_it_names_in_its_order() {
    let mut status =
        roster(&[StatuslineElement::Model, StatuslineElement::Context, StatuslineElement::Tokens]);
    status.set_model(Some("opus-5".to_owned()));
    status.set_context(Some((12_000, 100_000)));
    status.set_totals(Totals { input_tokens: 40, output_tokens: 7, cost: None });

    let line = rendered(&status, 120);

    assert_eq!(
        line, "Model: opus-5 | ctx:[#-------]12% | 40 in \u{b7} 7 out",
        "the three named elements, in the named order, and nothing else"
    );
    assert!(!line.contains("ready"), "the activity was not named");
}

#[test]
fn status_tests_the_context_meter_shows_the_handed_in_percent_and_warns_at_seventy() {
    let theme = Theme::default();
    let calm = {
        let mut status = roster(&[StatuslineElement::Context]);
        status.set_context(Some((69, 100)));
        status
    };
    let line = rendered(&calm, 60);
    assert!(line.contains("ctx:["), "got {line:?}");
    assert!(line.contains("]69%"), "got {line:?}");

    // Column 5 is the first bar slot, right after "ctx:[".
    let (symbol, style) = cell(&calm.render(60, 1, NOW, &theme)[0], 5);
    assert_eq!(symbol, '#');
    assert_eq!(style.fg, theme.success.fg);

    let warned = {
        let mut status = roster(&[StatuslineElement::Context]);
        status.set_context(Some((70, 100)));
        status
    };
    let (symbol, style) = cell(&warned.render(60, 1, NOW, &theme)[0], 5);
    assert_eq!(symbol, '#');
    assert_eq!(
        style.fg, theme.warning.fg,
        "seventy percent is where the meter starts warning"
    );
}

#[test]
fn status_tests_the_meter_math_holds_at_the_ladder_boundaries() {
    assert_eq!(meter_fill(0), 0);
    assert_eq!(meter_fill(69), 6);
    assert_eq!(meter_fill(70), 6);
    assert_eq!(meter_fill(84), 7);
    assert_eq!(meter_fill(85), 7);
    assert_eq!(meter_fill(100), 8);

    assert_eq!(meter_severity(0), Severity::Calm);
    assert_eq!(meter_severity(69), Severity::Calm);
    assert_eq!(meter_severity(70), Severity::Warning);
    assert_eq!(meter_severity(79), Severity::Warning);
    assert_eq!(meter_severity(80), Severity::Compact);
    assert_eq!(meter_severity(84), Severity::Compact);
    assert_eq!(meter_severity(85), Severity::Critical);
    assert_eq!(meter_severity(100), Severity::Critical);
}

#[test]
fn status_tests_the_context_meter_never_claims_more_than_full() {
    let mut status = roster(&[StatuslineElement::Context]);
    status.set_context(Some((250_000, 100_000)));

    let line = rendered(&status, 60);

    assert!(line.contains("ctx:[########]100%"), "got {line:?}");
}

#[test]
fn status_tests_a_narrow_roster_truncates_with_an_ellipsis() {
    let mut status = roster(&[StatuslineElement::Model]);
    status.set_model(Some("a-model-with-a-very-long-name".to_owned()));

    let line = rendered(&status, 20);

    assert_eq!(line.width(), 20, "got {line:?}");
    assert!(line.ends_with("..."), "got {line:?}");
}

#[test]
fn status_tests_a_width_cap_truncates_before_the_terminal_edge_does() {
    let mut status = bar(None);
    let mut capped = table(&[StatuslineElement::Model]);
    capped.max_width = Some(20);
    status.set_statusline(Some(&capped));
    status.set_model(Some("a-model-with-a-very-long-name".to_owned()));

    let line = rendered(&status, 120);

    assert!(line.ends_with("..."), "got {line:?}");
    assert!(line.len() <= 20, "got {line:?}");
}

#[test]
fn status_tests_the_git_line_reads_a_symbolic_head_as_its_branch() {
    let mut status = roster(&[StatuslineElement::Git, StatuslineElement::Activity]);
    status.set_git(repository("my-repo", "ref: refs/heads/main\n"));

    let rows = rendered_rows(&status, 60, 2);
    assert_eq!(rows[0], "repo:my-repo | branch:main");
    assert_eq!(rows[1], "ready");
    assert_eq!(status.height(), 2);
}

#[test]
fn status_tests_a_detached_head_reads_as_a_short_hash() {
    assert_eq!(
        head_name("f0e1d2c3b4a5968778695a4b3c2d1e0f11223344\n").as_deref(),
        Some("f0e1d2c3")
    );
    assert_eq!(head_name("ref: refs/heads/feature/x\n").as_deref(), Some("feature/x"));
    assert_eq!(head_name(""), None);
}

#[test]
fn status_tests_the_git_line_follows_a_branch_switch_through_the_head_mtime() {
    let mut status = roster(&[StatuslineElement::Git]);
    let mut git = repository("repo", "ref: refs/heads/main\n");
    assert!(!git.is_stale(1), "HEAD is read again only when it moved");
    status.set_git(repository("repo", "ref: refs/heads/main\n"));
    assert!(rendered_rows(&status, 60, 2)[0].contains("branch:main"));

    assert!(git.is_stale(3));
    git.read(3, Some("ref: refs/heads/next\n"));
    assert!(!git.is_stale(3));
    status.set_git(git);

    assert!(
        rendered_rows(&status, 60, 2)[0].contains("branch:next"),
        "a moved mtime invalidates the cache"
    );
}

#[test]
fn status_tests_a_linked_worktree_resolves_head_through_its_gitdir_pointer() {
    let pointer = "gitdir: /work/main/.git/worktrees/wt\n".to_owned();
    let ancestors = vec![Dotgit::Absent, Dotgit::File(Some(pointer)), Dotgit::Directory];
    let (at, head) = discover_git(&ancestors).expect("the worktree is a repository");
    assert_eq!(at, 1);
    assert_eq!(head, HeadAt::Pointed("/work/main/.git/worktrees/wt".to_owned()));

    let mut status = roster(&[StatuslineElement::Git]);
    status.set_git(repository("wt", "ref: refs/heads/hotfix\n"));

    assert_eq!(rendered_rows(&status, 60, 2)[0], "repo:wt | branch:hotfix");
}

#[test]
fn status_tests_a_short_area_keeps_the_main_line_over_the_extra_ones() {
    let mut status = roster(&[StatuslineElement::Git, StatuslineElement::Activity]);
    status.set_git(repository("repo", "ref: refs/heads/main\n"));

    let rows = rendered_rows(&status, 60, 1);
    assert_eq!(rows[0], "ready", "one row leaves only the main line");
}

#[test]
fn status_tests_todos_move_their_title_to_the_detail_line_when_detail_is_on() {
    let mut status = roster(&[StatuslineElement::Todos]);
    status.set_todos(Some(Todos { done: 2, total: 5, current: Some("wire the meter".to_owned()) }));

    assert_eq!(rendered(&status, 80), "todos:2/5 (working: wire the meter)");

    let mut detailed = table(&[StatuslineElement::Todos]);
    detailed.detail = Some(true);
    status.set_statusline(Some(&detailed));
    let rows = rendered_rows(&status, 80, 2);
    assert_eq!(rows[0], "todos:2/5");
    assert_eq!(rows[1], "working: wire the meter");
    assert_eq!(status.height(), 2);
}

#[test]
fn status_tests_the_session_element_counts_whole_minutes_from_birth() {
    let status = roster(&[StatuslineElement::Session]);

    assert_eq!(rendered(&status, 40), "session:0m");
}

#[test]
fn the_spinner_turns_with_the_clock() {
    let mut status = bar(None);
    status.set_activity(Activity::Streaming, NOW);
    let at = |millis: u64| text(&status.render(100, 1, NOW + millis, &Theme::default())[0]);

    assert_eq!(at(0), at(79));
    assert_ne!(at(0), at(80));
}

#[test]
fn the_same_activity_goes_on_from_when_it_began() {
    let mut status = bar(None);
    status.set_activity(Activity::Streaming, NOW);
    let before = status.render(100, 1, NOW + 80, &Theme::default());
    status.set_activity(Activity::Streaming, NOW + 80);

    assert_eq!(status.render(100, 1, NOW + 80, &Theme::default()), before);
}

#[test]
fn a_session_counts_in_whole_minutes() {
    let status = roster(&[StatuslineElement::Session]);
    let at = |millis: u64| {
        text(&status.render(40, 1, NOW + millis, &Theme::default())[0]).trim_end().to_owned()
    };

    assert_eq!(at(59_999), "session:0m");
    assert_eq!(at(60_000), "session:1m");
    assert_eq!(at(59 * 60_000), "session:59m");
}

#[test]
fn a_share_of_no_window_is_all_of_it() {
    assert_eq!(percent_of(1, 3), 33);
    assert_eq!(percent_of(5, 0), 100);
    assert_eq!(percent_of(u64::MAX, 1), 100);
    assert_eq!(percent_of(0, u64::MAX), 0);
}

#[test]
fn a_truncated_line_fits() {
    let spans = vec![Span::raw("ああああ".to_owned()), Span::raw("tail".to_owned())];
    let cut = truncate_spans(spans, 6, &Theme::default());
    let read: String = cut.iter().map(|span| span.content.as_str()).collect();

    assert_eq!(read, "あ...");
    let kept = truncate_spans(vec![Span::raw("fits".to_owned())], 4, &Theme::default());
    assert_eq!(kept, vec![Span::raw("fits".to_owned())]);
}

#[test]
fn a_repository_is_the_nearest_one() {
    assert_eq!(discover_git(&Vec::new()), None);
    assert_eq!(discover_git(&vec![Dotgit::Absent, Dotgit::Absent]), None);
    assert_eq!(
        discover_git(&vec![Dotgit::Absent, Dotgit::Directory, Dotgit::Directory]),
        Some((1, HeadAt::Own))
    );
}

#[test]
fn spend_is_spelled_to_the_ten_thousandth() {
    let spent = |cost| Totals { input_tokens: 999, output_tokens: 1_000_000, cost }.segment();
    assert_eq!(spent(None), "999 in \u{b7} 1.0M out");
    for cost in [1234.000_5, 0.000_05, 0.000_15, 0.000_25, 0.031_25, 0.093_75, 0.999_96] {
        assert_eq!(
            spent(Some(dollars(cost))),
            format!("999 in \u{b7} 1.0M out \u{b7} ${cost:.4}")
        );
    }
}

#[test]
fn the_effort_segment_wears_the_model_values_own_style() {
    let mut status = roster(&[StatuslineElement::Model, StatuslineElement::Effort]);
    status.set_model(Some("opus-5".to_owned()));
    status.set_effort(Some(("opus-5".to_owned(), "max".to_owned())));
    let drawn = &status.render(80, 1, NOW, &Theme::default())[0];
    let line = text(drawn);
    let column_of = |needle: &str| {
        let at = line.find(needle).expect("the segment is on the bar");
        line[..at].chars().count()
    };

    let model_value = cell(drawn, column_of("Model: ") + 7).1;
    let effort = cell(drawn, column_of("opus-5 (max)")).1;
    assert_eq!(effort, model_value, "on {line:?}");
    assert_ne!(effort, cell(drawn, column_of("Model: ")).1, "and not the label's dim");
}

#[test]
fn truncation_never_splits_a_zwj_family() {
    let family = "\u{1f468}\u{200d}\u{1f469}\u{200d}\u{1f467}\u{200d}\u{1f466}";
    let spans = truncate_spans(vec![Span::raw(format!("{family}xxxx"))], 5, &Theme::default());
    let text = spans.iter().map(|span| span.content.as_str()).collect::<String>();

    assert_eq!(text, format!("{family}..."));
}
