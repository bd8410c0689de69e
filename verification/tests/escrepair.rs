use ganja_tui::escrepair::{EscRepair, HOLDOFF, MAX_SEQ, SEQ_DEADLINE};
use ganja_tui::keys::{KeyCode, KeyEvent, KeyEventKind, KeyModifiers, TermEvent};

/// When the first key is pressed, in nanoseconds.
const START: u64 = 7_000_000_000;

/// A millisecond, in nanoseconds.
const MILLI: u64 = 1_000_000;

/// A char key the way a terminal delivers it: uppercase carries shift.
fn ch(c: char) -> TermEvent {
    TermEvent::Key(KeyEvent::new(
        KeyCode::Char(c),
        KeyModifiers::new(c.is_ascii_uppercase(), false, false),
    ))
}

fn esc() -> TermEvent {
    TermEvent::Key(KeyEvent::new(KeyCode::Esc, KeyModifiers::none()))
}

fn key(code: KeyCode, modifiers: KeyModifiers) -> TermEvent {
    TermEvent::Key(KeyEvent::new(code, modifiers))
}

/// Feeds a burst of events a millisecond apart and returns everything
/// dispatched.
fn run(machine: &mut EscRepair, events: &[TermEvent], base: u64) -> Vec<TermEvent> {
    let mut out = Vec::new();
    for (i, event) in events.iter().enumerate() {
        let now = base + i as u64 * MILLI;
        out.extend(machine.accept(event.clone(), now));
    }
    out
}

#[test]
fn a_split_left_arrow_becomes_left_and_never_text() {
    let mut machine = EscRepair::active();
    let out = run(&mut machine, &[esc(), ch('['), ch('D')], START);
    assert_eq!(out, vec![key(KeyCode::Left, KeyModifiers::none())]);
    assert_eq!(machine.deadline(), None);
}

#[test]
fn a_modified_arrow_keeps_its_modifiers() {
    let mut machine = EscRepair::active();
    let out =
        run(&mut machine, &[esc(), ch('['), ch('1'), ch(';'), ch('5'), ch('D')], START);
    assert_eq!(out, vec![key(KeyCode::Left, KeyModifiers::new(false, true, false))]);
}

#[test]
fn a_tilde_sequence_maps_its_number() {
    let mut machine = EscRepair::active();
    let out = run(&mut machine, &[esc(), ch('['), ch('3'), ch('~')], START);
    assert_eq!(out, vec![key(KeyCode::Delete, KeyModifiers::none())]);
}

#[test]
fn shift_tab_survives_the_split() {
    let mut machine = EscRepair::active();
    let out = run(&mut machine, &[esc(), ch('['), ch('Z')], START);
    assert_eq!(out, vec![key(KeyCode::BackTab, KeyModifiers::new(true, false, false))]);
}

#[test]
fn an_ss3_arrow_maps_like_csi() {
    let mut machine = EscRepair::active();
    let out = run(&mut machine, &[esc(), ch('O'), ch('D')], START);
    assert_eq!(out, vec![key(KeyCode::Left, KeyModifiers::none())]);
}

#[test]
fn a_split_focus_event_is_still_a_focus_event() {
    let mut machine = EscRepair::active();
    let out = run(&mut machine, &[esc(), ch('['), ch('I')], START);
    assert_eq!(out, vec![TermEvent::FocusGained]);
}

#[test]
fn a_bare_esc_is_released_at_the_deadline() {
    let mut machine = EscRepair::active();
    let base = START;
    assert!(machine.accept(esc(), base).is_empty());
    let deadline = machine.deadline().expect("a held esc has a deadline");
    assert_eq!(deadline, base + HOLDOFF);
    assert!(machine.expire(deadline - MILLI).is_empty());
    assert_eq!(machine.expire(deadline), vec![esc()]);
    assert_eq!(machine.deadline(), None);
}

#[test]
fn esc_esc_releases_the_first_and_holds_the_second() {
    let mut machine = EscRepair::active();
    let base = START;
    assert!(machine.accept(esc(), base).is_empty());
    let out = machine.accept(esc(), base + 5 * MILLI);
    assert_eq!(out, vec![esc()]);
    assert_eq!(machine.expire(base + 5 * MILLI + HOLDOFF), vec![esc()]);
}

#[test]
fn a_mismatch_releases_everything_in_arrival_order() {
    let mut machine = EscRepair::active();
    let out = run(&mut machine, &[esc(), ch('a')], START);
    assert_eq!(out, vec![esc(), ch('a')]);
}

#[test]
fn a_mismatch_mid_sequence_replays_the_fragment_literally() {
    let mut machine = EscRepair::active();
    let chord = key(KeyCode::Char('c'), KeyModifiers::new(false, true, false));
    let out = run(&mut machine, &[esc(), ch('['), ch('1'), chord.clone()], START);
    assert_eq!(out, vec![esc(), ch('['), ch('1'), chord]);
}

#[test]
fn a_late_continuation_is_text_not_a_key() {
    let mut machine = EscRepair::active();
    let base = START;
    assert!(machine.accept(esc(), base).is_empty());
    let out = machine.accept(ch('['), base + HOLDOFF + MILLI);
    assert_eq!(out, vec![esc(), ch('[')]);
}

#[test]
fn a_runaway_sequence_is_released_at_the_cap() {
    let mut machine = EscRepair::active();
    let base = START;
    let mut events = vec![esc(), ch('[')];
    events.extend(std::iter::repeat_n(ch('1'), MAX_SEQ));
    let out = run(&mut machine, &events, base);
    assert_eq!(out.len(), events.len());
    assert_eq!(out[0], esc());
    assert_eq!(machine.deadline(), None);
}

#[test]
fn a_split_mouse_fragment_is_swallowed() {
    let mut machine = EscRepair::active();
    let out = run(
        &mut machine,
        &[esc(), ch('['), ch('<'), ch('0'), ch(';'), ch('5'), ch(';'), ch('3'), ch('M')],
        START,
    );
    assert_eq!(out, vec![]);
    assert_eq!(machine.deadline(), None);
}

#[test]
fn a_split_paste_marker_is_swallowed() {
    let mut machine = EscRepair::active();
    let out =
        run(&mut machine, &[esc(), ch('['), ch('2'), ch('0'), ch('0'), ch('~')], START);
    assert_eq!(out, vec![]);
}

#[test]
fn passthrough_holds_nothing() {
    let mut machine = EscRepair::passthrough();
    let base = START;
    assert_eq!(machine.accept(esc(), base), vec![esc()]);
    assert_eq!(machine.deadline(), None);
    assert_eq!(machine.accept(ch('['), base), vec![ch('[')]);
    assert_eq!(machine.accept(ch('D'), base), vec![ch('D')]);
}

#[test]
fn a_release_kind_key_passes_through() {
    let mut machine = EscRepair::active();
    let mut released = KeyEvent::new(KeyCode::Esc, KeyModifiers::none());
    released.kind = KeyEventKind::Release;
    let event = TermEvent::Key(released);
    assert_eq!(machine.accept(event.clone(), START), vec![event]);
    assert_eq!(machine.deadline(), None);
}

#[test]
fn a_non_key_event_while_holding_releases_first() {
    let mut machine = EscRepair::active();
    let base = START;
    assert!(machine.accept(esc(), base).is_empty());
    let resize = TermEvent::Resize(80, 24);
    let out = machine.accept(resize.clone(), base + 2 * MILLI);
    assert_eq!(out, vec![esc(), resize]);
}

#[test]
fn an_ordinary_key_flows_through_untouched() {
    let mut machine = EscRepair::active();
    let out = run(&mut machine, &[ch('a'), ch('['), ch('D')], START);
    assert_eq!(out, vec![ch('a'), ch('['), ch('D')]);
}

#[test]
fn a_sequence_that_takes_too_long_is_text() {
    let mut machine = EscRepair::active();
    assert!(machine.accept(esc(), START).is_empty());
    assert!(machine.accept(ch('['), START + HOLDOFF - 1).is_empty());
    assert_eq!(machine.deadline(), Some(START + SEQ_DEADLINE));
    assert_eq!(machine.expire(START + SEQ_DEADLINE), vec![esc(), ch('[')]);
}

#[test]
fn a_number_that_names_no_key_is_swallowed() {
    let mut machine = EscRepair::active();
    let out = run(&mut machine, &[esc(), ch('['), ch('1'), ch('5'), ch('~')], START);
    assert_eq!(out, vec![]);
    let out = run(&mut machine, &[esc(), ch('['), ch('4'), ch('~')], START);
    assert_eq!(out, vec![key(KeyCode::End, KeyModifiers::none())]);
}

#[test]
fn no_key_is_lost_at_the_end_of_the_clock() {
    let mut machine = EscRepair::active();
    assert!(machine.accept(esc(), u64::MAX - 1).is_empty());
    assert!(machine.accept(ch('['), u64::MAX).is_empty());
    assert_eq!(machine.accept(ch('x'), u64::MAX), vec![] as Vec<TermEvent>);
    assert_eq!(machine.accept(esc(), u64::MAX), vec![]);
    assert_eq!(machine.accept(ch('q'), u64::MAX), vec![esc(), ch('q')]);
}
