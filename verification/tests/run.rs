use ganja_tui::run::{Phase, Run};
use ganja_tui::startup::Role;

/// The phases of a run in which `failing` goes wrong, and what it reports.
fn phases(role: Role, resumes: bool, failing: &[Phase]) -> (Vec<Phase>, Option<Phase>) {
    let mut run = Run::new(role, resumes);
    let mut seen = Vec::new();
    while run.phase != Phase::Ended {
        seen.push(run.phase);
        let well = !failing.contains(&run.phase);
        run.advance(well);
    }
    (seen, run.failed)
}

#[test]
fn a_lead_goes_through_everything_but_a_launch_line() {
    let (seen, failed) = phases(Role::Lead, true, &[]);

    assert_eq!(
        seen,
        [
            Phase::Configure,
            Phase::Bind,
            Phase::Select,
            Phase::Recruit,
            Phase::Locate,
            Phase::Resume,
            Phase::TakeOver,
            Phase::Capture,
            Phase::Session,
            Phase::StopBackground,
            Phase::StopTeammates,
            Phase::StopServers,
            Phase::StopJobs,
            Phase::Restore,
        ]
    );
    assert_eq!(failed, None);
}

#[test]
fn a_member_is_identified_first_and_has_no_teammates_to_stop() {
    let (seen, _) = phases(Role::Member, false, &[]);

    assert_eq!(seen[0], Phase::Identify);
    assert!(!seen.contains(&Phase::Resume));
    assert!(!seen.contains(&Phase::StopTeammates));
}

#[test]
fn a_refusal_never_reaches_the_terminal() {
    for refused in [
        Phase::Identify,
        Phase::Configure,
        Phase::Bind,
        Phase::Select,
        Phase::Recruit,
        Phase::Locate,
        Phase::Resume,
    ] {
        let (seen, failed) = phases(Role::Member, true, &[refused]);
        assert!(!seen.contains(&Phase::TakeOver), "{refused:?}");
        assert_eq!(failed, Some(refused));
    }
}

#[test]
fn a_terminal_taken_over_is_given_back_whatever_fails() {
    for failing in [Phase::Capture, Phase::Session, Phase::StopServers, Phase::Restore] {
        let (seen, failed) = phases(Role::Solo, false, &[failing]);
        assert_eq!(seen.last(), Some(&Phase::Restore), "{failing:?}");
        assert_eq!(failed, Some(failing));
    }
    let (seen, _) = phases(Role::Solo, false, &[Phase::Capture]);
    assert!(!seen.contains(&Phase::Session), "what is not captured is not run");
}

#[test]
fn the_first_failure_is_the_one_reported() {
    let (_, failed) = phases(Role::Lead, false, &[Phase::Session, Phase::Restore]);
    assert_eq!(failed, Some(Phase::Session));
}

#[test]
fn a_run_that_ended_stays_ended() {
    let mut run = Run::new(Role::Solo, false);
    run.advance(false);
    let ended = run;
    run.advance(true);
    run.advance(false);
    assert_eq!(run, ended);
}
