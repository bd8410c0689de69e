use ganja_tui::event::AppEvent;
use ganja_tui::lister::{Health, Listing, LiveSession, NameSource};

fn session(name: &str, stem: &str) -> LiveSession {
    LiveSession {
        name: name.to_owned(),
        name_source: NameSource::User,
        session_id: format!("{stem}-0000-7000-8000-000000000001"),
        stem: stem.to_owned(),
        socket: format!("/tmp/ganja-0/{stem}.sock"),
        cwd: format!("/work/{stem}"),
        health: Health::Answered,
    }
}

#[test]
fn a_listing_says_whether_rows_are_missing() {
    let complete = Listing::Complete(vec![session("worker", "0198c1a2")]);
    let (rows, missing) = complete.rows();
    assert_eq!(rows, &vec![session("worker", "0198c1a2")]);
    assert!(!missing);

    let partial = Listing::Partial {
        rows: vec![],
        error: "the directory could not be read".to_owned(),
    };
    let (rows, missing) = partial.rows();
    assert!(rows.is_empty());
    assert!(missing);
}

#[test]
fn an_engine_event_is_wrapped_whole() {
    assert_eq!(AppEvent::from_core("delta"), AppEvent::Core(Box::new("delta")));
}
