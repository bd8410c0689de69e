use ganja_tui::notify::{
    body, Capture, NotificationEvent, NotificationMethod, Notifications, Notifier, MAX_BODY,
};

fn emitted(
    notifications: Notifications,
    method: NotificationMethod,
    event: NotificationEvent,
    summary: &str,
) -> Vec<u8> {
    let mut capture = Capture::default();
    let notifier = Notifier { notifications, method };

    capture.write(&notifier.notify(event, summary));

    capture.log().into_bytes()
}

#[test]
fn notify_a_moment_the_config_did_not_ask_for_writes_nothing() {
    let cases = [
        (Notifier::default().notifications, NotificationEvent::TurnComplete),
        (Notifications::Nothing, NotificationEvent::TurnComplete),
        (
            Notifications::Only(vec![NotificationEvent::TurnComplete]),
            NotificationEvent::ApprovalRequested,
        ),
    ];

    for (config, event) in cases {
        assert!(
            emitted(config.clone(), NotificationMethod::Osc9, event, "quiet").is_empty(),
            "{config:?} should announce nothing for {event:?}"
        );
    }
}

#[test]
fn notify_an_asked_for_moment_writes_one_osc9_sequence_carrying_the_summary() {
    let bytes = emitted(
        Notifications::Everything,
        NotificationMethod::Osc9,
        NotificationEvent::TurnComplete,
        "turn complete",
    );

    assert_eq!(bytes, b"\x1b]9;turn complete\x07");
}

#[test]
fn notify_the_bel_method_writes_the_bell_byte_and_no_body() {
    let bytes = emitted(
        Notifications::Everything,
        NotificationMethod::Bel,
        NotificationEvent::ApprovalRequested,
        "a summary the bell cannot carry",
    );

    assert_eq!(bytes, b"\x07");
}

#[test]
fn notify_the_osc9_body_carries_no_control_bytes_and_only_the_first_line() {
    assert_eq!(body("first line\nsecond line"), "first line");
    assert_eq!(body("es\x1bcape\x07bell"), "escapebell");
    assert_eq!(body(""), "");

    let long = "x".repeat(500);
    assert_eq!(body(&long).chars().count(), MAX_BODY);
}

#[test]
fn notify_tests_a_moment_the_config_did_not_ask_for_writes_nothing() {
    let cases = [
        (Notifier::default().notifications, NotificationEvent::TurnComplete),
        (Notifications::Nothing, NotificationEvent::TurnComplete),
        (
            Notifications::Only(vec![NotificationEvent::TurnComplete]),
            NotificationEvent::ApprovalRequested,
        ),
    ];

    for (config, event) in cases {
        assert!(
            emitted(config.clone(), NotificationMethod::Osc9, event, "quiet").is_empty(),
            "{config:?} should announce nothing for {event:?}"
        );
    }
}

#[test]
fn notify_tests_an_asked_for_moment_writes_one_osc9_sequence_carrying_the_summary() {
    let bytes = emitted(
        Notifications::Everything,
        NotificationMethod::Osc9,
        NotificationEvent::TurnComplete,
        "turn complete",
    );

    assert_eq!(bytes, b"\x1b]9;turn complete\x07");
}

#[test]
fn notify_tests_the_bel_method_writes_the_bell_byte_and_no_body() {
    let bytes = emitted(
        Notifications::Everything,
        NotificationMethod::Bel,
        NotificationEvent::ApprovalRequested,
        "a summary the bell cannot carry",
    );

    assert_eq!(bytes, b"\x07");
}

#[test]
fn notify_tests_the_osc9_body_carries_no_control_bytes_and_only_the_first_line() {
    assert_eq!(body("first line\nsecond line"), "first line");
    assert_eq!(body("es\x1bcape\x07bell"), "escapebell");
    assert_eq!(body(""), "");

    let long = "x".repeat(500);
    assert_eq!(body(&long).chars().count(), MAX_BODY);
}

#[test]
fn a_body_is_cut_at_its_length_after_controls_are_dropped() {
    let noisy: String = (0..130).map(|_| "\u{85}y").collect();
    assert_eq!(body(&noisy), "y".repeat(120));
    assert_eq!(body("\r\nrest"), "");
    assert_eq!(body("日本\r\nrest"), "日本");
}

#[test]
fn a_listed_moment_is_announced() {
    let only = Notifications::Only(vec![
        NotificationEvent::TurnComplete,
        NotificationEvent::ApprovalRequested,
    ]);
    assert!(only.notifies(NotificationEvent::ApprovalRequested));
    assert!(!Notifications::Only(Vec::new()).notifies(NotificationEvent::TurnComplete));
}

#[test]
fn a_capture_keeps_everything_in_order() {
    let mut capture = Capture::default();
    assert_eq!(capture.log(), "");
    capture.write("one");
    capture.write("");
    capture.write(" two");
    assert_eq!(capture.log(), "one two");
}
