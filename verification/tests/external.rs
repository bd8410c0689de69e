use ganja_tui::external::{command, outcome, program, read_back, Edited};

#[test]
fn external_the_editor_is_whatever_the_environment_names_and_vi_when_it_names_nothing() {
    let cases = [
        (Some("nvim"), "nvim"),
        (Some("code -w"), "code -w"),
        (Some("  hx  "), "hx"),
        (Some(""), "vi"),
        (Some("   "), "vi"),
        (None, "vi"),
    ];

    for (configured, expected) in cases {
        assert_eq!(
            program(configured.map(str::to_owned)),
            expected,
            "{configured:?}"
        );
    }
}

#[test]
fn external_a_seeded_buffer_reads_back_verbatim() {
    for text in [
        "one line",
        "first\nsecond\nthird",
        "trailing spaces   ",
        "",
        "unicode: 日本語 and an emoji",
    ] {
        assert_eq!(read_back(text), text);
    }
}

#[test]
fn external_one_trailing_newline_is_the_editors_and_is_dropped() {
    let cases = [
        ("what the editor wrote\n", "what the editor wrote"),
        (
            "a blank line the user left\n\n",
            "a blank line the user left\n",
        ),
        ("no newline at all", "no newline at all"),
    ];

    for (written, expected) in cases {
        assert_eq!(read_back(written), expected, "{written:?}");
    }
}

#[test]
fn external_the_path_reaches_the_editor_as_an_argument_rather_than_as_text() {
    let path = "/tmp/a dir; rm -rf ~/ganja-prompt.md";
    let line = command("sh", "code -w", path);
    let arguments = &line[1..];

    assert_eq!(line[0], "sh");
    assert_eq!(arguments[0], "-c");
    assert_eq!(arguments[1], "code -w \"$@\"");
    assert_eq!(arguments[2], "code -w");
    assert_eq!(arguments[3], path);

    let elsewhere = "/opt/somewhere/dash";

    assert_eq!(
        command(elsewhere, "code -w", path)[0],
        elsewhere,
        "the editor runs under the shell it was handed"
    );
}

#[test]
fn external_tests_the_editor_is_whatever_the_environment_names_and_vi_when_it_names_nothing() {
    let cases = [
        (Some("nvim"), "nvim"),
        (Some("code -w"), "code -w"),
        (Some("  hx  "), "hx"),
        (Some(""), "vi"),
        (Some("   "), "vi"),
        (None, "vi"),
    ];

    for (configured, expected) in cases {
        assert_eq!(
            program(configured.map(str::to_owned)),
            expected,
            "{configured:?}"
        );
    }
}

#[test]
fn external_tests_a_seeded_buffer_reads_back_verbatim() {
    for text in [
        "one line",
        "first\nsecond\nthird",
        "trailing spaces   ",
        "",
        "unicode: 日本語 and an emoji",
    ] {
        assert_eq!(read_back(text), text);
    }
}

#[test]
fn external_tests_one_trailing_newline_is_the_editors_and_is_dropped() {
    let cases = [
        ("what the editor wrote\n", "what the editor wrote"),
        (
            "a blank line the user left\n\n",
            "a blank line the user left\n",
        ),
        ("no newline at all", "no newline at all"),
    ];

    for (written, expected) in cases {
        assert_eq!(read_back(written), expected, "{written:?}");
    }
}

#[test]
fn external_tests_the_path_reaches_the_editor_as_an_argument_rather_than_as_text() {
    let path = "/tmp/a dir; rm -rf ~/ganja-prompt.md";
    let line = command("sh", "code -w", path);
    let arguments = &line[1..];

    assert_eq!(line[0], "sh");
    assert_eq!(arguments[0], "-c");
    assert_eq!(arguments[1], "code -w \"$@\"");
    assert_eq!(arguments[2], "code -w");
    assert_eq!(arguments[3], path);

    let elsewhere = "/opt/somewhere/dash";

    assert_eq!(
        command(elsewhere, "code -w", path)[0],
        elsewhere,
        "the editor runs under the shell it was handed"
    );
}

#[test]
fn the_terminal_is_spoken_of_before_the_editor() {
    assert_eq!(outcome(false, false, None), Edited::NotReleased);
    assert_eq!(outcome(true, false, Some(false)), Edited::NotTaken);
    assert_eq!(outcome(true, true, None), Edited::NotRun);
    assert_eq!(outcome(true, true, Some(false)), Edited::Failed);
    assert_eq!(outcome(true, true, Some(true)), Edited::Done);
}
