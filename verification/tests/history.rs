use ganja_tui::history::{
    body_of, lines_of, Direction, History, Mode, PromptInfo, Recalled, Write, MAX_HISTORY_ENTRIES,
};
use serde_json::Value;

fn text(input: &str) -> PromptInfo {
    PromptInfo::text(input.to_owned())
}

/// A line of the file.
fn spelled(prompt: &PromptInfo) -> String {
    let mut line = serde_json::Map::new();
    line.insert("input".to_owned(), Value::String(prompt.input.clone()));
    match prompt.mode {
        Some(Mode::Shell) => {
            line.insert("mode".to_owned(), Value::String("shell".to_owned()));
        }
        Some(Mode::Normal) => {
            line.insert("mode".to_owned(), Value::String("normal".to_owned()));
        }
        None => {}
    }
    if !prompt.parts.is_empty() {
        let parts = prompt.parts.iter().filter_map(|part| serde_json::from_str(part).ok());
        line.insert("parts".to_owned(), Value::Array(parts.collect()));
    }
    Value::Object(line).to_string()
}

/// A line of the file, read.
fn read(line: &str) -> Option<PromptInfo> {
    let value: Value = serde_json::from_str(line).ok()?;
    Some(PromptInfo {
        input: value.get("input")?.as_str()?.to_owned(),
        mode: match value.get("mode").and_then(Value::as_str) {
            Some("shell") => Some(Mode::Shell),
            Some("normal") => Some(Mode::Normal),
            _ => None,
        },
        parts: match value.get("parts").and_then(Value::as_array) {
            Some(parts) => parts.iter().map(Value::to_string).collect(),
            None => Vec::new(),
        },
    })
}

/// What a file holds that can be read.
fn parse(body: &str) -> Vec<PromptInfo> {
    lines_of(body).iter().filter_map(|line| read(line)).collect()
}

/// A history over a file.
struct Store {
    history: History,
    file: String,
    clock: u64,
}

impl Store {
    fn new() -> Store {
        Store::over(String::new())
    }

    fn over(file: String) -> Store {
        let lines = lines_of(&file).iter().map(|line| read(line)).collect();
        let (history, write) = History::load_from(lines, 1_000);
        let mut store = Store { history, file, clock: 1_000 };
        store.write(write);
        store
    }

    fn write(&mut self, write: Write) {
        match write {
            Write::Nothing => {}
            Write::Line => {
                let newest = &self.history.entries()[0].prompt;
                self.file.push_str(&spelled(newest));
                self.file.push('\n');
            }
            Write::Everything => {
                let mut lines: Vec<String> =
                    self.history.entries().iter().map(|entry| spelled(&entry.prompt)).collect();
                lines.reverse();
                self.file = body_of(&lines);
            }
        }
    }

    fn append(&mut self, prompt: PromptInfo) {
        self.clock += 1;
        let write = self.history.append(prompt, self.clock);
        self.write(write);
    }

    fn step(&mut self, direction: Direction, current_input: &str) -> Option<PromptInfo> {
        self.history.step(direction, current_input)
    }

    fn entries(&self) -> Vec<Recalled> {
        self.history.entries()
    }
}

#[test]
fn a_submission_reads_back_on_the_next_load() {
    let mut history = Store::new();
    history.append(text("what does this crate do"));

    let mut reloaded = Store::over(history.file);
    assert_eq!(
        reloaded.step(Direction::Older, ""),
        Some(text("what does this crate do"))
    );
}

#[test]
fn fifty_one_submissions_keep_exactly_fifty() {
    let mut history = Store::new();

    for n in 0..=MAX_HISTORY_ENTRIES {
        history.append(text(&format!("prompt {n}")));
    }

    let on_disk = history.file.clone();
    assert_eq!(
        on_disk.lines().filter(|line| !line.is_empty()).count(),
        MAX_HISTORY_ENTRIES,
        "the cap holds on disk"
    );
    assert!(!on_disk.contains("\"prompt 0\""), "the oldest was dropped");
    assert!(
        on_disk.contains(&format!("\"prompt {MAX_HISTORY_ENTRIES}\"")),
        "the newest was kept"
    );
}

#[test]
fn a_corrupt_line_is_dropped_and_the_file_self_heals() {
    let mut history = Store::over(
        "{\"input\":\"good one\"}\nnot json at all\n{\"input\":\"good two\"}\n".to_owned(),
    );

    // The load kept the two that parsed and rewrote the file without the
    // corrupt line.
    let healed = history.file.clone();
    assert!(!healed.contains("not json at all"), "got:\n{healed}");
    assert_eq!(
        healed.lines().filter(|line| !line.is_empty()).count(),
        2,
        "only the two good lines remain:\n{healed}"
    );
    assert_eq!(
        history.step(Direction::Older, ""),
        Some(text("good two")),
        "the newest good line is reachable"
    );
}

#[test]
fn two_identical_submissions_store_once() {
    let mut history = Store::new();

    history.append(text("say it again"));
    history.append(text("say it again"));

    let on_disk = history.file.clone();
    assert_eq!(
        on_disk.lines().filter(|line| !line.is_empty()).count(),
        1,
        "the consecutive duplicate was suppressed:\n{on_disk}"
    );
}

#[test]
fn a_non_consecutive_repeat_is_stored_again() {
    let mut history = Store::new();

    history.append(text("first"));
    history.append(text("second"));
    history.append(text("first"));
    assert_eq!(history.entries().len(), 3);
}

#[test]
fn up_on_a_dirty_buffer_moves_nothing() {
    let mut history = Store::new();
    history.append(text("the stored one"));
    assert_eq!(history.step(Direction::Older, "a half-typed thought"), None);
}

#[test]
fn up_restores_the_last_prompt_and_down_returns_to_empty() {
    let mut history = Store::new();
    history.append(text("older"));
    history.append(text("newer"));

    assert_eq!(
        history.step(Direction::Older, ""),
        Some(text("newer")),
        "the first Up is the newest entry"
    );
    assert_eq!(
        history.step(Direction::Older, "newer"),
        Some(text("older")),
        "the second Up is the one before it"
    );
    assert_eq!(
        history.step(Direction::Older, "older"),
        None,
        "there is nothing older to reach"
    );
    assert_eq!(
        history.step(Direction::Newer, "older"),
        Some(text("newer")),
        "Down comes back toward the buffer"
    );
    assert_eq!(
        history.step(Direction::Newer, "newer"),
        Some(text("")),
        "and lands on the empty live buffer"
    );
}

#[test]
fn the_mode_survives_the_round_trip_and_the_empty_parts_stay_off_the_file() {
    let mut history = Store::new();
    history.append(PromptInfo {
        input: "ls -la".to_owned(),
        mode: Some(Mode::Shell),
        parts: Vec::new(),
    });

    let on_disk = history.file.clone();
    assert!(on_disk.contains("\"mode\":\"shell\""), "got:\n{on_disk}");
    assert!(
        !on_disk.contains("\"parts\""),
        "an empty parts vector is not written:\n{on_disk}"
    );

    let recalled = parse(&on_disk);
    assert_eq!(
        recalled.first().and_then(|e| e.mode),
        Some(Mode::Shell)
    );
}

#[test]
fn entries_reads_back_newest_first() {
    let mut history = Store::new();
    history.append(text("first"));
    history.append(text("second"));
    history.append(text("third"));

    let inputs: Vec<String> = history
        .entries()
        .into_iter()
        .map(|recalled| recalled.prompt.input)
        .collect();
    assert_eq!(inputs, ["third", "second", "first"]);
}

#[test]
fn entries_loaded_from_disk_share_one_dated_instant() {
    let history =
        Store::over("{\"input\":\"older\"}\n{\"input\":\"newer\"}\n".to_owned());
    let ats: Vec<u64> = history
        .entries()
        .into_iter()
        .map(|recalled| recalled.at)
        .collect();

    assert_eq!(ats.len(), 2);
    assert_eq!(ats[0], ats[1], "a load has one instant, not a spread");
    assert!(ats[0] > 0, "the file's last-write time reads as nonzero");
}

#[test]
fn an_appended_entry_is_never_dated_before_what_was_loaded() {
    let mut history = Store::over("{\"input\":\"loaded\"}\n".to_owned());
    let loaded_at = history.entries()[0].at;

    history.append(text("appended"));
    let entries = history.entries();

    assert_eq!(entries[0].prompt.input, "appended", "newest first");
    assert!(entries[0].at >= loaded_at);
}

#[test]
fn an_empty_store_has_no_entries() {
    let history = Store::new();

    assert!(history.entries().is_empty());
}

#[test]
fn a_file_of_lines_reads_back_as_them() {
    let lines = vec!["one".to_owned(), "two".to_owned()];
    assert_eq!(body_of(&lines), "one\ntwo\n");
    assert_eq!(lines_of("one\ntwo\n"), lines);
    assert_eq!(lines_of("one\n\ntwo"), lines);
    assert_eq!(lines_of(""), Vec::<String>::new());
    assert_eq!(body_of(&Vec::new()), "");
}

#[test]
fn a_change_says_what_has_to_be_written() {
    let mut history = History::default();
    assert_eq!(history.append(text("one"), 1), Write::Line);
    assert_eq!(history.append(text("one"), 2), Write::Nothing);
    for n in 0..MAX_HISTORY_ENTRIES - 1 {
        assert_eq!(history.append(text(&format!("prompt {n}")), 3), Write::Line);
    }
    assert_eq!(history.append(text("past the cap"), 4), Write::Everything);

    assert_eq!(History::load_from(Vec::new(), 1).1, Write::Nothing);
    assert_eq!(History::load_from(vec![None], 1).1, Write::Nothing);
    assert_eq!(History::load_from(vec![Some(text("one"))], 1).1, Write::Everything);
}

#[test]
fn an_append_ends_a_walk() {
    let mut history = Store::new();
    history.append(text("older"));
    history.append(text("newer"));
    history.step(Direction::Older, "");
    history.step(Direction::Older, "newer");
    history.append(text("newest"));

    assert_eq!(history.step(Direction::Older, ""), Some(text("newest")));
    assert_eq!(history.step(Direction::Newer, "newest"), Some(text("")));
    assert_eq!(history.step(Direction::Newer, ""), None);
}
