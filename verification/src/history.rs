//! What the composer remembers across submissions, so that an Up-arrow on an
//! empty prompt brings the last one back.
//!
//! The store is a file of one JSON document per line. Reading and writing it,
//! and turning a line into a prompt and back, are the caller's: this module
//! frames the lines, keeps the entries, and says after every change what has to
//! be written.

use vstd::prelude::*;

use crate::text::{self, from_chars, slice_chars, split_chars, str_eq, to_chars};

verus! {

/// The most entries kept on disk and in memory.
pub const MAX_HISTORY_ENTRIES: usize = 50;

/// Which of the two things a remembered prompt did.
#[derive(Clone, Copy, Debug, PartialEq, Eq, Structural)]
pub enum Mode {
    /// Sent to the model.
    Normal,
    /// Run in the shell.
    Shell,
}

/// One remembered submission.
#[derive(Clone, Debug, PartialEq, Eq)]
pub struct PromptInfo {
    /// What was typed.
    pub input: String,
    /// Whether it was sent to the model or run in the shell, when that was not
    /// the default.
    pub mode: Option<Mode>,
    /// The non-text parts the prompt carried, each as a JSON document.
    pub parts: Vec<String>,
}

/// A submission as the contracts speak of it.
pub struct PromptView {
    pub input: Seq<char>,
    pub mode: Option<Mode>,
    pub parts: Seq<Seq<char>>,
}

impl View for PromptInfo {
    type V = PromptView;

    open spec fn view(&self) -> PromptView {
        PromptView { input: self.input@, mode: self.mode, parts: text::texts(self.parts@) }
    }
}

/// A plain text prompt.
pub open spec fn plain(input: Seq<char>) -> PromptView {
    PromptView { input, mode: None, parts: Seq::empty() }
}

impl PromptInfo {
    /// A plain text prompt, the shape a submission without attachments takes.
    pub fn text(input: String) -> (p: PromptInfo)
        ensures
            p@ == plain(input@),
    {
        let p = PromptInfo { input, mode: None, parts: Vec::new() };
        assert(p@.parts =~= Seq::empty());
        p
    }

    fn copy(&self) -> (p: PromptInfo)
        ensures
            p@ == self@,
    {
        let mut parts: Vec<String> = Vec::new();
        let mut i: usize = 0;
        while i < self.parts.len()
            invariant
                i <= self.parts@.len(),
                text::texts(parts@) =~= text::texts(self.parts@).take(i as int),
            decreases self.parts.len() - i,
        {
            let ghost before = text::texts(parts@);
            parts.push(self.parts[i].clone());
            assert(text::texts(parts@) =~= before.push(self.parts@[i as int]@));
            i += 1;
        }
        assert(text::texts(parts@) =~= text::texts(self.parts@));
        PromptInfo { input: self.input.clone(), mode: self.mode, parts }
    }

    fn same(&self, other: &PromptInfo) -> (r: bool)
        ensures
            r == (self@ == other@),
    {
        if self.mode != other.mode || !str_eq(&self.input, &other.input) || self.parts.len()
            != other.parts.len() {
            assert(self.parts@.len() != other.parts@.len() ==> self@.parts.len()
                != other@.parts.len());
            return false;
        }
        let mut i: usize = 0;
        while i < self.parts.len()
            invariant
                i <= self.parts@.len(),
                self.parts@.len() == other.parts@.len(),
                forall|k: int| 0 <= k < i ==> self@.parts[k] == other@.parts[k],
            decreases self.parts.len() - i,
        {
            if !str_eq(&self.parts[i], &other.parts[i]) {
                assert(self@.parts[i as int] != other@.parts[i as int]);
                return false;
            }
            assert(self@.parts[i as int] == other@.parts[i as int]);
            i += 1;
        }
        assert(self@.parts =~= other@.parts);
        true
    }
}

/// The direction a history walk moves: toward older entries or back toward the
/// live buffer.
#[derive(Clone, Copy, Debug, PartialEq, Eq, Structural)]
pub enum Direction {
    /// Up: one entry further back.
    Older,
    /// Down: one entry more recent, ending at the live buffer.
    Newer,
}

/// One remembered submission, and the instant it is dated to.
#[derive(Clone, Debug, PartialEq, Eq)]
pub struct Recalled {
    pub prompt: PromptInfo,
    /// Milliseconds since the Unix epoch.
    pub at: u64,
}

/// What has to be written after a change.
#[derive(Clone, Copy, Debug, PartialEq, Eq, Structural)]
pub enum Write {
    /// Nothing.
    Nothing,
    /// The newest entry, as a line behind what is in the file.
    Line,
    /// The whole file, from the retained entries.
    Everything,
}

/// The remembered prompts and where a walk through them currently sits.
#[derive(Clone, Debug)]
pub struct History {
    /// Oldest first.
    entries: Vec<PromptInfo>,
    /// The instant each entry is dated to.
    times: Vec<u64>,
    /// How far back the current walk has gone; zero is the live buffer.
    back: usize,
}

/// The history as the contracts speak of it.
#[verifier::ext_equal]
pub struct HistoryView {
    pub entries: Seq<PromptView>,
    pub times: Seq<u64>,
    pub back: nat,
}

/// The views of entries.
pub open spec fn entry_views(entries: Seq<PromptInfo>) -> Seq<PromptView> {
    Seq::new(entries.len(), |i: int| entries[i]@)
}

impl View for History {
    type V = HistoryView;

    closed spec fn view(&self) -> HistoryView {
        HistoryView {
            entries: entry_views(self.entries@),
            times: self.times@,
            back: self.back as nat,
        }
    }
}

/// The last of a list, as many as are kept.
pub open spec fn newest<A>(list: Seq<A>) -> Seq<A> {
    if list.len() > MAX_HISTORY_ENTRIES {
        list.skip(list.len() - MAX_HISTORY_ENTRIES)
    } else {
        list
    }
}

/// Of what lines were read as, the prompts.
pub open spec fn readable(lines: Seq<Option<PromptInfo>>) -> Seq<PromptView>
    decreases lines.len(),
{
    if lines.len() == 0 {
        Seq::empty()
    } else {
        match lines.last() {
            Some(prompt) => readable(lines.drop_last()).push(prompt@),
            None => readable(lines.drop_last()),
        }
    }
}

impl HistoryView {
    /// A history of nothing.
    pub open spec fn empty() -> HistoryView {
        HistoryView { entries: Seq::empty(), times: Seq::empty(), back: 0 }
    }

    /// What every history keeps: no more entries than there may be, a date for
    /// each of them, and a walk that is among them.
    pub open spec fn valid(self) -> bool {
        &&& self.entries.len() <= MAX_HISTORY_ENTRIES
        &&& self.times.len() == self.entries.len()
        &&& self.back <= self.entries.len()
    }

    /// The history a file holds, all of it dated to one instant.
    pub open spec fn loaded(lines: Seq<Option<PromptInfo>>, at: u64) -> HistoryView {
        let entries = newest(readable(lines));
        HistoryView { entries, times: Seq::new(entries.len(), |i: int| at), back: 0 }
    }

    /// The history after a submission at an instant: one that repeats the
    /// newest entry only ends the walk, and the oldest make room.
    pub open spec fn appended(self, entry: PromptView, at: u64) -> HistoryView {
        if self.entries.len() > 0 && self.entries.last() == entry {
            HistoryView { back: 0, ..self }
        } else {
            HistoryView {
                entries: newest(self.entries.push(entry)),
                times: newest(self.times.push(at)),
                back: 0,
            }
        }
    }

    /// What has to be written after a submission.
    pub open spec fn written(self, entry: PromptView) -> Write {
        if self.entries.len() > 0 && self.entries.last() == entry {
            Write::Nothing
        } else if self.entries.len() >= MAX_HISTORY_ENTRIES {
            Write::Everything
        } else {
            Write::Line
        }
    }

    /// The entry the place of the walk names, which an edited buffer is told by:
    /// the one that was recalled, and the oldest while nothing was.
    pub open spec fn named(self) -> PromptView {
        if self.back == 0 {
            self.entries[0]
        } else {
            self.entries[self.entries.len() - self.back]
        }
    }

    /// Whether a walk may start or go on over a buffer: one that is empty or
    /// still holds the entry the walk put there.
    pub open spec fn walks(self, buffer: Seq<char>) -> bool {
        self.entries.len() > 0 && (buffer.len() == 0 || self.named().input == buffer)
    }

    /// Where a step leaves the walk, where it can be taken.
    pub open spec fn next(self, direction: Direction) -> Option<nat> {
        match direction {
            Direction::Older => if self.back + 1 > self.entries.len() {
                None
            } else {
                Some(self.back + 1)
            },
            Direction::Newer => if self.back == 0 {
                None
            } else {
                Some((self.back - 1) as nat)
            },
        }
    }

    /// The history after a step over a buffer.
    pub open spec fn stepped(self, direction: Direction, buffer: Seq<char>) -> HistoryView {
        if !self.walks(buffer) {
            self
        } else {
            match self.next(direction) {
                Some(back) => HistoryView { back, ..self },
                None => self,
            }
        }
    }

    /// The prompt a step over a buffer shows: the entry it reaches, or an empty
    /// prompt where it reaches the live buffer; none where nothing moves.
    pub open spec fn shown(self, direction: Direction, buffer: Seq<char>) -> Option<PromptView> {
        if !self.walks(buffer) {
            None
        } else {
            match self.next(direction) {
                Some(back) => Some(
                    if back == 0 {
                        plain(Seq::empty())
                    } else {
                        self.entries[self.entries.len() - back]
                    },
                ),
                None => None,
            }
        }
    }
}

/// The view of an optional prompt.
pub open spec fn prompt_seen(prompt: Option<PromptInfo>) -> Option<PromptView> {
    match prompt {
        Some(prompt) => Some(prompt@),
        None => None,
    }
}

/// Whatever is loaded, submitted or walked, a history stays one.
pub proof fn law_a_history_stays_valid(
    history: HistoryView,
    lines: Seq<Option<PromptInfo>>,
    entry: PromptView,
    at: u64,
    direction: Direction,
    buffer: Seq<char>,
)
    requires
        history.valid(),
    ensures
        HistoryView::empty().valid(),
        HistoryView::loaded(lines, at).valid(),
        history.appended(entry, at).valid(),
        history.stepped(direction, buffer).valid(),
{
}

/// The newest submission is what the first Up-arrow on an empty prompt brings
/// back, and whatever came before stays in order behind it.
pub proof fn law_the_last_submission_comes_back(history: HistoryView, entry: PromptView, at: u64)
    requires
        history.valid(),
    ensures
        history.appended(entry, at).shown(Direction::Older, Seq::empty()) == Some(entry),
        history.appended(entry, at).entries.last() == entry,
        history.entries.len() < MAX_HISTORY_ENTRIES && !(history.entries.len() > 0
            && history.entries.last() == entry) ==> history.appended(entry, at).entries
            == history.entries.push(entry),
{
}

/// A step that shows an entry is undone by the step the other way, which shows
/// what was shown before: the entry the walk was at, or the live buffer.
pub proof fn law_down_undoes_up(history: HistoryView, buffer: Seq<char>)
    requires
        history.valid(),
        history.shown(Direction::Older, buffer) is Some,
    ensures
        ({
            let up = history.shown(Direction::Older, buffer).unwrap();
            let after = history.stepped(Direction::Older, buffer);
            &&& after.stepped(Direction::Newer, up.input) == history
            &&& after.shown(Direction::Newer, up.input) == Some(
                if history.back == 0 {
                    plain(Seq::empty())
                } else {
                    history.named()
                },
            )
        }),
{
}

/// A buffer the user has edited is theirs: an arrow moves nothing.
pub proof fn law_an_edited_buffer_is_left_alone(
    history: HistoryView,
    direction: Direction,
    buffer: Seq<char>,
)
    requires
        history.entries.len() > 0,
        buffer.len() > 0,
        history.named().input != buffer,
    ensures
        history.shown(direction, buffer) is None,
        history.stepped(direction, buffer) == history,
{
}

/// Whether no two entries in a row are the same.
pub open spec fn no_repeats(entries: Seq<PromptView>) -> bool {
    forall|i: int| 0 < i < entries.len() ==> #[trigger] entries[i] != entries[i - 1]
}

/// Submitting the same again and again stores it once.
pub proof fn law_repeats_are_stored_once(history: HistoryView, entry: PromptView, at: u64, then: u64)
    requires
        history.valid(),
    ensures
        history.appended(entry, at).appended(entry, then) == history.appended(entry, at),
        history.appended(entry, at).written(entry) == Write::Nothing,
        no_repeats(history.entries) ==> no_repeats(history.appended(entry, at).entries),
{
    let after = history.appended(entry, at).entries;
    if no_repeats(history.entries) && !(history.entries.len() > 0 && history.entries.last()
        == entry) {
        let all = history.entries.push(entry);
        assert(no_repeats(all));
        if all.len() > MAX_HISTORY_ENTRIES {
            let cut = all.len() - MAX_HISTORY_ENTRIES;
            assert forall|i: int| 0 < i < after.len() implies #[trigger] after[i] != after[i
                - 1] by {
                assert(after[i] == all[i + cut]);
                assert(after[i - 1] == all[i + cut - 1]);
            }
        }
    }
}

impl Default for History {
    fn default() -> (h: History)
        ensures
            h@ == HistoryView::empty(),
    {
        let h = History { entries: Vec::new(), times: Vec::new(), back: 0 };
        assert(h@ =~= HistoryView::empty());
        h
    }
}

impl History {
    /// Takes in what the lines of a file were read as, oldest first: a line
    /// that is no prompt is dropped, and only the last are kept. The second
    /// result says what has to be written, which heals a file that held
    /// anything else.
    pub fn load_from(lines: Vec<Option<PromptInfo>>, at: u64) -> (r: (History, Write))
        ensures
            r.0@ == HistoryView::loaded(lines@, at),
            r.0@.valid(),
            r.1 == (if readable(lines@).len() > 0 {
                Write::Everything
            } else {
                Write::Nothing
            }),
    {
        let mut all: Vec<PromptInfo> = Vec::new();
        let mut i: usize = 0;
        assert(entry_views(all@) =~= readable(lines@.take(0)));
        while i < lines.len()
            invariant
                i <= lines@.len(),
                entry_views(all@) == readable(lines@.take(i as int)),
            decreases lines.len() - i,
        {
            assert(lines@.take(i + 1).drop_last() =~= lines@.take(i as int));
            let ghost before = entry_views(all@);
            match &lines[i] {
                Some(prompt) => {
                    all.push(prompt.copy());
                    assert(entry_views(all@) =~= before.push(prompt@));
                },
                None => {},
            }
            i += 1;
        }
        assert(lines@.take(i as int) =~= lines@);
        let write = if all.len() > 0 {
            assert(entry_views(all@).len() > 0);
            Write::Everything
        } else {
            assert(entry_views(all@).len() == 0);
            Write::Nothing
        };
        let entries = keep_newest(all);
        let mut times: Vec<u64> = Vec::new();
        let mut i: usize = 0;
        while i < entries.len()
            invariant
                i <= entries@.len(),
                times@ =~= Seq::new(i as nat, |k: int| at),
            decreases entries.len() - i,
        {
            times.push(at);
            i += 1;
        }
        let history = History { entries, times, back: 0 };
        assert(history@ =~= HistoryView::loaded(lines@, at));
        (history, write)
    }

    /// Records `entry`, submitted at an instant, unless it repeats the last
    /// one. Answers what has to be written.
    pub fn append(&mut self, entry: PromptInfo, now: u64) -> (write: Write)
        requires
            old(self)@.valid(),
        ensures
            final(self)@ == old(self)@.appended(entry@, now),
            final(self)@.valid(),
            write == old(self)@.written(entry@),
    {
        let ghost was = self@;
        let n: usize = self.entries.len();
        if n > 0 && self.entries[n - 1].same(&entry) {
            assert(was.entries.last() == entry@);
            self.back = 0;
            assert(self@ =~= was.appended(entry@, now));
            return Write::Nothing;
        }
        if n > 0 {
            assert(was.entries.last() == self.entries@[n - 1]@);
        }
        let ghost view = entry@;
        self.entries.push(entry);
        self.times.push(now);
        self.back = 0;
        assert(entry_views(self.entries@) =~= was.entries.push(view));
        if self.entries.len() > MAX_HISTORY_ENTRIES {
            let first = self.entries.remove(0);
            let at = self.times.remove(0);
            assert(self@ =~= was.appended(view, now));
            return Write::Everything;
        }
        assert(self@ =~= was.appended(view, now));
        Write::Line
    }

    /// Every remembered submission, newest first.
    pub fn entries(&self) -> (out: Vec<Recalled>)
        requires
            self@.valid(),
        ensures
            out@.len() == self@.entries.len(),
            forall|i: int|
                0 <= i < out@.len() ==> {
                    &&& (#[trigger] out@[i]).prompt@ == self@.entries[self@.entries.len() - 1 - i]
                    &&& out@[i].at == self@.times[self@.entries.len() - 1 - i]
                },
    {
        let mut out: Vec<Recalled> = Vec::new();
        let mut n: usize = self.entries.len();
        while n > 0
            invariant
                n <= self.entries@.len(),
                self@.valid(),
                self@.entries == entry_views(self.entries@),
                self@.times == self.times@,
                out@.len() == self.entries@.len() - n,
                forall|i: int|
                    0 <= i < out@.len() ==> {
                        &&& (#[trigger] out@[i]).prompt@ == self@.entries[self@.entries.len() - 1
                            - i]
                        &&& out@[i].at == self@.times[self@.entries.len() - 1 - i]
                    },
            decreases n,
        {
            n -= 1;
            out.push(Recalled { prompt: self.entries[n].copy(), at: self.times[n] });
        }
        out
    }

    /// Walks one step over what the buffer holds and returns the prompt it
    /// should show; none when nothing moves.
    pub fn step(&mut self, direction: Direction, current_input: &str) -> (r: Option<PromptInfo>)
        requires
            old(self)@.valid(),
        ensures
            final(self)@ == old(self)@.stepped(direction, current_input@),
            final(self)@.valid(),
            prompt_seen(r) == old(self)@.shown(direction, current_input@),
    {
        let ghost was = self@;
        let n: usize = self.entries.len();
        if n == 0 {
            return None;
        }
        let at: usize = if self.back == 0 {
            0
        } else {
            n - self.back
        };
        assert(was.named() == self.entries@[at as int]@);
        if !current_input.is_empty() && !str_eq(&self.entries[at].input, current_input) {
            return None;
        }
        match direction {
            Direction::Older => {
                if self.back + 1 > n {
                    return None;
                }
                self.back = self.back + 1;
            },
            Direction::Newer => {
                if self.back == 0 {
                    return None;
                }
                self.back = self.back - 1;
            },
        }
        assert(self@ =~= was.stepped(direction, current_input@));
        if self.back == 0 {
            let blank = String::new();
            assert(blank@ =~= Seq::empty());
            return Some(PromptInfo::text(blank));
        }
        Some(self.entries[n - self.back].copy())
    }
}

/// Drops the oldest beyond what is kept; see [`newest`].
fn keep_newest(all: Vec<PromptInfo>) -> (out: Vec<PromptInfo>)
    ensures
        entry_views(out@) == newest(entry_views(all@)),
{
    let from: usize = if all.len() > MAX_HISTORY_ENTRIES {
        all.len() - MAX_HISTORY_ENTRIES
    } else {
        0
    };
    let mut out: Vec<PromptInfo> = Vec::new();
    let mut i: usize = from;
    while i < all.len()
        invariant
            from <= i <= all@.len(),
            entry_views(out@) =~= entry_views(all@).subrange(from as int, i as int),
        decreases all.len() - i,
    {
        let ghost before = entry_views(out@);
        out.push(all[i].copy());
        assert(entry_views(out@) =~= before.push(entry_views(all@)[i as int]));
        i += 1;
    }
    assert(entry_views(out@) =~= newest(entry_views(all@)));
    out
}

/// A line without the carriage return a line break may begin with.
pub open spec fn unreturned(line: Seq<char>) -> Seq<char> {
    if line.len() > 0 && line.last() == '\r' {
        line.drop_last()
    } else {
        line
    }
}

/// The lines of a file from `i` of its pieces on that hold anything.
pub open spec fn lines_from(pieces: Seq<Seq<char>>, i: nat) -> Seq<Seq<char>>
    decreases pieces.len() - i,
{
    if i >= pieces.len() {
        Seq::empty()
    } else {
        let line = if i + 1 < pieces.len() {
            unreturned(pieces[i as int])
        } else {
            pieces[i as int]
        };
        if line.len() == 0 {
            lines_from(pieces, i + 1)
        } else {
            seq![line] + lines_from(pieces, i + 1)
        }
    }
}

/// The lines of a file that hold anything, without their line breaks: what the
/// caller reads as prompts.
pub fn lines_of(body: &str) -> (lines: Vec<String>)
    ensures
        text::texts(lines@) == lines_from(text::split(body@, '\n'), 0),
{
    let pieces = split_chars(&to_chars(body), '\n');
    let ghost all = text::split(body@, '\n');
    let mut lines: Vec<String> = Vec::new();
    let mut i: usize = 0;
    assert(text::texts(lines@) + lines_from(all, 0) =~= lines_from(all, 0));
    while i < pieces.len()
        invariant
            i <= pieces@.len(),
            pieces@.len() == all.len(),
            forall|k: int| 0 <= k < pieces@.len() ==> (#[trigger] pieces@[k])@ == all[k],
            lines_from(all, 0) == text::texts(lines@) + lines_from(all, i as nat),
        decreases pieces.len() - i,
    {
        let piece = &pieces[i];
        let n: usize = piece.len();
        let end: usize = if i < pieces.len() - 1 && n > 0 && piece[n - 1] == '\r' {
            n - 1
        } else {
            n
        };
        let line = slice_chars(piece, 0, end);
        assert(line@ =~= (if i + 1 < all.len() {
            unreturned(all[i as int])
        } else {
            all[i as int]
        }));
        let ghost before = text::texts(lines@);
        if line.len() > 0 {
            lines.push(from_chars(&line));
            assert(text::texts(lines@) =~= before.push(line@));
            assert(before + (seq![line@] + lines_from(all, i as nat + 1)) =~= text::texts(lines@)
                + lines_from(all, i as nat + 1));
        }
        i += 1;
    }
    assert(text::texts(lines@) + lines_from(all, i as nat) =~= text::texts(lines@));
    lines
}

/// A file of these lines.
pub open spec fn file_of(lines: Seq<Seq<char>>) -> Seq<char>
    decreases lines.len(),
{
    if lines.len() == 0 {
        Seq::empty()
    } else {
        file_of(lines.drop_last()) + lines.last() + seq!['\n']
    }
}

/// The body of a file of these lines; see [`file_of`].
pub fn body_of(lines: &Vec<String>) -> (body: String)
    ensures
        body@ == file_of(text::texts(lines@)),
{
    let ghost all = text::texts(lines@);
    let mut body = String::new();
    let mut i: usize = 0;
    assert(body@ =~= file_of(all.take(0)));
    while i < lines.len()
        invariant
            i <= lines@.len(),
            all == text::texts(lines@),
            body@ == file_of(all.take(i as int)),
        decreases lines.len() - i,
    {
        body.push_str(&lines[i]);
        body.push('\n');
        assert(all.take(i + 1).drop_last() =~= all.take(i as int));
        assert(body@ =~= file_of(all.take(i + 1)));
        i += 1;
    }
    assert(all.take(i as int) =~= all);
    body
}

/// Whether a line holds anything, and no line break that would split it.
pub open spec fn sound_line(line: Seq<char>) -> bool {
    &&& line.len() > 0
    &&& line.last() != '\r'
    &&& forall|i: int| 0 <= i < line.len() ==> line[i] != '\n'
}

/// A file in the form in which a first line stands in front of the rest.
proof fn lemma_file_front(lines: Seq<Seq<char>>)
    requires
        lines.len() > 0,
    ensures
        file_of(lines) == lines[0] + seq!['\n'] + file_of(lines.skip(1)),
    decreases lines.len(),
{
    if lines.len() == 1 {
        assert(lines.drop_last() =~= Seq::empty());
        assert(lines.skip(1) =~= Seq::empty());
        assert(file_of(lines) =~= lines[0] + seq!['\n'] + file_of(lines.skip(1)));
    } else {
        lemma_file_front(lines.drop_last());
        assert(lines.skip(1).drop_last() =~= lines.drop_last().skip(1));
        assert(file_of(lines) =~= lines[0] + seq!['\n'] + file_of(lines.skip(1)));
    }
}

proof fn lemma_lines_shift(pieces: Seq<Seq<char>>, i: nat)
    requires
        i < pieces.len(),
    ensures
        lines_from(pieces, i + 1) == lines_from(pieces.skip(1), i),
    decreases pieces.len() - i,
{
    if i + 1 < pieces.len() {
        lemma_lines_shift(pieces, i + 1);
        assert(pieces.skip(1)[i as int] == pieces[i as int + 1]);
    }
}

/// What is written is read back: the lines of a file made of lines are those
/// lines.
pub proof fn law_written_lines_are_read_back(lines: Seq<Seq<char>>)
    requires
        forall|i: int| 0 <= i < lines.len() ==> sound_line(#[trigger] lines[i]),
    ensures
        lines_from(text::split(file_of(lines), '\n'), 0) == lines,
    decreases lines.len(),
{
    let body = file_of(lines);
    if lines.len() == 0 {
        text::lemma_first_of_unique(body, '\n', 0);
        assert(text::split(body, '\n') =~= seq![body]);
        reveal_with_fuel(lines_from, 2);
        assert(lines_from(text::split(body, '\n'), 0) =~= lines);
    } else {
        let rest = lines.skip(1);
        assert forall|i: int| 0 <= i < rest.len() implies sound_line(#[trigger] rest[i]) by {
            assert(rest[i] == lines[i + 1]);
        }
        law_written_lines_are_read_back(rest);
        lemma_file_front(lines);
        let first = lines[0];
        let n = first.len() as int;
        assert(sound_line(first));
        assert(body =~= first + seq!['\n'] + file_of(rest));
        text::lemma_first_of_unique(body, '\n', n);
        assert(body.take(n) =~= first);
        assert(body.skip(n + 1) =~= file_of(rest));
        let pieces = text::split(body, '\n');
        assert(pieces =~= seq![first] + text::split(file_of(rest), '\n'));
        assert(pieces.skip(1) =~= text::split(file_of(rest), '\n'));
        assert(pieces.len() > 1);
        lemma_lines_shift(pieces, 0);
        assert(lines =~= seq![first] + rest);
    }
}

/// A walk goes through the entries one by one, the newest first, and back to an
/// empty live buffer; it stops at either end.
pub proof fn law_a_walk_goes_entry_by_entry(history: HistoryView, buffer: Seq<char>)
    requires
        history.valid(),
        history.walks(buffer),
    ensures
        history.back < history.entries.len() ==> history.shown(Direction::Older, buffer) == Some(
            history.entries[history.entries.len() - 1 - history.back],
        ) && history.stepped(Direction::Older, buffer) == (HistoryView {
            back: history.back + 1,
            ..history
        }),
        history.back == history.entries.len() ==> history.shown(Direction::Older, buffer) is None
            && history.stepped(Direction::Older, buffer) == history,
        history.back > 1 ==> history.shown(Direction::Newer, buffer) == Some(
            history.entries[history.entries.len() + 1 - history.back],
        ) && history.stepped(Direction::Newer, buffer) == (HistoryView {
            back: (history.back - 1) as nat,
            ..history
        }),
        history.back == 1 ==> history.shown(Direction::Newer, buffer) == Some(plain(Seq::empty()))
            && history.stepped(Direction::Newer, buffer) == (HistoryView { back: 0, ..history }),
        history.back == 0 ==> history.shown(Direction::Newer, buffer) is None && history.stepped(
            Direction::Newer,
            buffer,
        ) == history,
{
}

/// An empty buffer always lets a walk start, and what a walk has put into the
/// buffer lets it go on.
pub proof fn law_what_was_recalled_can_be_walked_from(
    history: HistoryView,
    direction: Direction,
    buffer: Seq<char>,
)
    requires
        history.valid(),
        history.entries.len() > 0,
    ensures
        history.walks(Seq::empty()),
        history.shown(direction, buffer) matches Some(prompt) ==> history.stepped(
            direction,
            buffer,
        ).walks(prompt.input),
{
}

/// A history that is full forgets the oldest entry for a new one, and nothing
/// else; one that is not forgets nothing. Either way the walk is over.
pub proof fn law_only_the_oldest_makes_room(history: HistoryView, entry: PromptView, at: u64)
    requires
        history.valid(),
        history.entries.len() > 0 ==> history.entries.last() != entry,
    ensures
        history.entries.len() == 50 ==> history.appended(entry, at).entries
            == history.entries.skip(1).push(entry) && history.appended(entry, at).times
            == history.times.skip(1).push(at),
        history.entries.len() < 50 ==> history.appended(entry, at).entries == history.entries.push(
            entry,
        ) && history.appended(entry, at).times == history.times.push(at),
        history.entries.len() <= 50,
        history.appended(entry, at).back == 0,
{
    if history.entries.len() == 50 {
        assert(history.entries.push(entry).skip(1) =~= history.entries.skip(1).push(entry));
        assert(history.times.push(at).skip(1) =~= history.times.skip(1).push(at));
    }
}

/// What has to be written keeps the file and the history together: with the
/// line behind it that is asked for, a file is read as the history after the
/// submission, and it is left alone only where it already is.
pub proof fn law_the_file_follows_the_history(
    history: HistoryView,
    file: Seq<Option<PromptInfo>>,
    prompt: PromptInfo,
    at: u64,
    now: u64,
)
    requires
        history.valid(),
        HistoryView::loaded(file, at).entries == history.entries,
    ensures
        history.written(prompt@) == Write::Line ==> HistoryView::loaded(
            file.push(Some(prompt)),
            at,
        ).entries == history.appended(prompt@, now).entries,
        history.written(prompt@) == Write::Nothing ==> HistoryView::loaded(file, at).entries
            == history.appended(prompt@, now).entries,
        history.written(prompt@) == Write::Everything ==> history.appended(
            prompt@,
            now,
        ).entries.len() == 50 && history.appended(prompt@, now).entries.last() == prompt@,
{
    let longer = file.push(Some(prompt));
    assert(longer.drop_last() =~= file);
    assert(readable(longer) == readable(file).push(prompt@));
}

/// Of the lines of a file, those that are prompts are kept, in their order, and
/// of them the last fifty, all dated to one instant.
pub proof fn law_the_last_prompts_are_loaded(
    a: Seq<Option<PromptInfo>>,
    b: Seq<Option<PromptInfo>>,
    prompt: PromptInfo,
    at: u64,
    i: int,
)
    ensures
        readable(a + b) == readable(a) + readable(b),
        readable(seq![Some(prompt)]) == seq![prompt@],
        readable(seq![None]) == Seq::<PromptView>::empty(),
        readable(a).len() <= 50 ==> HistoryView::loaded(a, at).entries == readable(a),
        readable(a).len() > 50 ==> HistoryView::loaded(a, at).entries.len() == 50,
        0 <= i < HistoryView::loaded(a, at).entries.len() ==> HistoryView::loaded(a, at).entries[i]
            == readable(a)[readable(a).len() - HistoryView::loaded(a, at).entries.len() + i]
            && HistoryView::loaded(a, at).times[i] == at,
        HistoryView::loaded(a, at).back == 0,
    decreases b.len(),
{
    let one = seq![Some(prompt)];
    let none = seq![None::<PromptInfo>];
    assert(one.drop_last() =~= Seq::empty());
    assert(none.drop_last() =~= Seq::empty());
    assert(readable(Seq::empty()) =~= Seq::<PromptView>::empty());
    assert(readable(one) =~= seq![prompt@]);
    assert(readable(none) =~= Seq::<PromptView>::empty());
    if b.len() == 0 {
        assert(a + b =~= a);
        assert(readable(a) + readable(b) =~= readable(a));
    } else {
        law_the_last_prompts_are_loaded(a, b.drop_last(), prompt, at, i);
        assert((a + b).drop_last() =~= a + b.drop_last());
        assert(readable(a + b) =~= readable(a) + readable(b));
    }
}

/// How a line is ended does not matter: one that ends in a carriage return is
/// read as it is without, and an empty one is not read.
pub proof fn law_line_ends_do_not_matter(line: Seq<char>, rest: Seq<Seq<char>>)
    requires
        rest.len() > 0,
        line.len() > 0 ==> line.last() != '\r',
    ensures
        lines_from(seq![line.push('\r')] + rest, 0) == lines_from(seq![line] + rest, 0),
        line.len() == 0 ==> lines_from(seq![line] + rest, 0) == lines_from(rest, 0),
        line.len() > 0 ==> lines_from(seq![line] + rest, 0) == seq![line] + lines_from(rest, 0),
{
    let a = seq![line.push('\r')] + rest;
    let b = seq![line] + rest;
    assert(a.skip(1) =~= rest);
    assert(b.skip(1) =~= rest);
    lemma_lines_shift(a, 0);
    lemma_lines_shift(b, 0);
    assert(line.push('\r').drop_last() =~= line);
}

} // verus!
