//! Terminal notifications: which moments are announced, and what is written to
//! the terminal when one is.
//!
//! Whether anybody is watching is the caller's to know.

use vstd::prelude::*;

use crate::text::{self, drop_controls, first_line_of, from_chars, to_chars};

verus! {

/// Longest body an announcement carries.
pub const MAX_BODY: usize = 120;

/// A moment worth announcing.
#[derive(Clone, Copy, Debug, PartialEq, Eq, Structural)]
pub enum NotificationEvent {
    TurnComplete,
    ApprovalRequested,
}

/// How a moment is announced.
#[derive(Clone, Copy, Debug, PartialEq, Eq, Structural)]
pub enum NotificationMethod {
    /// An escape sequence that carries the summary.
    Osc9,
    /// The bell.
    Bel,
}

/// Which moments a configuration asks for.
#[derive(Clone, Debug, PartialEq, Eq)]
pub enum Notifications {
    Nothing,
    Everything,
    Only(Vec<NotificationEvent>),
}

impl Notifications {
    /// Whether a moment is asked for.
    pub open spec fn asks_for(self, event: NotificationEvent) -> bool {
        match self {
            Notifications::Nothing => false,
            Notifications::Everything => true,
            Notifications::Only(events) => events@.contains(event),
        }
    }

    /// Whether a moment is asked for; see [`Notifications::asks_for`].
    pub fn notifies(&self, event: NotificationEvent) -> (r: bool)
        ensures
            r == self.asks_for(event),
    {
        match self {
            Notifications::Nothing => false,
            Notifications::Everything => true,
            Notifications::Only(events) => {
                let mut i: usize = 0;
                while i < events.len()
                    invariant
                        i <= events@.len(),
                        *self == Notifications::Only(*events),
                        forall|k: int| 0 <= k < i ==> events@[k] != event,
                    decreases events.len() - i,
                {
                    if events[i] == event {
                        assert(events@.contains(events@[i as int]));
                        return true;
                    }
                    i += 1;
                }
                false
            },
        }
    }
}

/// The body an announcement of a summary carries: its first line, control
/// characters dropped, no longer than it may be.
pub open spec fn body_of(summary: Seq<char>) -> Seq<char> {
    let line = text::printable(text::first_line(summary));
    if line.len() > MAX_BODY {
        line.take(MAX_BODY as int)
    } else {
        line
    }
}

/// A body rides inside an escape sequence, so nothing in it can end or corrupt
/// that: it holds no control character, and is no longer than it may be.
pub proof fn law_a_body_cannot_break_its_escape(summary: Seq<char>)
    ensures
        forall|i: int|
            0 <= i < body_of(summary).len() ==> !text::control(#[trigger] body_of(summary)[i]),
        body_of(summary).len() <= MAX_BODY,
{
    let line = text::printable(text::first_line(summary));
    text::lemma_printable(text::first_line(summary));
    assert forall|i: int| 0 <= i < body_of(summary).len() implies !text::control(
        #[trigger] body_of(summary)[i],
    ) by {
        assert(body_of(summary)[i] == line[i]);
    }
}

/// The body of an announcement; see [`body_of`].
pub fn body(summary: &str) -> (s: String)
    ensures
        s@ == body_of(summary@),
{
    let mut kept = drop_controls(&first_line_of(&to_chars(summary)));
    let ghost whole = kept@;
    while kept.len() > MAX_BODY
        invariant
            kept@.len() <= whole.len(),
            kept@ == whole.take(kept@.len() as int),
            kept@.len() >= MAX_BODY || kept@.len() == whole.len(),
        decreases kept.len(),
    {
        let last = kept.pop();
        assert(kept@ =~= whole.take(kept@.len() as int));
    }
    assert(kept@ =~= body_of(summary@));
    from_chars(&kept)
}

/// Announces the moments a configuration asks for.
#[derive(Clone, Debug, PartialEq, Eq)]
pub struct Notifier {
    pub notifications: Notifications,
    pub method: NotificationMethod,
}

impl Default for Notifier {
    /// A notifier that announces nothing.
    fn default() -> (n: Notifier)
        ensures
            n.notifications == Notifications::Nothing,
            n.method == NotificationMethod::Osc9,
    {
        Notifier { notifications: Notifications::Nothing, method: NotificationMethod::Osc9 }
    }
}

impl Notifier {
    /// What is written to the terminal when a moment comes: nothing where it
    /// was not asked for.
    pub open spec fn announced(self, event: NotificationEvent, summary: Seq<char>) -> Seq<char> {
        if !self.notifications.asks_for(event) {
            Seq::empty()
        } else {
            match self.method {
                NotificationMethod::Osc9 => "\x1b]9;"@ + body_of(summary) + "\x07"@,
                NotificationMethod::Bel => "\x07"@,
            }
        }
    }

    /// What is written to the terminal when a moment comes; see
    /// [`Notifier::announced`].
    pub fn notify(&self, event: NotificationEvent, summary: &str) -> (escape: String)
        ensures
            escape@ == self.announced(event, summary@),
    {
        let mut escape = String::new();
        if self.notifications.notifies(event) {
            match self.method {
                NotificationMethod::Osc9 => {
                    escape.push_str("\x1b]9;");
                    escape.push_str(&body(summary));
                    escape.push_str("\x07");
                },
                NotificationMethod::Bel => escape.push_str("\x07"),
            }
        }
        assert(escape@ =~= self.announced(event, summary@));
        escape
    }
}

/// A sink that keeps everything it is handed.
#[derive(Clone, Debug, PartialEq, Eq)]
pub struct Capture {
    written: Vec<char>,
}

impl View for Capture {
    type V = Seq<char>;

    closed spec fn view(&self) -> Seq<char> {
        self.written@
    }
}

impl Default for Capture {
    fn default() -> (c: Capture)
        ensures
            c@ == Seq::<char>::empty(),
    {
        Capture { written: Vec::new() }
    }
}

impl Capture {
    /// Keeps what is written.
    pub fn write(&mut self, text: &str)
        ensures
            final(self)@ == old(self)@ + text@,
    {
        let ghost was = self.written@;
        let chars = to_chars(text);
        let mut i: usize = 0;
        assert(self.written@ =~= was + chars@.take(0));
        while i < chars.len()
            invariant
                i <= chars@.len(),
                self.written@ == was + chars@.take(i as int),
            decreases chars.len() - i,
        {
            self.written.push(chars[i]);
            i += 1;
            assert(self.written@ =~= was + chars@.take(i as int));
        }
        assert(chars@.take(i as int) =~= text@);
    }

    /// Everything written so far.
    pub fn log(&self) -> (s: String)
        ensures
            s@ == self@,
    {
        from_chars(&self.written)
    }
}

/// A summary of one line without control characters is announced as it is, as
/// far as its first 120 characters, and what stands on a later line is not.
pub proof fn law_a_plain_summary_is_announced(summary: Seq<char>, later: Seq<char>)
    requires
        forall|i: int|
            0 <= i < summary.len() ==> !text::control(#[trigger] summary[i]) && summary[i] != '\n',
    ensures
        summary.len() <= 120 ==> body_of(summary) == summary,
        summary.len() > 120 ==> body_of(summary) == summary.take(120),
        body_of(summary + seq!['\n'] + later) == body_of(summary),
{
    lemma_nothing_dropped(summary);
    text::lemma_first_of_unique(summary, '\n', summary.len() as int);
    assert(summary.take(summary.len() as int) =~= summary);
    let more = summary + seq!['\n'] + later;
    text::lemma_first_of_unique(more, '\n', summary.len() as int);
    assert(more.take(summary.len() as int) =~= summary);
}

proof fn lemma_nothing_dropped(s: Seq<char>)
    requires
        forall|i: int| 0 <= i < s.len() ==> !text::control(#[trigger] s[i]),
    ensures
        text::printable(s) == s,
    decreases s.len(),
{
    if s.len() > 0 {
        let front = s.drop_last();
        assert forall|i: int| 0 <= i < front.len() implies !text::control(#[trigger] front[i]) by {
            assert(front[i] == s[i]);
        }
        lemma_nothing_dropped(front);
        assert(!text::control(s[s.len() - 1]));
        assert(front.push(s.last()) =~= s);
    } else {
        assert(text::printable(s) =~= s);
    }
}

/// A moment is announced exactly where it is asked for: by the bell alone, or
/// by an escape sequence that the bell closes and that carries the body.
pub proof fn law_what_is_asked_for_is_announced(
    notifier: Notifier,
    event: NotificationEvent,
    summary: Seq<char>,
)
    ensures
        (notifier.announced(event, summary).len() > 0) == notifier.notifications.asks_for(event),
        notifier.notifications == Notifications::Nothing ==> !notifier.notifications.asks_for(
            event,
        ),
        notifier.notifications == Notifications::Everything ==> notifier.notifications.asks_for(
            event,
        ),
        notifier.notifications.asks_for(event) ==> ({
            let s = notifier.announced(event, summary);
            &&& s.last() == '\x07'
            &&& notifier.method == NotificationMethod::Bel ==> s.len() == 1
            &&& notifier.method == NotificationMethod::Osc9 ==> s.len() == body_of(summary).len() + 5
                && s.take(4) == seq!['\x1b', ']', '9', ';'] && s.subrange(4, s.len() - 1)
                == body_of(summary)
        }),
{
    reveal_strlit("\x1b]9;");
    reveal_strlit("\x07");
    let s = notifier.announced(event, summary);
    if notifier.notifications.asks_for(event) && notifier.method == NotificationMethod::Osc9 {
        assert(s.take(4) =~= seq!['\x1b', ']', '9', ';']);
        assert(s.subrange(4, s.len() - 1) =~= body_of(summary));
    }
}

} // verus!
