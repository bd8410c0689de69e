//! The session picker: a dialog listing the stored sessions, newest first, by
//! what a person chooses by.

use vstd::prelude::*;

use crate::component::layout::{
    self, blank, body_rows, clamped, clip, first_visible, front_of, grow, line, pad, push_line,
    Popup, PopupView, CHROME, MAX_HEIGHT, MAX_WIDTH,
};
use crate::spell::{self, compact_tokens};
use crate::style::{self, Line, SpanView};
use crate::text::{self, drop_controls, from_chars, push_decimal, to_chars, trim_chars};
use crate::theme::Theme;
use crate::width::{self, str_width};

verus! {

/// A minute, in milliseconds.
pub const MINUTE: u64 = 60_000;

/// An hour, in milliseconds.
pub const HOUR: u64 = 3_600_000;

/// A day, in milliseconds.
pub const DAY: u64 = 86_400_000;

/// The keys the dialog answers to.
pub open spec fn hints() -> Seq<char> {
    "[j/k] [up/down] move   [Enter] open   [Esc] cancel"@
}

/// One stored session.
#[derive(Clone, Debug, PartialEq, Eq)]
pub struct SessionInfo {
    pub id: String,
    /// Its title, where it earned one.
    pub title: Option<String>,
    /// When it was last written, in milliseconds since the epoch.
    pub updated: u64,
    /// How many tokens it has spent.
    pub tokens: u64,
}

/// A session as the contracts speak of it.
pub struct SessionView {
    pub id: Seq<char>,
    pub title: Option<Seq<char>>,
    pub updated: nat,
    pub tokens: nat,
}

impl View for SessionInfo {
    type V = SessionView;

    open spec fn view(&self) -> SessionView {
        SessionView {
            id: self.id@,
            title: spell::seen(self.title),
            updated: self.updated as nat,
            tokens: self.tokens as nat,
        }
    }
}

/// The views of sessions.
pub open spec fn session_views(sessions: Seq<SessionInfo>) -> Seq<SessionView> {
    Seq::new(sessions.len(), |i: int| sessions[i]@)
}

/// How long ago something was, in the largest unit that it fills: nothing
/// under a minute is counted, and neither is what lies ahead.
pub open spec fn ago(now: nat, then: nat) -> Seq<char> {
    let elapsed = width::room(now, then);
    if elapsed < MINUTE {
        "just now"@
    } else if elapsed < HOUR {
        text::decimal(elapsed / MINUTE as nat) + "m ago"@
    } else if elapsed < DAY {
        text::decimal(elapsed / HOUR as nat) + "h ago"@
    } else {
        text::decimal(elapsed / DAY as nat) + "d ago"@
    }
}

/// How long ago something was; see [`ago`].
pub fn age(now: u64, then: u64) -> (s: String)
    ensures
        s@ == ago(now as nat, then as nat),
{
    let elapsed: u64 = if now >= then {
        now - then
    } else {
        0
    };
    if elapsed < MINUTE {
        return "just now".to_string();
    }
    let mut s = String::new();
    if elapsed < HOUR {
        push_decimal(&mut s, elapsed / MINUTE);
        s.push_str("m ago");
    } else if elapsed < DAY {
        push_decimal(&mut s, elapsed / HOUR);
        s.push_str("h ago");
    } else {
        push_decimal(&mut s, elapsed / DAY);
        s.push_str("d ago");
    }
    assert(s@ =~= ago(now as nat, then as nat));
    s
}

impl SessionView {
    /// What a session is listed by: its title, and its id where that is blank
    /// or missing. Neither can repaint the screen: control characters are left
    /// out.
    pub open spec fn label(self) -> Seq<char> {
        match self.title {
            Some(title) => if text::trim(title).len() > 0 {
                text::printable(title)
            } else {
                text::printable(self.id)
            },
            None => text::printable(self.id),
        }
    }

    /// What is said of a session behind its label.
    pub open spec fn details(self, now: nat) -> Seq<char> {
        "  "@ + ago(now, self.updated) + "  "@ + spell::compact(self.tokens) + " tokens"@
    }

    /// A session's row, before it is cut to the dialog: the label in as many
    /// columns as the rest leaves it.
    pub open spec fn text(self, on: bool, now: nat, columns: nat) -> Seq<char> {
        let left = width::room(width::room(columns, 2), width::width_of(self.details(now)));
        layout::front(on) + layout::padded(layout::clipped(self.label(), left), left)
            + self.details(now)
    }
}

impl SessionInfo {
    /// What a session is listed by; see [`SessionView::label`].
    fn label(&self) -> (s: String)
        ensures
            s@ == self@.label(),
    {
        if let Some(title) = &self.title {
            let chars = to_chars(title);
            if trim_chars(&chars).len() > 0 {
                return from_chars(&drop_controls(&chars));
            }
        }
        from_chars(&drop_controls(&to_chars(&self.id)))
    }

    /// What is said of a session; see [`SessionView::details`].
    fn details(&self, now: u64) -> (s: String)
        ensures
            s@ == self@.details(now as nat),
    {
        let mut s = String::new();
        s.push_str("  ");
        s.push_str(&age(now, self.updated));
        s.push_str("  ");
        s.push_str(&compact_tokens(self.tokens));
        s.push_str(" tokens");
        assert(s@ =~= self@.details(now as nat));
        s
    }

    /// A session's row; see [`SessionView::text`].
    fn text(&self, on: bool, now: u64, columns: usize) -> (s: String)
        ensures
            s@ == self@.text(on, now as nat, columns as nat),
    {
        let details = self.details(now);
        let used = str_width(&details);
        let room: usize = if columns >= 2 {
            columns - 2
        } else {
            0
        };
        let left: usize = if room >= used {
            room - used
        } else {
            0
        };
        let mut s = String::new();
        s.push_str(front_of(on));
        s.push_str(&pad(&clip(&self.label(), left), left));
        s.push_str(&details);
        assert(s@ =~= self@.text(on, now as nat, columns as nat));
        s
    }
}

/// The sessions to choose between, and which one the cursor is on.
#[derive(Clone, Debug)]
pub struct Sessions {
    entries: Vec<SessionInfo>,
    /// Index into the sessions; in range while there are any.
    selected: usize,
    /// What the sessions are aged against.
    now: u64,
}

/// The picker as the contracts speak of it.
pub struct SessionsView {
    pub entries: Seq<SessionView>,
    pub selected: nat,
    pub now: nat,
}

impl View for Sessions {
    type V = SessionsView;

    closed spec fn view(&self) -> SessionsView {
        SessionsView {
            entries: session_views(self.entries@),
            selected: self.selected as nat,
            now: self.now as nat,
        }
    }
}

impl SessionsView {
    /// Whether the cursor is on a session while there are any.
    pub open spec fn valid(self) -> bool {
        self.entries.len() > 0 ==> self.selected < self.entries.len()
    }

    /// The session under the cursor.
    pub open spec fn chosen(self) -> Option<SessionView> {
        if self.selected < self.entries.len() {
            Some(self.entries[self.selected as int])
        } else {
            None
        }
    }

    /// The picker after the cursor moved.
    pub open spec fn moved(self, delta: int) -> SessionsView {
        SessionsView {
            selected: layout::clamped_to(self.selected, delta, self.entries.len()),
            ..self
        }
    }

    /// The row of one session: the selected one is marked and filled.
    pub open spec fn row(self, i: int, columns: nat, theme: Theme) -> Seq<SpanView> {
        layout::plain_line(
            layout::padded(
                layout::clipped(
                    self.entries[i].text(i == self.selected, self.now, columns),
                    columns,
                ),
                columns,
            ),
            if i == self.selected {
                theme.selection
            } else {
                theme.fg
            },
        )
    }

    /// The rows a window of `rows` shows.
    pub open spec fn rows(self, columns: nat, rows: nat, theme: Theme) -> Seq<Seq<SpanView>> {
        layout::window(
            Seq::new(self.entries.len(), |i: int| self.row(i, columns, theme)),
            layout::first_shown(self.selected, rows),
            rows,
        )
    }

    /// The dialog in an area of `columns` by `rows` cells; none where the area
    /// is empty.
    pub open spec fn drawn(self, columns: u16, rows: u16, theme: Theme) -> Option<PopupView> {
        if columns == 0 || rows == 0 {
            None
        } else {
            let width = layout::extent(columns as nat, 4, MAX_WIDTH as nat);
            let height = layout::extent(rows as nat, 2, MAX_HEIGHT as nat);
            let inner = width::room(width, 2);
            Some(
                PopupView {
                    width,
                    height,
                    title: " sessions "@,
                    lines: self.rows(
                        inner,
                        layout::left_for_list(height, CHROME as nat),
                        theme,
                    ).push(Seq::empty()).push(
                        layout::plain_line(layout::clipped(hints(), inner), theme.dim),
                    ),
                },
            )
        }
    }
}

/// However the cursor moves, it stays on a session of the list, and the list
/// stays what it was.
pub proof fn law_the_cursor_stays_on_a_session(sessions: SessionsView, delta: int)
    requires
        sessions.valid(),
    ensures
        sessions.moved(delta).valid(),
        sessions.entries.len() > 0 ==> sessions.moved(delta).chosen() is Some,
        sessions.moved(delta).entries == sessions.entries,
{
}

/// No title can repaint the screen a person is choosing from: what a session is
/// listed by holds no control character.
pub proof fn law_a_label_holds_no_control(session: SessionView)
    ensures
        forall|i: int|
            0 <= i < session.label().len() ==> !text::control(#[trigger] session.label()[i]),
{
    text::lemma_printable(session.id);
    match session.title {
        Some(title) => text::lemma_printable(title),
        None => {},
    }
}

impl Sessions {
    /// Opens the picker over sessions, newest first, with the cursor on the
    /// newest.
    pub fn new(entries: Vec<SessionInfo>, now: u64) -> (sessions: Sessions)
        ensures
            sessions@ == (SessionsView {
                entries: session_views(entries@),
                selected: 0,
                now: now as nat,
            }),
            sessions@.valid(),
    {
        Sessions { entries, selected: 0, now }
    }

    /// Whether there is nothing to choose from.
    pub fn is_empty(&self) -> (r: bool)
        ensures
            r == (self@.entries.len() == 0),
    {
        self.entries.len() == 0
    }

    /// The session under the cursor; none when there is nothing to pick.
    pub fn selected(&self) -> (r: Option<&SessionInfo>)
        ensures
            match r {
                Some(info) => self@.chosen() == Some(info@),
                None => self@.chosen() is None,
            },
    {
        if self.selected < self.entries.len() {
            Some(&self.entries[self.selected])
        } else {
            None
        }
    }

    /// Moves the cursor by `delta` rows, stopping at both ends.
    pub fn move_selection(&mut self, delta: isize)
        ensures
            final(self)@ == old(self)@.moved(delta as int),
    {
        self.selected = clamped(self.selected, delta, self.entries.len());
    }

    /// Draws the dialog for an area of `columns` by `rows` cells.
    pub fn render(&self, columns: u16, rows: u16, theme: &Theme) -> (popup: Option<Popup>)
        ensures
            layout::popup_seen(popup) == self@.drawn(columns, rows, *theme),
    {
        if columns == 0 || rows == 0 {
            return None;
        }
        let width = grow(columns, 4, MAX_WIDTH);
        let height = grow(rows, 2, MAX_HEIGHT);
        let inner: usize = if width >= 2 {
            (width - 2) as usize
        } else {
            0
        };
        let mut lines = self.rows(inner, body_rows(height, CHROME), theme);
        push_line(&mut lines, blank());
        push_line(
            &mut lines,
            line(clip("[j/k] [up/down] move   [Enter] open   [Esc] cancel", inner), theme.dim),
        );
        Some(Popup { width, height, title: " sessions ".to_string(), lines })
    }

    /// One line per visible session; see [`SessionsView::rows`].
    fn rows(&self, columns: usize, rows: usize, theme: &Theme) -> (lines: Vec<Line>)
        ensures
            style::line_views(lines@) == self@.rows(columns as nat, rows as nat, *theme),
    {
        let ghost all = Seq::new(
            self@.entries.len(),
            |i: int| self@.row(i, columns as nat, *theme),
        );
        let first = first_visible(self.selected, rows);
        let mut lines: Vec<Line> = Vec::new();
        if first < self.entries.len() {
            let end: usize = if rows >= self.entries.len() - first {
                self.entries.len()
            } else {
                first + rows
            };
            let mut i: usize = first;
            while i < end
                invariant
                    first <= i <= end <= self.entries@.len(),
                    all == Seq::new(
                        self@.entries.len(),
                        |i: int| self@.row(i, columns as nat, *theme),
                    ),
                    style::line_views(lines@) =~= all.subrange(first as int, i as int),
                decreases end - i,
            {
                let text = self.entries[i].text(i == self.selected, self.now, columns);
                assert(self@.entries[i as int] == self.entries@[i as int]@);
                push_line(
                    &mut lines,
                    line(
                        pad(&clip(&text, columns), columns),
                        if i == self.selected {
                            theme.selection
                        } else {
                            theme.fg
                        },
                    ),
                );
                i += 1;
                assert(style::line_views(lines@) =~= all.subrange(first as int, i as int));
            }
            assert(all.subrange(first as int, all.len() as int) =~= all.skip(first as int));
        }
        assert(style::line_views(lines@) =~= layout::window(all, first as nat, rows as nat));
        lines
    }
}

/// How long ago a session was written, in its largest whole unit: minutes below
/// an hour, hours below a day, and days from then on; what is under a minute
/// old, or from the future, is just now.
pub proof fn law_ages_are_in_the_largest_unit(written: nat, d: nat, h: nat, m: nat, ms: nat)
    requires
        h < 24,
        m < 60,
        ms < 60_000,
    ensures
        ({
            let now = written + 86_400_000 * d + 3_600_000 * h + 60_000 * m + ms;
            &&& d > 0 ==> ago(now, written) == text::decimal(d) + "d ago"@
            &&& d == 0 && h > 0 ==> ago(now, written) == text::decimal(h) + "h ago"@
            &&& d == 0 && h == 0 && m > 0 ==> ago(now, written) == text::decimal(m) + "m ago"@
            &&& d == 0 && h == 0 && m == 0 ==> ago(now, written) == "just now"@
        }),
        ago(written, written + ms) == "just now"@,
{
    let elapsed = 86_400_000 * d + 3_600_000 * h + 60_000 * m + ms;
    assert(elapsed / 86_400_000 == d);
    if d == 0 {
        assert(elapsed / 3_600_000 == h);
        if h == 0 {
            assert(elapsed / 60_000 == m);
        }
    }
}

/// A session is listed by its title, as far as that says anything, and by its
/// id otherwise; neither loses anything but control characters.
pub proof fn law_a_session_is_listed_by_its_title(session: SessionView)
    ensures
        session.title matches Some(title) && !text::all_white(title) ==> session.label()
            == text::printable(session.title->0),
        session.title is None || text::all_white(session.title->0) ==> session.label()
            == text::printable(session.id),
{
    if let Some(title) = session.title {
        let n = text::law_trimming_keeps_what_is_between(title);
        let t = text::trim(title);
        if t.len() > 0 {
            assert(t[0] == title[n]);
        } else {
            assert(title =~= title.take(n) + title.skip(n));
            assert forall|i: int| 0 <= i < title.len() implies text::white_space(
                #[trigger] title[i],
            ) by {
                if i < n {
                    assert(title.take(n)[i] == title[i]);
                } else {
                    assert(title.skip(n)[i - n] == title[i]);
                }
            }
        }
    }
}

/// A row is marked where the cursor is on it, begins with what it is listed by
/// and ends with its age and what it has spent.
pub proof fn law_a_row_names_its_session(session: SessionView, on: bool, now: nat, columns: nat)
    ensures
        ({
            let row = session.text(on, now, columns);
            let details = "  "@ + ago(now, session.updated) + "  "@ + spell::compact(
                session.tokens,
            ) + " tokens"@;
            let left = width::room(width::room(columns, 2), width::width_of(details));
            &&& row[0] == (if on {
                '>'
            } else {
                ' '
            })
            &&& row[1] == ' '
            &&& row.len() >= 2 + details.len()
            &&& row.skip(row.len() - details.len()) == details
            &&& width::width_of(session.label()) <= left ==> row.len() == 2 + session.label().len()
                + left - width::width_of(session.label()) + details.len() && row.subrange(
                2,
                2 + session.label().len() as int,
            ) == session.label()
        }),
{
    reveal_strlit("> ");
    reveal_strlit("  ");
    let row = session.text(on, now, columns);
    let details = session.details(now);
    assert(row.skip(row.len() - details.len()) =~= details);
    let left = width::room(width::room(columns, 2), width::width_of(details));
    if width::width_of(session.label()) <= left {
        assert(row.subrange(2, 2 + session.label().len() as int) =~= session.label());
    }
}

/// The dialog shows the sessions around the cursor in their order, the one it
/// is on among them, and the keys below.
pub proof fn law_the_chosen_session_is_on_the_dialog(
    sessions: SessionsView,
    columns: u16,
    rows: u16,
    theme: Theme,
)
    requires
        sessions.valid(),
        sessions.entries.len() > 0,
        columns > 0,
        rows > 0,
    ensures
        sessions.drawn(columns, rows, theme) matches Some(popup) && ({
            let inner = width::room(popup.width, 2);
            &&& 1 <= popup.width <= 76
            &&& 1 <= popup.height <= 20
            &&& columns > 80 ==> popup.width == 76
            &&& 4 < columns <= 80 ==> popup.width + 4 == columns
            &&& rows > 22 ==> popup.height == 20
            &&& 2 < rows <= 22 ==> popup.height + 2 == rows
            &&& popup.lines.len() >= 3
            &&& popup.lines.drop_last().drop_last().contains(
                sessions.row(sessions.selected as int, inner, theme),
            )
            &&& popup.lines.last() == layout::plain_line(
                layout::clipped("[j/k] [up/down] move   [Enter] open   [Esc] cancel"@, inner),
                theme.dim,
            )
        }),
{
    let popup = sessions.drawn(columns, rows, theme)->0;
    let inner = width::room(popup.width, 2);
    let n = layout::left_for_list(popup.height, 2);
    layout::law_the_cursor_is_always_shown(sessions.selected, n);
    let all = Seq::new(sessions.entries.len(), |i: int| sessions.row(i, inner, theme));
    let first = layout::first_shown(sessions.selected, n);
    layout::law_a_window_shows_neighbours(all, first, n);
    let shown = sessions.rows(inner, n, theme);
    let at = sessions.selected - first;
    assert(shown[at] == all[first + at]);
    assert(popup.lines.drop_last().drop_last() =~= shown);
}

} // verus!
