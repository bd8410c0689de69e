//! What the dialogs share: how a line is cut and padded to a width, how a
//! cursor moves and a list scrolls under it, and how large a dialog grows.

use vstd::prelude::*;

use crate::style::{self, Line, Span, SpanView, Style};
use crate::text::{from_chars, slice_chars, to_chars};
use crate::theme::Theme;
use crate::width::{self, chars_width, cut_at, repeat_char, str_width};

verus! {

/// Widest a dialog grows, whatever the terminal offers.
pub const MAX_WIDTH: u16 = 76;

/// Tallest a dialog grows, whatever the terminal offers.
pub const MAX_HEIGHT: u16 = 20;

/// Rows a dialog spends on something other than its list: a blank line and the
/// key reminders.
pub const CHROME: usize = 2;

/// What marks the row the cursor is on.
pub open spec fn marker() -> Seq<char> {
    "> "@
}

/// What stands in front of a row: the marker on the one the cursor is on, and
/// as much blank on every other.
pub open spec fn front(on: bool) -> Seq<char> {
    if on {
        marker()
    } else {
        "  "@
    }
}

/// What stands in front of a row; see [`front`].
pub fn front_of(on: bool) -> (s: &'static str)
    ensures
        s@ == front(on),
{
    if on {
        "> "
    } else {
        "  "
    }
}

/// A text cut to a width: whole where it fits, and otherwise as much of its
/// front as does, but never less than its first character and what is drawn as
/// one with it.
pub open spec fn clipped(text: Seq<char>, columns: nat) -> Seq<char> {
    if width::width_of(text) <= columns {
        text
    } else {
        text.take(width::cut(text, columns) as int)
    }
}

/// Cuts a text to a width; see [`clipped`].
pub fn clip(text: &str, columns: usize) -> (s: String)
    ensures
        s@ == clipped(text@, columns as nat),
{
    let chars = to_chars(text);
    if chars_width(&chars) <= columns {
        return from_chars(&chars);
    }
    let n = cut_at(&chars, columns);
    let kept = slice_chars(&chars, 0, n);
    assert(kept@ =~= text@.take(n as int));
    from_chars(&kept)
}

/// A text filled with blanks to a width, and as it is where it is wider.
pub open spec fn padded(text: Seq<char>, columns: nat) -> Seq<char> {
    text + width::repeated(' ', width::room(columns, width::width_of(text)))
}

/// Fills a text to a width; see [`padded`].
pub fn pad(text: &str, columns: usize) -> (s: String)
    ensures
        s@ == padded(text@, columns as nat),
{
    let used = str_width(text);
    let blanks: usize = if used <= columns {
        columns - used
    } else {
        0
    };
    let mut s = String::new();
    s.push_str(text);
    let fill = repeat_char(' ', blanks);
    s.push_str(&fill);
    assert(s@ =~= padded(text@, columns as nat));
    s
}

/// A text filled with blanks to a number of characters, behind it.
pub open spec fn left_aligned(text: Seq<char>, n: nat) -> Seq<char> {
    text + width::repeated(' ', width::room(n, text.len()))
}

/// A text filled with blanks to a number of characters, in front of it.
pub open spec fn right_aligned(text: Seq<char>, n: nat) -> Seq<char> {
    width::repeated(' ', width::room(n, text.len())) + text
}

/// Adds a text, filled behind; see [`left_aligned`].
pub fn push_left(out: &mut String, text: &str, n: usize)
    ensures
        final(out)@ == old(out)@ + left_aligned(text@, n as nat),
{
    let len = to_chars(text).len();
    out.push_str(text);
    let blanks: usize = if len <= n {
        n - len
    } else {
        0
    };
    out.push_str(&repeat_char(' ', blanks));
    assert(out@ =~= old(out)@ + left_aligned(text@, n as nat));
}

/// Adds a blank and a text, filled in front; see [`right_aligned`].
pub fn push_right(out: &mut String, text: &str, n: usize)
    ensures
        final(out)@ == old(out)@ + " "@ + right_aligned(text@, n as nat),
{
    let len = to_chars(text).len();
    let blanks: usize = if len <= n {
        n - len
    } else {
        0
    };
    out.push_str(" ");
    out.push_str(&repeat_char(' ', blanks));
    out.push_str(text);
    assert(out@ =~= old(out)@ + " "@ + right_aligned(text@, n as nat));
}

/// Where a cursor lands that moves by `delta` over the positions from zero to
/// `last`: it stops at either end.
pub open spec fn stepped(selected: nat, delta: int, last: nat) -> nat {
    if selected + delta < 0 {
        0
    } else if selected + delta > last {
        last
    } else {
        (selected + delta) as nat
    }
}

/// Moves a cursor; see [`stepped`].
pub fn step(selected: usize, delta: isize, last: usize) -> (n: usize)
    ensures
        n == stepped(selected as nat, delta as int, last as nat),
        n <= last,
{
    let target: i128 = selected as i128 + delta as i128;
    if target < 0 {
        0
    } else if target > last as i128 {
        last
    } else {
        target as usize
    }
}

/// Where a cursor lands in a list of `count` rows: clamped at both ends, and on
/// zero in a list of none.
pub open spec fn clamped_to(selected: nat, delta: int, count: nat) -> nat {
    stepped(selected, delta, if count == 0 {
        0
    } else {
        (count - 1) as nat
    })
}

/// Moves a cursor in a list; see [`clamped_to`].
pub fn clamped(selected: usize, delta: isize, count: usize) -> (n: usize)
    ensures
        n == clamped_to(selected as nat, delta as int, count as nat),
        count > 0 ==> n < count,
{
    step(selected, delta, if count == 0 {
        0
    } else {
        count - 1
    })
}

/// The first line of a list that shows `rows` of them with the selected one
/// among them.
pub open spec fn first_shown(selected: nat, rows: nat) -> nat {
    if selected < rows {
        0
    } else if rows == 0 {
        selected
    } else {
        (selected + 1 - rows) as nat
    }
}

/// The first line to show; see [`first_shown`].
pub fn first_visible(selected: usize, rows: usize) -> (n: usize)
    ensures
        n == first_shown(selected as nat, rows as nat),
{
    if selected < rows {
        0
    } else if rows == 0 {
        selected
    } else {
        selected - rows + 1
    }
}

/// The selected line is among the shown ones, whatever the list and the window,
/// as long as the window has a row at all.
pub proof fn law_the_cursor_is_always_shown(selected: nat, rows: nat)
    requires
        rows > 0,
    ensures
        first_shown(selected, rows) <= selected < first_shown(selected, rows) + rows,
{
}

/// A cursor that starts within a list stays within it, stops at the end it runs
/// against, and comes back by as much as it went where it did not.
pub proof fn law_the_cursor_stays_in_its_list(selected: nat, delta: int, last: nat)
    requires
        selected <= last,
    ensures
        stepped(selected, delta, last) <= last,
        0 <= selected + delta <= last ==> stepped(stepped(selected, delta, last), -delta, last)
            == selected,
        delta >= last ==> stepped(selected, delta, last) == last,
        -delta >= last ==> stepped(selected, delta, last) == 0,
{
}

/// Of `lines`, the window of `rows` of them from `first` on.
pub open spec fn window<A>(lines: Seq<A>, first: nat, rows: nat) -> Seq<A> {
    if first >= lines.len() {
        Seq::empty()
    } else if first + rows >= lines.len() {
        lines.skip(first as int)
    } else {
        lines.subrange(first as int, first as int + rows)
    }
}

/// Keeps a window of the lines; see [`window`].
pub fn show_window(lines: &Vec<Line>, first: usize, rows: usize) -> (shown: Vec<Line>)
    ensures
        style::line_views(shown@) == window(style::line_views(lines@), first as nat, rows as nat),
{
    let mut shown: Vec<Line> = Vec::new();
    let ghost all = style::line_views(lines@);
    if first < lines.len() {
        let end: usize = if rows >= lines.len() - first {
            lines.len()
        } else {
            first + rows
        };
        let mut i: usize = first;
        while i < end
            invariant
                first <= i <= end <= lines@.len(),
                all == style::line_views(lines@),
                style::line_views(shown@) =~= all.subrange(first as int, i as int),
            decreases end - i,
        {
            let ghost before = style::line_views(shown@);
            shown.push(lines[i].clone());
            assert(style::line_views(shown@) =~= before.push(all[i as int]));
            i += 1;
        }
        assert(all.subrange(first as int, all.len() as int) =~= all.skip(first as int));
    }
    assert(style::line_views(shown@) =~= window(all, first as nat, rows as nat));
    shown
}

/// The rows of a dialog this tall that are left for its list, behind the
/// border and `chrome` rows of its own: one at the least.
pub open spec fn left_for_list(height: nat, chrome: nat) -> nat {
    if height > 2 + chrome {
        (height - 2 - chrome) as nat
    } else {
        1
    }
}

/// The rows left for the list; see [`left_for_list`].
pub fn body_rows(height: u16, chrome: usize) -> (n: usize)
    ensures
        n == left_for_list(height as nat, chrome as nat),
        n > 0,
{
    if height > 2 && (height - 2) as usize > chrome {
        (height - 2) as usize - chrome
    } else {
        1
    }
}

/// How far a dialog grows into `offered` cells when it leaves `margin` of them
/// free: one cell at the least and `most` at the most.
pub open spec fn extent(offered: nat, margin: nat, most: nat) -> nat {
    let free = width::room(offered, margin);
    if free < 1 {
        1
    } else if free > most {
        most
    } else {
        free
    }
}

/// How far a dialog grows; see [`extent`].
pub fn grow(offered: u16, margin: u16, most: u16) -> (n: u16)
    requires
        most > 0,
    ensures
        n == extent(offered as nat, margin as nat, most as nat),
        0 < n <= most,
{
    let free: u16 = if offered >= margin {
        offered - margin
    } else {
        0
    };
    if free < 1 {
        1
    } else if free > most {
        most
    } else {
        free
    }
}

/// A dialog as it is drawn: its outer size, centered in the area it was given,
/// the title in its border, and the lines inside.
#[derive(Clone, Debug, PartialEq, Eq)]
pub struct Popup {
    pub width: u16,
    pub height: u16,
    pub title: String,
    pub lines: Vec<Line>,
}

/// A dialog as the contracts speak of it.
pub struct PopupView {
    pub width: nat,
    pub height: nat,
    pub title: Seq<char>,
    pub lines: Seq<Seq<SpanView>>,
}

impl View for Popup {
    type V = PopupView;

    open spec fn view(&self) -> PopupView {
        PopupView {
            width: self.width as nat,
            height: self.height as nat,
            title: self.title@,
            lines: style::line_views(self.lines@),
        }
    }
}

/// The view of an optional dialog.
pub open spec fn popup_seen(popup: Option<Popup>) -> Option<PopupView> {
    match popup {
        Some(popup) => Some(popup@),
        None => None,
    }
}

/// A line of one text in one style.
pub open spec fn plain_line(text: Seq<char>, style: Style) -> Seq<SpanView> {
    seq![SpanView { text, style }]
}

/// A line of one text in one style.
pub fn line(text: String, style: Style) -> (l: Line)
    ensures
        l@ == plain_line(text@, style),
{
    let l = Line { spans: vec![Span::styled(text, style)] };
    assert(l@ =~= plain_line(text@, style));
    l
}

/// A line with nothing on it.
pub fn blank() -> (l: Line)
    ensures
        l@ == Seq::<SpanView>::empty(),
{
    let l = Line { spans: Vec::new() };
    assert(l@ =~= Seq::empty());
    l
}

/// Adds a line to others.
pub fn push_line(lines: &mut Vec<Line>, l: Line)
    ensures
        style::line_views(final(lines)@) == style::line_views(old(lines)@).push(l@),
{
    lines.push(l);
    assert(style::line_views(lines@) =~= style::line_views(old(lines)@).push(l@));
}

/// Adds lines to others.
pub fn push_lines(lines: &mut Vec<Line>, more: Vec<Line>)
    ensures
        style::line_views(final(lines)@) == style::line_views(old(lines)@) + style::line_views(
            more@,
        ),
{
    let ghost was = style::line_views(lines@);
    let mut i: usize = 0;
    assert(was + style::line_views(more@).take(0) =~= was);
    while i < more.len()
        invariant
            i <= more@.len(),
            style::line_views(lines@) == was + style::line_views(more@).take(i as int),
        decreases more.len() - i,
    {
        push_line(lines, more[i].clone());
        assert(style::line_views(lines@) =~= was + style::line_views(more@).take(i + 1));
        i += 1;
    }
    assert(style::line_views(more@).take(i as int) =~= style::line_views(more@));
}

/// One choice of an action step: marked and in the selection's style where the
/// cursor is on it.
pub open spec fn action_line(
    index: nat,
    option: nat,
    label: Seq<char>,
    columns: nat,
    theme: Theme,
) -> Seq<SpanView> {
    plain_line(
        clipped(front(index == option) + label, columns),
        if index == option {
            theme.selection
        } else {
            theme.fg
        },
    )
}

/// One choice of an action step; see [`action_line`].
pub fn action_row(index: usize, option: usize, label: &str, columns: usize, theme: &Theme) -> (l:
    Line)
    ensures
        l@ == action_line(index as nat, option as nat, label@, columns as nat, *theme),
{
    let mut s = String::new();
    s.push_str(front_of(index == option));
    s.push_str(label);
    assert(s@ =~= front(index == option) + label@);
    line(
        clip(&s, columns),
        if index == option {
            theme.selection
        } else {
            theme.fg
        },
    )
}

/// What is cut is a front of the text: all of it where it fits, and otherwise
/// as much as fits, one character at the least.
pub proof fn law_a_clipped_text_is_its_longest_front(text: Seq<char>, columns: nat)
    ensures
        clipped(text, columns).len() <= text.len(),
        clipped(text, columns) == text.take(clipped(text, columns).len() as int),
        width::width_of(text) <= columns ==> clipped(text, columns) == text,
        width::width_of(text) > columns && 0 < clipped(text, columns).len() < text.len()
            ==> width::width_of(text.take(clipped(text, columns).len() as int + 1)) > columns,
        text.len() > 0 ==> clipped(text, columns).len() > 0,
        text.len() > 0 && width::width_of(text.take(1)) <= columns ==> width::width_of(
            clipped(text, columns),
        ) <= columns,
{
    if text.len() > 0 {
        width::law_a_cut_reaches_as_far_as_it_fits(text, columns);
    }
    assert(text.take(text.len() as int) =~= text);
}

/// Filling adds blanks and nothing else: behind a text, in front of it, and as
/// many as it lacks.
pub proof fn law_filling_adds_blanks(text: Seq<char>, n: nat)
    ensures
        left_aligned(text, n).take(text.len() as int) == text,
        forall|i: int|
            text.len() <= i < left_aligned(text, n).len() ==> #[trigger] left_aligned(text, n)[i]
                == ' ',
        right_aligned(text, n).skip(right_aligned(text, n).len() - text.len()) == text,
        forall|i: int|
            0 <= i < right_aligned(text, n).len() - text.len() ==> #[trigger] right_aligned(
                text,
                n,
            )[i] == ' ',
        text.len() <= n ==> left_aligned(text, n).len() == n && right_aligned(text, n).len() == n,
        text.len() > n ==> left_aligned(text, n) == text && right_aligned(text, n) == text,
        padded(text, n).take(text.len() as int) == text,
        forall|i: int|
            text.len() <= i < padded(text, n).len() ==> #[trigger] padded(text, n)[i] == ' ',
        width::width_of(text) <= n ==> padded(text, n).len() + width::width_of(text) == text.len()
            + n,
        width::width_of(text) > n ==> padded(text, n) == text,
{
    assert(left_aligned(text, n).take(text.len() as int) =~= text);
    assert(right_aligned(text, n).skip(right_aligned(text, n).len() - text.len()) =~= text);
    assert(padded(text, n).take(text.len() as int) =~= text);
    if text.len() > n {
        assert(left_aligned(text, n) =~= text);
        assert(right_aligned(text, n) =~= text);
    }
    if width::width_of(text) > n {
        assert(padded(text, n) =~= text);
    }
}

/// A list scrolls no further than it must: from the top while the cursor is
/// within the window, and then with the cursor on its last row.
pub proof fn law_a_list_scrolls_no_further_than_it_must(selected: nat, rows: nat)
    requires
        rows > 0,
    ensures
        selected < rows ==> first_shown(selected, rows) == 0,
        selected >= rows ==> first_shown(selected, rows) + rows == selected + 1,
{
}

/// A window shows neighbours in their order, as many as there are up to its
/// rows.
pub proof fn law_a_window_shows_neighbours<A>(lines: Seq<A>, first: nat, rows: nat)
    ensures
        first < lines.len() && first + rows <= lines.len() ==> window(lines, first, rows).len()
            == rows,
        first < lines.len() && first + rows > lines.len() ==> window(lines, first, rows).len()
            == lines.len() - first,
        first >= lines.len() ==> window(lines, first, rows).len() == 0,
        forall|i: int|
            0 <= i < window(lines, first, rows).len() ==> #[trigger] window(lines, first, rows)[i]
                == lines[first + i],
{
}

/// A dialog keeps its margin where it can, and grows neither beyond its limit
/// nor below one cell; its list has all rows but the border's and its own.
pub proof fn law_a_dialog_keeps_its_margin(offered: nat, margin: nat, most: nat)
    requires
        most > 0,
    ensures
        1 <= extent(offered, margin, most) <= most,
        margin < offered <= margin + most ==> extent(offered, margin, most) + margin == offered,
        offered > margin + most ==> extent(offered, margin, most) == most,
        offered <= margin ==> extent(offered, margin, most) == 1,
        offered > margin + 2 ==> left_for_list(offered, margin) + margin + 2 == offered,
        left_for_list(offered, margin) >= 1,
{
}

} // verus!
