//! The theme picker: a dialog listing every theme this run can switch to.
//!
//! The dialog owns which name is under the cursor and nothing else: the caller
//! applies the theme under it as it moves, and puts back the initial one where
//! the choice is cancelled.

use vstd::prelude::*;

use crate::component::layout::{
    self, blank, body_rows, clamped, clip, first_visible, front_of, grow, line, push_left,
    push_line, Popup, PopupView, CHROME,
};
use crate::style::{self, Line, SpanView};
use crate::text::{self, str_eq};
use crate::theme::Theme;
use crate::width;

verus! {

/// Widest the dialog grows: a theme name is one short word.
pub const MAX_WIDTH: u16 = 40;

/// Tallest the dialog grows.
pub const MAX_HEIGHT: u16 = 20;

/// The keys the dialog answers to.
pub open spec fn hints() -> Seq<char> {
    "[j/k] [up/down] preview   [Enter] keep   [Esc] cancel"@
}

/// Where a name stands in a list, from `i` on; past the end where it does not.
pub open spec fn place_of(names: Seq<Seq<char>>, name: Seq<char>, i: nat) -> nat
    decreases names.len() - i,
{
    if i >= names.len() || names[i as int] == name {
        i
    } else {
        place_of(names, name, i + 1)
    }
}

/// The themes to choose between, and which one the cursor is on.
#[derive(Clone, Debug)]
pub struct ThemeList {
    names: Vec<String>,
    /// Index into the names; in range while there are any.
    selected: usize,
    /// What was active when the dialog opened, and what cancelling restores.
    initial: String,
}

/// The list as the contracts speak of it.
pub struct ThemeListView {
    pub names: Seq<Seq<char>>,
    pub selected: nat,
    pub initial: Seq<char>,
}

impl View for ThemeList {
    type V = ThemeListView;

    closed spec fn view(&self) -> ThemeListView {
        ThemeListView {
            names: text::texts(self.names@),
            selected: self.selected as nat,
            initial: self.initial@,
        }
    }
}

impl ThemeListView {
    /// The list over `names`, the cursor on the active one, or on the first
    /// where that is not in the list.
    pub open spec fn opened(names: Seq<Seq<char>>, active: Seq<char>) -> ThemeListView {
        let at = place_of(names, active, 0);
        ThemeListView {
            names,
            selected: if at < names.len() {
                at
            } else {
                0
            },
            initial: active,
        }
    }

    /// Whether the cursor is on a theme while there are any.
    pub open spec fn valid(self) -> bool {
        self.names.len() > 0 ==> self.selected < self.names.len()
    }

    /// The theme under the cursor.
    pub open spec fn chosen(self) -> Option<Seq<char>> {
        if self.selected < self.names.len() {
            Some(self.names[self.selected as int])
        } else {
            None
        }
    }

    /// The list after the cursor moved.
    pub open spec fn moved(self, delta: int) -> ThemeListView {
        ThemeListView {
            selected: layout::clamped_to(self.selected, delta, self.names.len()),
            ..self
        }
    }

    /// The row of one theme: the selected one is marked and filled.
    pub open spec fn row(self, i: int, columns: nat, theme: Theme) -> Seq<SpanView> {
        layout::plain_line(
            layout::left_aligned(
                layout::clipped(layout::front(i == self.selected) + self.names[i], columns),
                columns,
            ),
            if i == self.selected {
                theme.selection
            } else {
                theme.fg
            },
        )
    }

    /// The rows a window of `rows` shows.
    pub open spec fn rows(self, columns: nat, rows: nat, theme: Theme) -> Seq<Seq<SpanView>> {
        layout::window(
            Seq::new(self.names.len(), |i: int| self.row(i, columns, theme)),
            layout::first_shown(self.selected, rows),
            rows,
        )
    }

    /// The dialog in an area of `columns` by `rows` cells; none where the area
    /// is empty.
    pub open spec fn drawn(self, columns: u16, rows: u16, theme: Theme) -> Option<PopupView> {
        if columns == 0 || rows == 0 {
            None
        } else {
            let width = layout::extent(columns as nat, 4, MAX_WIDTH as nat);
            let height = layout::extent(rows as nat, 2, MAX_HEIGHT as nat);
            let inner = width::room(width, 2);
            Some(
                PopupView {
                    width,
                    height,
                    title: " themes "@,
                    lines: self.rows(
                        inner,
                        layout::left_for_list(height, CHROME as nat),
                        theme,
                    ).push(Seq::empty()).push(
                        layout::plain_line(layout::clipped(hints(), inner), theme.dim),
                    ),
                },
            )
        }
    }
}

proof fn lemma_place_of(names: Seq<Seq<char>>, name: Seq<char>, i: nat)
    requires
        i <= names.len(),
    ensures
        i <= place_of(names, name, i) <= names.len(),
        place_of(names, name, i) < names.len() ==> names[place_of(names, name, i) as int] == name,
        forall|k: int| i <= k < place_of(names, name, i) ==> names[k] != name,
    decreases names.len() - i,
{
    if i < names.len() && names[i as int] != name {
        lemma_place_of(names, name, i + 1);
    }
}

/// Opening the dialog previews nothing: where the active theme is in the list,
/// the cursor is on it.
pub proof fn law_opening_previews_nothing(names: Seq<Seq<char>>, active: Seq<char>)
    requires
        names.contains(active),
    ensures
        ThemeListView::opened(names, active).chosen() == Some(active),
{
    lemma_place_of(names, active, 0);
}

/// However the cursor moves, it stays on a theme of the list, and what
/// cancelling puts back stays what was active when the dialog opened.
pub proof fn law_browsing_costs_nothing(list: ThemeListView, delta: int)
    requires
        list.valid(),
    ensures
        list.moved(delta).valid(),
        list.names.len() > 0 ==> list.moved(delta).chosen() is Some,
        list.moved(delta).initial == list.initial,
        list.moved(delta).names == list.names,
{
}

impl ThemeList {
    /// Opens the list over `names`, with the cursor on `active`.
    pub fn new(names: Vec<String>, active: &str) -> (list: ThemeList)
        ensures
            list@ == ThemeListView::opened(text::texts(names@), active@),
            list@.valid(),
    {
        let ghost all = text::texts(names@);
        let mut at: usize = 0;
        while at < names.len() && !str_eq(&names[at], active)
            invariant
                at <= names@.len(),
                all == text::texts(names@),
                place_of(all, active@, 0) == place_of(all, active@, at as nat),
            decreases names.len() - at,
        {
            assert(all[at as int] == names@[at as int]@);
            at += 1;
        }
        if at < names.len() {
            assert(all[at as int] == active@);
        } else {
            at = 0;
        }
        ThemeList { names, selected: at, initial: active.to_string() }
    }

    /// The theme under the cursor; none when there is nothing to pick.
    pub fn selected(&self) -> (r: Option<&str>)
        ensures
            match r {
                Some(name) => self@.chosen() == Some(name@),
                None => self@.chosen() is None,
            },
    {
        if self.selected < self.names.len() {
            Some(self.names[self.selected].as_str())
        } else {
            None
        }
    }

    /// The theme cancelling puts back.
    pub fn initial(&self) -> (s: &str)
        ensures
            s@ == self@.initial,
    {
        self.initial.as_str()
    }

    /// Moves the cursor by `delta` rows, stopping at both ends.
    pub fn move_selection(&mut self, delta: isize)
        ensures
            final(self)@ == old(self)@.moved(delta as int),
    {
        self.selected = clamped(self.selected, delta, self.names.len());
    }

    /// Draws the dialog for an area of `columns` by `rows` cells.
    pub fn render(&self, columns: u16, rows: u16, theme: &Theme) -> (popup: Option<Popup>)
        ensures
            layout::popup_seen(popup) == self@.drawn(columns, rows, *theme),
    {
        if columns == 0 || rows == 0 {
            return None;
        }
        let width = grow(columns, 4, MAX_WIDTH);
        let height = grow(rows, 2, MAX_HEIGHT);
        let inner: usize = if width >= 2 {
            (width - 2) as usize
        } else {
            0
        };
        let mut lines = self.rows(inner, body_rows(height, CHROME), theme);
        push_line(&mut lines, blank());
        push_line(
            &mut lines,
            line(
                clip("[j/k] [up/down] preview   [Enter] keep   [Esc] cancel", inner),
                theme.dim,
            ),
        );
        Some(Popup { width, height, title: " themes ".to_string(), lines })
    }

    /// One line per visible theme; see [`ThemeListView::rows`].
    fn rows(&self, columns: usize, rows: usize, theme: &Theme) -> (lines: Vec<Line>)
        ensures
            style::line_views(lines@) == self@.rows(columns as nat, rows as nat, *theme),
    {
        let ghost all = Seq::new(
            self@.names.len(),
            |i: int| self@.row(i, columns as nat, *theme),
        );
        let first = first_visible(self.selected, rows);
        let mut lines: Vec<Line> = Vec::new();
        if first < self.names.len() {
            let end: usize = if rows >= self.names.len() - first {
                self.names.len()
            } else {
                first + rows
            };
            let mut i: usize = first;
            while i < end
                invariant
                    first <= i <= end <= self.names@.len(),
                    all == Seq::new(
                        self@.names.len(),
                        |i: int| self@.row(i, columns as nat, *theme),
                    ),
                    style::line_views(lines@) =~= all.subrange(first as int, i as int),
                decreases end - i,
            {
                let mut row = String::new();
                row.push_str(front_of(i == self.selected));
                row.push_str(&self.names[i]);
                let mut filled = String::new();
                push_left(&mut filled, &clip(&row, columns), columns);
                assert(self@.names[i as int] == self.names@[i as int]@);
                assert(filled@ =~= layout::left_aligned(
                    layout::clipped(
                        layout::front(i == self@.selected) + self@.names[i as int],
                        columns as nat,
                    ),
                    columns as nat,
                ));
                push_line(
                    &mut lines,
                    line(
                        filled,
                        if i == self.selected {
                            theme.selection
                        } else {
                            theme.fg
                        },
                    ),
                );
                i += 1;
                assert(style::line_views(lines@) =~= all.subrange(first as int, i as int));
            }
            assert(all.subrange(first as int, all.len() as int) =~= all.skip(first as int));
        }
        assert(style::line_views(lines@) =~= layout::window(all, first as nat, rows as nat));
        lines
    }
}

/// The dialog shows the themes around the cursor in their order, the one it is
/// on among them and marked, and the keys below.
pub proof fn law_the_chosen_theme_is_on_the_dialog(
    list: ThemeListView,
    columns: u16,
    rows: u16,
    theme: Theme,
)
    requires
        list.valid(),
        list.names.len() > 0,
        columns > 0,
        rows > 0,
    ensures
        list.drawn(columns, rows, theme) matches Some(popup) && ({
            let inner = width::room(popup.width, 2);
            let marked = layout::clipped(
                seq!['>', ' '] + list.names[list.selected as int],
                inner,
            );
            &&& 1 <= popup.width <= 40
            &&& 1 <= popup.height <= 20
            &&& columns > 44 ==> popup.width == 40
            &&& 4 < columns <= 44 ==> popup.width + 4 == columns
            &&& rows > 22 ==> popup.height == 20
            &&& 2 < rows <= 22 ==> popup.height + 2 == rows
            &&& popup.lines.len() >= 3
            &&& popup.lines.drop_last().drop_last().contains(
                layout::plain_line(layout::left_aligned(marked, inner), theme.selection),
            )
            &&& popup.lines.last() == layout::plain_line(
                layout::clipped("[j/k] [up/down] preview   [Enter] keep   [Esc] cancel"@, inner),
                theme.dim,
            )
        }),
{
    reveal_strlit("> ");
    assert("> "@ =~= seq!['>', ' ']);
    let popup = list.drawn(columns, rows, theme)->0;
    let inner = width::room(popup.width, 2);
    let n = layout::left_for_list(popup.height, 2);
    layout::law_the_cursor_is_always_shown(list.selected, n);
    let all = Seq::new(list.names.len(), |i: int| list.row(i, inner, theme));
    let first = layout::first_shown(list.selected, n);
    layout::law_a_window_shows_neighbours(all, first, n);
    let shown = list.rows(inner, n, theme);
    let at = list.selected - first;
    assert(shown[at] == all[first + at]);
    assert(popup.lines.drop_last().drop_last() =~= shown);
}

/// A theme that is not in the list puts the cursor on the first, and of two of
/// one name the first is found; what cancelling restores is what was active.
pub proof fn law_an_unlisted_theme_opens_at_the_top(names: Seq<Seq<char>>, active: Seq<char>, k: int)
    ensures
        !names.contains(active) ==> ThemeListView::opened(names, active).selected == 0,
        0 <= k < names.len() && names[k] == active ==> ThemeListView::opened(names, active).selected
            <= k,
        ThemeListView::opened(names, active).initial == active,
        ThemeListView::opened(names, active).names == names,
{
    lemma_place_of(names, active, 0);
}

} // verus!
