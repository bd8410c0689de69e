//! Tables: a grid whose cells are clipped, never wrapped.

use vstd::prelude::*;

use crate::markdown::styles::Styles;
use crate::markdown::wrap::{self, span_width, LineKind, LineView, MdLine, RULE_GLYPH};
use crate::style::{self, Span, SpanView};
use crate::text::{from_chars, slice_chars, to_chars};
use crate::width::{self, chars_width, cut_at, repeat_char};

verus! {

/// Columns a table cell may occupy before its content is clipped.
pub const TABLE_CELL_MAX: usize = 40;

/// The views of a row's cells.
pub open spec fn row_view(row: Seq<Vec<Span>>) -> Seq<Seq<SpanView>> {
    Seq::new(row.len(), |i: int| style::views(row[i]@))
}

/// The views of a table's rows.
pub open spec fn rows_view(rows: Seq<Vec<Vec<Span>>>) -> Seq<Seq<Seq<SpanView>>> {
    Seq::new(rows.len(), |i: int| row_view(rows[i]@))
}

/// How many columns a table has: as many as its longest row.
pub open spec fn column_count(rows: Seq<Seq<Seq<SpanView>>>) -> nat
    decreases rows.len(),
{
    if rows.len() == 0 {
        0
    } else {
        let front = column_count(rows.drop_last());
        if rows.last().len() > front {
            rows.last().len()
        } else {
            front
        }
    }
}

/// How wide a column is: as its widest cell, up to [`TABLE_CELL_MAX`], and one
/// at least.
pub open spec fn column_width(rows: Seq<Seq<Seq<SpanView>>>, column: int) -> nat
    decreases rows.len(),
{
    if rows.len() == 0 {
        1
    } else {
        let front = column_width(rows.drop_last(), column);
        let row = rows.last();
        let wide = if column < row.len() {
            let n = wrap::spans_width(row[column]);
            if n < TABLE_CELL_MAX {
                n
            } else {
                TABLE_CELL_MAX as nat
            }
        } else {
            0
        };
        if wide > front {
            wide
        } else {
            front
        }
    }
}

/// The widths of a table's columns.
pub open spec fn column_widths(rows: Seq<Seq<Seq<SpanView>>>) -> Seq<nat> {
    Seq::new(column_count(rows), |c: int| column_width(rows, c))
}

/// The inside of a border: a run of rule glyphs per column, joined by `middle`.
pub open spec fn border_text(widths: Seq<nat>, middle: char) -> Seq<char>
    decreases widths.len(),
{
    if widths.len() == 0 {
        Seq::empty()
    } else {
        let run = width::repeated(RULE_GLYPH, widths.last() + 2);
        if widths.len() == 1 {
            run
        } else {
            border_text(widths.drop_last(), middle).push(middle) + run
        }
    }
}

/// A horizontal border of the grid.
pub open spec fn border_line(
    widths: Seq<nat>,
    left: char,
    middle: char,
    right: char,
    styles: Styles,
) -> LineView {
    let text = (seq![left] + border_text(widths, middle)).push(right);
    wrap::bare_line(seq![SpanView { text, style: styles.chrome }], LineKind::Clip)
}

/// A cell being drawn: its spans so far and the columns they take.
pub struct Cell {
    pub spans: Seq<SpanView>,
    pub used: nat,
}

/// A cell from its `k`-th span on, clipped to `room` columns in all.
pub open spec fn cell_from(cell: Seq<SpanView>, room: nat, state: Cell, k: int) -> Cell
    decreases cell.len() - k,
{
    if k < 0 || k >= cell.len() || state.used >= room {
        state
    } else {
        let left = (room - state.used) as nat;
        let head = cell[k].text.take(width::cut(cell[k].text, left) as int);
        if width::width_of(head) > left {
            state
        } else {
            cell_from(
                cell,
                room,
                Cell {
                    spans: state.spans.push(SpanView { text: head, ..cell[k] }),
                    used: state.used + width::width_of(head),
                },
                k + 1,
            )
        }
    }
}

/// The cell at a column of a row; an absent one is empty.
pub open spec fn cell_at(row: Seq<Seq<SpanView>>, column: int) -> Seq<SpanView> {
    if column < row.len() {
        row[column]
    } else {
        Seq::empty()
    }
}

/// The spans of a grid row up to a column.
pub open spec fn grid_spans(
    row: Seq<Seq<SpanView>>,
    widths: Seq<nat>,
    styles: Styles,
    columns: int,
) -> Seq<SpanView>
    decreases columns,
{
    if columns <= 0 {
        Seq::empty()
    } else {
        let column = columns - 1;
        let front = grid_spans(row, widths, styles, column).push(
            SpanView { text: "\u{2502} "@, style: styles.chrome },
        );
        let cell = cell_from(
            cell_at(row, column),
            widths[column],
            Cell { spans: front, used: 0 },
            0,
        );
        cell.spans.push(
            SpanView {
                text: width::repeated(' ', width::room(widths[column], cell.used) + 1),
                style: styles.chrome,
            },
        )
    }
}

/// A row of the grid.
pub open spec fn grid_line(
    row: Seq<Seq<SpanView>>,
    widths: Seq<nat>,
    styles: Styles,
) -> LineView {
    wrap::bare_line(
        grid_spans(row, widths, styles, widths.len() as int).push(
            SpanView { text: "\u{2502}"@, style: styles.chrome },
        ),
        LineKind::Clip,
    )
}

/// The rows of the grid up to the `n`-th, a rule behind the first when more
/// follow.
pub open spec fn grid_body(rows: Seq<Seq<Seq<SpanView>>>, styles: Styles, n: int) -> Seq<LineView>
    decreases n,
{
    let widths = column_widths(rows);
    if n <= 0 {
        Seq::empty()
    } else {
        let front = grid_body(rows, styles, n - 1).push(grid_line(rows[n - 1], widths, styles));
        if n == 1 && rows.len() > 1 {
            front.push(border_line(widths, '\u{251c}', '\u{253c}', '\u{2524}', styles))
        } else {
            front
        }
    }
}

/// A whole table; one without rows is not drawn.
pub open spec fn table_view(rows: Seq<Seq<Seq<SpanView>>>, styles: Styles) -> Seq<LineView> {
    let widths = column_widths(rows);
    if rows.len() == 0 {
        Seq::empty()
    } else {
        (seq![border_line(widths, '\u{250c}', '\u{252c}', '\u{2510}', styles)] + grid_body(
            rows,
            styles,
            rows.len() as int,
        )).push(border_line(widths, '\u{2514}', '\u{2534}', '\u{2518}', styles))
    }
}

/// Column widths as plain numbers.
pub open spec fn as_nats(widths: Seq<usize>) -> Seq<nat> {
    Seq::new(widths.len(), |i: int| widths[i] as nat)
}

/// No column is wider than a cell may be.
proof fn lemma_width_bounded(rows: Seq<Seq<Seq<SpanView>>>, column: int)
    ensures
        1 <= column_width(rows, column) <= TABLE_CELL_MAX,
    decreases rows.len(),
{
    if rows.len() > 0 {
        lemma_width_bounded(rows.drop_last(), column);
    }
}

/// The widths of a table's columns; see [`column_widths`].
fn measure(rows: &Vec<Vec<Vec<Span>>>) -> (widths: Vec<usize>)
    ensures
        as_nats(widths@) == column_widths(rows_view(rows@)),
        forall|i: int| 0 <= i < widths@.len() ==> #[trigger] widths@[i] <= TABLE_CELL_MAX,
{
    let ghost all = rows_view(rows@);
    let mut columns: usize = 0;
    let mut i: usize = 0;
    while i < rows.len()
        invariant
            i <= rows@.len(),
            all == rows_view(rows@),
            columns == column_count(all.take(i as int)),
        decreases rows.len() - i,
    {
        assert(all.take(i + 1).drop_last() =~= all.take(i as int));
        assert(all.take(i + 1).last().len() == rows@[i as int]@.len());
        if rows[i].len() > columns {
            columns = rows[i].len();
        }
        i += 1;
    }
    assert(all.take(all.len() as int) =~= all);
    let mut widths: Vec<usize> = Vec::new();
    let mut column: usize = 0;
    while column < columns
        invariant
            column <= columns,
            columns == column_count(all),
            all == rows_view(rows@),
            widths@.len() == column,
            forall|c: int|
                0 <= c < column ==> #[trigger] widths@[c] as nat == column_width(all, c)
                    && widths@[c] <= TABLE_CELL_MAX,
        decreases columns - column,
    {
        let mut wide: usize = 1;
        let mut r: usize = 0;
        while r < rows.len()
            invariant
                r <= rows@.len(),
                all == rows_view(rows@),
                wide == column_width(all.take(r as int), column as int),
                wide <= TABLE_CELL_MAX,
            decreases rows.len() - r,
        {
            assert(all.take(r + 1).drop_last() =~= all.take(r as int));
            assert(all.take(r + 1).last() == row_view(rows@[r as int]@));
            if column < rows[r].len() {
                let mut n = span_width(&rows[r][column]);
                if n > TABLE_CELL_MAX {
                    n = TABLE_CELL_MAX;
                }
                if n > wide {
                    wide = n;
                }
            }
            r += 1;
        }
        assert(all.take(all.len() as int) =~= all);
        widths.push(wide);
        column += 1;
    }
    assert(as_nats(widths@) =~= column_widths(all));
    widths
}

/// A horizontal border of the grid; see [`border_line`].
fn border(widths: &Vec<usize>, left: char, middle: char, right: char, styles: &Styles) -> (line:
    MdLine)
    requires
        forall|i: int| 0 <= i < widths@.len() ==> #[trigger] widths@[i] <= TABLE_CELL_MAX,
    ensures
        line@ == border_line(as_nats(widths@), left, middle, right, *styles),
{
    let mut text = String::new();
    text.push(left);
    let ghost all = as_nats(widths@);
    let mut i: usize = 0;
    assert(text@ =~= seq![left] + border_text(all.take(0), middle));
    while i < widths.len()
        invariant
            i <= widths@.len(),
            all == as_nats(widths@),
            forall|k: int| 0 <= k < widths@.len() ==> #[trigger] widths@[k] <= TABLE_CELL_MAX,
            text@ == seq![left] + border_text(all.take(i as int), middle),
        decreases widths.len() - i,
    {
        let ghost before = border_text(all.take(i as int), middle);
        let ghost next = all.take(i + 1);
        assert(next.drop_last() =~= all.take(i as int));
        if i > 0 {
            text.push(middle);
        }
        let run = repeat_char(RULE_GLYPH, widths[i] + 2);
        text.push_str(&run);
        proof {
            assert(next.last() == widths@[i as int] as nat);
            if i > 0 {
                assert(text@ =~= seq![left] + (before.push(middle) + run@));
            } else {
                assert(before =~= Seq::empty());
                assert(text@ =~= seq![left] + run@);
            }
        }
        i += 1;
    }
    assert(all.take(all.len() as int) =~= all);
    text.push(right);
    let mut spans: Vec<Span> = Vec::new();
    spans.push(Span::styled(text, styles.chrome));
    assert(style::views(spans@) =~= seq![SpanView { text: text@, style: styles.chrome }]);
    MdLine::new(spans, LineKind::Clip)
}

/// Draws a cell clipped to `room` columns; returns the columns it takes.
fn draw_cell(cell: &Vec<Span>, room: usize, spans: &mut Vec<Span>) -> (used: usize)
    ensures
        cell_from(
            style::views(cell@),
            room as nat,
            Cell { spans: style::views(old(spans)@), used: 0 },
            0,
        ) == (Cell { spans: style::views(final(spans)@), used: used as nat }),
        used <= room,
{
    let mut used: usize = 0;
    let ghost all = style::views(cell@);
    let ghost start = Cell { spans: style::views(old(spans)@), used: 0 };
    let mut k: usize = 0;
    while k < cell.len()
        invariant
            k <= cell@.len(),
            used <= room,
            all == style::views(cell@),
            start == (Cell { spans: style::views(old(spans)@), used: 0 }),
            cell_from(all, room as nat, start, 0) == cell_from(
                all,
                room as nat,
                Cell { spans: style::views(spans@), used: used as nat },
                k as int,
            ),
        decreases cell.len() - k,
    {
        if used >= room {
            return used;
        }
        let left = room - used;
        let text = to_chars(&cell[k].content);
        let at = cut_at(&text, left);
        let head = slice_chars(&text, 0, at);
        assert(head@ =~= all[k as int].text.take(at as int));
        let columns = chars_width(&head);
        if columns > left {
            return used;
        }
        let ghost before = style::views(spans@);
        spans.push(Span::styled(from_chars(&head), cell[k].style));
        assert(style::views(spans@) =~= before.push(
            SpanView { text: head@, style: all[k as int].style },
        ));
        used += columns;
        k += 1;
    }
    used
}

/// A row of the grid; see [`grid_line`].
fn grid_row(row: &Vec<Vec<Span>>, widths: &Vec<usize>, styles: &Styles) -> (line: MdLine)
    requires
        forall|i: int| 0 <= i < widths@.len() ==> #[trigger] widths@[i] <= TABLE_CELL_MAX,
    ensures
        line@ == grid_line(row_view(row@), as_nats(widths@), *styles),
{
    let mut spans: Vec<Span> = Vec::new();
    let empty: Vec<Span> = Vec::new();
    let ghost cells = row_view(row@);
    let ghost all = as_nats(widths@);
    let mut i: usize = 0;
    assert(style::views(spans@) =~= Seq::empty());
    assert(style::views(empty@) =~= Seq::empty());
    while i < widths.len()
        invariant
            i <= widths@.len(),
            all == as_nats(widths@),
            cells == row_view(row@),
            style::views(empty@) == Seq::<SpanView>::empty(),
            forall|k: int| 0 <= k < widths@.len() ==> #[trigger] widths@[k] <= TABLE_CELL_MAX,
            style::views(spans@) == grid_spans(cells, all, *styles, i as int),
        decreases widths.len() - i,
    {
        let ghost before = style::views(spans@);
        spans.push(Span::styled("\u{2502} ".to_owned(), styles.chrome));
        assert(style::views(spans@) =~= before.push(
            SpanView { text: "\u{2502} "@, style: styles.chrome },
        ));
        let used = if i < row.len() {
            draw_cell(&row[i], widths[i], &mut spans)
        } else {
            draw_cell(&empty, widths[i], &mut spans)
        };
        let ghost drawn = style::views(spans@);
        let padding = repeat_char(' ', widths[i] - used + 1);
        spans.push(Span::styled(padding, styles.chrome));
        assert(style::views(spans@) =~= drawn.push(
            SpanView { text: padding@, style: styles.chrome },
        ));
        i += 1;
    }
    let ghost before = style::views(spans@);
    spans.push(Span::styled("\u{2502}".to_owned(), styles.chrome));
    assert(style::views(spans@) =~= before.push(
        SpanView { text: "\u{2502}"@, style: styles.chrome },
    ));
    MdLine::new(spans, LineKind::Clip)
}

/// Lays a table out as a grid; see [`table_view`].
pub fn table_lines(rows: &Vec<Vec<Vec<Span>>>, styles: &Styles) -> (lines: Vec<MdLine>)
    ensures
        wrap::md_views(lines@) == table_view(rows_view(rows@), *styles),
{
    let mut lines: Vec<MdLine> = Vec::new();
    let ghost all = rows_view(rows@);
    if rows.len() == 0 {
        assert(wrap::md_views(lines@) =~= Seq::empty());
        return lines;
    }
    let widths = measure(rows);
    let ghost top = border_line(
        column_widths(all),
        '\u{250c}',
        '\u{252c}',
        '\u{2510}',
        *styles,
    );
    lines.push(border(&widths, '\u{250c}', '\u{252c}', '\u{2510}', styles));
    assert(wrap::md_views(lines@) =~= seq![top] + grid_body(all, *styles, 0));
    let mut i: usize = 0;
    while i < rows.len()
        invariant
            i <= rows@.len(),
            all == rows_view(rows@),
            as_nats(widths@) == column_widths(all),
            forall|k: int| 0 <= k < widths@.len() ==> #[trigger] widths@[k] <= TABLE_CELL_MAX,
            wrap::md_views(lines@) == seq![top] + grid_body(all, *styles, i as int),
        decreases rows.len() - i,
    {
        let ghost before = grid_body(all, *styles, i as int);
        let ghost row = grid_line(all[i as int], column_widths(all), *styles);
        assert(all[i as int] == row_view(rows@[i as int]@));
        let ghost shown = wrap::md_views(lines@);
        lines.push(grid_row(&rows[i], &widths, styles));
        assert(wrap::md_views(lines@) =~= shown.push(row));
        assert(wrap::md_views(lines@) =~= seq![top] + before.push(row));
        if i == 0 && rows.len() > 1 {
            lines.push(border(&widths, '\u{251c}', '\u{253c}', '\u{2524}', styles));
            assert(wrap::md_views(lines@) =~= seq![top] + before.push(row).push(
                border_line(column_widths(all), '\u{251c}', '\u{253c}', '\u{2524}', *styles),
            ));
        }
        i += 1;
    }
    lines.push(border(&widths, '\u{2514}', '\u{2534}', '\u{2518}', styles));
    assert(wrap::md_views(lines@) =~= table_view(all, *styles));
    lines
}

} // verus!
