//! From the parser's events to logical lines, one top-level block at a time.
//!
//! A source line break inside a paragraph is a line break, text is drawn
//! verbatim, and neither emphasis, code nor heading markers reach the screen.

use vstd::prelude::*;

use crate::markdown::code::{self, highlight, plain_lines, RegionView, Syntaxes};
use crate::markdown::events::{self, EventView, Mark, MdEvent, Tag};
use crate::markdown::styles::Styles;
use crate::markdown::table::{self, table_lines};
use crate::markdown::wrap::{self, LineKind, LineView, MdLine};
use crate::style::{self, clone_spans, Span, SpanView, Style};
use crate::text::{
    self, from_chars, push_decimal, slice_bytes, split_chars, str_eq, to_chars, trim_start_chars,
};
use crate::width::{self, repeat_char, str_width};

verus! {

/// What rendering a block depends on.
pub struct Context {
    pub styles: Styles,
    pub source: Seq<char>,
    pub events: Seq<EventView>,
    pub table: Map<(Seq<char>, Seq<Seq<char>>), Seq<Seq<RegionView>>>,
}

impl Context {
    /// The mark of the event at a place, if there is one.
    pub open spec fn mark(self, at: int) -> Option<Mark> {
        if 0 <= at < self.events.len() {
            Some(self.events[at].mark)
        } else {
            None
        }
    }

    /// The place behind an event; the end has none behind it.
    pub open spec fn past(self, at: int) -> int {
        if at < self.events.len() {
            at + 1
        } else {
            at
        }
    }

    /// `next` where it lies ahead of `at`, the very next place where it does
    /// not.
    pub open spec fn onward(self, at: int, next: int) -> int {
        if at < next <= self.events.len() {
            next
        } else {
            at + 1
        }
    }
}

/// Whether an event belongs to the run of inline content, as opposed to being
/// the block boundary that ends it.
pub open spec fn inline_mark(mark: Mark) -> bool {
    match mark {
        Mark::Open(tag) => events::inline_tag(tag),
        Mark::Close(tag) => events::inline_tag(tag),
        Mark::Rule => false,
        _ => true,
    }
}

/// Inline content being rendered: the lines so far, the styles to return to,
/// the style in force, and the link that is open: its target, and where on the
/// line its label starts.
pub struct Inline {
    pub lines: Seq<Seq<SpanView>>,
    pub stack: Seq<Style>,
    pub style: Style,
    pub link: Option<(Seq<char>, nat)>,
}

/// Lines with a span added to the last one.
pub open spec fn with_span(lines: Seq<Seq<SpanView>>, span: SpanView) -> Seq<Seq<SpanView>> {
    lines.drop_last().push(lines.last().push(span))
}

/// Lines with the first `n` pieces of a text added: every piece but the first
/// starts a line, and an empty one adds nothing to it.
pub open spec fn with_pieces(
    lines: Seq<Seq<SpanView>>,
    pieces: Seq<Seq<char>>,
    n: int,
    style: Style,
) -> Seq<Seq<SpanView>>
    decreases n,
{
    if n <= 0 {
        lines
    } else {
        let front = with_pieces(lines, pieces, n - 1, style);
        let opened = if n > 1 {
            front.push(Seq::empty())
        } else {
            front
        };
        let piece = pieces[n - 1];
        if piece.len() == 0 {
            opened
        } else {
            with_span(opened, SpanView { text: piece, style })
        }
    }
}

/// Lines with a text added verbatim, split only where it carries a newline.
pub open spec fn with_text(
    lines: Seq<Seq<SpanView>>,
    text: Seq<char>,
    style: Style,
) -> Seq<Seq<SpanView>> {
    let pieces = text::split(text, '\n');
    with_pieces(lines, pieces, pieces.len() as int, style)
}

/// The style to return to at a closing tag.
pub open spec fn popped(state: Inline, body: Style) -> Inline {
    if state.stack.len() > 0 {
        Inline { stack: state.stack.drop_last(), style: state.stack.last(), ..state }
    } else {
        Inline { style: body, ..state }
    }
}

/// The style in force pushed aside for another.
pub open spec fn pushed(state: Inline, style: Style) -> Inline {
    Inline { stack: state.stack.push(state.style), style, ..state }
}

/// What the spans of a line from the `from`-th on read as.
pub open spec fn label(spans: Seq<SpanView>, from: nat) -> Seq<char> {
    style::text_of(
        spans.skip(
            if from < spans.len() {
                from as int
            } else {
                spans.len() as int
            },
        ),
    )
}

/// A link closed: its target behind its label, unless the label is the target.
pub open spec fn unlinked(styles: Styles, state: Inline) -> Inline {
    match state.link {
        Some((url, from)) => if label(state.lines.last(), from) == url {
            Inline { link: None, ..state }
        } else {
            let text = (" ("@ + url).push(')');
            Inline {
                link: None,
                lines: with_span(
                    state.lines,
                    SpanView { text, style: styles.link.as_underlined() },
                ),
                ..state
            }
        },
        None => state,
    }
}

/// The checkbox of a task list item.
pub open spec fn checkbox(checked: bool) -> Seq<char> {
    if checked {
        "[x] "@
    } else {
        "[ ] "@
    }
}

/// What one event does to inline content.
pub open spec fn inline_step(
    styles: Styles,
    body: Style,
    event: EventView,
    state: Inline,
) -> Inline {
    match event.mark {
        Mark::Close(tag) => if tag == Tag::Emphasis || tag == Tag::Strong || tag
            == Tag::Strikethrough {
            popped(state, body)
        } else if tag == Tag::Link || tag == Tag::Image {
            unlinked(styles, popped(state, body))
        } else {
            state
        },
        Mark::Open(tag) => if tag == Tag::Emphasis {
            pushed(state, styles.emph.as_italic())
        } else if tag == Tag::Strong {
            pushed(state, styles.strong.as_bold())
        } else if tag == Tag::Strikethrough {
            pushed(state, styles.muted.as_crossed_out())
        } else if tag == Tag::Link || tag == Tag::Image {
            Inline {
                link: Some((event.text, state.lines.last().len())),
                ..pushed(state, styles.link_text.as_underlined())
            }
        } else {
            state
        },
        Mark::Text => Inline { lines: with_text(state.lines, event.text, state.style), ..state },
        Mark::InlineHtml => Inline {
            lines: with_text(state.lines, event.text, state.style),
            ..state
        },
        Mark::Html => Inline { lines: with_text(state.lines, event.text, state.style), ..state },
        Mark::Code => Inline { lines: with_text(state.lines, event.text, styles.code), ..state },
        Mark::SoftBreak => Inline { lines: state.lines.push(Seq::empty()), ..state },
        Mark::HardBreak => Inline { lines: state.lines.push(Seq::empty()), ..state },
        Mark::Task(checked) => Inline {
            lines: with_span(
                state.lines,
                SpanView { text: checkbox(checked), style: styles.list_item },
            ),
            ..state
        },
        Mark::Other => state,
        Mark::Rule => state,
    }
}

/// Inline content from a place up to the first event that is not inline, and
/// where that one stands.
pub open spec fn inlined(c: Context, body: Style, at: int, state: Inline) -> (Inline, int)
    decreases c.events.len() - at,
{
    if at < 0 || at >= c.events.len() || !inline_mark(c.events[at].mark) {
        (state, at)
    } else {
        inlined(c, body, at + 1, inline_step(c.styles, body, c.events[at], state))
    }
}

/// Inline content before its first event: one empty line.
pub open spec fn inline_start(body: Style) -> Inline {
    Inline { lines: seq![Seq::empty()], stack: Seq::empty(), style: body, link: None }
}

/// Inline content ends at or behind where it starts, and within the events.
pub proof fn lemma_inlined_forward(c: Context, body: Style, at: int, state: Inline)
    requires
        at <= c.events.len(),
    ensures
        at <= inlined(c, body, at, state).1 <= c.events.len(),
    decreases c.events.len() - at,
{
    if at < 0 || at >= c.events.len() || !inline_mark(c.events[at].mark) {
    } else {
        lemma_inlined_forward(c, body, at + 1, inline_step(c.styles, body, c.events[at], state));
    }
}

/// Lines of prose.
pub open spec fn prose(lines: Seq<Seq<SpanView>>) -> Seq<LineView> {
    Seq::new(lines.len(), |i: int| wrap::bare_line(lines[i], LineKind::Flow))
}

/// A blank line.
pub open spec fn blank() -> LineView {
    wrap::bare_line(Seq::empty(), LineKind::Flow)
}

/// The style of a heading: bold, the first level underlined too.
pub open spec fn heading(styles: Styles, level: Option<u64>) -> Style {
    if level == Some(1u64) {
        styles.heading.as_bold().as_underlined()
    } else {
        styles.heading.as_bold()
    }
}

/// A quoted line: the border in front of everything else.
pub open spec fn quoted_line(line: LineView, styles: Styles) -> LineView {
    LineView {
        prefix: seq![
            SpanView { text: "\u{258c}"@, style: styles.chrome },
            SpanView { text: " "@, style: styles.chrome },
        ] + line.prefix,
        ..line
    }
}

/// Quoted lines.
pub open spec fn quoted(lines: Seq<LineView>, styles: Styles) -> Seq<LineView> {
    Seq::new(lines.len(), |i: int| quoted_line(lines[i], styles))
}

/// A line that a marker leads, and the lines of its continuation hang under.
pub open spec fn led(line: LineView, marker: Seq<char>, style: Style) -> LineView {
    LineView {
        spans: seq![SpanView { text: marker, style }] + line.spans,
        hang: width::columns(line.hang, width::width_of(marker)),
        ..line
    }
}

/// The indent that stands in for a marker on an item's later lines.
pub open spec fn filler(marker: Seq<char>) -> SpanView {
    SpanView { text: width::repeated(' ', width::width_of(marker)), style: Style::plain() }
}

/// An item's lines hung off its marker.
pub open spec fn indented(lines: Seq<LineView>, marker: Seq<char>, style: Style) -> Seq<LineView> {
    Seq::new(
        lines.len(),
        |i: int|
            if i == 0 {
                led(lines[i], marker, style)
            } else {
                LineView { prefix: seq![filler(marker)] + lines[i].prefix, ..lines[i] }
            },
    )
}

/// A task's lines hung off its checkbox.
pub open spec fn ticked(lines: Seq<LineView>, marker: Seq<char>, style: Style) -> Seq<LineView> {
    Seq::new(
        lines.len(),
        |i: int|
            if i == 0 {
                led(lines[i], marker, style)
            } else {
                LineView { prefix: lines[i].prefix.push(filler(marker)), ..lines[i] }
            },
    )
}

/// The first `.` or `)` of a text, `.` where there is none.
pub open spec fn delimiter(text: Seq<char>) -> char
    decreases text.len(),
{
    if text.len() == 0 {
        '.'
    } else if text[0] == '.' || text[0] == ')' {
        text[0]
    } else {
        delimiter(text.skip(1))
    }
}

/// The bullet a text starts with, `-` where it starts with none.
pub open spec fn bullet(text: Seq<char>) -> char {
    if text.len() > 0 && (text[0] == '-' || text[0] == '*' || text[0] == '+') {
        text[0]
    } else {
        '-'
    }
}

/// An item's own source, without the indent that positioned it.
pub open spec fn item_text(c: Context, at: int) -> Seq<char> {
    if 0 <= at < c.events.len() {
        match text::byte_slice(c.source, c.events[at].start, c.events[at].end) {
            Some(part) => text::trim_start(part),
            None => Seq::empty(),
        }
    } else {
        Seq::empty()
    }
}

/// The marker of an item: its number and the delimiter its source wrote, or
/// the bullet its source wrote.
pub open spec fn item_marker(c: Context, at: int, number: Option<u64>) -> Seq<char> {
    match number {
        Some(n) => text::decimal(n as nat).push(delimiter(item_text(c, at))).push(' '),
        None => seq![bullet(item_text(c, at)), ' '],
    }
}

/// The number behind a number, the largest behind itself.
pub open spec fn successor(number: Option<u64>) -> Option<u64> {
    match number {
        Some(n) if n < u64::MAX => Some((n + 1) as u64),
        _ => number,
    }
}

/// The text of a block of code or HTML from a place on, and the place behind it.
pub open spec fn code_text(c: Context, tag: Tag, at: int, so_far: Seq<char>) -> (Seq<char>, int)
    decreases c.events.len() - at,
{
    if at < 0 || at >= c.events.len() {
        (so_far, at)
    } else {
        let event = c.events[at];
        if event.mark == Mark::Close(tag) {
            (so_far, at + 1)
        } else if event.mark == Mark::Text || event.mark == Mark::Html || event.mark
            == Mark::InlineHtml {
            code_text(c, tag, at + 1, so_far + event.text)
        } else {
            code_text(c, tag, at + 1, so_far)
        }
    }
}

/// A table being collected: the finished rows, the row under construction, and
/// whether it is the head.
pub struct Rows {
    pub rows: Seq<Seq<Seq<SpanView>>>,
    pub row: Seq<Seq<SpanView>>,
    pub head: bool,
}

/// The rows of a table from a place on, and the place behind it. Of a cell
/// with a break in it the last line counts: a cell is one row of the grid.
pub open spec fn tabled(c: Context, body: Style, at: int, state: Rows) -> (Rows, int)
    decreases c.events.len() - at,
{
    if at < 0 || at >= c.events.len() {
        (state, at)
    } else {
        let mark = c.events[at].mark;
        if mark == Mark::Open(Tag::TableHead) {
            tabled(c, body, at + 1, Rows { head: true, ..state })
        } else if mark == Mark::Open(Tag::TableCell) {
            let style = if state.head {
                c.styles.heading.as_bold()
            } else {
                body
            };
            proof {
                lemma_inlined_forward(c, style, at + 1, inline_start(style));
            }
            let cell = inlined(c, style, at + 1, inline_start(style));
            tabled(
                c,
                body,
                c.past(cell.1),
                Rows { row: state.row.push(cell.0.lines.last()), ..state },
            )
        } else if mark == Mark::Close(Tag::TableHead) || mark == Mark::Close(Tag::TableRow) {
            tabled(
                c,
                body,
                at + 1,
                Rows { rows: state.rows.push(state.row), row: Seq::empty(), head: false },
            )
        } else if mark == Mark::Close(Tag::Table) {
            (state, at + 1)
        } else {
            tabled(c, body, at + 1, state)
        }
    }
}

/// A table before its first row.
pub open spec fn no_rows() -> Rows {
    Rows { rows: Seq::empty(), row: Seq::empty(), head: false }
}

/// The block at a place, and the place behind it.
pub open spec fn block(c: Context, body: Style, at: int) -> (Seq<LineView>, int)
    decreases c.events.len() - at, 0nat,
{
    if at < 0 || at >= c.events.len() {
        (Seq::empty(), at)
    } else {
        let event = c.events[at];
        match event.mark {
            Mark::Open(Tag::Paragraph) => {
                let run = inlined(c, body, at + 1, inline_start(body));
                (prose(run.0.lines), c.past(run.1))
            },
            Mark::Open(Tag::Heading) => {
                let style = heading(c.styles, event.number);
                let run = inlined(c, style, at + 1, inline_start(style));
                (prose(run.0.lines), c.past(run.1))
            },
            Mark::Open(Tag::BlockQuote) => {
                let inner = children(
                    c,
                    c.styles.block_quote.as_italic(),
                    at + 1,
                    true,
                    true,
                    Seq::empty(),
                );
                (quoted(inner.0, c.styles), inner.1)
            },
            Mark::Open(Tag::List) => items(c, body, at + 1, event.number, false, Seq::empty()),
            Mark::Open(Tag::CodeBlock) => {
                let code = code_text(c, Tag::CodeBlock, at + 1, Seq::empty());
                (
                    code::code_lines(code.0, text::first_word(event.text), c.styles, c.table),
                    code.1,
                )
            },
            Mark::Open(Tag::Table) => {
                let rows = tabled(c, body, at + 1, no_rows());
                (table::table_view(rows.0.rows, c.styles), rows.1)
            },
            Mark::Rule => (
                seq![code::flat_line(Seq::empty(), c.styles.chrome, LineKind::Rule)],
                at + 1,
            ),
            // HTML at block position reaches the screen as what it says.
            Mark::Open(Tag::HtmlBlock) => {
                let html = code_text(c, Tag::HtmlBlock, at + 1, Seq::empty());
                (code::flat_lines(html.0, body, LineKind::Flow), html.1)
            },
            Mark::Html => (code::flat_lines(event.text, body, LineKind::Flow), at + 1),
            // A tight item's text comes without a paragraph around it, and
            // anything else at block position reads as the paragraph it looks
            // like.
            _ => {
                let run = inlined(c, body, at, inline_start(body));
                (prose(run.0.lines), c.onward(at, run.1))
            },
        }
    }
}

/// Sibling blocks up to the `Close` that ends their container, and the place
/// behind it. A blank line separates two of them, but for a list inside a list
/// item, which belongs to the item above it.
pub open spec fn children(
    c: Context,
    body: Style,
    at: int,
    separate_lists: bool,
    first: bool,
    out: Seq<LineView>,
) -> (Seq<LineView>, int)
    decreases c.events.len() - at, 1nat,
{
    if at < 0 || at >= c.events.len() {
        (out, at)
    } else if c.events[at].mark is Close {
        (out, at + 1)
    } else {
        let is_list = c.events[at].mark == Mark::Open(Tag::List);
        let next = block(c, body, at);
        let separated = if !first && (separate_lists || !is_list) {
            out.push(blank())
        } else {
            out
        };
        children(c, body, c.onward(at, next.1), separate_lists, false, separated + next.0)
    }
}

/// One list item's content, whether it is loose, and the place behind it.
pub open spec fn item(c: Context, body: Style, at: int) -> (Seq<LineView>, bool, int)
    decreases c.events.len() - at, 2nat,
{
    let loose = c.mark(at) == Some(Mark::Open(Tag::Paragraph));
    match c.mark(at) {
        Some(Mark::Task(checked)) => {
            let inner = children(c, body, at + 1, true, true, Seq::empty());
            let style = if checked {
                c.styles.list_item
            } else {
                c.styles.muted
            };
            (ticked(inner.0, checkbox(checked), style), loose, inner.1)
        },
        _ => {
            let inner = children(c, body, at, false, true, Seq::empty());
            (inner.0, loose, inner.1)
        },
    }
}

/// A list from one of its items on, and the place behind its `Close`. Once an
/// item is loose, a blank line stands before it and every later one.
pub open spec fn items(
    c: Context,
    body: Style,
    at: int,
    number: Option<u64>,
    loose: bool,
    out: Seq<LineView>,
) -> (Seq<LineView>, int)
    decreases c.events.len() - at, 0nat,
{
    if c.mark(at) == Some(Mark::Open(Tag::Item)) {
        let next = item(c, body, at + 1);
        let now_loose = loose || next.1;
        let separated = if now_loose && out.len() > 0 {
            out.push(blank())
        } else {
            out
        };
        let lines = indented(next.0, item_marker(c, at, number), c.styles.list_item);
        items(
            c,
            body,
            c.onward(at, next.2),
            successor(number),
            now_loose,
            separated + lines,
        )
    } else {
        (out, c.past(at))
    }
}

/// The views of a run of span lists.
pub open spec fn span_lists(lines: Seq<Vec<Span>>) -> Seq<Seq<SpanView>> {
    table::row_view(lines)
}

/// Walks one block's events, emitting logical lines.
pub struct Walker<'a> {
    pub events: &'a [MdEvent],
    pub source: &'a str,
    pub styles: &'a Styles,
    pub syntaxes: &'a Syntaxes,
}

/// Adds a span to the last of a run of lines.
fn push_span(lines: &mut Vec<Vec<Span>>, span: Span)
    requires
        old(lines)@.len() > 0,
    ensures
        span_lists(final(lines)@) == with_span(span_lists(old(lines)@), span@),
        final(lines)@.len() > 0,
{
    let ghost before = span_lists(lines@);
    let mut last = lines.pop().unwrap();
    let ghost line = style::views(last@);
    last.push(span);
    assert(style::views(last@) =~= line.push(span@));
    lines.push(last);
    assert(span_lists(lines@) =~= with_span(before, span@));
}

/// Starts a new, empty line.
fn push_line(lines: &mut Vec<Vec<Span>>)
    ensures
        span_lists(final(lines)@) == span_lists(old(lines)@).push(Seq::empty()),
        final(lines)@.len() > 0,
{
    let ghost before = span_lists(lines@);
    let empty: Vec<Span> = Vec::new();
    assert(style::views(empty@) =~= Seq::empty());
    lines.push(empty);
    assert(span_lists(lines@) =~= before.push(Seq::empty()));
}

/// Adds a text to the line under construction verbatim, splitting only where
/// the text itself carries a newline.
fn push_verbatim(lines: &mut Vec<Vec<Span>>, text: &str, style: Style)
    requires
        old(lines)@.len() > 0,
    ensures
        span_lists(final(lines)@) == with_text(span_lists(old(lines)@), text@, style),
        final(lines)@.len() > 0,
{
    let pieces = split_chars(&to_chars(text), '\n');
    let ghost all = text::split(text@, '\n');
    let mut i: usize = 0;
    while i < pieces.len()
        invariant
            i <= pieces@.len(),
            pieces@.len() == all.len(),
            forall|k: int| 0 <= k < pieces@.len() ==> (#[trigger] pieces@[k])@ == all[k],
            span_lists(lines@) == with_pieces(span_lists(old(lines)@), all, i as int, style),
            lines@.len() > 0,
        decreases pieces.len() - i,
    {
        if i > 0 {
            push_line(lines);
        }
        if pieces[i].len() > 0 {
            push_span(lines, Span::styled(from_chars(&pieces[i]), style));
        }
        i += 1;
    }
}

/// What the spans of a line from the `from`-th on read as.
fn label_of(spans: &Vec<Span>, from: usize) -> (s: String)
    ensures
        s@ == label(style::views(spans@), from as nat),
{
    let mut i: usize = if from < spans.len() {
        from
    } else {
        spans.len()
    };
    let ghost start = i as int;
    let ghost rest = style::views(spans@).skip(start);
    let mut s = String::new();
    assert(rest.take(0) =~= Seq::empty());
    while i < spans.len()
        invariant
            0 <= start <= i <= spans.len(),
            rest == style::views(spans@).skip(start),
            s@ == style::text_of(rest.take(i - start)),
        decreases spans.len() - i,
    {
        assert(rest.take(i + 1 - start).drop_last() =~= rest.take(i - start));
        s.push_str(&spans[i].content);
        i += 1;
    }
    assert(rest.take(i - start) =~= rest);
    s
}

/// Inline content being rendered, executably; see [`Inline`].
struct Run {
    lines: Vec<Vec<Span>>,
    stack: Vec<Style>,
    style: Style,
    link: Option<(String, usize)>,
}

impl Run {
    spec fn state(self) -> Inline {
        Inline {
            lines: span_lists(self.lines@),
            stack: self.stack@,
            style: self.style,
            link: match self.link {
                Some((url, from)) => Some((url@, from as nat)),
                None => None,
            },
        }
    }

    fn pop(&mut self, body: Style)
        requires
            old(self).lines@.len() > 0,
        ensures
            final(self).state() == popped(old(self).state(), body),
            final(self).lines@.len() > 0,
    {
        match self.stack.pop() {
            Some(style) => {
                self.style = style;
            },
            None => {
                self.style = body;
            },
        }
    }

    fn push(&mut self, style: Style)
        requires
            old(self).lines@.len() > 0,
        ensures
            final(self).state() == pushed(old(self).state(), style),
            final(self).lines@.len() > 0,
    {
        self.stack.push(self.style);
        self.style = style;
    }

    fn unlink(&mut self, styles: &Styles)
        requires
            old(self).lines@.len() > 0,
        ensures
            final(self).state() == unlinked(*styles, old(self).state()),
            final(self).lines@.len() > 0,
    {
        match self.link.take() {
            Some((url, from)) => {
                let shown = label_of(&self.lines[self.lines.len() - 1], from);
                // `label (url)`, collapsed when the label is the url, which is
                // what an autolink always is.
                if !str_eq(&shown, &url) {
                    let mut text = " (".to_owned();
                    text.push_str(&url);
                    text.push(')');
                    push_span(&mut self.lines, Span::styled(text, styles.link.underlined()));
                }
            },
            None => {},
        }
    }

    /// Takes one event in; see [`inline_step`].
    fn step(&mut self, styles: &Styles, body: Style, event: &MdEvent)
        requires
            old(self).lines@.len() > 0,
        ensures
            final(self).state() == inline_step(*styles, body, event@, old(self).state()),
            final(self).lines@.len() > 0,
    {
        match event.mark {
            Mark::Close(tag) => match tag {
                Tag::Emphasis | Tag::Strong | Tag::Strikethrough => {
                    self.pop(body);
                },
                Tag::Link | Tag::Image => {
                    self.pop(body);
                    self.unlink(styles);
                },
                _ => {},
            },
            Mark::Open(tag) => match tag {
                Tag::Emphasis => {
                    self.push(styles.emph.italic());
                },
                Tag::Strong => {
                    self.push(styles.strong.bold());
                },
                Tag::Strikethrough => {
                    self.push(styles.muted.crossed_out());
                },
                Tag::Link | Tag::Image => {
                    self.push(styles.link_text.underlined());
                    let from = self.lines[self.lines.len() - 1].len();
                    self.link = Some((event.text.clone(), from));
                },
                _ => {},
            },
            Mark::Text | Mark::InlineHtml | Mark::Html => {
                push_verbatim(&mut self.lines, &event.text, self.style);
            },
            Mark::Code => {
                push_verbatim(&mut self.lines, &event.text, styles.code);
            },
            Mark::SoftBreak | Mark::HardBreak => {
                push_line(&mut self.lines);
            },
            Mark::Task(checked) => {
                push_span(
                    &mut self.lines,
                    Span::styled(checkbox_text(checked), styles.list_item),
                );
            },
            Mark::Other | Mark::Rule => {},
        }
    }
}

/// The checkbox of a task list item.
fn checkbox_text(checked: bool) -> (s: String)
    ensures
        s@ == checkbox(checked),
{
    if checked {
        "[x] ".to_owned()
    } else {
        "[ ] ".to_owned()
    }
}

/// Whether an event belongs to the run of inline content.
fn is_inline(mark: Mark) -> (r: bool)
    ensures
        r == inline_mark(mark),
{
    match mark {
        Mark::Open(tag) | Mark::Close(tag) => match tag {
            Tag::Emphasis | Tag::Strong | Tag::Strikethrough | Tag::Link | Tag::Image => true,
            _ => false,
        },
        Mark::Rule => false,
        _ => true,
    }
}

/// Lines of prose; see [`prose`].
fn prose_lines(lines: &Vec<Vec<Span>>) -> (out: Vec<MdLine>)
    ensures
        wrap::md_views(out@) == prose(span_lists(lines@)),
{
    let mut out: Vec<MdLine> = Vec::new();
    let mut i: usize = 0;
    while i < lines.len()
        invariant
            i <= lines@.len(),
            out@.len() == i,
            forall|k: int|
                0 <= k < i ==> (#[trigger] out@[k])@ == wrap::bare_line(
                    style::views(lines@[k]@),
                    LineKind::Flow,
                ),
        decreases lines.len() - i,
    {
        out.push(MdLine::new(clone_spans(&lines[i]), LineKind::Flow));
        i += 1;
    }
    assert(wrap::md_views(out@) =~= prose(span_lists(lines@)));
    out
}

/// Adds a blank line.
fn push_blank(out: &mut Vec<MdLine>)
    ensures
        wrap::md_views(final(out)@) == wrap::md_views(old(out)@).push(blank()),
        final(out)@.len() == old(out)@.len() + 1,
{
    let ghost before = wrap::md_views(out@);
    out.push(MdLine::blank());
    assert(wrap::md_views(out@) =~= before.push(blank()));
}

/// Adds a run of lines.
fn push_lines(out: &mut Vec<MdLine>, mut more: Vec<MdLine>)
    ensures
        wrap::md_views(final(out)@) == wrap::md_views(old(out)@) + wrap::md_views(more@),
        final(out)@.len() == old(out)@.len() + more@.len(),
{
    let ghost before = wrap::md_views(out@);
    let ghost added = wrap::md_views(more@);
    out.append(&mut more);
    assert(wrap::md_views(out@) =~= before + added);
}

/// Puts the quote border in front of lines; see [`quoted`].
fn quote(lines: &Vec<MdLine>, styles: &Styles) -> (out: Vec<MdLine>)
    ensures
        wrap::md_views(out@) == quoted(wrap::md_views(lines@), *styles),
{
    let mut out: Vec<MdLine> = Vec::new();
    let mut i: usize = 0;
    while i < lines.len()
        invariant
            i <= lines@.len(),
            out@.len() == i,
            forall|k: int|
                0 <= k < i ==> (#[trigger] out@[k])@ == quoted_line(lines@[k]@, *styles),
        decreases lines.len() - i,
    {
        let mut line = lines[i].clone();
        line.prefix.insert(0, Span::styled(" ".to_owned(), styles.chrome));
        line.prefix.insert(0, Span::styled("\u{258c}".to_owned(), styles.chrome));
        assert(line@.prefix =~= quoted_line(lines@[i as int]@, *styles).prefix);
        out.push(line);
        i += 1;
    }
    assert(wrap::md_views(out@) =~= quoted(wrap::md_views(lines@), *styles));
    out
}

/// A line with a marker in front; see [`led`].
fn lead(line: &MdLine, marker: &str, style: Style) -> (out: MdLine)
    ensures
        out@ == led(line@, marker@, style),
{
    let mut out = line.clone();
    out.spans.insert(0, Span::styled(marker.to_owned(), style));
    out.hang = out.hang.saturating_add(str_width(marker));
    assert(out@.spans =~= led(line@, marker@, style).spans);
    out
}

/// Hangs an item's lines off its marker; see [`indented`].
fn indent(lines: &Vec<MdLine>, marker: &str, style: Style) -> (out: Vec<MdLine>)
    ensures
        wrap::md_views(out@) == indented(wrap::md_views(lines@), marker@, style),
{
    let ghost all = wrap::md_views(lines@);
    let wide = str_width(marker);
    let mut out: Vec<MdLine> = Vec::new();
    let mut i: usize = 0;
    while i < lines.len()
        invariant
            i <= lines@.len(),
            all == wrap::md_views(lines@),
            wide == width::width_of(marker@),
            out@.len() == i,
            forall|k: int|
                0 <= k < i ==> (#[trigger] out@[k])@ == indented(all, marker@, style)[k],
        decreases lines.len() - i,
    {
        if i == 0 {
            out.push(lead(&lines[0], marker, style));
        } else {
            let mut line = lines[i].clone();
            line.prefix.insert(0, Span::raw(repeat_char(' ', wide)));
            assert(line@.prefix =~= indented(all, marker@, style)[i as int].prefix);
            out.push(line);
        }
        i += 1;
    }
    assert(wrap::md_views(out@) =~= indented(all, marker@, style));
    out
}

/// Hangs a task's lines off its checkbox; see [`ticked`].
fn tick(lines: &Vec<MdLine>, marker: &str, style: Style) -> (out: Vec<MdLine>)
    ensures
        wrap::md_views(out@) == ticked(wrap::md_views(lines@), marker@, style),
{
    let ghost all = wrap::md_views(lines@);
    let wide = str_width(marker);
    let mut out: Vec<MdLine> = Vec::new();
    let mut i: usize = 0;
    while i < lines.len()
        invariant
            i <= lines@.len(),
            all == wrap::md_views(lines@),
            wide == width::width_of(marker@),
            out@.len() == i,
            forall|k: int| 0 <= k < i ==> (#[trigger] out@[k])@ == ticked(all, marker@, style)[k],
        decreases lines.len() - i,
    {
        if i == 0 {
            out.push(lead(&lines[0], marker, style));
        } else {
            let mut line = lines[i].clone();
            line.prefix.push(Span::raw(repeat_char(' ', wide)));
            assert(line@.prefix =~= ticked(all, marker@, style)[i as int].prefix);
            out.push(line);
        }
        i += 1;
    }
    assert(wrap::md_views(out@) =~= ticked(all, marker@, style));
    out
}

impl<'a> Walker<'a> {
    /// What the walker renders from.
    pub open spec fn context(&self) -> Context {
        Context {
            styles: *self.styles,
            source: self.source@,
            events: events::event_views(self.events@),
            table: self.syntaxes.table(),
        }
    }

    /// Renders inline content up to the first event that is not inline, leaving
    /// that terminator for the caller.
    fn inline(&self, body: Style, at: usize) -> (r: (Vec<Vec<Span>>, usize))
        requires
            at <= self.events@.len(),
        ensures
            span_lists(r.0@) == inlined(
                self.context(),
                body,
                at as int,
                inline_start(body),
            ).0.lines,
            r.1 == inlined(self.context(), body, at as int, inline_start(body)).1,
            at <= r.1 <= self.events@.len(),
            r.0@.len() > 0,
    {
        let mut lines: Vec<Vec<Span>> = Vec::new();
        push_line(&mut lines);
        let mut run = Run { lines, stack: Vec::new(), style: body, link: None };
        let ghost c = self.context();
        proof {
            assert(run.state().lines =~= seq![Seq::empty()]);
            assert(run.state().stack =~= Seq::empty());
        }
        let mut k: usize = at;
        while k < self.events.len() && is_inline(self.events[k].mark)
            invariant
                at <= k <= self.events@.len(),
                c == self.context(),
                run.lines@.len() > 0,
                inlined(c, body, at as int, inline_start(body)) == inlined(
                    c,
                    body,
                    k as int,
                    run.state(),
                ),
            decreases self.events.len() - k,
        {
            run.step(self.styles, body, &self.events[k]);
            k += 1;
        }
        (run.lines, k)
    }

    /// The marker the source wrote for the item at a place; see
    /// [`item_marker`].
    fn marker(&self, at: usize, number: Option<u64>) -> (s: String)
        requires
            at < self.events@.len(),
        ensures
            s@ == item_marker(self.context(), at as int, number),
    {
        let own: Vec<char> = match slice_bytes(
            self.source,
            self.events[at].start,
            self.events[at].end,
        ) {
            Some(part) => trim_start_chars(&to_chars(part)),
            None => Vec::new(),
        };
        assert(own@ =~= item_text(self.context(), at as int));
        let mut s = String::new();
        match number {
            Some(n) => {
                push_decimal(&mut s, n);
                assert(s@ =~= text::decimal(n as nat));
                let mut found = '.';
                let mut i: usize = 0;
                assert(own@.skip(0) =~= own@);
                while i < own.len()
                    invariant_except_break
                        found == '.',
                        delimiter(own@) == delimiter(own@.skip(i as int)),
                    invariant
                        i <= own@.len(),
                    ensures
                        found == delimiter(own@),
                    decreases own.len() - i,
                {
                    assert(own@.skip(i as int).skip(1) =~= own@.skip(i + 1));
                    if own[i] == '.' || own[i] == ')' {
                        found = own[i];
                        break;
                    }
                    i += 1;
                }
                s.push(found);
            },
            None => {
                let bullet = if own.len() > 0 && (own[0] == '-' || own[0] == '*' || own[0] == '+') {
                    own[0]
                } else {
                    '-'
                };
                s.push(bullet);
            },
        }
        s.push(' ');
        assert(s@ =~= item_marker(self.context(), at as int, number));
        s
    }

    /// Collects a table's cells, the head row first; see [`tabled`].
    fn table(&self, body: Style, at: usize) -> (r: (Vec<Vec<Vec<Span>>>, usize))
        requires
            at <= self.events@.len(),
        ensures
            table::rows_view(r.0@) == tabled(self.context(), body, at as int, no_rows()).0.rows,
            r.1 == tabled(self.context(), body, at as int, no_rows()).1,
            at <= r.1 <= self.events@.len(),
    {
        let mut rows: Vec<Vec<Vec<Span>>> = Vec::new();
        let mut row: Vec<Vec<Span>> = Vec::new();
        let mut head = false;
        let mut k: usize = at;
        let ghost c = self.context();
        let ghost whole = tabled(c, body, at as int, no_rows());
        proof {
            assert(table::rows_view(rows@) =~= Seq::empty());
            assert(table::row_view(row@) =~= Seq::empty());
        }
        while k < self.events.len()
            invariant
                at <= k <= self.events@.len(),
                c == self.context(),
                whole == tabled(c, body, at as int, no_rows()),
                whole == tabled(
                    c,
                    body,
                    k as int,
                    Rows { rows: table::rows_view(rows@), row: table::row_view(row@), head },
                ),
            decreases self.events.len() - k,
        {
            let mark = self.events[k].mark;
            if mark == Mark::Open(Tag::TableHead) {
                head = true;
                k += 1;
            } else if mark == Mark::Open(Tag::TableCell) {
                let style = if head {
                    self.styles.heading.bold()
                } else {
                    body
                };
                let (mut cell, n) = self.inline(style, k + 1);
                let ghost lines = span_lists(cell@);
                let last = cell.pop().unwrap();
                assert(lines.last() == style::views(last@));
                let ghost before = table::row_view(row@);
                row.push(last);
                assert(table::row_view(row@) =~= before.push(lines.last()));
                k = if n < self.events.len() {
                    n + 1
                } else {
                    n
                };
            } else if mark == Mark::Close(Tag::TableHead) || mark == Mark::Close(Tag::TableRow) {
                head = false;
                k += 1;
                let ghost before = table::rows_view(rows@);
                let ghost done = table::row_view(row@);
                rows.push(row);
                row = Vec::new();
                assert(table::rows_view(rows@) =~= before.push(done));
                assert(table::row_view(row@) =~= Seq::empty());
            } else if mark == Mark::Close(Tag::Table) {
                return (rows, k + 1);
            } else {
                k += 1;
            }
        }
        (rows, k)
    }

    /// The text of a block of code or HTML, and the place behind it; see
    /// [`code_text`].
    fn code(&self, tag: Tag, at: usize) -> (r: (String, usize))
        requires
            at <= self.events@.len(),
        ensures
            r.0@ == code_text(self.context(), tag, at as int, Seq::empty()).0,
            r.1 == code_text(self.context(), tag, at as int, Seq::empty()).1,
            at <= r.1 <= self.events@.len(),
    {
        let mut code = String::new();
        let mut k: usize = at;
        let ghost c = self.context();
        let ghost whole = code_text(c, tag, at as int, Seq::empty());
        assert(code@ =~= Seq::empty());
        while k < self.events.len()
            invariant
                at <= k <= self.events@.len(),
                c == self.context(),
                whole == code_text(c, tag, at as int, Seq::empty()),
                whole == code_text(c, tag, k as int, code@),
            decreases self.events.len() - k,
        {
            let event = &self.events[k];
            if event.mark == Mark::Close(tag) {
                return (code, k + 1);
            }
            if event.mark == Mark::Text || event.mark == Mark::Html || event.mark
                == Mark::InlineHtml {
                code.push_str(&event.text);
            }
            k += 1;
        }
        (code, k)
    }

    /// The place behind an event.
    fn past(&self, at: usize) -> (n: usize)
        requires
            at <= self.events@.len(),
        ensures
            n == self.context().past(at as int),
            at <= n <= self.events@.len(),
            at < self.events@.len() ==> n == at + 1,
    {
        if at < self.events.len() {
            at + 1
        } else {
            at
        }
    }

    /// Renders the block at a place, consuming it whole; see [`block`].
    pub fn block(&self, body: Style, at: usize) -> (r: (Vec<MdLine>, usize))
        requires
            at <= self.events@.len(),
        ensures
            wrap::md_views(r.0@) == block(self.context(), body, at as int).0,
            r.1 == block(self.context(), body, at as int).1,
            at <= r.1 <= self.events@.len(),
            at < self.events@.len() ==> at < r.1,
        decreases self.events@.len() - at, 0nat,
    {
        if at >= self.events.len() {
            let none: Vec<MdLine> = Vec::new();
            assert(wrap::md_views(none@) =~= Seq::empty());
            return (none, at);
        }
        let event = &self.events[at];
        let ghost c = self.context();
        assert(c.events[at as int] == event@);
        match event.mark {
            Mark::Open(Tag::Paragraph) => {
                let (lines, n) = self.inline(body, at + 1);
                (prose_lines(&lines), self.past(n))
            },
            Mark::Open(Tag::Heading) => {
                let style = match event.number {
                    Some(1) => self.styles.heading.bold().underlined(),
                    _ => self.styles.heading.bold(),
                };
                assert(style == heading(c.styles, event@.number));
                let (lines, n) = self.inline(style, at + 1);
                (prose_lines(&lines), self.past(n))
            },
            Mark::Open(Tag::BlockQuote) => {
                let (inner, n) = self.children(
                    self.styles.block_quote.italic(),
                    at + 1,
                    true,
                );
                (quote(&inner, self.styles), n)
            },
            Mark::Open(Tag::List) => self.items(body, at + 1, event.number),
            Mark::Open(Tag::CodeBlock) => {
                let language = text::first_word_of(&to_chars(&event.text));
                let (code, n) = self.code(Tag::CodeBlock, at + 1);
                let lines = match language {
                    Some(name) => {
                        let name = from_chars(&name);
                        highlight(&code, Some(&name), self.styles, self.syntaxes)
                    },
                    None => highlight(&code, None, self.styles, self.syntaxes),
                };
                (lines, n)
            },
            Mark::Open(Tag::Table) => {
                let (rows, n) = self.table(body, at + 1);
                (table_lines(&rows, self.styles), n)
            },
            Mark::Rule => {
                let mut spans: Vec<Span> = Vec::new();
                spans.push(Span::styled(String::new(), self.styles.chrome));
                assert(style::views(spans@) =~= seq![
                    SpanView { text: Seq::empty(), style: self.styles.chrome },
                ]);
                let mut lines: Vec<MdLine> = Vec::new();
                lines.push(MdLine::new(spans, LineKind::Rule));
                assert(wrap::md_views(lines@) =~= block(c, body, at as int).0);
                (lines, at + 1)
            },
            Mark::Open(Tag::HtmlBlock) => {
                let (html, n) = self.code(Tag::HtmlBlock, at + 1);
                (plain_lines(&html, body, LineKind::Flow), n)
            },
            Mark::Html => (plain_lines(&event.text, body, LineKind::Flow), at + 1),
            _ => {
                let (lines, n) = self.inline(body, at);
                // Inline content leaves its terminator in place; if it consumed
                // nothing at all, stepping over the event is what keeps the
                // caller's loop moving.
                let next = if n == at {
                    at + 1
                } else {
                    n
                };
                (prose_lines(&lines), next)
            },
        }
    }

    /// Renders sibling blocks until the enclosing container's `Close`, which it
    /// consumes; see [`children`].
    fn children(&self, body: Style, at: usize, separate_lists: bool) -> (r: (Vec<MdLine>, usize))
        requires
            at <= self.events@.len(),
        ensures
            wrap::md_views(r.0@) == children(
                self.context(),
                body,
                at as int,
                separate_lists,
                true,
                Seq::empty(),
            ).0,
            r.1 == children(
                self.context(),
                body,
                at as int,
                separate_lists,
                true,
                Seq::empty(),
            ).1,
            at <= r.1 <= self.events@.len(),
        decreases self.events@.len() - at, 1nat,
    {
        let mut out: Vec<MdLine> = Vec::new();
        let mut first = true;
        let mut k: usize = at;
        let ghost c = self.context();
        let ghost whole = children(c, body, at as int, separate_lists, true, Seq::empty());
        assert(wrap::md_views(out@) =~= Seq::empty());
        while k < self.events.len()
            invariant
                at <= k <= self.events@.len(),
                c == self.context(),
                whole == children(c, body, at as int, separate_lists, true, Seq::empty()),
                whole == children(
                    c,
                    body,
                    k as int,
                    separate_lists,
                    first,
                    wrap::md_views(out@),
                ),
            decreases self.events.len() - k,
        {
            let mark = self.events[k].mark;
            assert(c.events[k as int].mark == mark);
            if let Mark::Close(_) = mark {
                return (out, k + 1);
            }
            let is_list = mark == Mark::Open(Tag::List);
            let (lines, n) = self.block(body, k);
            if !first && (separate_lists || !is_list) {
                push_blank(&mut out);
            }
            push_lines(&mut out, lines);
            first = false;
            k = n;
        }
        (out, k)
    }

    /// Renders one list item's content; the flag is whether it was loose. See
    /// [`item`].
    fn item(&self, body: Style, at: usize) -> (r: (Vec<MdLine>, bool, usize))
        requires
            at <= self.events@.len(),
        ensures
            wrap::md_views(r.0@) == item(self.context(), body, at as int).0,
            r.1 == item(self.context(), body, at as int).1,
            r.2 == item(self.context(), body, at as int).2,
            at <= r.2 <= self.events@.len(),
        decreases self.events@.len() - at, 2nat,
    {
        let ghost c = self.context();
        if at < self.events.len() {
            assert(c.events[at as int].mark == self.events@[at as int].mark);
            let loose = self.events[at].mark == Mark::Open(Tag::Paragraph);
            if let Mark::Task(checked) = self.events[at].mark {
                let style = if checked {
                    self.styles.list_item
                } else {
                    self.styles.muted
                };
                let (inner, n) = self.children(body, at + 1, true);
                return (tick(&inner, &checkbox_text(checked), style), loose, n);
            }
            let (inner, n) = self.children(body, at, false);
            return (inner, loose, n);
        }
        let (inner, n) = self.children(body, at, false);
        (inner, false, n)
    }

    /// Renders a list from its first item on; see [`items`].
    fn items(&self, body: Style, at: usize, first: Option<u64>) -> (r: (Vec<MdLine>, usize))
        requires
            at <= self.events@.len(),
        ensures
            wrap::md_views(r.0@) == items(
                self.context(),
                body,
                at as int,
                first,
                false,
                Seq::empty(),
            ).0,
            r.1 == items(self.context(), body, at as int, first, false, Seq::empty()).1,
            at <= r.1 <= self.events@.len(),
        decreases self.events@.len() - at, 0nat,
    {
        let mut out: Vec<MdLine> = Vec::new();
        let mut number = first;
        let mut loose = false;
        let mut k: usize = at;
        let ghost c = self.context();
        let ghost whole = items(c, body, at as int, first, false, Seq::empty());
        assert(wrap::md_views(out@) =~= Seq::empty());
        while k < self.events.len() && self.events[k].mark == Mark::Open(Tag::Item)
            invariant
                at <= k <= self.events@.len(),
                c == self.context(),
                whole == items(c, body, at as int, first, false, Seq::empty()),
                whole == items(c, body, k as int, number, loose, wrap::md_views(out@)),
            decreases self.events.len() - k,
        {
            assert(c.events[k as int].mark == self.events@[k as int].mark);
            let marker = self.marker(k, number);
            let ghost was = number;
            number = match number {
                Some(n) => Some(n.saturating_add(1)),
                None => None,
            };
            assert(number == successor(was));
            let (inner, is_loose, n) = self.item(body, k + 1);
            loose = loose || is_loose;
            if loose && out.len() > 0 {
                push_blank(&mut out);
            }
            push_lines(&mut out, indent(&inner, &marker, self.styles.list_item));
            k = n;
        }
        // The list's own `Close`.
        if k < self.events.len() {
            assert(c.events[k as int].mark == self.events@[k as int].mark);
        }
        (out, self.past(k))
    }
}

} // verus!
