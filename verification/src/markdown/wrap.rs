//! The width-dependent half: lays one logical line out at a number of columns.
//!
//! Prose wraps greedily between words and keeps its own spacing; code is
//! chopped at the column; a table row is clipped; a rule is filled.

use vstd::prelude::*;

use crate::style::{self, clone_spans, Line, Span, SpanView, Style};
use crate::text::{self, from_chars, is_whitespace, slice_chars, to_chars};
use crate::width::{self, chars_width, cut_at, repeat_char, str_width};

verus! {

/// What a horizontal rule is filled with.
pub const RULE_GLYPH: char = '\u{2500}';

/// How a logical line becomes visual lines at a given width.
#[derive(Clone, Copy, Debug, PartialEq, Eq, Structural)]
pub enum LineKind {
    /// Prose: greedy word wrap, whitespace preserved except where a break
    /// consumes it.
    Flow,
    /// Code: chopped at the column.
    Chop,
    /// A table row: clipped, so the grid's verticals stay vertical.
    Clip,
    /// A horizontal rule: filled to the width it is drawn at.
    Rule,
}

/// One logical line of rendered markdown, before any width is known.
#[derive(Debug)]
pub struct MdLine {
    /// Drawn at the start of every visual line this one wraps to: the
    /// blockquote border, the indent a nested list sits at.
    pub prefix: Vec<Span>,
    pub spans: Vec<Span>,
    /// Extra columns continuation lines are indented by.
    pub hang: usize,
    pub kind: LineKind,
}

/// A logical line as the contracts speak of it.
pub struct LineView {
    pub prefix: Seq<SpanView>,
    pub spans: Seq<SpanView>,
    pub hang: nat,
    pub kind: LineKind,
}

impl View for MdLine {
    type V = LineView;

    open spec fn view(&self) -> LineView {
        LineView {
            prefix: style::views(self.prefix@),
            spans: style::views(self.spans@),
            hang: self.hang as nat,
            kind: self.kind,
        }
    }
}

/// The views of a run of logical lines.
pub open spec fn md_views(lines: Seq<MdLine>) -> Seq<LineView> {
    Seq::new(lines.len(), |i: int| lines[i]@)
}

/// A line of these spans with nothing in front of it.
pub open spec fn bare_line(spans: Seq<SpanView>, kind: LineKind) -> LineView {
    LineView { prefix: Seq::empty(), spans, hang: 0, kind }
}

impl MdLine {
    /// A line of these spans with nothing in front of it.
    pub fn new(spans: Vec<Span>, kind: LineKind) -> (line: MdLine)
        ensures
            line@ == bare_line(style::views(spans@), kind),
    {
        let line = MdLine { prefix: Vec::new(), spans, hang: 0, kind };
        assert(style::views(line.prefix@) =~= Seq::empty());
        line
    }

    /// The blank line that separates two blocks.
    pub fn blank() -> (line: MdLine)
        ensures
            line@ == bare_line(Seq::empty(), LineKind::Flow),
    {
        let line = MdLine::new(Vec::new(), LineKind::Flow);
        assert(line@.spans =~= Seq::empty());
        line
    }

    /// What this line reads as, ignoring style.
    pub fn text(&self) -> (s: String)
        ensures
            s@ == style::text_of(self@.prefix + self@.spans),
    {
        let mut s = String::new();
        let ghost all = self@.prefix + self@.spans;
        let mut i: usize = 0;
        while i < self.prefix.len()
            invariant
                i <= self.prefix.len(),
                all == self@.prefix + self@.spans,
                s@ == style::text_of(all.take(i as int)),
            decreases self.prefix.len() - i,
        {
            assert(all.take(i + 1).drop_last() =~= all.take(i as int));
            s.push_str(&self.prefix[i].content);
            i += 1;
        }
        let mut k: usize = 0;
        while k < self.spans.len()
            invariant
                k <= self.spans.len(),
                all == self@.prefix + self@.spans,
                s@ == style::text_of(all.take(self.prefix.len() + k)),
            decreases self.spans.len() - k,
        {
            assert(all.take(self.prefix.len() + k + 1).drop_last() =~= all.take(
                self.prefix.len() + k,
            ));
            s.push_str(&self.spans[k].content);
            k += 1;
        }
        assert(all.take(all.len() as int) =~= all);
        s
    }
}

impl Clone for MdLine {
    fn clone(&self) -> (line: MdLine)
        ensures
            line@ == self@,
    {
        MdLine {
            prefix: clone_spans(&self.prefix),
            spans: clone_spans(&self.spans),
            hang: self.hang,
            kind: self.kind,
        }
    }
}

/// The columns of a run of spans, each measured on its own.
pub open spec fn spans_width(spans: Seq<SpanView>) -> nat
    decreases spans.len(),
{
    if spans.len() == 0 {
        0
    } else {
        width::columns(
            spans_width(spans.drop_last()),
            width::width_of(spans.last().text),
        )
    }
}

/// The columns of a run of spans, each measured on its own.
pub fn span_width(spans: &[Span]) -> (n: usize)
    ensures
        n == spans_width(style::views(spans@)),
{
    let mut n: usize = 0;
    let mut i: usize = 0;
    let ghost all = style::views(spans@);
    while i < spans.len()
        invariant
            i <= spans.len(),
            all == style::views(spans@),
            n == spans_width(all.take(i as int)),
        decreases spans.len() - i,
    {
        assert(all.take(i + 1).drop_last() =~= all.take(i as int));
        n = n.saturating_add(str_width(&spans[i].content));
        i += 1;
    }
    assert(all.take(all.len() as int) =~= all);
    n
}

/// The spans a visual line starts from: the prefix, then the hanging indent
/// when it is not the first one.
pub open spec fn opening_spans(line: LineView, first: bool) -> Seq<SpanView> {
    if !first && line.hang > 0 {
        line.prefix.push(
            SpanView { text: width::repeated(' ', line.hang), style: Style::plain() },
        )
    } else {
        line.prefix
    }
}

/// The columns a visual line starts with.
pub open spec fn opening_width(line: LineView, first: bool) -> nat {
    if !first && line.hang > 0 {
        width::columns(spans_width(line.prefix), line.hang)
    } else {
        spans_width(line.prefix)
    }
}

/// The visual line a wrapped line starts from.
fn opening(line: &MdLine, first: bool) -> (r: (Vec<Span>, usize))
    ensures
        style::views(r.0@) == opening_spans(line@, first),
        r.1 == opening_width(line@, first),
{
    let mut spans = clone_spans(&line.prefix);
    let mut used: usize = span_width(&line.prefix);
    if !first && line.hang > 0 {
        let ghost before = style::views(spans@);
        spans.push(Span::raw(repeat_char(' ', line.hang)));
        assert(style::views(spans@) =~= opening_spans(line@, first));
        used = used.saturating_add(line.hang);
    }
    (spans, used)
}

/// A closed visual line: neighbours that ended up in the same style are one.
pub open spec fn merged(spans: Seq<SpanView>) -> Seq<SpanView>
    decreases spans.len(),
{
    if spans.len() == 0 {
        Seq::empty()
    } else {
        let front = merged(spans.drop_last());
        let last = spans.last();
        if front.len() > 0 && front.last().style == last.style {
            front.drop_last().push(SpanView { text: front.last().text + last.text, ..last })
        } else {
            front.push(last)
        }
    }
}

/// Closes a visual line, merging neighbours that ended up in the same style.
fn finish(spans: &Vec<Span>) -> (line: Line)
    ensures
        line@ == merged(style::views(spans@)),
{
    let mut out: Vec<Span> = Vec::new();
    let ghost all = style::views(spans@);
    let mut i: usize = 0;
    assert(style::views(out@) =~= Seq::empty());
    while i < spans.len()
        invariant
            i <= spans.len(),
            all == style::views(spans@),
            style::views(out@) == merged(all.take(i as int)),
        decreases spans.len() - i,
    {
        assert(all.take(i + 1).drop_last() =~= all.take(i as int));
        let ghost front = style::views(out@);
        let span = &spans[i];
        let n = out.len();
        if n > 0 && out[n - 1].style == span.style {
            assert(front.last() == out@[n - 1]@);
            let mut last = out.pop().unwrap();
            last.content.push_str(&span.content);
            out.push(last);
            assert(style::views(out@) =~= merged(all.take(i + 1)));
        } else {
            assert(n > 0 ==> front.last() == out@[n - 1]@);
            out.push(span.clone());
            assert(style::views(out@) =~= merged(all.take(i + 1)));
        }
        i += 1;
    }
    assert(all.take(all.len() as int) =~= all);
    Line { spans: out }
}

/// The length of the run a text starts with: all whitespace, or none.
pub open spec fn run_len(text: Seq<char>) -> nat
    decreases text.len(),
{
    if text.len() == 0 {
        0
    } else if text.len() == 1 || text::white_space(text[0]) != text::white_space(
        text[1],
    ) {
        1
    } else {
        1 + run_len(text.skip(1))
    }
}

/// Every run of a text, in order, in one style.
pub open spec fn runs(text: Seq<char>, style: Style) -> Seq<SpanView>
    decreases text.len(),
{
    if text.len() == 0 {
        Seq::empty()
    } else {
        proof {
            lemma_run_len(text);
        }
        let n = run_len(text) as int;
        seq![SpanView { text: text.take(n), style }] + runs(text.skip(n), style)
    }
}

/// The whitespace runs and word runs of a run of spans, each in the style of
/// the span it came from.
pub open spec fn atoms_of(spans: Seq<SpanView>) -> Seq<SpanView>
    decreases spans.len(),
{
    if spans.len() == 0 {
        Seq::empty()
    } else {
        atoms_of(spans.drop_last()) + runs(spans.last().text, spans.last().style)
    }
}

/// The first run is the longest front of one kind.
pub proof fn lemma_run_len(text: Seq<char>)
    ensures
        run_len(text) <= text.len(),
        text.len() > 0 ==> run_len(text) > 0,
        forall|i: int|
            0 <= i < run_len(text) ==> text::white_space(#[trigger] text[i])
                == text::white_space(text[0]),
        run_len(text) < text.len() ==> text::white_space(text[run_len(text) as int])
            != text::white_space(text[0]),
    decreases text.len(),
{
    if text.len() == 0 {
    } else if text.len() == 1 || text::white_space(text[0]) != text::white_space(
        text[1],
    ) {
    } else {
        let rest = text.skip(1);
        lemma_run_len(rest);
        assert forall|i: int| 0 <= i < run_len(text) implies text::white_space(
            #[trigger] text[i],
        ) == text::white_space(text[0]) by {
            if i > 0 {
                assert(rest[i - 1] == text[i]);
            }
        }
        if run_len(text) < text.len() {
            assert(rest[run_len(rest) as int] == text[run_len(text) as int]);
        }
    }
}

/// Splits a span list into whitespace runs and word runs, each keeping the
/// style of the span it came from.
pub fn atoms(spans: &[Span]) -> (out: Vec<Span>)
    ensures
        style::views(out@) == atoms_of(style::views(spans@)),
{
    let mut out: Vec<Span> = Vec::new();
    let ghost all = style::views(spans@);
    let mut i: usize = 0;
    assert(style::views(out@) =~= Seq::empty());
    while i < spans.len()
        invariant
            i <= spans.len(),
            all == style::views(spans@),
            style::views(out@) == atoms_of(all.take(i as int)),
        decreases spans.len() - i,
    {
        let ghost before = style::views(out@);
        let style = spans[i].style;
        let text = to_chars(&spans[i].content);
        let mut start: usize = 0;
        assert(text@.skip(0) =~= text@);
        assert(before + runs(text@, style) =~= style::views(out@) + runs(text@.skip(0), style));
        while start < text.len()
            invariant
                start <= text.len(),
                before + runs(text@, style) == style::views(out@) + runs(text@.skip(start as int), style),
            decreases text.len() - start,
        {
            let ghost rest = text@.skip(start as int);
            proof {
                lemma_run_len(rest);
            }
            let space = is_whitespace(text[start]);
            let mut end: usize = start + 1;
            while end < text.len() && is_whitespace(text[end]) == space
                invariant
                    start < end <= text.len(),
                    rest == text@.skip(start as int),
                    space == text::white_space(rest[0]),
                    forall|k: int|
                        0 <= k < end - start ==> text::white_space(#[trigger] rest[k])
                            == space,
                decreases text.len() - end,
            {
                assert(rest[end - start] == text@[end as int]);
                end += 1;
            }
            proof {
                let n = run_len(rest) as int;
                if n < end - start {
                    assert(text::white_space(rest[n]) == space);
                }
                if end - start < n {
                    assert(rest[end - start] == text@[end as int]);
                }
                assert(n == end - start);
                assert(rest.take(n) =~= text@.subrange(start as int, end as int));
                assert(rest.skip(n) =~= text@.skip(end as int));
            }
            let piece = slice_chars(&text, start, end);
            let ghost shown = style::views(out@);
            out.push(Span::styled(from_chars(&piece), style));
            proof {
                let atom = SpanView { text: piece@, style };
                assert(style::views(out@) =~= shown.push(atom));
                assert(shown + (seq![atom] + runs(text@.skip(end as int), style)) =~= shown.push(
                    atom,
                ) + runs(text@.skip(end as int), style));
            }
            start = end;
        }
        proof {
            assert(text@.skip(start as int) =~= Seq::empty());
            assert(style::views(out@) + runs(text@.skip(start as int), style) =~= style::views(out@));
            assert(all.take(i + 1).drop_last() =~= all.take(i as int));
            assert(all.take(i + 1).last() == spans@[i as int]@);
        }
        i += 1;
    }
    assert(all.take(all.len() as int) =~= all);
    out
}

/// A text of nothing but whitespace.
pub open spec fn all_white(text: Seq<char>) -> bool {
    forall|i: int| 0 <= i < text.len() ==> text::white_space(#[trigger] text[i])
}

/// Prose being wrapped: the finished lines, the line under construction, the
/// columns it uses and those it started with, and the whitespace that is drawn
/// only if a word follows it on the same line.
pub struct Flowing {
    pub out: Seq<Seq<SpanView>>,
    pub spans: Seq<SpanView>,
    pub used: nat,
    pub base: nat,
    pub pending: Seq<SpanView>,
    pub pending_width: nat,
}

/// The state behind a line that was just closed.
pub open spec fn continued(line: LineView, out: Seq<Seq<SpanView>>) -> Flowing {
    Flowing {
        out,
        spans: opening_spans(line, false),
        used: opening_width(line, false),
        base: opening_width(line, false),
        pending: Seq::empty(),
        pending_width: 0,
    }
}

/// Puts one word down: where it fits, on a line of its own where it does not,
/// and chopped where it is wider than a whole line.
pub open spec fn placed(
    line: LineView,
    width: nat,
    state: Flowing,
    word: Seq<char>,
    style: Style,
) -> Flowing
    decreases
            word.len(),
            (if state.used > state.base {
                1nat
            } else {
                0nat
            }),
{
    let before = width::columns(state.used, state.pending_width);
    if width::width_of(word) <= width::room(width, before) {
        Flowing {
            spans: (state.spans + state.pending).push(SpanView { text: word, style }),
            used: width::columns(before, width::width_of(word)),
            pending: Seq::empty(),
            pending_width: 0,
            ..state
        }
    } else if state.used > state.base {
        placed(line, width, continued(line, state.out.push(merged(state.spans))), word, style)
    } else {
        proof {
            width::lemma_cut(word, chop_room(width, before));
        }
        let at = width::cut(word, chop_room(width, before)) as int;
        let full = (state.spans + state.pending).push(SpanView { text: word.take(at), style });
        let next = continued(line, state.out.push(merged(full)));
        if at >= word.len() {
            next
        } else {
            placed(line, width, next, word.skip(at), style)
        }
    }
}

/// The columns a chopped word may take: what is left, and one at least.
pub open spec fn chop_room(width: nat, used: nat) -> nat {
    let left = width::room(width, used);
    if left > 1 {
        left
    } else {
        1
    }
}

/// Prose from its `k`-th atom on.
pub open spec fn flowing(
    line: LineView,
    width: nat,
    state: Flowing,
    atoms: Seq<SpanView>,
    k: int,
) -> Flowing
    decreases atoms.len() - k,
{
    if k < 0 || k >= atoms.len() {
        state
    } else if all_white(atoms[k].text) {
        flowing(
            line,
            width,
            Flowing {
                pending: state.pending.push(atoms[k]),
                pending_width: width::columns(
                    state.pending_width,
                    width::width_of(atoms[k].text),
                ),
                ..state
            },
            atoms,
            k + 1,
        )
    } else {
        flowing(line, width, placed(line, width, state, atoms[k].text, atoms[k].style), atoms, k + 1)
    }
}

/// The state prose starts from.
pub open spec fn flow_start(line: LineView) -> Flowing {
    Flowing {
        out: Seq::empty(),
        spans: opening_spans(line, true),
        used: opening_width(line, true),
        base: opening_width(line, true),
        pending: Seq::empty(),
        pending_width: 0,
    }
}

/// The lines of wrapped prose: trailing whitespace that still fits is part of
/// the line its author wrote.
pub open spec fn flow_end(width: nat, state: Flowing) -> Seq<Seq<SpanView>> {
    let fits = state.pending.len() > 0 && width::columns(state.used, state.pending_width)
        <= width;
    state.out.push(
        merged(
            if fits {
                state.spans + state.pending
            } else {
                state.spans
            },
        ),
    )
}

/// Prose at a width.
pub open spec fn flow_lines(line: LineView, width: nat) -> Seq<Seq<SpanView>> {
    flow_end(width, flowing(line, width, flow_start(line), atoms_of(line.spans), 0))
}

/// Prose being wrapped, executably; see [`Flowing`].
struct Flow {
    out: Vec<Line>,
    spans: Vec<Span>,
    used: usize,
    base: usize,
    pending: Vec<Span>,
    pending_width: usize,
}

impl Flow {
    spec fn state(self) -> Flowing {
        Flowing {
            out: style::line_views(self.out@),
            spans: style::views(self.spans@),
            used: self.used as nat,
            base: self.base as nat,
            pending: style::views(self.pending@),
            pending_width: self.pending_width as nat,
        }
    }

    /// Closes the line under construction and starts the next one.
    fn close(&mut self, line: &MdLine)
        ensures
            final(self).state() == continued(
                line@,
                old(self).state().out.push(merged(old(self).state().spans)),
            ),
    {
        let done = finish(&self.spans);
        let ghost before = style::line_views(self.out@);
        self.out.push(done);
        let (spans, used) = opening(line, false);
        self.spans = spans;
        self.used = used;
        self.base = used;
        self.pending = Vec::new();
        self.pending_width = 0;
        proof {
            assert(style::line_views(self.out@) =~= before.push(merged(style::views(old(self).spans@))));
            assert(style::views(self.pending@) =~= Seq::empty());
        }
    }

    /// Moves the pending whitespace onto the line under construction.
    fn settle(&mut self)
        ensures
            final(self).state() == (Flowing {
                spans: old(self).state().spans + old(self).state().pending,
                used: width::columns(
                    old(self).state().used,
                    old(self).state().pending_width,
                ),
                pending: Seq::empty(),
                pending_width: 0,
                ..old(self).state()
            }),
    {
        self.spans.append(&mut self.pending);
        self.used = self.used.saturating_add(self.pending_width);
        self.pending_width = 0;
        proof {
            assert(style::views(self.spans@) =~= style::views(old(self).spans@) + style::views(old(self).pending@));
            assert(style::views(self.pending@) =~= Seq::empty());
        }
    }

    /// Puts one word down; see [`placed`].
    fn place(&mut self, line: &MdLine, width: usize, word: &Span)
        ensures
            final(self).state() == placed(
                line@,
                width as nat,
                old(self).state(),
                word@.text,
                word.style,
            ),
    {
        let style = word.style;
        let mut rest = to_chars(&word.content);
        loop
            invariant
                style == word.style,
                placed(line@, width as nat, self.state(), rest@, style) == placed(
                    line@,
                    width as nat,
                    old(self).state(),
                    word@.text,
                    style,
                ),
            decreases
                    rest@.len(),
                    (if self.used > self.base {
                        1int
                    } else {
                        0int
                    }),
        {
            let columns = chars_width(&rest);
            let before = self.used.saturating_add(self.pending_width);
            if columns <= width.saturating_sub(before) {
                self.settle();
                self.used = self.used.saturating_add(columns);
                let ghost shown = style::views(self.spans@);
                self.spans.push(Span::styled(from_chars(&rest), style));
                assert(style::views(self.spans@) =~= shown.push(SpanView { text: rest@, style }));
                return;
            }
            // Something is already on this line: break, and the whitespace
            // the break consumed goes with it.
            if self.used > self.base {
                self.close(line);
                continue;
            }
            // The line is empty and the word still does not fit: chop it, so
            // a word wider than the viewport is shortened rather than lost.
            let left = width.saturating_sub(before);
            let allowed: usize = if left > 1 {
                left
            } else {
                1
            };
            let at = cut_at(&rest, allowed);
            let head = slice_chars(&rest, 0, at);
            let tail = slice_chars(&rest, at, rest.len());
            self.settle();
            let ghost shown = style::views(self.spans@);
            self.spans.push(Span::styled(from_chars(&head), style));
            proof {
                assert(head@ =~= rest@.take(at as int));
                assert(tail@ =~= rest@.skip(at as int));
                assert(style::views(self.spans@) =~= shown.push(SpanView { text: head@, style }));
            }
            self.close(line);
            if tail.len() == 0 {
                return;
            }
            rest = tail;
        }
    }
}

/// Greedy word wrap that keeps intra-line whitespace: only the whitespace a
/// break actually consumes disappears.
fn flow(line: &MdLine, width: usize) -> (out: Vec<Line>)
    ensures
        style::line_views(out@) == flow_lines(line@, width as nat),
{
    let (spans, used) = opening(line, true);
    let mut state = Flow {
        out: Vec::new(),
        spans,
        used,
        base: used,
        pending: Vec::new(),
        pending_width: 0,
    };
    proof {
        assert(state.state().out =~= Seq::empty());
        assert(state.state().pending =~= Seq::empty());
    }
    let words = atoms(&line.spans);
    let ghost all = atoms_of(line@.spans);
    let mut k: usize = 0;
    while k < words.len()
        invariant
            k <= words.len(),
            all == style::views(words@),
            flowing(line@, width as nat, flow_start(line@), all, 0) == flowing(
                line@,
                width as nat,
                state.state(),
                all,
                k as int,
            ),
        decreases words.len() - k,
    {
        assert(all[k as int] == words@[k as int]@);
        if is_all_white(&words[k].content) {
            let ghost before = state.state().pending;
            state.pending_width = state.pending_width.saturating_add(str_width(&words[k].content));
            state.pending.push(words[k].clone());
            assert(state.state().pending =~= before.push(all[k as int]));
        } else {
            state.place(line, width, &words[k]);
        }
        k += 1;
    }
    let ghost end = state.state();
    // Trailing whitespace is part of the line its author wrote.
    if state.pending.len() > 0 && state.used.saturating_add(state.pending_width) <= width {
        state.settle();
    }
    let last = finish(&state.spans);
    let mut out = state.out;
    out.push(last);
    assert(style::line_views(out@) =~= flow_end(width as nat, end));
    out
}

/// Whether a text is nothing but whitespace.
fn is_all_white(text: &str) -> (r: bool)
    ensures
        r == all_white(text@),
{
    let chars = to_chars(text);
    let mut i: usize = 0;
    while i < chars.len()
        invariant
            i <= chars.len(),
            chars@ == text@,
            forall|k: int| 0 <= k < i ==> text::white_space(#[trigger] chars@[k]),
        decreases chars.len() - i,
    {
        if !is_whitespace(chars[i]) {
            assert(!text::white_space(text@[i as int]));
            return false;
        }
        i += 1;
    }
    true
}

/// Code being chopped: the finished lines, the line under construction and the
/// columns it uses. Once `stopped`, nothing more is drawn.
pub struct Chopping {
    pub out: Seq<Seq<SpanView>>,
    pub spans: Seq<SpanView>,
    pub used: nat,
    pub stopped: bool,
}

/// Puts one run of code down, starting a new line at every full one. A prefix
/// that leaves no room at all stops the drawing.
pub open spec fn chopped(
    line: LineView,
    width: nat,
    state: Chopping,
    rest: Seq<char>,
    style: Style,
) -> Chopping
    decreases
            rest.len(),
            (if width::room(width, state.used) == 0 {
                1nat
            } else {
                0nat
            }),
{
    let left = width::room(width, state.used);
    if rest.len() == 0 || state.stopped {
        state
    } else if left == 0 {
        let next = Chopping {
            out: state.out.push(merged(state.spans)),
            spans: opening_spans(line, false),
            used: opening_width(line, false),
            stopped: opening_width(line, false) >= width,
        };
        if next.stopped {
            next
        } else {
            chopped(line, width, next, rest, style)
        }
    } else if width::width_of(rest) <= left {
        Chopping {
            spans: state.spans.push(SpanView { text: rest, style }),
            used: width::columns(state.used, width::width_of(rest)),
            ..state
        }
    } else {
        proof {
            width::lemma_cut(rest, left);
        }
        let at = width::cut(rest, left) as int;
        let head = rest.take(at);
        chopped(
            line,
            width,
            Chopping {
                spans: state.spans.push(SpanView { text: head, style }),
                used: width::columns(state.used, width::width_of(head)),
                ..state
            },
            rest.skip(at),
            style,
        )
    }
}

/// Code from its `k`-th span on.
pub open spec fn chopping(line: LineView, width: nat, state: Chopping, k: int) -> Chopping
    decreases line.spans.len() - k,
{
    if k < 0 || k >= line.spans.len() || state.stopped {
        state
    } else {
        let span = line.spans[k];
        chopping(line, width, chopped(line, width, state, span.text, span.style), k + 1)
    }
}

/// The state code starts from.
pub open spec fn chop_start(line: LineView) -> Chopping {
    Chopping {
        out: Seq::empty(),
        spans: opening_spans(line, true),
        used: opening_width(line, true),
        stopped: false,
    }
}

/// Code at a width.
pub open spec fn chop_lines(line: LineView, width: nat) -> Seq<Seq<SpanView>> {
    let end = chopping(line, width, chop_start(line), 0);
    if end.stopped {
        end.out
    } else {
        end.out.push(merged(end.spans))
    }
}

/// Code being chopped, executably; see [`Chopping`].
struct Chop {
    out: Vec<Line>,
    spans: Vec<Span>,
    used: usize,
    stopped: bool,
}

impl Chop {
    spec fn state(self) -> Chopping {
        Chopping {
            out: style::line_views(self.out@),
            spans: style::views(self.spans@),
            used: self.used as nat,
            stopped: self.stopped,
        }
    }

    /// Puts one run of code down; see [`chopped`].
    fn put(&mut self, line: &MdLine, width: usize, span: &Span)
        ensures
            final(self).state() == chopped(
                line@,
                width as nat,
                old(self).state(),
                span@.text,
                span.style,
            ),
    {
        let style = span.style;
        let mut rest = to_chars(&span.content);
        while rest.len() > 0 && !self.stopped
            invariant
                style == span.style,
                chopped(line@, width as nat, self.state(), rest@, style) == chopped(
                    line@,
                    width as nat,
                    old(self).state(),
                    span@.text,
                    style,
                ),
            decreases
                    rest@.len(),
                    (if width as int - self.used as int <= 0 {
                        1int
                    } else {
                        0int
                    }),
        {
            let left = width.saturating_sub(self.used);
            if left == 0 {
                let done = finish(&self.spans);
                let ghost before = style::line_views(self.out@);
                let ghost closed = merged(style::views(self.spans@));
                self.out.push(done);
                let (spans, used) = opening(line, false);
                self.spans = spans;
                self.used = used;
                assert(style::line_views(self.out@) =~= before.push(closed));
                // A prefix wider than the viewport would spin here forever.
                if used >= width {
                    self.stopped = true;
                    return;
                }
                continue;
            }
            let columns = chars_width(&rest);
            let ghost shown = style::views(self.spans@);
            if columns <= left {
                self.used = self.used.saturating_add(columns);
                self.spans.push(Span::styled(from_chars(&rest), style));
                assert(style::views(self.spans@) =~= shown.push(SpanView { text: rest@, style }));
                return;
            }
            let at = cut_at(&rest, left);
            let head = slice_chars(&rest, 0, at);
            let tail = slice_chars(&rest, at, rest.len());
            self.used = self.used.saturating_add(chars_width(&head));
            self.spans.push(Span::styled(from_chars(&head), style));
            proof {
                assert(head@ =~= rest@.take(at as int));
                assert(tail@ =~= rest@.skip(at as int));
                assert(style::views(self.spans@) =~= shown.push(SpanView { text: head@, style }));
            }
            rest = tail;
        }
    }
}

/// Chops a line at the column, which is what code does instead of wrapping.
fn chop(line: &MdLine, width: usize) -> (out: Vec<Line>)
    ensures
        style::line_views(out@) == chop_lines(line@, width as nat),
{
    let (spans, used) = opening(line, true);
    let mut state = Chop { out: Vec::new(), spans, used, stopped: false };
    assert(state.state().out =~= Seq::empty());
    let mut k: usize = 0;
    while k < line.spans.len() && !state.stopped
        invariant
            k <= line.spans.len(),
            chopping(line@, width as nat, chop_start(line@), 0) == chopping(
                line@,
                width as nat,
                state.state(),
                k as int,
            ),
        decreases line.spans.len() - k,
    {
        state.put(line, width, &line.spans[k]);
        k += 1;
    }
    if state.stopped {
        return state.out;
    }
    let last = finish(&state.spans);
    let ghost end = state.state();
    let mut out = state.out;
    out.push(last);
    assert(style::line_views(out@) =~= end.out.push(merged(end.spans)));
    out
}

/// A line clipped from its `k`-th span on, `used` columns in.
pub open spec fn clipping(
    line: LineView,
    width: nat,
    spans: Seq<SpanView>,
    used: nat,
    k: int,
) -> Seq<SpanView>
    decreases line.spans.len() - k,
{
    let left = width::room(width, used);
    if k < 0 || k >= line.spans.len() || left == 0 {
        spans
    } else {
        let span = line.spans[k];
        let columns = width::width_of(span.text);
        if columns <= left {
            clipping(line, width, spans.push(span), width::columns(used, columns), k + 1)
        } else {
            let at = width::cut(span.text, left) as int;
            spans.push(SpanView { text: span.text.take(at), ..span })
        }
    }
}

/// A grid row at a width.
pub open spec fn clip_line(line: LineView, width: nat) -> Seq<SpanView> {
    clipping(line, width, opening_spans(line, true), opening_width(line, true), 0)
}

/// Truncates a line at the column, which is what a grid row does so that its
/// verticals stay vertical.
fn clip(line: &MdLine, width: usize) -> (out: Vec<Span>)
    ensures
        style::views(out@) == clip_line(line@, width as nat),
{
    let (mut spans, mut used) = opening(line, true);
    let mut k: usize = 0;
    while k < line.spans.len()
        invariant
            k <= line.spans.len(),
            clip_line(line@, width as nat) == clipping(
                line@,
                width as nat,
                style::views(spans@),
                used as nat,
                k as int,
            ),
        decreases line.spans.len() - k,
    {
        let left = width.saturating_sub(used);
        if left == 0 {
            return spans;
        }
        let ghost shown = style::views(spans@);
        let span = &line.spans[k];
        let text = to_chars(&span.content);
        let columns = chars_width(&text);
        if columns > left {
            let at = cut_at(&text, left);
            let head = slice_chars(&text, 0, at);
            assert(head@ =~= text@.take(at as int));
            spans.push(Span::styled(from_chars(&head), span.style));
            assert(style::views(spans@) =~= shown.push(SpanView { text: head@, style: span.style }));
            return spans;
        }
        used = used.saturating_add(columns);
        spans.push(span.clone());
        assert(style::views(spans@) =~= shown.push(span@));
        k += 1;
    }
    spans
}

/// A rule at a width.
pub open spec fn rule_line(line: LineView, width: nat) -> Seq<SpanView> {
    let glyphs = width::repeated(
        RULE_GLYPH,
        width::room(width, opening_width(line, true)),
    );
    let style = if line.spans.len() > 0 {
        line.spans[0].style
    } else {
        Style::plain()
    };
    opening_spans(line, true).push(SpanView { text: glyphs, style })
}

/// Fills the line with the rule glyph, which is the only part of a horizontal
/// rule that needs to know how wide the screen is.
fn rule(line: &MdLine, width: usize) -> (out: Vec<Span>)
    ensures
        style::views(out@) == rule_line(line@, width as nat),
{
    let (mut spans, used) = opening(line, true);
    let style = if line.spans.len() > 0 {
        line.spans[0].style
    } else {
        Style::new()
    };
    let ghost shown = style::views(spans@);
    spans.push(Span::styled(repeat_char(RULE_GLYPH, width.saturating_sub(used)), style));
    assert(style::views(spans@) =~= rule_line(line@, width as nat));
    spans
}

/// One logical line at `width` columns.
pub open spec fn wrapped(line: LineView, width: nat) -> Seq<Seq<SpanView>> {
    if width == 0 {
        Seq::empty()
    } else {
        match line.kind {
            LineKind::Flow => flow_lines(line, width),
            LineKind::Chop => chop_lines(line, width),
            LineKind::Clip => seq![merged(clip_line(line, width))],
            LineKind::Rule => seq![merged(rule_line(line, width))],
        }
    }
}

/// Lays one logical line out at `width` columns.
pub fn wrap(line: &MdLine, width: usize) -> (out: Vec<Line>)
    ensures
        style::line_views(out@) == wrapped(line@, width as nat),
{
    if width == 0 {
        let out: Vec<Line> = Vec::new();
        assert(style::line_views(out@) =~= Seq::empty());
        return out;
    }
    match line.kind {
        LineKind::Flow => flow(line, width),
        LineKind::Chop => chop(line, width),
        LineKind::Clip => {
            let spans = clip(line, width);
            let mut out: Vec<Line> = Vec::new();
            out.push(finish(&spans));
            assert(style::line_views(out@) =~= seq![merged(clip_line(line@, width as nat))]);
            out
        },
        LineKind::Rule => {
            let spans = rule(line, width);
            let mut out: Vec<Line> = Vec::new();
            out.push(finish(&spans));
            assert(style::line_views(out@) =~= seq![merged(rule_line(line@, width as nat))]);
            out
        },
    }
}

} // verus!
