//! How many columns wrapped lines and the cells of a grid take.
//!
//! A visual line is measured as it was laid out: the columns of its opening,
//! and those of each piece behind it on its own. Neighbours in one style are
//! then merged, which changes no character.

use vstd::prelude::*;

use crate::markdown::styles::Styles;
use crate::markdown::table::{self, Cell};
use crate::markdown::wrap::{self, Chopping, Flowing, LineKind, LineView};
use crate::style::{self, SpanView, Style};
use crate::width;

verus! {

/// The columns of a visual line: those it opens with, and those of the pieces
/// behind.
pub open spec fn laid(line: LineView, first: bool, pieces: Seq<SpanView>) -> nat {
    width::columns(wrap::opening_width(line, first), wrap::spans_width(pieces))
}

/// The spans of a visual line before neighbours are merged.
pub open spec fn spans_of(line: LineView, first: bool, pieces: Seq<SpanView>) -> Seq<SpanView> {
    wrap::opening_spans(line, first) + pieces
}

/// Pieces that show nothing: whitespace, and what takes no columns.
pub open spec fn unseen(pieces: Seq<SpanView>) -> bool {
    forall|i: int|
        0 <= i < pieces.len() ==> wrap::all_white((#[trigger] pieces[i]).text) || width::width_of(
            pieces[i].text,
        ) == 0
}

/// One character at most, with what is drawn as one with it: a text that is no
/// wider than its first character alone.
pub open spec fn single(text: Seq<char>) -> bool {
    text.len() <= 1 || width::width_of(text) <= width::width_of(text.take(1))
}

/// A line of prose that fits; or one whose opening and leading whitespace leave
/// no column for the word behind; or one whose only word is a [`single`]
/// character, wider than what they leave.
pub open spec fn prose_fits(
    line: LineView,
    width: nat,
    first: bool,
    pieces: Seq<SpanView>,
) -> bool {
    ||| laid(line, first, pieces) <= width
    ||| unseen(pieces)
    ||| pieces.len() > 0 && unseen(pieces.drop_last()) && (laid(line, first, pieces.drop_last())
        >= width || single(pieces.last().text))
}

/// A line of code or of a grid that fits; or one that is all opening; or one
/// whose last piece is a [`single`] character, wider than what was left.
pub open spec fn cut_fits(line: LineView, width: nat, first: bool, pieces: Seq<SpanView>) -> bool {
    ||| laid(line, first, pieces) <= width
    ||| pieces.len() == 0
    ||| single(pieces.last().text) && laid(line, first, pieces.drop_last()) < width
}

/// Whether a visual line of prose fits; see [`prose_fits`].
pub open spec fn prose_within(line: LineView, width: nat, shown: Seq<SpanView>) -> bool {
    exists|first: bool, pieces: Seq<SpanView>|
        shown == wrap::merged(#[trigger] spans_of(line, first, pieces)) && prose_fits(
            line,
            width,
            first,
            pieces,
        )
}

/// Whether a visual line of code or of a grid fits; see [`cut_fits`].
pub open spec fn cut_within(line: LineView, width: nat, shown: Seq<SpanView>) -> bool {
    exists|first: bool, pieces: Seq<SpanView>|
        shown == wrap::merged(#[trigger] spans_of(line, first, pieces)) && cut_fits(
            line,
            width,
            first,
            pieces,
        )
}

/// Every word of a line takes a column.
pub open spec fn words_show(line: LineView) -> bool {
    let atoms = wrap::atoms_of(line.spans);
    forall|k: int|
        0 <= k < atoms.len() && !wrap::all_white((#[trigger] atoms[k]).text) ==> width::width_of(
            atoms[k].text,
        ) > 0
}

proof fn lemma_push_width(pieces: Seq<SpanView>, piece: SpanView)
    ensures
        wrap::spans_width(pieces.push(piece)) == width::columns(
            wrap::spans_width(pieces),
            width::width_of(piece.text),
        ),
{
    assert(pieces.push(piece).drop_last() =~= pieces);
}

proof fn lemma_concat_width(a: Seq<SpanView>, b: Seq<SpanView>)
    ensures
        wrap::spans_width(a + b) == width::columns(wrap::spans_width(a), wrap::spans_width(b)),
        wrap::spans_width(a) <= usize::MAX,
    decreases b.len(), a.len(),
{
    if b.len() == 0 {
        assert(a + b =~= a);
        if a.len() > 0 {
            lemma_concat_width(a.drop_last(), b);
        }
    } else {
        lemma_concat_width(a, b.drop_last());
        assert((a + b).drop_last() =~= a + b.drop_last());
    }
}

/// What takes no columns at all shows nothing.
proof fn lemma_no_columns_unseen(pieces: Seq<SpanView>)
    requires
        wrap::spans_width(pieces) == 0,
    ensures
        unseen(pieces),
    decreases pieces.len(),
{
    if pieces.len() > 0 {
        lemma_no_columns_unseen(pieces.drop_last());
        assert forall|i: int| 0 <= i < pieces.len() implies wrap::all_white(
            (#[trigger] pieces[i]).text,
        ) || width::width_of(pieces[i].text) == 0 by {
            if i < pieces.len() - 1 {
                assert(pieces.drop_last()[i] == pieces[i]);
            }
        }
    }
}

/// The line of prose under construction: its pieces, and what is known of them.
pub open spec fn prose_open(
    line: LineView,
    width: nat,
    state: Flowing,
    first: bool,
    pieces: Seq<SpanView>,
) -> bool {
    &&& state.spans == spans_of(line, first, pieces)
    &&& state.used == laid(line, first, pieces)
    &&& state.base == wrap::opening_width(line, first)
    &&& state.used <= width || unseen(pieces)
}

/// What holds of prose that is being wrapped: the finished lines fit, and so far
/// the open one does.
pub open spec fn prose_runs(line: LineView, width: nat, state: Flowing) -> bool {
    &&& forall|i: int|
        0 <= i < state.out.len() ==> prose_within(line, width, #[trigger] state.out[i])
    &&& exists|first: bool, pieces: Seq<SpanView>|
        #[trigger] prose_open(line, width, state, first, pieces)
    &&& state.pending_width == wrap::spans_width(state.pending)
    &&& forall|i: int|
        0 <= i < state.pending.len() ==> wrap::all_white((#[trigger] state.pending[i]).text)
}

/// A line that fits may be closed.
proof fn lemma_close_prose(
    line: LineView,
    width: nat,
    state: Flowing,
    first: bool,
    pieces: Seq<SpanView>,
)
    requires
        forall|i: int|
            0 <= i < state.out.len() ==> prose_within(line, width, #[trigger] state.out[i]),
        prose_fits(line, width, first, pieces),
    ensures
        prose_runs(
            line,
            width,
            wrap::continued(line, state.out.push(wrap::merged(spans_of(line, first, pieces)))),
        ),
{
    let shown = wrap::merged(spans_of(line, first, pieces));
    let out = state.out.push(shown);
    assert(prose_within(line, width, shown));
    assert forall|i: int| 0 <= i < out.len() implies prose_within(line, width, #[trigger] out[i]) by {
        if i < state.out.len() {
            assert(out[i] == state.out[i]);
        }
    }
    let next = wrap::continued(line, out);
    let none = Seq::<SpanView>::empty();
    assert(spans_of(line, false, none) =~= wrap::opening_spans(line, false));
    lemma_concat_width(line.prefix, none);
    assert(line.prefix + none =~= line.prefix);
    assert(wrap::opening_width(line, false) <= usize::MAX);
    assert(prose_open(line, width, next, false, none));
}

proof fn lemma_placed_fits(
    line: LineView,
    width: nat,
    state: Flowing,
    word: Seq<char>,
    style: Style,
)
    requires
        width <= usize::MAX,
        prose_runs(line, width, state),
        word.len() > 0,
        width::width_of(word) > 0 || state.pending.len() == 0,
    ensures
        prose_runs(line, width, wrap::placed(line, width, state, word, style)),
    decreases
            word.len(),
            (if state.used > state.base {
                1nat
            } else {
                0nat
            }),
{
    let (first, pieces) = choose|first: bool, pieces: Seq<SpanView>|
        #[trigger] prose_open(line, width, state, first, pieces);
    let open = wrap::opening_width(line, first);
    let settled = pieces + state.pending;
    lemma_concat_width(pieces, state.pending);
    let before = width::columns(state.used, state.pending_width);
    assert(laid(line, first, settled) == before);
    assert(state.spans + state.pending =~= spans_of(line, first, settled));
    if width::width_of(word) <= width::room(width, before) {
        let span = SpanView { text: word, style };
        let all = settled.push(span);
        lemma_push_width(settled, span);
        let next = wrap::placed(line, width, state, word, style);
        assert(next.spans =~= spans_of(line, first, all));
        assert(next.used == laid(line, first, all));
        if state.pending.len() == 0 {
            assert(settled =~= pieces);
        }
        if next.used > width {
            assert(width::width_of(word) == 0);
            assert(unseen(all)) by {
                assert forall|i: int| 0 <= i < all.len() implies wrap::all_white(
                    (#[trigger] all[i]).text,
                ) || width::width_of(all[i].text) == 0 by {
                    if i < pieces.len() {
                        assert(all[i] == pieces[i]);
                    }
                }
            }
        }
        assert(prose_open(line, width, next, first, all));
    } else if state.used > state.base {
        lemma_close_prose(line, width, state, first, pieces);
        lemma_placed_fits(
            line,
            width,
            wrap::continued(line, state.out.push(wrap::merged(state.spans))),
            word,
            style,
        );
    } else {
        let allowed = wrap::chop_room(width, before);
        width::lemma_cut(word, allowed);
        let at = width::cut(word, allowed) as int;
        assert(word.take(at).take(1) =~= word.take(1));
        let span = SpanView { text: word.take(at), style };
        let all = settled.push(span);
        lemma_push_width(settled, span);
        assert(all.drop_last() =~= settled);
        let full = (state.spans + state.pending).push(span);
        assert(full =~= spans_of(line, first, all));
        lemma_concat_width(pieces, Seq::empty());
        lemma_concat_width(line.prefix, Seq::empty());
        if state.used <= width && wrap::spans_width(pieces) == 0 {
            lemma_no_columns_unseen(pieces);
        }
        if unseen(pieces) {
            assert(unseen(settled)) by {
                assert forall|i: int| 0 <= i < settled.len() implies wrap::all_white(
                    (#[trigger] settled[i]).text,
                ) || width::width_of(settled[i].text) == 0 by {
                    if i < pieces.len() {
                        assert(settled[i] == pieces[i]);
                    } else {
                        assert(settled[i] == state.pending[i - pieces.len()]);
                    }
                }
            }
        } else {
            // Only columns beyond what the machine can count could hide behind
            // an opening, and then no width is exceeded.
            assert(open == usize::MAX);
        }
        assert(prose_fits(line, width, first, all));
        lemma_close_prose(line, width, state, first, all);
        let next = wrap::continued(line, state.out.push(wrap::merged(full)));
        if at < word.len() {
            lemma_placed_fits(line, width, next, word.skip(at), style);
        }
    }
}

proof fn lemma_flowing_fits(
    line: LineView,
    width: nat,
    state: Flowing,
    atoms: Seq<SpanView>,
    k: int,
)
    requires
        width <= usize::MAX,
        0 <= k,
        prose_runs(line, width, state),
        forall|i: int|
            0 <= i < atoms.len() && !wrap::all_white((#[trigger] atoms[i]).text)
                ==> width::width_of(atoms[i].text) > 0,
    ensures
        prose_runs(line, width, wrap::flowing(line, width, state, atoms, k)),
    decreases atoms.len() - k,
{
    if k >= atoms.len() {
    } else if wrap::all_white(atoms[k].text) {
        let next = Flowing {
            pending: state.pending.push(atoms[k]),
            pending_width: width::columns(state.pending_width, width::width_of(atoms[k].text)),
            ..state
        };
        lemma_push_width(state.pending, atoms[k]);
        let (first, pieces) = choose|first: bool, pieces: Seq<SpanView>|
            #[trigger] prose_open(line, width, state, first, pieces);
        assert(prose_open(line, width, next, first, pieces));
        lemma_flowing_fits(line, width, next, atoms, k + 1);
    } else {
        lemma_placed_fits(line, width, state, atoms[k].text, atoms[k].style);
        lemma_flowing_fits(
            line,
            width,
            wrap::placed(line, width, state, atoms[k].text, atoms[k].style),
            atoms,
            k + 1,
        );
    }
}

/// Wrapped prose fits the width: no line takes more columns, but for one whose
/// opening and leading whitespace leave no column for its word, and one whose
/// only word is a single character too wide for what they leave. Words that take
/// no column at all are left out, as they are put behind whitespace that need
/// not fit.
pub proof fn law_wrapped_prose_fits(line: LineView, width: nat)
    requires
        width <= usize::MAX,
        words_show(line),
    ensures
        forall|i: int|
            0 <= i < wrap::flow_lines(line, width).len() ==> prose_within(
                line,
                width,
                #[trigger] wrap::flow_lines(line, width)[i],
            ),
{
    let start = wrap::flow_start(line);
    let none = Seq::<SpanView>::empty();
    assert(spans_of(line, true, none) =~= wrap::opening_spans(line, true));
    lemma_concat_width(line.prefix, none);
    assert(prose_open(line, width, start, true, none));
    assert(prose_runs(line, width, start));
    let atoms = wrap::atoms_of(line.spans);
    lemma_flowing_fits(line, width, start, atoms, 0);
    let end = wrap::flowing(line, width, start, atoms, 0);
    let (first, pieces) = choose|first: bool, pieces: Seq<SpanView>|
        #[trigger] prose_open(line, width, end, first, pieces);
    let all = pieces + end.pending;
    lemma_concat_width(pieces, end.pending);
    assert(end.spans + end.pending =~= spans_of(line, first, all));
    let lines = wrap::flow_lines(line, width);
    assert forall|i: int| 0 <= i < lines.len() implies prose_within(
        line,
        width,
        #[trigger] lines[i],
    ) by {
        if i < end.out.len() {
            assert(lines[i] == end.out[i]);
        } else if end.pending.len() > 0 && width::columns(end.used, end.pending_width) <= width {
            assert(laid(line, first, all) <= width);
            assert(lines[i] == wrap::merged(spans_of(line, first, all)));
        } else {
            assert(lines[i] == wrap::merged(spans_of(line, first, pieces)));
        }
    }
}

/// The line of code under construction.
pub open spec fn code_open(
    line: LineView,
    width: nat,
    state: Chopping,
    first: bool,
    pieces: Seq<SpanView>,
) -> bool {
    &&& state.spans == spans_of(line, first, pieces)
    &&& state.used == laid(line, first, pieces)
    &&& cut_fits(line, width, first, pieces)
}

/// What holds of code that is being chopped: the finished lines fit, and so far
/// the open one does.
pub open spec fn code_runs(line: LineView, width: nat, state: Chopping) -> bool {
    &&& forall|i: int|
        0 <= i < state.out.len() ==> cut_within(line, width, #[trigger] state.out[i])
    &&& exists|first: bool, pieces: Seq<SpanView>|
        #[trigger] code_open(line, width, state, first, pieces)
}

/// A piece that was cut to what is left fits, or is a single character.
proof fn lemma_cut_piece(
    line: LineView,
    width: nat,
    first: bool,
    pieces: Seq<SpanView>,
    text: Seq<char>,
    style: Style,
)
    requires
        width <= usize::MAX,
        text.len() > 0,
        laid(line, first, pieces) < width,
    ensures
        ({
            let left = width::room(width, laid(line, first, pieces));
            let whole = pieces.push(SpanView { text, style });
            let head = SpanView { text: text.take(width::cut(text, left) as int), style };
            &&& laid(line, first, whole) == width::columns(
                laid(line, first, pieces),
                width::width_of(text),
            )
            &&& width::width_of(text) <= left ==> cut_fits(line, width, first, whole)
            &&& laid(line, first, pieces.push(head)) == width::columns(
                laid(line, first, pieces),
                width::width_of(head.text),
            )
            &&& cut_fits(line, width, first, pieces.push(head))
        }),
{
    let left = width::room(width, laid(line, first, pieces));
    let whole = SpanView { text, style };
    let head = SpanView { text: text.take(width::cut(text, left) as int), style };
    lemma_push_width(pieces, whole);
    lemma_push_width(pieces, head);
    width::lemma_cut(text, left);
    assert(head.text.take(1) =~= text.take(1));
    assert(pieces.push(head).drop_last() =~= pieces);
}

proof fn lemma_chopped_fits(
    line: LineView,
    width: nat,
    state: Chopping,
    rest: Seq<char>,
    style: Style,
)
    requires
        width <= usize::MAX,
        code_runs(line, width, state),
    ensures
        code_runs(line, width, wrap::chopped(line, width, state, rest, style)),
    decreases
            rest.len(),
            (if width::room(width, state.used) == 0 {
                1nat
            } else {
                0nat
            }),
{
    let (first, pieces) = choose|first: bool, pieces: Seq<SpanView>|
        #[trigger] code_open(line, width, state, first, pieces);
    let left = width::room(width, state.used);
    if rest.len() == 0 || state.stopped {
    } else if left == 0 {
        let next = Chopping {
            out: state.out.push(wrap::merged(state.spans)),
            spans: wrap::opening_spans(line, false),
            used: wrap::opening_width(line, false),
            stopped: wrap::opening_width(line, false) >= width,
        };
        assert(cut_within(line, width, wrap::merged(state.spans)));
        assert forall|i: int| 0 <= i < next.out.len() implies cut_within(
            line,
            width,
            #[trigger] next.out[i],
        ) by {
            if i < state.out.len() {
                assert(next.out[i] == state.out[i]);
            }
        }
        let none = Seq::<SpanView>::empty();
        assert(spans_of(line, false, none) =~= wrap::opening_spans(line, false));
        lemma_concat_width(line.prefix, none);
        assert(code_open(line, width, next, false, none));
        if !next.stopped {
            lemma_chopped_fits(line, width, next, rest, style);
        }
    } else {
        lemma_cut_piece(line, width, first, pieces, rest, style);
        if width::width_of(rest) <= left {
            let span = SpanView { text: rest, style };
            let next = wrap::chopped(line, width, state, rest, style);
            assert(next.spans =~= spans_of(line, first, pieces.push(span)));
            assert(code_open(line, width, next, first, pieces.push(span)));
        } else {
            width::lemma_cut(rest, left);
            let at = width::cut(rest, left) as int;
            let head = SpanView { text: rest.take(at), style };
            let next = Chopping {
                spans: state.spans.push(head),
                used: width::columns(state.used, width::width_of(head.text)),
                ..state
            };
            assert(next.spans =~= spans_of(line, first, pieces.push(head)));
            assert(code_open(line, width, next, first, pieces.push(head)));
            lemma_chopped_fits(line, width, next, rest.skip(at), style);
        }
    }
}

proof fn lemma_chopping_fits(line: LineView, width: nat, state: Chopping, k: int)
    requires
        width <= usize::MAX,
        code_runs(line, width, state),
    ensures
        code_runs(line, width, wrap::chopping(line, width, state, k)),
    decreases line.spans.len() - k,
{
    if k < 0 || k >= line.spans.len() || state.stopped {
    } else {
        let span = line.spans[k];
        lemma_chopped_fits(line, width, state, span.text, span.style);
        lemma_chopping_fits(
            line,
            width,
            wrap::chopped(line, width, state, span.text, span.style),
            k + 1,
        );
    }
}

/// Chopped code fits the width: no line takes more columns, but for one that is
/// all opening, and one that ends in a single character too wide for what was
/// left.
pub proof fn law_chopped_code_fits(line: LineView, width: nat)
    requires
        width <= usize::MAX,
    ensures
        forall|i: int|
            0 <= i < wrap::chop_lines(line, width).len() ==> cut_within(
                line,
                width,
                #[trigger] wrap::chop_lines(line, width)[i],
            ),
{
    let start = wrap::chop_start(line);
    let none = Seq::<SpanView>::empty();
    assert(spans_of(line, true, none) =~= wrap::opening_spans(line, true));
    lemma_concat_width(line.prefix, none);
    assert(code_open(line, width, start, true, none));
    lemma_chopping_fits(line, width, start, 0);
    let end = wrap::chopping(line, width, start, 0);
    let (first, pieces) = choose|first: bool, pieces: Seq<SpanView>|
        #[trigger] code_open(line, width, end, first, pieces);
    let lines = wrap::chop_lines(line, width);
    assert forall|i: int| 0 <= i < lines.len() implies cut_within(
        line,
        width,
        #[trigger] lines[i],
    ) by {
        if i < end.out.len() {
            assert(lines[i] == end.out[i]);
        } else {
            assert(lines[i] == wrap::merged(spans_of(line, first, pieces)));
        }
    }
}

proof fn lemma_clipping_fits(
    line: LineView,
    width: nat,
    pieces: Seq<SpanView>,
    k: int,
) -> (all: Seq<SpanView>)
    requires
        width <= usize::MAX,
        0 <= k,
        laid(line, true, pieces) <= width || pieces.len() == 0,
    ensures
        wrap::clipping(
            line,
            width,
            spans_of(line, true, pieces),
            laid(line, true, pieces),
            k,
        ) == spans_of(line, true, all),
        cut_fits(line, width, true, all),
    decreases line.spans.len() - k,
{
    let used = laid(line, true, pieces);
    let left = width::room(width, used);
    if k >= line.spans.len() || left == 0 {
        pieces
    } else {
        let span = line.spans[k];
        lemma_push_width(pieces, span);
        if width::width_of(span.text) <= left {
            assert(spans_of(line, true, pieces).push(span) =~= spans_of(
                line,
                true,
                pieces.push(span),
            ));
            lemma_clipping_fits(line, width, pieces.push(span), k + 1)
        } else {
            let head = SpanView {
                text: span.text.take(width::cut(span.text, left) as int),
                ..span
            };
            if span.text.len() > 0 {
                lemma_cut_piece(line, width, true, pieces, span.text, span.style);
            } else {
                assert(pieces.push(head).drop_last() =~= pieces);
            }
            assert(spans_of(line, true, pieces).push(head) =~= spans_of(
                line,
                true,
                pieces.push(head),
            ));
            pieces.push(head)
        }
    }
}

/// A clipped row fits the width, but for one that is all opening, and one that
/// ends in a single character too wide for what was left. A rule has a glyph for
/// every column its opening leaves.
pub proof fn law_clipped_rows_fit(line: LineView, width: nat)
    requires
        width <= usize::MAX,
    ensures
        cut_within(line, width, wrap::merged(wrap::clip_line(line, width))),
        wrap::rule_line(line, width).last().text.len() == width::room(
            width,
            wrap::opening_width(line, true),
        ),
{
    let none = Seq::<SpanView>::empty();
    assert(spans_of(line, true, none) =~= wrap::opening_spans(line, true));
    lemma_concat_width(line.prefix, none);
    let all = lemma_clipping_fits(line, width, none, 0);
    assert(cut_within(line, width, wrap::merged(spans_of(line, true, all))));
}

/// Every visual line of a logical one fits the width it is wrapped to, as far as
/// its kind promises: prose as [`prose_fits`] says, code and grid rows as
/// [`cut_fits`] says, and a rule has a glyph for every column its opening leaves.
pub proof fn law_wrapped_lines_fit(line: LineView, width: nat, i: int)
    requires
        width <= usize::MAX,
        line.kind is Flow ==> words_show(line),
        0 <= i < wrap::wrapped(line, width).len(),
    ensures
        ({
            let shown = wrap::wrapped(line, width)[i];
            match line.kind {
                LineKind::Flow => prose_within(line, width, shown),
                LineKind::Chop | LineKind::Clip => cut_within(line, width, shown),
                LineKind::Rule => shown == wrap::merged(wrap::rule_line(line, width))
                    && wrap::rule_line(line, width).last().text.len() == width::room(
                    width,
                    wrap::opening_width(line, true),
                ),
            }
        }),
{
    match line.kind {
        LineKind::Flow => law_wrapped_prose_fits(line, width),
        LineKind::Chop => law_chopped_code_fits(line, width),
        LineKind::Clip | LineKind::Rule => law_clipped_rows_fit(line, width),
    }
}

/// No front of a text is wider than the text.
pub open spec fn grows(text: Seq<char>) -> bool {
    forall|n: int|
        0 <= n <= text.len() ==> width::width_of(#[trigger] text.take(n)) <= width::width_of(text)
}

/// Every span of a cell has a text that takes a column, and grows.
pub open spec fn showable(cell: Seq<SpanView>) -> bool {
    forall|i: int|
        0 <= i < cell.len() ==> grows((#[trigger] cell[i]).text) && width::width_of(cell[i].text)
            > 0 && cell[i].text.len() > 0
}

/// The columns of spans, one after another.
pub open spec fn total(spans: Seq<SpanView>) -> nat
    decreases spans.len(),
{
    if spans.len() == 0 {
        0
    } else {
        total(spans.drop_last()) + width::width_of(spans.last().text)
    }
}

/// What is drawn of a cell in `room` columns: of each span in turn as much of
/// its front as still fits, until there is no room left or a character that
/// opens a span does not fit.
pub open spec fn drawn_of(cell: Seq<SpanView>, room: nat, drawn: Seq<SpanView>) -> bool {
    &&& drawn.len() <= cell.len()
    &&& total(drawn) <= room
    &&& forall|i: int|
        #![trigger drawn[i]]
        0 <= i < drawn.len() ==> {
            let n = drawn[i].text.len() as int;
            &&& drawn[i].style == cell[i].style
            &&& n <= cell[i].text.len()
            &&& drawn[i].text == cell[i].text.take(n)
            &&& n < cell[i].text.len() ==> n > 0 && total(drawn.take(i)) + width::width_of(
                cell[i].text.take(n + 1),
            ) > room
        }
    &&& drawn.len() < cell.len() ==> {
        let next = cell[drawn.len() as int].text;
        ||| total(drawn) == room
        ||| next.len() == 0
        ||| total(drawn) + width::width_of(next.take(1)) > room
    }
}

proof fn lemma_fitting_stops(text: Seq<char>, n: nat, limit: nat)
    requires
        n <= text.len(),
    ensures
        width::fitting(text, n, limit) < text.len() ==> width::width_of(
            text.take(width::fitting(text, n, limit) as int + 1),
        ) > limit,
    decreases text.len() - n,
{
    if n >= text.len() {
    } else if width::width_of(text.take(n as int + 1)) > limit {
    } else {
        lemma_fitting_stops(text, n + 1, limit);
    }
}

proof fn lemma_total_push(spans: Seq<SpanView>, span: SpanView)
    ensures
        total(spans.push(span)) == total(spans) + width::width_of(span.text),
{
    assert(spans.push(span).drop_last() =~= spans);
}

proof fn lemma_cell(
    cell: Seq<SpanView>,
    room: nat,
    before: Seq<SpanView>,
    drawn: Seq<SpanView>,
) -> (all: Seq<SpanView>)
    requires
        drawn.len() <= cell.len(),
        total(drawn) <= room,
        forall|i: int|
            #![trigger drawn[i]]
            0 <= i < drawn.len() ==> {
                let n = drawn[i].text.len() as int;
                &&& drawn[i].style == cell[i].style
                &&& n <= cell[i].text.len()
                &&& drawn[i].text == cell[i].text.take(n)
                &&& n < cell[i].text.len() ==> n > 0 && total(drawn.take(i)) + width::width_of(
                    cell[i].text.take(n + 1),
                ) > room
            },
    ensures
        table::cell_from(
            cell,
            room,
            Cell { spans: before + drawn, used: total(drawn) },
            drawn.len() as int,
        ) == (Cell { spans: before + all, used: total(all) }),
        drawn_of(cell, room, all),
    decreases cell.len() - drawn.len(),
{
    let k = drawn.len() as int;
    if k >= cell.len() || total(drawn) >= room {
        drawn
    } else {
        let left = (room - total(drawn)) as nat;
        let text = cell[k].text;
        let at = width::cut(text, left) as int;
        let head = text.take(at);
        width::lemma_cut(text, left);
        if width::width_of(head) > left {
            drawn
        } else {
            let span = SpanView { text: head, ..cell[k] };
            let next = drawn.push(span);
            lemma_total_push(drawn, span);
            if at < text.len() {
                lemma_fitting_stops(text, 1, width::allowance(text, left));
            }
            assert(before + next =~= (before + drawn).push(span));
            assert forall|i: int| #![trigger next[i]] 0 <= i < next.len() implies {
                let n = next[i].text.len() as int;
                &&& next[i].style == cell[i].style
                &&& n <= cell[i].text.len()
                &&& next[i].text == cell[i].text.take(n)
                &&& n < cell[i].text.len() ==> n > 0 && total(next.take(i)) + width::width_of(
                    cell[i].text.take(n + 1),
                ) > room
            } by {
                assert(next.take(i) =~= drawn.take(i));
                if i < k {
                    assert(next[i] == drawn[i]);
                } else {
                    assert(drawn.take(i) =~= drawn);
                }
            }
            lemma_cell(cell, room, before, next)
        }
    }
}

/// A cell is drawn as far as it fits its column, behind what was drawn before it
/// and with the columns it takes counted: see [`drawn_of`].
pub proof fn law_a_cell_is_drawn_as_far_as_it_fits(
    cell: Seq<SpanView>,
    room: nat,
    before: Seq<SpanView>,
) -> (drawn: Seq<SpanView>)
    ensures
        table::cell_from(cell, room, Cell { spans: before, used: 0 }, 0) == (Cell {
            spans: before + drawn,
            used: total(drawn),
        }),
        drawn_of(cell, room, drawn),
{
    let none = Seq::<SpanView>::empty();
    assert(before + none =~= before);
    lemma_cell(cell, room, before, none)
}

proof fn lemma_total_split(cell: Seq<SpanView>, n: int)
    requires
        0 <= n <= cell.len(),
    ensures
        total(cell.take(n)) <= total(cell),
        n < cell.len() ==> total(cell.take(n + 1)) == total(cell.take(n)) + width::width_of(
            cell[n].text,
        ),
    decreases cell.len() - n,
{
    if n < cell.len() {
        lemma_total_split(cell, n + 1);
        assert(cell.take(n + 1).drop_last() =~= cell.take(n));
    } else {
        assert(cell.take(n) =~= cell);
    }
}

/// A cell that is no wider than its column is drawn whole, every span of it.
/// Spans that take no column are left out, as nothing is drawn behind the last
/// column; and so are texts that are narrower than one of their own fronts.
pub proof fn law_a_cell_that_fits_is_drawn_whole(
    cell: Seq<SpanView>,
    room: nat,
    before: Seq<SpanView>,
)
    requires
        total(cell) <= room,
        showable(cell),
    ensures
        table::cell_from(cell, room, Cell { spans: before, used: 0 }, 0) == (Cell {
            spans: before + cell,
            used: total(cell),
        }),
{
    let drawn = law_a_cell_is_drawn_as_far_as_it_fits(cell, room, before);
    assert forall|n: int| 0 <= n <= drawn.len() implies #[trigger] drawn.take(n) == cell.take(
        n,
    ) by {
        lemma_drawn_whole(cell, room, drawn, n);
    }
    assert(drawn.take(drawn.len() as int) =~= drawn);
    if drawn.len() < cell.len() {
        let n = drawn.len() as int;
        lemma_total_split(cell, n);
        lemma_total_split(cell, n + 1);
        assert(cell[n].text.take(1).len() == 1);
        assert(width::width_of(cell[n].text.take(1)) <= width::width_of(cell[n].text));
    }
    assert(cell.take(cell.len() as int) =~= cell);
}

proof fn lemma_drawn_whole(cell: Seq<SpanView>, room: nat, drawn: Seq<SpanView>, n: int)
    requires
        drawn_of(cell, room, drawn),
        total(cell) <= room,
        forall|i: int| 0 <= i < cell.len() ==> grows((#[trigger] cell[i]).text),
        0 <= n <= drawn.len(),
    ensures
        drawn.take(n) == cell.take(n),
    decreases n,
{
    if n > 0 {
        let i = n - 1;
        lemma_drawn_whole(cell, room, drawn, i);
        lemma_total_split(cell, i);
        lemma_total_split(cell, n);
        let m = drawn[i].text.len() as int;
        assert(drawn[i].text == cell[i].text.take(m));
        if m < cell[i].text.len() {
            assert(grows(cell[i].text));
            assert(width::width_of(cell[i].text.take(m + 1)) <= width::width_of(cell[i].text));
        }
        assert(cell[i].text.take(cell[i].text.len() as int) =~= cell[i].text);
        assert(drawn.take(n) =~= cell.take(n));
    } else {
        assert(drawn.take(n) =~= cell.take(n));
    }
}

/// What stands between two borders of a grid row, for every column of it: the
/// cell as far as it fits, and blanks up to the column's width and one more.
/// A cell that fits reads exactly as its text; see
/// [`law_a_cell_that_fits_is_drawn_whole`].
pub proof fn law_a_row_shows_its_cells(
    row: Seq<Seq<SpanView>>,
    widths: Seq<nat>,
    styles: Styles,
    column: int,
) -> (drawn: Seq<SpanView>)
    requires
        0 <= column < widths.len(),
    ensures
        ({
            let cell = if column < row.len() {
                row[column]
            } else {
                Seq::empty()
            };
            let shown = table::grid_spans(row, widths, styles, column + 1);
            &&& drawn_of(cell, widths[column], drawn)
            &&& shown == table::grid_spans(row, widths, styles, column) + seq![
                SpanView { text: seq!['\u{2502}', ' '], style: styles.chrome },
            ] + drawn + seq![
                SpanView {
                    text: Seq::new(
                        (widths[column] - total(drawn) + 1) as nat,
                        |i: int| ' ',
                    ),
                    style: styles.chrome,
                },
            ]
            &&& total(cell) <= widths[column] && showable(cell) ==> drawn == cell
        }),
        table::grid_spans(row, widths, styles, 0) == Seq::<SpanView>::empty(),
        table::grid_line(row, widths, styles).spans == table::grid_spans(
            row,
            widths,
            styles,
            widths.len() as int,
        ).push(SpanView { text: seq!['\u{2502}'], style: styles.chrome }),
        table::grid_line(row, widths, styles).prefix == Seq::<SpanView>::empty(),
        table::grid_line(row, widths, styles).kind == LineKind::Clip,
{
    reveal_strlit("\u{2502} ");
    reveal_strlit("\u{2502}");
    assert("\u{2502} "@ =~= seq!['\u{2502}', ' ']);
    assert("\u{2502}"@ =~= seq!['\u{2502}']);
    let cell = table::cell_at(row, column);
    let front = table::grid_spans(row, widths, styles, column).push(
        SpanView { text: "\u{2502} "@, style: styles.chrome },
    );
    let drawn = law_a_cell_is_drawn_as_far_as_it_fits(cell, widths[column], front);
    if total(cell) <= widths[column] && showable(cell) {
        law_a_cell_that_fits_is_drawn_whole(cell, widths[column], front);
        assert(front + drawn == front + cell);
        assert((front + drawn).skip(front.len() as int) =~= drawn);
        assert((front + cell).skip(front.len() as int) =~= cell);
        assert(drawn == cell);
    }
    let padding = Seq::new((widths[column] - total(drawn) + 1) as nat, |i: int| ' ');
    assert(width::repeated(' ', width::room(widths[column], total(drawn)) + 1) =~= padding);
    assert(table::grid_spans(row, widths, styles, column + 1) =~= table::grid_spans(
        row,
        widths,
        styles,
        column,
    ) + seq![SpanView { text: seq!['\u{2502}', ' '], style: styles.chrome }] + drawn + seq![
        SpanView { text: padding, style: styles.chrome },
    ]);
    drawn
}

/// A column is as wide as its widest cell, one column at least and
/// [`table::TABLE_CELL_MAX`] at most; and there are as many as the longest row
/// has.
pub proof fn law_columns_fit_their_cells(rows: Seq<Seq<Seq<SpanView>>>, column: int)
    requires
        rows.len() > 0,
        0 <= column,
    ensures
        ({
            let widths = table::column_widths(rows);
            &&& forall|r: int| 0 <= r < rows.len() ==> (#[trigger] rows[r]).len() <= widths.len()
            &&& exists|r: int| 0 <= r < rows.len() && (#[trigger] rows[r]).len() == widths.len()
            &&& column < widths.len() ==> {
                &&& 1 <= widths[column] <= 40
                &&& forall|r: int|
                    0 <= r < rows.len() && column < (#[trigger] rows[r]).len() ==> widths[column]
                        >= 40 || wrap::spans_width(rows[r][column]) <= widths[column]
                &&& widths[column] == 1 || exists|r: int|
                    0 <= r < rows.len() && column < (#[trigger] rows[r]).len()
                        && wrap::spans_width(rows[r][column]) >= widths[column]
            }
        }),
    decreases rows.len(),
{
    let front = rows.drop_last();
    if front.len() > 0 {
        law_columns_fit_their_cells(front, column);
    }
    lemma_column_width(rows, column);
    lemma_column_count(rows);
}

proof fn lemma_column_count(rows: Seq<Seq<Seq<SpanView>>>)
    ensures
        forall|r: int|
            0 <= r < rows.len() ==> (#[trigger] rows[r]).len() <= table::column_count(rows),
        rows.len() > 0 ==> exists|r: int|
            0 <= r < rows.len() && (#[trigger] rows[r]).len() == table::column_count(rows),
    decreases rows.len(),
{
    if rows.len() > 0 {
        let front = rows.drop_last();
        lemma_column_count(front);
        assert forall|r: int| 0 <= r < rows.len() implies (#[trigger] rows[r]).len()
            <= table::column_count(rows) by {
            if r < front.len() {
                assert(front[r] == rows[r]);
            }
        }
        if rows.last().len() == table::column_count(rows) {
            assert(rows[rows.len() - 1].len() == table::column_count(rows));
        } else {
            assert(front.len() > 0);
            let r = choose|r: int|
                0 <= r < front.len() && (#[trigger] front[r]).len() == table::column_count(front);
            assert(rows[r] == front[r]);
        }
    }
}

proof fn lemma_column_width(rows: Seq<Seq<Seq<SpanView>>>, column: int)
    requires
        0 <= column,
    ensures
        1 <= table::column_width(rows, column) <= 40,
        forall|r: int|
            0 <= r < rows.len() && column < (#[trigger] rows[r]).len() ==> table::column_width(
                rows,
                column,
            ) >= 40 || wrap::spans_width(rows[r][column]) <= table::column_width(rows, column),
        table::column_width(rows, column) == 1 || exists|r: int|
            0 <= r < rows.len() && column < (#[trigger] rows[r]).len() && wrap::spans_width(
                rows[r][column],
            ) >= table::column_width(rows, column),
    decreases rows.len(),
{
    if rows.len() > 0 {
        let front = rows.drop_last();
        lemma_column_width(front, column);
        let wide = table::column_width(rows, column);
        assert forall|r: int| 0 <= r < rows.len() && column < (#[trigger] rows[r]).len() implies wide
            >= 40 || wrap::spans_width(rows[r][column]) <= wide by {
            if r < front.len() {
                assert(front[r] == rows[r]);
            }
        }
        if wide != 1 {
            if wide == table::column_width(front, column) {
                let r = choose|r: int|
                    0 <= r < front.len() && column < (#[trigger] front[r]).len()
                        && wrap::spans_width(front[r][column]) >= wide;
                assert(rows[r] == front[r]);
            } else {
                let r = rows.len() - 1;
                assert(column < rows[r].len());
            }
        }
    }
}

/// A table shows every row once and in order: a border, the first row, a border
/// where more follow, the other rows, and a border.
pub proof fn law_a_table_shows_every_row(
    rows: Seq<Seq<Seq<SpanView>>>,
    styles: Styles,
    r: int,
)
    requires
        0 <= r < rows.len(),
    ensures
        ({
            let lines = table::table_view(rows, styles);
            let behind: int = if rows.len() > 1 {
                1
            } else {
                0
            };
            &&& lines.len() == rows.len() + 2 + behind
            &&& lines[if r == 0 {
                1
            } else {
                r + 2
            }] == table::grid_line(rows[r], table::column_widths(rows), styles)
            &&& lines[0] == table::border_line(
                table::column_widths(rows),
                '\u{250c}',
                '\u{252c}',
                '\u{2510}',
                styles,
            )
            &&& rows.len() > 1 ==> lines[2] == table::border_line(
                table::column_widths(rows),
                '\u{251c}',
                '\u{253c}',
                '\u{2524}',
                styles,
            )
            &&& lines[lines.len() - 1] == table::border_line(
                table::column_widths(rows),
                '\u{2514}',
                '\u{2534}',
                '\u{2518}',
                styles,
            )
        }),
{
    lemma_grid_body(rows, styles, rows.len() as int, r);
}

proof fn lemma_grid_body(rows: Seq<Seq<Seq<SpanView>>>, styles: Styles, n: int, r: int)
    requires
        0 <= n <= rows.len(),
        0 <= r,
    ensures
        ({
            let body = table::grid_body(rows, styles, n);
            let behind: int = if rows.len() > 1 && n > 0 {
                1
            } else {
                0
            };
            &&& body.len() == n + behind
            &&& rows.len() > 1 && n > 0 ==> body[1] == table::border_line(
                table::column_widths(rows),
                '\u{251c}',
                '\u{253c}',
                '\u{2524}',
                styles,
            )
            &&& r < n ==> body[if r == 0 {
                0
            } else {
                r + 1
            }] == table::grid_line(rows[r], table::column_widths(rows), styles)
        }),
    decreases n,
{
    if n > 0 {
        lemma_grid_body(rows, styles, n - 1, r);
    }
}

/// A border has a corner at each end, and for every column of the grid a joint
/// or the corner in front of it and a rule glyph for each of its columns and the
/// two blanks beside it.
pub proof fn law_a_border_spans_the_grid(
    widths: Seq<nat>,
    left: char,
    middle: char,
    right: char,
    styles: Styles,
    c: int,
    i: int,
)
    requires
        0 <= c < widths.len(),
        0 <= i < widths[c] + 2,
    ensures
        ({
            let line = table::border_line(widths, left, middle, right, styles);
            let text = line.spans[0].text;
            &&& line.spans.len() == 1
            &&& line.spans[0].style == styles.chrome
            &&& text.len() == grid_columns(widths)
            &&& text.last() == right
            &&& text[grid_columns(widths.take(c)) - 1] == if c == 0 {
                left
            } else {
                middle
            }
            &&& text[grid_columns(widths.take(c)) + i] == '\u{2500}'
        }),
{
    lemma_border_text(widths, middle, c, i);
    lemma_grid_columns(widths, c);
    let inside = table::border_text(widths, middle);
    let text = (seq![left] + inside).push(right);
    let at = grid_columns(widths.take(c));
    assert(text[at + i] == inside[at + i - 1]);
    if c == 0 {
        assert(widths.take(0) =~= Seq::<nat>::empty());
    } else {
        lemma_grid_columns_grow(widths, c);
        assert(text[at - 1] == inside[at - 2]);
    }
}

/// The columns of a grid, its borders and the blanks beside them counted.
pub open spec fn grid_columns(widths: Seq<nat>) -> int
    decreases widths.len(),
{
    if widths.len() == 0 {
        1
    } else {
        grid_columns(widths.drop_last()) + widths.last() + 3
    }
}

proof fn lemma_grid_columns(widths: Seq<nat>, c: int)
    requires
        0 <= c < widths.len(),
    ensures
        1 <= grid_columns(widths.take(c)),
        grid_columns(widths.take(c)) + widths[c] + 3 <= grid_columns(widths),
    decreases widths.len(),
{
    let front = widths.drop_last();
    if c < front.len() {
        lemma_grid_columns(front, c);
        assert(front.take(c) =~= widths.take(c));
    } else {
        assert(widths.take(c) =~= front);
        if c > 0 {
            lemma_grid_columns(front, 0);
            assert(front.take(0) =~= Seq::<nat>::empty());
        }
    }
}

proof fn lemma_grid_columns_grow(widths: Seq<nat>, c: int)
    requires
        0 < c <= widths.len(),
    ensures
        grid_columns(widths.take(c)) >= 4,
{
    let some = widths.take(c);
    lemma_grid_columns(some, 0);
    assert(some.take(0) =~= Seq::<nat>::empty());
}

proof fn lemma_border_text(widths: Seq<nat>, middle: char, c: int, i: int)
    requires
        0 <= c < widths.len(),
        0 <= i < widths[c] + 2,
    ensures
        table::border_text(widths, middle).len() == grid_columns(widths) - 2,
        table::border_text(widths, middle)[grid_columns(widths.take(c)) - 1 + i] == '\u{2500}',
        c > 0 ==> table::border_text(widths, middle)[grid_columns(widths.take(c)) - 2] == middle,
    decreases widths.len(),
{
    let text = table::border_text(widths, middle);
    let front = widths.drop_last();
    let last = widths.len() - 1;
    assert(widths.take(last) =~= front);
    let run = width::repeated('\u{2500}', widths.last() + 2);
    assert(run.len() == widths.last() + 2);
    assert(grid_columns(widths) == grid_columns(front) + widths.last() + 3);
    if front.len() == 0 {
        assert(front =~= Seq::<nat>::empty());
        assert(text == run);
    } else {
        let before = table::border_text(front, middle);
        assert(text == before.push(middle) + run);
        if c < last {
            assert(front.take(c) =~= widths.take(c));
            lemma_border_text(front, middle, c, i);
            lemma_grid_columns(front, c);
            let at = grid_columns(widths.take(c));
            assert(text[at - 1 + i] == before[at - 1 + i]);
            if c > 0 {
                lemma_grid_columns_grow(front, c);
                assert(text[at - 2] == before[at - 2]);
            }
        } else {
            lemma_border_text(front, middle, 0, 0);
        }
    }
}

} // verus!
