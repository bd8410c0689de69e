//! That lines are filled: what fits a width is not broken, cut or left out, and
//! what does not is broken no earlier than it must be.

use vstd::prelude::*;

use crate::markdown::fit::total;
use crate::markdown::wrap::{self, Chopping, Flowing, LineView};
use crate::style::{SpanView, Style};
use crate::width;

verus! {

/// Spans that the machine can count the columns of take what they take
/// together.
proof fn lemma_total(spans: Seq<SpanView>)
    requires
        total(spans) <= usize::MAX,
    ensures
        wrap::spans_width(spans) == total(spans),
    decreases spans.len(),
{
    if spans.len() > 0 {
        lemma_total(spans.drop_last());
    }
}

proof fn lemma_total_push(spans: Seq<SpanView>, span: SpanView)
    ensures
        total(spans.push(span)) == total(spans) + width::width_of(span.text),
{
    assert(spans.push(span).drop_last() =~= spans);
}

/// More spans never take fewer columns.
proof fn lemma_total_take(spans: Seq<SpanView>, k: int)
    requires
        0 <= k <= spans.len(),
    ensures
        total(spans.take(k)) <= total(spans),
        k < spans.len() ==> total(spans.take(k + 1)) == total(spans.take(k)) + width::width_of(
            spans[k].text,
        ),
    decreases spans.len() - k,
{
    if k < spans.len() {
        lemma_total_take(spans, k + 1);
        assert(spans.take(k + 1).drop_last() =~= spans.take(k));
    } else {
        assert(spans.take(k) =~= spans);
    }
}

/// Whether a line of prose that fits has been laid out as far as its first `k`
/// atoms: on one line, all of them, with the whitespace at the end still open.
spec fn laid_out(line: LineView, state: Flowing, atoms: Seq<SpanView>, k: int) -> bool {
    &&& state.out.len() == 0
    &&& state.spans + state.pending == line.prefix + atoms.take(k)
    &&& state.used + state.pending_width == total(line.prefix) + total(atoms.take(k))
}

proof fn lemma_flowing_whole(
    line: LineView,
    width: nat,
    state: Flowing,
    atoms: Seq<SpanView>,
    k: int,
)
    requires
        width <= usize::MAX,
        0 <= k <= atoms.len(),
        total(line.prefix) + total(atoms) <= width,
        laid_out(line, state, atoms, k),
    ensures
        laid_out(line, wrap::flowing(line, width, state, atoms, k), atoms, atoms.len() as int),
    decreases atoms.len() - k,
{
    if k < atoms.len() {
        lemma_total_take(atoms, k);
        lemma_total_take(atoms, k + 1);
        let atom = atoms[k];
        let all = line.prefix + atoms.take(k);
        assert(atoms.take(k + 1) =~= atoms.take(k).push(atom));
        assert(line.prefix + atoms.take(k + 1) =~= all.push(atom));
        if wrap::all_white(atom.text) {
            let next = Flowing {
                pending: state.pending.push(atom),
                pending_width: width::columns(state.pending_width, width::width_of(atom.text)),
                ..state
            };
            assert(next.spans + next.pending =~= all.push(atom));
            lemma_flowing_whole(line, width, next, atoms, k + 1);
        } else {
            let next = wrap::placed(line, width, state, atom.text, atom.style);
            let span = SpanView { text: atom.text, style: atom.style };
            assert(next.spans == (state.spans + state.pending).push(span));
            assert(next.spans + next.pending =~= all.push(atom));
            lemma_flowing_whole(line, width, next, atoms, k + 1);
        }
    } else {
        assert(atoms.take(k) =~= atoms);
    }
}

/// Prose that fits its width is one line, behind its prefix, with all of its
/// text on it.
pub proof fn law_prose_that_fits_is_one_line(line: LineView, width: nat)
    requires
        0 < width <= usize::MAX,
        line.kind is Flow,
        total(line.prefix) + total(wrap::atoms_of(line.spans)) <= width,
    ensures
        wrap::wrapped(line, width) == seq![
            wrap::merged(line.prefix + wrap::atoms_of(line.spans)),
        ],
{
    let atoms = wrap::atoms_of(line.spans);
    let start = wrap::flow_start(line);
    let none = Seq::<SpanView>::empty();
    lemma_total(line.prefix);
    assert(atoms.take(0) =~= none);
    assert(start.spans + start.pending =~= line.prefix + atoms.take(0));
    lemma_flowing_whole(line, width, start, atoms, 0);
    let end = wrap::flowing(line, width, start, atoms, 0);
    assert(atoms.take(atoms.len() as int) =~= atoms);
    if end.pending.len() == 0 {
        assert(end.spans + end.pending =~= end.spans);
    }
    assert(end.out =~= Seq::<Seq<SpanView>>::empty());
    assert(wrap::wrapped(line, width) =~= seq![wrap::merged(line.prefix + atoms)]);
}

/// A word goes on the line it is at while it fits behind the whitespace in front
/// of it; where it does not, and something stands on the line, it begins the
/// next, and the whitespace is dropped.
pub proof fn law_a_word_stays_while_it_fits(
    line: LineView,
    width: nat,
    state: Flowing,
    word: Seq<char>,
    style: Style,
)
    requires
        width <= usize::MAX,
    ensures
        state.used + state.pending_width + width::width_of(word) <= width ==> wrap::placed(
            line,
            width,
            state,
            word,
            style,
        ) == (Flowing {
            spans: (state.spans + state.pending).push(SpanView { text: word, style }),
            used: state.used + state.pending_width + width::width_of(word),
            pending: Seq::empty(),
            pending_width: 0,
            ..state
        }),
        state.used + state.pending_width + width::width_of(word) > width && width::width_of(word)
            > 0 && state.used > state.base && wrap::opening_width(line, false) + width::width_of(
            word,
        ) <= width ==> ({
            let next = wrap::placed(line, width, state, word, style);
            &&& next.out == state.out.push(wrap::merged(state.spans))
            &&& next.spans == wrap::opening_spans(line, false).push(SpanView { text: word, style })
            &&& next.used == wrap::opening_width(line, false) + width::width_of(word)
            &&& next.pending.len() == 0
        }),
{
    let fresh = wrap::continued(line, state.out.push(wrap::merged(state.spans)));
    if state.used + state.pending_width + width::width_of(word) > width && state.used > state.base
        && wrap::opening_width(line, false) + width::width_of(word) <= width {
        assert(fresh.spans + fresh.pending =~= fresh.spans);
        assert(wrap::placed(line, width, fresh, word, style).spans == (fresh.spans
            + fresh.pending).push(SpanView { text: word, style }));
    }
}

/// A word that fits on no line is cut where the line is full: on a line that
/// holds nothing yet goes its longest front that fits, one character at the
/// least, and the rest goes on the lines behind.
pub proof fn law_a_long_word_is_cut_where_the_line_is_full(
    line: LineView,
    width: nat,
    state: Flowing,
    word: Seq<char>,
    style: Style,
)
    requires
        width <= usize::MAX,
        word.len() > 0,
        state.used <= state.base,
        state.used + state.pending_width < width,
        state.used + state.pending_width + width::width_of(word) > width,
    ensures
        ({
            let left = (width - state.used - state.pending_width) as nat;
            let n = width::cut(word, left) as int;
            let full = (state.spans + state.pending).push(SpanView { text: word.take(n), style });
            let next = wrap::placed(line, width, state, word, style);
            let rest = Flowing {
                out: state.out.push(wrap::merged(full)),
                spans: wrap::opening_spans(line, false),
                used: wrap::opening_width(line, false),
                base: wrap::opening_width(line, false),
                pending: Seq::empty(),
                pending_width: 0,
            };
            &&& 1 <= n <= word.len()
            &&& width::width_of(word.take(1)) <= left ==> width::width_of(word.take(n)) <= left
            &&& n < word.len() ==> width::width_of(word.take(n + 1)) > left
            &&& n == word.len() ==> next == rest
            &&& n < word.len() ==> next == wrap::placed(line, width, rest, word.skip(n), style)
        }),
{
    let left = (width - state.used - state.pending_width) as nat;
    width::law_a_cut_reaches_as_far_as_it_fits(word, left);
}

/// Whether every span has a text that takes a column.
pub open spec fn all_show(spans: Seq<SpanView>) -> bool {
    forall|i: int|
        0 <= i < spans.len() ==> (#[trigger] spans[i]).text.len() > 0 && width::width_of(
            spans[i].text,
        ) > 0
}

proof fn lemma_chopping_whole(line: LineView, width: nat, state: Chopping, k: int)
    requires
        width <= usize::MAX,
        0 <= k <= line.spans.len(),
        all_show(line.spans),
        total(line.prefix) + total(line.spans) <= width,
        state.out.len() == 0,
        !state.stopped,
        state.spans == line.prefix + line.spans.take(k),
        state.used == total(line.prefix) + total(line.spans.take(k)),
    ensures
        wrap::chopping(line, width, state, k).out.len() == 0,
        !wrap::chopping(line, width, state, k).stopped,
        wrap::chopping(line, width, state, k).spans == line.prefix + line.spans,
    decreases line.spans.len() - k,
{
    if k < line.spans.len() {
        lemma_total_take(line.spans, k);
        lemma_total_take(line.spans, k + 1);
        let span = line.spans[k];
        let next = wrap::chopped(line, width, state, span.text, span.style);
        assert(line.spans.take(k + 1) =~= line.spans.take(k).push(span));
        assert(next.spans == state.spans.push(span));
        assert(next.spans =~= line.prefix + line.spans.take(k + 1));
        lemma_chopping_whole(line, width, next, k + 1);
    } else {
        assert(line.spans.take(k) =~= line.spans);
    }
}

/// Code that fits its width is one line, all of it.
pub proof fn law_code_that_fits_is_one_line(line: LineView, width: nat)
    requires
        0 < width <= usize::MAX,
        line.kind is Chop,
        all_show(line.spans),
        total(line.prefix) + total(line.spans) <= width,
    ensures
        wrap::wrapped(line, width) == seq![wrap::merged(line.prefix + line.spans)],
{
    let start = wrap::chop_start(line);
    lemma_total(line.prefix);
    assert(line.spans.take(0) =~= Seq::<SpanView>::empty());
    assert(start.spans =~= line.prefix + line.spans.take(0));
    lemma_chopping_whole(line, width, start, 0);
    let end = wrap::chopping(line, width, start, 0);
    assert(end.out =~= Seq::<Seq<SpanView>>::empty());
    assert(wrap::wrapped(line, width) =~= seq![wrap::merged(line.prefix + line.spans)]);
}

/// A line of code is broken where it is full: what goes on it of a text that
/// does not fit is the longest front that does, one character at the least.
pub proof fn law_code_is_broken_where_it_is_full(
    line: LineView,
    width: nat,
    state: Chopping,
    rest: Seq<char>,
    style: Style,
)
    requires
        width <= usize::MAX,
        !state.stopped,
        rest.len() > 0,
        state.used < width,
        state.used + width::width_of(rest) > width,
    ensures
        ({
            let left = (width - state.used) as nat;
            let n = width::cut(rest, left) as int;
            let head = rest.take(n);
            &&& 1 <= n <= rest.len()
            &&& width::width_of(rest.take(1)) <= left ==> width::width_of(head) <= left
            &&& n < rest.len() ==> width::width_of(rest.take(n + 1)) > left
            &&& wrap::chopped(line, width, state, rest, style) == wrap::chopped(
                line,
                width,
                Chopping {
                    spans: state.spans.push(SpanView { text: head, style }),
                    used: width::columns(state.used, width::width_of(head)),
                    ..state
                },
                rest.skip(n),
                style,
            )
        }),
{
    let left = (width - state.used) as nat;
    width::law_a_cut_reaches_as_far_as_it_fits(rest, left);
}

proof fn lemma_clipping_front(line: LineView, width: nat, from: int) -> (k: int)
    requires
        width <= usize::MAX,
        0 <= from <= line.spans.len(),
        all_show(line.spans),
        total(line.prefix) + total(line.spans.take(from)) <= width,
    ensures
        ({
            let drawn = wrap::clipping(
                line,
                width,
                line.prefix + line.spans.take(from),
                total(line.prefix) + total(line.spans.take(from)),
                from,
            );
            let used = total(line.prefix) + total(line.spans.take(k));
            let left = (width - used) as nat;
            &&& from <= k <= line.spans.len()
            &&& used <= width
            &&& k == line.spans.len() || left == 0 ==> drawn == line.prefix + line.spans.take(k)
            &&& k < line.spans.len() ==> used + width::width_of(line.spans[k].text) > width
            &&& k < line.spans.len() && left > 0 ==> drawn == (line.prefix + line.spans.take(
                k,
            )).push(
                SpanView {
                    text: line.spans[k].text.take(width::cut(line.spans[k].text, left) as int),
                    ..line.spans[k]
                },
            )
        }),
    decreases line.spans.len() - from,
{
    let used = total(line.prefix) + total(line.spans.take(from));
    if from == line.spans.len() {
        from
    } else {
        let span = line.spans[from];
        lemma_total_take(line.spans, from);
        if used + width::width_of(span.text) <= width {
            assert(line.spans.take(from + 1) =~= line.spans.take(from).push(span));
            assert((line.prefix + line.spans.take(from)).push(span) =~= line.prefix
                + line.spans.take(from + 1));
            lemma_clipping_front(line, width, from + 1)
        } else {
            from
        }
    }
}

/// A row of a grid that fits is drawn whole, and one that does not is its
/// longest front: spans are kept while they fit, the first that does not is kept
/// as far as it does, and nothing behind it is kept.
pub proof fn law_a_clipped_row_is_its_longest_front(line: LineView, width: nat) -> (k: int)
    requires
        0 < width <= usize::MAX,
        all_show(line.spans),
        total(line.prefix) <= width,
    ensures
        ({
            let drawn = wrap::clip_line(line, width);
            let used = total(line.prefix) + total(line.spans.take(k));
            let left = width - used;
            &&& 0 <= k <= line.spans.len()
            &&& used <= width
            &&& total(line.prefix) + total(line.spans) <= width ==> drawn == line.prefix
                + line.spans
            &&& k < line.spans.len() ==> used + width::width_of(line.spans[k].text) > width
            &&& left == 0 || k == line.spans.len() ==> drawn == line.prefix + line.spans.take(k)
            &&& k < line.spans.len() && left > 0 ==> ({
                let rest = line.spans[k].text;
                let n = drawn.last().text.len() as int;
                &&& drawn.drop_last() == line.prefix + line.spans.take(k)
                &&& drawn.last().style == line.spans[k].style
                &&& 1 <= n <= rest.len()
                &&& drawn.last().text == rest.take(n)
                &&& width::width_of(rest.take(1)) <= left ==> width::width_of(rest.take(n)) <= left
                &&& n < rest.len() ==> width::width_of(rest.take(n + 1)) > left
            })
        }),
{
    lemma_total(line.prefix);
    assert(line.spans.take(0) =~= Seq::<SpanView>::empty());
    assert(wrap::opening_spans(line, true) =~= line.prefix + line.spans.take(0));
    let k = lemma_clipping_front(line, width, 0);
    let drawn = wrap::clip_line(line, width);
    let used = total(line.prefix) + total(line.spans.take(k));
    if k < line.spans.len() {
        lemma_total_take(line.spans, k);
        lemma_total_take(line.spans, k + 1);
        let left = (width - used) as nat;
        let rest = line.spans[k].text;
        assert(rest.len() > 0);
        width::law_a_cut_reaches_as_far_as_it_fits(rest, left);
        if left > 0 {
            let head = SpanView {
                text: rest.take(width::cut(rest, left) as int),
                ..line.spans[k]
            };
            assert((line.prefix + line.spans.take(k)).push(head).drop_last() =~= line.prefix
                + line.spans.take(k));
        }
    } else {
        assert(line.spans.take(k) =~= line.spans);
    }
    k
}

} // verus!
