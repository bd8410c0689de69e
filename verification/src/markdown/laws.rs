//! What rendering promises of every source, and wrapping of every line and
//! every width.

use vstd::prelude::*;

use crate::markdown::events::{EventView, Mark, Tag};
use crate::markdown::walk::{self, Context, Inline};
use crate::markdown::wrap::{self, Chopping, Flowing, LineView};
use crate::style::{self, SpanView, Style};

verus! {

/// A text without its whitespace.
pub open spec fn solid(text: Seq<char>) -> Seq<char> {
    text.filter(|c: char| !crate::text::white_space(c))
}

/// What a run of visual lines reads as behind the first `n` characters of
/// each.
pub open spec fn bodies(lines: Seq<Seq<SpanView>>, n: int) -> Seq<char>
    decreases lines.len(),
{
    if lines.len() == 0 {
        Seq::empty()
    } else {
        bodies(lines.drop_last(), n) + style::text_of(lines.last()).skip(n)
    }
}

/// Whether a visual line starts with the text of a prefix.
pub open spec fn starts_with(spans: Seq<SpanView>, prefix: Seq<char>) -> bool {
    style::text_of(spans).len() >= prefix.len() && style::text_of(spans).take(prefix.len() as int) == prefix
}

/// Every one of a run of visual lines starts with the text of a prefix.
pub open spec fn all_start_with(lines: Seq<Seq<SpanView>>, prefix: Seq<char>) -> bool {
    forall|i: int| 0 <= i < lines.len() ==> starts_with(#[trigger] lines[i], prefix)
}

/// Whitespace has nothing solid in it.
proof fn lemma_white_is_not_solid(text: Seq<char>)
    requires
        wrap::all_white(text),
    ensures
        solid(text) == Seq::<char>::empty(),
    decreases text.len(),
{
    reveal(Seq::filter);
    if text.len() > 0 {
        lemma_white_is_not_solid(text.drop_last());
        assert(crate::text::white_space(text.last()));
    }
    assert(solid(text) =~= Seq::<char>::empty());
}

/// What is solid of two texts is what is solid of each.
proof fn lemma_solid_concat(a: Seq<char>, b: Seq<char>)
    ensures
        solid(a + b) == solid(a) + solid(b),
{
    Seq::filter_distributes_over_add(a, b, |c: char| !crate::text::white_space(c));
}

/// Closing a line keeps what it reads as.
pub proof fn law_merging_keeps_the_text(spans: Seq<SpanView>)
    ensures
        style::text_of(wrap::merged(spans)) == style::text_of(spans),
    decreases spans.len(),
{
    if spans.len() > 0 {
        let front = wrap::merged(spans.drop_last());
        let last = spans.last();
        law_merging_keeps_the_text(spans.drop_last());
        if front.len() > 0 && front.last().style == last.style {
            let joined = SpanView { text: front.last().text + last.text, ..last };
            assert(front.drop_last().push(joined).drop_last() =~= front.drop_last());
            assert(style::text_of(wrap::merged(spans)) =~= style::text_of(front) + last.text);
        } else {
            assert(front.push(last).drop_last() =~= front);
        }
    }
}

/// A closed line never paints two neighbours alike.
pub proof fn law_merged_neighbours_differ(spans: Seq<SpanView>)
    ensures
        forall|i: int|
            0 <= i < wrap::merged(spans).len() - 1 ==> (#[trigger] wrap::merged(spans)[i]).style != wrap::merged(
                spans,
            )[i + 1].style,
    decreases spans.len(),
{
    if spans.len() > 0 {
        let front = wrap::merged(spans.drop_last());
        let last = spans.last();
        law_merged_neighbours_differ(spans.drop_last());
        let all = wrap::merged(spans);
        assert forall|i: int| 0 <= i < all.len() - 1 implies (#[trigger] all[i]).style != all[i
            + 1].style by {
            assert(all[i].style == front[i].style);
            if i + 1 < front.len() {
                assert(front[i].style != front[i + 1].style);
                assert(all[i + 1].style == front[i + 1].style);
            }
        }
    }
}

proof fn lemma_runs_text(text: Seq<char>, style: Style)
    ensures
        style::text_of(wrap::runs(text, style)) == text,
    decreases text.len(),
{
    if text.len() > 0 {
        wrap::lemma_run_len(text);
        let n = wrap::run_len(text) as int;
        let first = seq![SpanView { text: text.take(n), style }];
        lemma_runs_text(text.skip(n), style);
        style::lemma_text_of_concat(first, wrap::runs(text.skip(n), style));
        assert(first.drop_last() =~= Seq::<SpanView>::empty());
        assert(style::text_of(first.drop_last()) =~= Seq::<char>::empty());
        assert(style::text_of(first) =~= text.take(n));
        assert(text.take(n) + text.skip(n) =~= text);
    }
}

/// Splitting spans into words and spaces loses no character and keeps their
/// order.
pub proof fn law_atoms_keep_the_text(spans: Seq<SpanView>)
    ensures
        style::text_of(wrap::atoms_of(spans)) == style::text_of(spans),
    decreases spans.len(),
{
    if spans.len() > 0 {
        law_atoms_keep_the_text(spans.drop_last());
        lemma_runs_text(spans.last().text, spans.last().style);
        style::lemma_text_of_concat(
            wrap::atoms_of(spans.drop_last()),
            wrap::runs(spans.last().text, spans.last().style),
        );
    }
}

proof fn lemma_push_text(spans: Seq<SpanView>, span: SpanView)
    ensures
        style::text_of(spans.push(span)) == style::text_of(spans) + span.text,
{
    assert(spans.push(span).drop_last() =~= spans);
}

proof fn lemma_opening_text(line: LineView, first: bool)
    ensures
        starts_with(wrap::opening_spans(line, first), style::text_of(line.prefix)),
        wrap::all_white(style::text_of(wrap::opening_spans(line, first)).skip(style::text_of(line.prefix).len() as int)),
        style::text_of(wrap::opening_spans(line, first)).skip(style::text_of(line.prefix).len() as int)
            == crate::width::repeated(
            ' ',
            if first {
                0
            } else {
                line.hang
            },
        ),
{
    let n = style::text_of(line.prefix).len() as int;
    let text = style::text_of(wrap::opening_spans(line, first));
    if !first && line.hang > 0 {
        let indent = crate::width::repeated(' ', line.hang);
        lemma_push_text(line.prefix, SpanView { text: indent, style: Style::plain() });
        assert(text.take(n) =~= style::text_of(line.prefix));
        assert(text.skip(n) =~= indent);
    } else {
        assert(text.take(n) =~= style::text_of(line.prefix));
        assert(text.skip(n) =~= crate::width::repeated(' ', 0));
    }
}

/// What holds of prose while it is wrapped: every line starts with the prefix,
/// and behind it everything solid that was put down so far is there.
spec fn keeps(line: LineView, state: Flowing, done: Seq<char>) -> bool {
    let prefix = style::text_of(line.prefix);
    let n = prefix.len() as int;
    &&& all_start_with(state.out, prefix)
    &&& starts_with(state.spans, prefix)
    &&& solid(bodies(state.out, n)) + solid(style::text_of(state.spans).skip(n)) == solid(done)
    &&& solid(style::text_of(state.pending)) == Seq::<char>::empty()
}

/// Adding spans behind a line that starts with the prefix.
proof fn lemma_extend(spans: Seq<SpanView>, more: Seq<SpanView>, prefix: Seq<char>)
    requires
        starts_with(spans, prefix),
    ensures
        starts_with(spans + more, prefix),
        style::text_of(spans + more).skip(prefix.len() as int) == style::text_of(spans).skip(prefix.len() as int)
            + style::text_of(more),
        solid(style::text_of(spans + more).skip(prefix.len() as int)) == solid(
            style::text_of(spans).skip(prefix.len() as int),
        ) + solid(style::text_of(more)),
{
    let n = prefix.len() as int;
    style::lemma_text_of_concat(spans, more);
    assert(style::text_of(spans + more).take(n) =~= style::text_of(spans).take(n));
    assert(style::text_of(spans + more).skip(n) =~= style::text_of(spans).skip(n) + style::text_of(more));
    lemma_solid_concat(style::text_of(spans).skip(n), style::text_of(more));
}

/// Closing a line keeps everything.
proof fn lemma_close_keeps(line: LineView, state: Flowing, spans: Seq<SpanView>, done: Seq<char>)
    requires
        keeps(line, Flowing { spans, pending: Seq::empty(), ..state }, done),
    ensures
        keeps(line, wrap::continued(line, state.out.push(wrap::merged(spans))), done),
{
    let prefix = style::text_of(line.prefix);
    let n = prefix.len() as int;
    let out = state.out.push(wrap::merged(spans));
    law_merging_keeps_the_text(spans);
    assert(out.drop_last() =~= state.out);
    assert(starts_with(wrap::merged(spans), prefix));
    assert(all_start_with(out, prefix)) by {
        assert forall|i: int| 0 <= i < out.len() implies starts_with(#[trigger] out[i], prefix) by {
            if i < state.out.len() {
                assert(out[i] == state.out[i]);
            }
        }
    }
    lemma_solid_concat(bodies(state.out, n), style::text_of(spans).skip(n));
    lemma_opening_text(line, false);
    lemma_white_is_not_solid(style::text_of(wrap::opening_spans(line, false)).skip(n));
    assert(solid(bodies(out, n)) + Seq::<char>::empty() =~= solid(bodies(out, n)));
    lemma_white_is_not_solid(style::text_of(Seq::<SpanView>::empty()));
}

/// Putting a word down keeps everything and adds the word.
proof fn lemma_placed_keeps(
    line: LineView,
    width: nat,
    state: Flowing,
    word: Seq<char>,
    style: Style,
    done: Seq<char>,
)
    requires
        keeps(line, state, done),
    ensures
        keeps(line, wrap::placed(line, width, state, word, style), done + word),
    decreases
            word.len(),
            (if state.used > state.base {
                1nat
            } else {
                0nat
            }),
{
    let prefix = style::text_of(line.prefix);
    let n = prefix.len() as int;
    let before = crate::width::columns(state.used, state.pending_width);
    lemma_white_is_not_solid(style::text_of(Seq::<SpanView>::empty()));
    if crate::width::width_of(word) <= crate::width::room(width, before) {
        lemma_add_word(line, state, word, style, done);
    } else if state.used > state.base {
        let next = wrap::continued(line, state.out.push(wrap::merged(state.spans)));
        lemma_close_keeps(line, state, state.spans, done);
        lemma_placed_keeps(line, width, next, word, style, done);
    } else {
        crate::width::lemma_cut(word, wrap::chop_room(width, before));
        let at = crate::width::cut(word, wrap::chop_room(width, before)) as int;
        let head = word.take(at);
        let full = (state.spans + state.pending).push(SpanView { text: head, style });
        lemma_add_word(line, state, head, style, done);
        lemma_close_keeps(line, state, full, done + head);
        let next = wrap::continued(line, state.out.push(wrap::merged(full)));
        if at >= word.len() {
            assert(head =~= word);
        } else {
            lemma_placed_keeps(line, width, next, word.skip(at), style, done + head);
            assert(done + head + word.skip(at) =~= done + word);
        }
    }
}

proof fn lemma_add_word(
    line: LineView,
    state: Flowing,
    word: Seq<char>,
    style: Style,
    done: Seq<char>,
)
    requires
        keeps(line, state, done),
    ensures
        keeps(
            line,
            Flowing {
                spans: (state.spans + state.pending).push(SpanView { text: word, style }),
                pending: Seq::empty(),
                ..state
            },
            done + word,
        ),
{
    let prefix = style::text_of(line.prefix);
    let n = prefix.len() as int;
    let span = seq![SpanView { text: word, style }];
    lemma_white_is_not_solid(style::text_of(Seq::<SpanView>::empty()));
    lemma_extend(state.spans, state.pending, prefix);
    lemma_extend(state.spans + state.pending, span, prefix);
    assert((state.spans + state.pending).push(span[0]) =~= state.spans + state.pending + span);
    assert(span.drop_last() =~= Seq::<SpanView>::empty());
    assert(style::text_of(span) =~= word);
    lemma_solid_concat(done, word);
    let all = state.spans + state.pending + span;
    assert(solid(bodies(state.out, n)) + solid(style::text_of(all).skip(n)) =~= solid(
        bodies(state.out, n),
    ) + solid(style::text_of(state.spans).skip(n)) + solid(word));
}

proof fn lemma_flowing_keeps(
    line: LineView,
    width: nat,
    state: Flowing,
    atoms: Seq<SpanView>,
    k: int,
)
    requires
        0 <= k <= atoms.len(),
        keeps(line, state, style::text_of(atoms.take(k))),
    ensures
        keeps(line, wrap::flowing(line, width, state, atoms, k), style::text_of(atoms)),
    decreases atoms.len() - k,
{
    if k >= atoms.len() {
        assert(atoms.take(k) =~= atoms);
    } else {
        let atom = atoms[k];
        let done = style::text_of(atoms.take(k));
        assert(atoms.take(k + 1) =~= atoms.take(k).push(atom));
        lemma_push_text(atoms.take(k), atom);
        lemma_solid_concat(done, atom.text);
        if wrap::all_white(atom.text) {
            lemma_white_is_not_solid(atom.text);
            lemma_push_text(state.pending, atom);
            lemma_solid_concat(style::text_of(state.pending), atom.text);
            assert(solid(done) + Seq::<char>::empty() =~= solid(done));
            let next = Flowing {
                pending: state.pending.push(atom),
                pending_width: crate::width::columns(
                    state.pending_width,
                    crate::width::width_of(atom.text),
                ),
                ..state
            };
            assert(solid(style::text_of(next.pending)) =~= Seq::<char>::empty());
            lemma_flowing_keeps(line, width, next, atoms, k + 1);
        } else {
            lemma_placed_keeps(line, width, state, atom.text, atom.style, done);
            lemma_flowing_keeps(
                line,
                width,
                wrap::placed(line, width, state, atom.text, atom.style),
                atoms,
                k + 1,
            );
        }
    }
}

/// Wrapping prose loses nothing but the whitespace its breaks consume: every
/// visual line starts with the line's prefix, and behind it the lines hold
/// every other character, in order.
pub proof fn law_prose_keeps_every_word(line: LineView, width: nat)
    ensures
        all_start_with(wrap::flow_lines(line, width), style::text_of(line.prefix)),
        solid(bodies(wrap::flow_lines(line, width), style::text_of(line.prefix).len() as int)) == solid(
            style::text_of(line.spans),
        ),
{
    let prefix = style::text_of(line.prefix);
    let n = prefix.len() as int;
    let atoms = wrap::atoms_of(line.spans);
    let start = wrap::flow_start(line);
    lemma_opening_text(line, true);
    lemma_white_is_not_solid(style::text_of(start.spans).skip(n));
    lemma_white_is_not_solid(bodies(start.out, n));
    lemma_white_is_not_solid(style::text_of(start.pending));
    assert(atoms.take(0) =~= Seq::<SpanView>::empty());
    lemma_white_is_not_solid(style::text_of(atoms.take(0)));
    assert(keeps(line, start, style::text_of(atoms.take(0)))) by {
        assert(Seq::<char>::empty() + Seq::<char>::empty() =~= Seq::<char>::empty());
    }
    lemma_flowing_keeps(line, width, start, atoms, 0);
    law_atoms_keep_the_text(line.spans);
    let end = wrap::flowing(line, width, start, atoms, 0);
    let fits = end.pending.len() > 0 && crate::width::columns(end.used, end.pending_width) <= width;
    let last = if fits {
        end.spans + end.pending
    } else {
        end.spans
    };
    if fits {
        lemma_extend(end.spans, end.pending, prefix);
        assert(solid(style::text_of(last).skip(n)) =~= solid(style::text_of(end.spans).skip(n)));
    }
    law_merging_keeps_the_text(last);
    let out = wrap::flow_lines(line, width);
    assert(out.drop_last() =~= end.out);
    lemma_solid_concat(bodies(end.out, n), style::text_of(last).skip(n));
    assert forall|i: int| 0 <= i < out.len() implies starts_with(#[trigger] out[i], prefix) by {
        if i < end.out.len() {
            assert(out[i] == end.out[i]);
        }
    }
}

/// What a run of visual lines reads as behind their openings: the prefix on
/// the first, the prefix and the hanging indent on the others.
pub open spec fn code_bodies(lines: Seq<Seq<SpanView>>, n: int, hang: nat) -> Seq<char>
    decreases lines.len(),
{
    if lines.len() == 0 {
        Seq::empty()
    } else if lines.len() == 1 {
        style::text_of(lines[0]).skip(n)
    } else {
        code_bodies(lines.drop_last(), n, hang) + style::text_of(lines.last()).skip(n + hang)
    }
}

/// What holds of code while it is chopped: everything put down so far is there.
spec fn holds(line: LineView, state: Chopping, done: Seq<char>) -> bool {
    let n = style::text_of(line.prefix).len() as int;
    let skipped = if state.out.len() == 0 {
        n
    } else {
        n + line.hang
    };
    &&& !state.stopped
    &&& style::text_of(state.spans).len() >= skipped
    &&& code_bodies(state.out, n, line.hang) + style::text_of(state.spans).skip(skipped) == done
}

proof fn lemma_code_close(line: LineView, state: Chopping, done: Seq<char>)
    requires
        holds(line, state, done),
    ensures
        code_bodies(
            state.out.push(wrap::merged(state.spans)),
            style::text_of(line.prefix).len() as int,
            line.hang,
        ) == done,
{
    let n = style::text_of(line.prefix).len() as int;
    let out = state.out.push(wrap::merged(state.spans));
    law_merging_keeps_the_text(state.spans);
    assert(out.drop_last() =~= state.out);
    assert(out.last() == wrap::merged(state.spans));
    if state.out.len() == 0 {
        assert(out[0] == wrap::merged(state.spans));
        assert(code_bodies(out, n, line.hang) =~= done);
    }
}

proof fn lemma_chopped_holds(
    line: LineView,
    width: nat,
    state: Chopping,
    rest: Seq<char>,
    style: Style,
    done: Seq<char>,
)
    requires
        wrap::opening_width(line, false) < width,
        holds(line, state, done),
    ensures
        holds(line, wrap::chopped(line, width, state, rest, style), done + rest),
    decreases
            rest.len(),
            (if crate::width::room(width, state.used) == 0 {
                1nat
            } else {
                0nat
            }),
{
    let n = style::text_of(line.prefix).len() as int;
    let left = crate::width::room(width, state.used);
    if rest.len() == 0 {
        assert(done + rest =~= done);
    } else if left == 0 {
        let next = Chopping {
            out: state.out.push(wrap::merged(state.spans)),
            spans: wrap::opening_spans(line, false),
            used: wrap::opening_width(line, false),
            stopped: false,
        };
        lemma_code_close(line, state, done);
        lemma_opening_text(line, false);
        assert(style::text_of(next.spans).skip(n).len() == line.hang);
        assert(style::text_of(next.spans).skip(n + line.hang) =~= Seq::<char>::empty());
        assert(done + Seq::<char>::empty() =~= done);
        lemma_chopped_holds(line, width, next, rest, style, done);
    } else if crate::width::width_of(rest) <= left {
        lemma_code_put(line, state, rest, style, crate::width::columns(state.used, crate::width::width_of(rest)), done);
    } else {
        crate::width::lemma_cut(rest, left);
        let at = crate::width::cut(rest, left) as int;
        let head = rest.take(at);
        lemma_code_put(line, state, head, style, crate::width::columns(state.used, crate::width::width_of(head)), done);
        let next = Chopping {
            spans: state.spans.push(SpanView { text: head, style }),
            used: crate::width::columns(state.used, crate::width::width_of(head)),
            ..state
        };
        assert(holds(line, next, done + head));
        lemma_chopped_holds(line, width, next, rest.skip(at), style, done + head);
        assert(done + head + rest.skip(at) =~= done + rest);
    }
}

proof fn lemma_code_put(
    line: LineView,
    state: Chopping,
    text: Seq<char>,
    style: Style,
    used: nat,
    done: Seq<char>,
)
    requires
        holds(line, state, done),
    ensures
        holds(
            line,
            Chopping { used, spans: state.spans.push(SpanView { text, style }), ..state },
            done + text,
        ),
{
    let n = style::text_of(line.prefix).len() as int;
    let skipped = if state.out.len() == 0 {
        n
    } else {
        n + line.hang
    };
    lemma_push_text(state.spans, SpanView { text, style });
    let old_text = style::text_of(state.spans);
    assert((old_text + text).skip(skipped) =~= old_text.skip(skipped) + text);
    let front = code_bodies(state.out, n, line.hang);
    assert(front + (old_text.skip(skipped) + text) =~= done + text);
}

proof fn lemma_chopping_holds(line: LineView, width: nat, state: Chopping, k: int)
    requires
        wrap::opening_width(line, false) < width,
        0 <= k <= line.spans.len(),
        holds(line, state, style::text_of(line.spans.take(k))),
    ensures
        holds(line, wrap::chopping(line, width, state, k), style::text_of(line.spans)),
    decreases line.spans.len() - k,
{
    if k >= line.spans.len() {
        assert(line.spans.take(k) =~= line.spans);
    } else {
        let span = line.spans[k];
        let done = style::text_of(line.spans.take(k));
        assert(line.spans.take(k + 1) =~= line.spans.take(k).push(span));
        lemma_push_text(line.spans.take(k), span);
        lemma_chopped_holds(line, width, state, span.text, span.style, done);
        lemma_chopping_holds(
            line,
            width,
            wrap::chopped(line, width, state, span.text, span.style),
            k + 1,
        );
    }
}

/// Chopping code loses nothing at all: behind their openings the visual lines
/// read exactly as the code does, as long as an opening leaves any room.
pub proof fn law_code_is_chopped_whole(line: LineView, width: nat)
    requires
        wrap::opening_width(line, false) < width,
    ensures
        code_bodies(wrap::chop_lines(line, width), style::text_of(line.prefix).len() as int, line.hang)
            == style::text_of(line.spans),
{
    let n = style::text_of(line.prefix).len() as int;
    let start = wrap::chop_start(line);
    lemma_opening_text(line, true);
    assert(line.spans.take(0) =~= Seq::<SpanView>::empty());
    assert(style::text_of(start.spans).skip(n) =~= Seq::<char>::empty());
    assert(code_bodies(start.out, n, line.hang) + Seq::<char>::empty() =~= Seq::<char>::empty());
    lemma_chopping_holds(line, width, start, 0);
    let end = wrap::chopping(line, width, start, 0);
    lemma_code_close(line, end, style::text_of(line.spans));
}

/// A viewport without columns shows nothing.
pub proof fn law_no_columns_show_nothing(line: LineView)
    ensures
        wrap::wrapped(line, 0) == Seq::<Seq<SpanView>>::empty(),
{
}

/// What a run of lines reads as, a line break between two.
pub open spec fn reads(lines: Seq<Seq<SpanView>>) -> Seq<char>
    decreases lines.len(),
{
    if lines.len() == 0 {
        Seq::empty()
    } else if lines.len() == 1 {
        style::text_of(lines[0])
    } else {
        reads(lines.drop_last()).push('\n') + style::text_of(lines.last())
    }
}

/// Pieces put back together with a line break between two.
spec fn joined(pieces: Seq<Seq<char>>) -> Seq<char>
    decreases pieces.len(),
{
    if pieces.len() == 0 {
        Seq::empty()
    } else if pieces.len() == 1 {
        pieces[0]
    } else {
        joined(pieces.drop_last()).push('\n') + pieces.last()
    }
}

proof fn lemma_joined_front(first: Seq<char>, rest: Seq<Seq<char>>)
    requires
        rest.len() > 0,
    ensures
        joined(seq![first] + rest) == first.push('\n') + joined(rest),
    decreases rest.len(),
{
    let all = seq![first] + rest;
    assert(all.last() == rest.last());
    if rest.len() == 1 {
        assert(all.drop_last() =~= seq![first]);
        assert(joined(seq![first]) == first);
    } else {
        lemma_joined_front(first, rest.drop_last());
        assert(all.drop_last() =~= seq![first] + rest.drop_last());
        assert(joined(all) =~= first.push('\n') + joined(rest));
    }
}

proof fn lemma_split_joins(s: Seq<char>)
    ensures
        crate::text::split(s, '\n').len() > 0,
        joined(crate::text::split(s, '\n')) == s,
    decreases s.len(),
{
    crate::text::lemma_first_of(s, '\n');
    let at = crate::text::first_of(s, '\n');
    if at >= s.len() {
        assert(joined(seq![s]) == s);
    } else {
        let rest = crate::text::split(s.skip(at + 1), '\n');
        lemma_split_joins(s.skip(at + 1));
        lemma_joined_front(s.take(at), rest);
        assert(s.take(at).push('\n') + s.skip(at + 1) =~= s);
    }
}

proof fn lemma_reads_span(lines: Seq<Seq<SpanView>>, span: SpanView)
    requires
        lines.len() > 0,
    ensures
        reads(walk::with_span(lines, span)) == reads(lines) + span.text,
{
    let more = walk::with_span(lines, span);
    lemma_push_text(lines.last(), span);
    assert(more.drop_last() =~= lines.drop_last());
    if lines.len() == 1 {
        assert(more[0] == lines[0].push(span));
    } else {
        assert(reads(more) =~= reads(lines) + span.text);
    }
}

/// A break inside inline content is a line break, and adds nothing else.
pub proof fn law_break_is_a_line_break(lines: Seq<Seq<SpanView>>)
    requires
        lines.len() > 0,
    ensures
        reads(lines.push(Seq::empty())) == reads(lines).push('\n'),
{
    let more = lines.push(Seq::empty());
    assert(more.drop_last() =~= lines);
    assert(style::text_of(Seq::<SpanView>::empty()) =~= Seq::<char>::empty());
    assert(reads(more) =~= reads(lines).push('\n'));
}

proof fn lemma_reads_pieces(
    lines: Seq<Seq<SpanView>>,
    pieces: Seq<Seq<char>>,
    n: int,
    style: Style,
)
    requires
        lines.len() > 0,
        1 <= n <= pieces.len(),
    ensures
        walk::with_pieces(lines, pieces, n, style).len() > 0,
        reads(walk::with_pieces(lines, pieces, n, style)) == reads(lines) + joined(pieces.take(n)),
    decreases n,
{
    let piece = pieces[n - 1];
    let front = walk::with_pieces(lines, pieces, n - 1, style);
    let opened = if n > 1 {
        front.push(Seq::empty())
    } else {
        front
    };
    let before = if n > 1 {
        joined(pieces.take(n - 1)).push('\n')
    } else {
        Seq::empty()
    };
    if n > 1 {
        lemma_reads_pieces(lines, pieces, n - 1, style);
        law_break_is_a_line_break(front);
        assert(pieces.take(n).drop_last() =~= pieces.take(n - 1));
    } else {
        assert(front == lines);
        assert(pieces.take(1)[0] == piece);
    }
    assert(reads(opened) =~= reads(lines) + before);
    assert(joined(pieces.take(n)) =~= before + piece);
    if piece.len() == 0 {
        assert(before + piece =~= before);
    } else {
        lemma_reads_span(opened, SpanView { text: piece, style });
        assert(reads(lines) + before + piece =~= reads(lines) + (before + piece));
    }
}

/// Text reaches the lines verbatim, whitespace and line breaks included.
pub proof fn law_text_is_verbatim(lines: Seq<Seq<SpanView>>, text: Seq<char>, style: Style)
    requires
        lines.len() > 0,
    ensures
        walk::with_text(lines, text, style).len() > 0,
        reads(walk::with_text(lines, text, style)) == reads(lines) + text,
{
    let pieces = crate::text::split(text, '\n');
    lemma_split_joins(text);
    lemma_reads_pieces(lines, pieces, pieces.len() as int, style);
    assert(pieces.take(pieces.len() as int) =~= pieces);
}

/// Whether an event is plain text or a break.
pub open spec fn is_plain(mark: Mark) -> bool {
    mark == Mark::Text || mark == Mark::SoftBreak || mark == Mark::HardBreak
}

/// What a run of plain events says: its texts, and a line break per break.
pub open spec fn written(events: Seq<EventView>) -> Seq<char>
    decreases events.len(),
{
    if events.len() == 0 {
        Seq::empty()
    } else if events[0].mark == Mark::Text {
        events[0].text + written(events.skip(1))
    } else {
        seq!['\n'] + written(events.skip(1))
    }
}

proof fn lemma_plain_run(c: Context, body: Style, at: int, end: int, state: Inline)
    requires
        0 <= at <= end <= c.events.len(),
        state.lines.len() > 0,
        forall|i: int| at <= i < end ==> is_plain((#[trigger] c.events[i]).mark),
        end < c.events.len() ==> !walk::inline_mark(c.events[end].mark),
    ensures
        walk::inlined(c, body, at, state).1 == end,
        reads(walk::inlined(c, body, at, state).0.lines) == reads(state.lines) + written(
            c.events.subrange(at, end),
        ),
    decreases end - at,
{
    let run = c.events.subrange(at, end);
    if at == end {
        assert(reads(state.lines) + written(run) =~= reads(state.lines));
    } else {
        let event = c.events[at];
        let next = walk::inline_step(c.styles, body, event, state);
        assert(run[0] == event);
        assert(run.skip(1) =~= c.events.subrange(at + 1, end));
        if event.mark == Mark::Text {
            law_text_is_verbatim(state.lines, event.text, state.style);
        } else {
            law_break_is_a_line_break(state.lines);
        }
        lemma_plain_run(c, body, at + 1, end, next);
        assert(reads(next.lines) + written(run.skip(1)) =~= reads(state.lines) + written(run));
    }
}

/// A paragraph of plain text renders as what it says: its lines, put back
/// together, are its text, with a line break wherever its source had one.
pub proof fn law_plain_paragraph_reads_as_written(c: Context, body: Style, end: int)
    requires
        1 <= end < c.events.len(),
        c.events[0].mark == Mark::Open(Tag::Paragraph),
        forall|i: int| 1 <= i < end ==> is_plain((#[trigger] c.events[i]).mark),
        c.events[end].mark == Mark::Close(Tag::Paragraph),
    ensures
        ({
            let lines = walk::block(c, body, 0).0;
            let spans = Seq::new(lines.len(), |i: int| lines[i].spans);
            reads(spans) == written(c.events.subrange(1, end))
        }),
        walk::block(c, body, 0).1 == end + 1,
{
    let start = walk::inline_start(body);
    lemma_plain_run(c, body, 1, end, start);
    let run = walk::inlined(c, body, 1, start);
    let lines = walk::block(c, body, 0).0;
    let spans = Seq::new(lines.len(), |i: int| lines[i].spans);
    assert(spans =~= run.0.lines);
    assert(start.lines[0] == Seq::<SpanView>::empty());
    assert(reads(start.lines) =~= Seq::<char>::empty());
    assert(reads(start.lines) + written(c.events.subrange(1, end)) =~= written(
        c.events.subrange(1, end),
    ));
}

} // verus!
