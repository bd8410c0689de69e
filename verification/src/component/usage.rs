//! The usage panel: what this session has spent, in sections of label-value
//! rows and block bars.
//!
//! A snapshot, not a view: everything is read when the panel opens. Fractions
//! are exact here: a bar over counts is the quotient of the counts, and a
//! vendor's own figure comes in as billionths.

use vstd::prelude::*;

use crate::component::layout::{
    self, blank, clip, grow, line, push_left, push_line, push_lines, push_right, Popup, PopupView,
};
use crate::component::status::Totals;
use crate::rank::{self, rank_descending};
use crate::spell::{self, compact_tokens, dollars_in_cents, nearest_even, round_even};
use crate::style::{self, Line, Span, SpanView, Style};
use crate::text::{self, push_decimal, str_eq};
use crate::theme::Theme;
use crate::width::{self, repeat_char};

verus! {

/// Widest the panel grows: a per-model line is long.
pub const MAX_WIDTH: u16 = 96;

/// Tallest the panel grows: enough for the sections and a handful of turn rows.
pub const MAX_HEIGHT: u16 = 30;

/// How many rate windows the `Current window` section draws before it starts
/// counting the rest.
pub const RATE_ROWS: usize = 2;

/// How many plan windows the `Plan limits` section draws before it starts
/// counting the rest.
pub const PLAN_ROWS: usize = 2;

/// Cells in a block bar.
pub const METER_WIDTH: usize = 20;

/// Column widths of the per-turn table.
pub const ID_WIDTH: usize = 10;

pub const COUNT_WIDTH: usize = 8;

/// How many billionths a whole is.
pub const WHOLE: u64 = 1_000_000_000;

/// Token counts of a turn or of a session.
#[derive(Clone, Copy, Debug, PartialEq, Eq, Structural)]
pub struct TokenUsage {
    pub input_tokens: u64,
    pub output_tokens: u64,
    pub reasoning_tokens: u64,
    pub cache_read_tokens: u64,
    pub cache_write_tokens: u64,
}

/// One finished turn.
#[derive(Clone, Debug, PartialEq, Eq)]
pub struct TurnUsage {
    /// The turn's message, spelled short.
    pub short_id: String,
    pub model: String,
    pub usage: TokenUsage,
    /// What the turn cost, in the parts of a dollar that [`spell::DOLLAR`]
    /// counts; none where its model has no price.
    pub cost: Option<u128>,
    /// What the turn's cost cell reads.
    pub cost_cell: String,
}

/// When a window refills.
#[derive(Clone, Copy, Debug, PartialEq, Eq, Structural)]
pub enum Reset {
    /// The vendor reported no reset.
    Unreported,
    /// The reset has passed.
    Passed,
    /// The reset is this many whole seconds away.
    In(u64),
}

/// One of the vendor's rate-limit windows.
#[derive(Clone, Debug, PartialEq, Eq)]
pub struct RateWindow {
    pub kind: String,
    pub limit: u64,
    pub remaining: u64,
    /// How much of it is used, in billionths.
    pub used: u64,
    pub reset: Reset,
}

/// One of the vendor's plan buckets.
#[derive(Clone, Debug, PartialEq, Eq)]
pub struct PlanWindow {
    pub name: String,
    /// How much of it is used, in billionths.
    pub used: u64,
    pub window_minutes: Option<u64>,
    pub reset: Reset,
    pub limit_name: Option<String>,
}

/// Everything the panel shows, read once when it opens.
#[derive(Clone, Debug)]
pub struct Data {
    /// The status bar's running totals.
    pub totals: Totals,
    /// The session's accumulated splits.
    pub splits: TokenUsage,
    /// Estimated tokens and the window, absent for an unsized model.
    pub context: Option<(u64, u64)>,
    /// One row per finished turn.
    pub turns: Vec<TurnUsage>,
    /// How many seconds this session has been open, where that was measured.
    pub duration: Option<u64>,
    /// The vendor's rate-limit windows; none draw no section.
    pub rates: Vec<RateWindow>,
    /// The vendor's plan buckets; none draw no section but say so.
    pub plans: Vec<PlanWindow>,
    /// The page that tells how plan buckets are asked for.
    pub limits_page: String,
}

impl Default for Data {
    fn default() -> (d: Data)
        ensures
            d.totals == (Totals { input_tokens: 0, output_tokens: 0, cost: None }),
            d.splits == none_used(),
            d.context is None,
            d.turns@.len() == 0,
            d.duration is None,
            d.rates@.len() == 0,
            d.plans@.len() == 0,
            d.limits_page@ == Seq::<char>::empty(),
    {
        Data {
            totals: Totals { input_tokens: 0, output_tokens: 0, cost: None },
            splits: TokenUsage {
                input_tokens: 0,
                output_tokens: 0,
                reasoning_tokens: 0,
                cache_read_tokens: 0,
                cache_write_tokens: 0,
            },
            context: None,
            turns: Vec::new(),
            duration: None,
            rates: Vec::new(),
            plans: Vec::new(),
            limits_page: String::new(),
        }
    }
}

/// No tokens at all.
pub open spec fn none_used() -> TokenUsage {
    TokenUsage {
        input_tokens: 0,
        output_tokens: 0,
        reasoning_tokens: 0,
        cache_read_tokens: 0,
        cache_write_tokens: 0,
    }
}

/// The filled cells of a bar over `n` of `d`: to the nearest cell, ties up, and
/// never more than the bar holds.
pub open spec fn cells(n: nat, d: nat) -> nat {
    let filled = (2 * n * METER_WIDTH + d) as nat / (2 * d);
    if filled < METER_WIDTH {
        filled
    } else {
        METER_WIDTH as nat
    }
}

/// A block bar over `n` of `d`: filled cells, dim remainder, the percentage
/// after.
pub open spec fn bar_spans(n: nat, d: nat, theme: Theme) -> Seq<SpanView> {
    seq![
        SpanView { text: width::repeated('\u{2588}', cells(n, d)), style: theme.info },
        SpanView {
            text: width::repeated('\u{2591}', (METER_WIDTH - cells(n, d)) as nat),
            style: theme.dim,
        },
        SpanView {
            text: " "@ + text::decimal(nearest_even(100 * n, d)) + "%"@,
            style: theme.fg,
        },
    ]
}

/// A line that indents a bar and says something behind it.
pub open spec fn bar_line(n: nat, d: nat, tail: Seq<char>, theme: Theme) -> Seq<SpanView> {
    seq![SpanView { text: "  "@, style: Style::plain() }] + bar_spans(n, d, theme)
        + seq![SpanView { text: tail, style: theme.fg }]
}

/// A line with a bar; see [`bar_line`].
fn bar(n: u64, d: u64, tail: String, theme: &Theme) -> (l: Line)
    requires
        d > 0,
    ensures
        l@ == bar_line(n as nat, d as nat, tail@, *theme),
{
    let exact: u128 = (2 * (n as u128) * 20 + d as u128) / (2 * (d as u128));
    assert(exact == (2 * n as nat * METER_WIDTH + d as nat) as nat / (2 * d as nat));
    let filled: usize = if exact < 20 {
        exact as usize
    } else {
        METER_WIDTH
    };
    assert(filled == cells(n as nat, d as nat));
    let percent = round_even(100 * (n as u128), d as u128);
    let mut label = String::new();
    label.push_str(" ");
    push_long(&mut label, percent);
    label.push_str("%");
    let mut spans: Vec<Span> = Vec::new();
    spans.push(Span::raw("  ".to_string()));
    spans.push(Span::styled(repeat_char('\u{2588}', filled), theme.info));
    spans.push(Span::styled(repeat_char('\u{2591}', METER_WIDTH - filled), theme.dim));
    spans.push(Span::styled(label, theme.fg));
    spans.push(Span::styled(tail, theme.fg));
    let l = Line { spans };
    assert(l@ =~= bar_line(n as nat, d as nat, tail@, *theme));
    l
}

/// Adds the decimal spelling of a large number.
fn push_long(out: &mut String, n: u128)
    ensures
        final(out)@ == old(out)@ + text::decimal(n as nat),
    decreases n,
{
    let c = (48u8 + (n % 10) as u8) as char;
    assert(c == text::digit_char(n as nat % 10));
    if n >= 10 {
        push_long(out, n / 10);
    }
    out.push(c);
    assert(out@ =~= old(out)@ + text::decimal(n as nat));
}

/// A bar holds as many cells as it has, however full it is, and a full one is
/// full of them.
pub proof fn law_a_bar_never_overfills(n: nat, d: nat)
    requires
        d > 0,
    ensures
        cells(n, d) <= METER_WIDTH,
        n >= d ==> cells(n, d) == METER_WIDTH,
        n == 0 ==> cells(n, d) == 0,
        n <= d ==> nearest_even(100 * n, d) <= 100,
{
    if n >= d {
        assert((2 * n * METER_WIDTH + d) as nat / (2 * d) >= METER_WIDTH) by (nonlinear_arith)
            requires
                n >= d,
                d > 0,
        ;
    }
    if n == 0 {
        assert(d / (2 * d) == 0) by (nonlinear_arith)
            requires
                d > 0,
        ;
    }
    if n <= d {
        let q = (100 * n) / d;
        let r = (100 * n) % d;
        assert(q <= 100 && (q == 100 ==> r == 0)) by (nonlinear_arith)
            requires
                n <= d,
                d > 0,
                q == (100 * n) / d,
                r == (100 * n) % d,
        ;
    }
}

/// The sum of two counts, capped at the largest one there is.
pub open spec fn sum(a: u64, b: u64) -> u64 {
    if a + b <= u64::MAX {
        (a + b) as u64
    } else {
        u64::MAX
    }
}

/// Two usages together.
pub open spec fn together(a: TokenUsage, b: TokenUsage) -> TokenUsage {
    TokenUsage {
        input_tokens: sum(a.input_tokens, b.input_tokens),
        output_tokens: sum(a.output_tokens, b.output_tokens),
        reasoning_tokens: sum(a.reasoning_tokens, b.reasoning_tokens),
        cache_read_tokens: sum(a.cache_read_tokens, b.cache_read_tokens),
        cache_write_tokens: sum(a.cache_write_tokens, b.cache_write_tokens),
    }
}

/// Two costs together: what is known of them.
pub open spec fn costs(a: Option<u128>, b: Option<u128>) -> Option<u128> {
    match (a, b) {
        (Some(a), Some(b)) => Some(
            if a + b <= u128::MAX {
                (a + b) as u128
            } else {
                u128::MAX
            },
        ),
        (Some(a), None) => Some(a),
        (None, b) => b,
    }
}

/// What the finished turns of one model add up to.
#[derive(Clone, Debug, PartialEq, Eq)]
pub struct ModelRow {
    pub model: String,
    pub usage: TokenUsage,
    pub cost: Option<u128>,
}

/// The same as the contracts speak of it.
pub struct ModelView {
    pub model: Seq<char>,
    pub usage: TokenUsage,
    pub cost: Option<u128>,
}

impl View for ModelRow {
    type V = ModelView;

    open spec fn view(&self) -> ModelView {
        ModelView { model: self.model@, usage: self.usage, cost: self.cost }
    }
}

/// The views of model rows.
pub open spec fn model_views(rows: Seq<ModelRow>) -> Seq<ModelView> {
    Seq::new(rows.len(), |i: int| rows[i]@)
}

/// Where the row of a model stands, from `i` on; past the end where there is
/// none.
pub open spec fn row_of(rows: Seq<ModelView>, model: Seq<char>, i: nat) -> nat
    decreases rows.len() - i,
{
    if i >= rows.len() || rows[i as int].model == model {
        i
    } else {
        row_of(rows, model, i + 1)
    }
}

/// The rows with one more turn in them.
pub open spec fn counted(rows: Seq<ModelView>, turn: TurnUsage) -> Seq<ModelView> {
    let at = row_of(rows, turn.model@, 0);
    if at < rows.len() {
        rows.update(
            at as int,
            ModelView {
                usage: together(rows[at as int].usage, turn.usage),
                cost: costs(rows[at as int].cost, turn.cost),
                ..rows[at as int]
            },
        )
    } else {
        rows.push(ModelView { model: turn.model@, usage: turn.usage, cost: turn.cost })
    }
}

/// Per-model sums of finished turns, in first-use order.
pub open spec fn models_of(turns: Seq<TurnUsage>) -> Seq<ModelView>
    decreases turns.len(),
{
    if turns.len() == 0 {
        Seq::empty()
    } else {
        counted(models_of(turns.drop_last()), turns.last())
    }
}

fn saturating(a: u64, b: u64) -> (n: u64)
    ensures
        n == sum(a, b),
{
    if a <= u64::MAX - b {
        a + b
    } else {
        u64::MAX
    }
}

proof fn lemma_row_of(rows: Seq<ModelView>, model: Seq<char>, i: nat)
    requires
        i <= rows.len(),
    ensures
        i <= row_of(rows, model, i) <= rows.len(),
        row_of(rows, model, i) < rows.len() ==> rows[row_of(rows, model, i) as int].model == model,
        forall|k: int| i <= k < row_of(rows, model, i) ==> (#[trigger] rows[k]).model != model,
    decreases rows.len() - i,
{
    if i < rows.len() && rows[i as int].model != model {
        lemma_row_of(rows, model, i + 1);
    }
}

/// Whether a model has a line.
pub open spec fn has_line(rows: Seq<ModelView>, model: Seq<char>) -> bool {
    exists|i: int| 0 <= i < rows.len() && (#[trigger] rows[i]).model == model
}

/// Whether a model finished a turn.
pub open spec fn was_used(turns: Seq<TurnUsage>, model: Seq<char>) -> bool {
    exists|t: int| 0 <= t < turns.len() && (#[trigger] turns[t]).model@ == model
}

/// Exactly the models that finished a turn have a line.
pub proof fn law_the_used_models_have_lines(turns: Seq<TurnUsage>, model: Seq<char>)
    ensures
        has_line(models_of(turns), model) == was_used(turns, model),
    decreases turns.len(),
{
    if turns.len() > 0 {
        let front = turns.drop_last();
        law_the_used_models_have_lines(front, model);
        let rows = models_of(front);
        let new = models_of(turns);
        lemma_row_of(rows, turns.last().model@, 0);
        let at = row_of(rows, turns.last().model@, 0);
        if was_used(turns, model) {
            if turns.last().model@ == model {
                assert(new[at as int].model == model);
            } else {
                let t = choose|t: int| 0 <= t < turns.len() && (#[trigger] turns[t]).model@ == model;
                assert(front[t].model@ == model);
                let i = choose|i: int| 0 <= i < rows.len() && (#[trigger] rows[i]).model == model;
                assert(new[i].model == model);
            }
        }
        if has_line(new, model) {
            let i = choose|i: int| 0 <= i < new.len() && (#[trigger] new[i]).model == model;
            if i < rows.len() {
                assert(rows[i].model == model);
                let t = choose|t: int| 0 <= t < front.len() && (#[trigger] front[t]).model@ == model;
                assert(turns[t].model@ == model);
            } else {
                assert(turns[turns.len() - 1].model@ == model);
            }
        }
    }
}

/// No model has two lines.
pub proof fn law_no_model_has_two_lines(turns: Seq<TurnUsage>, i: int, j: int)
    requires
        0 <= i < j < models_of(turns).len(),
    ensures
        models_of(turns)[i].model != models_of(turns)[j].model,
    decreases turns.len(),
{
    if turns.len() > 0 {
        let front = turns.drop_last();
        let rows = models_of(front);
        lemma_row_of(rows, turns.last().model@, 0);
        if j < rows.len() {
            law_no_model_has_two_lines(front, i, j);
        }
    }
}

/// The counters of a usage.
pub enum Counter {
    Input,
    Output,
    Reasoning,
    CacheRead,
    CacheWrite,
}

/// One counter of a usage.
pub open spec fn counter(usage: TokenUsage, which: Counter) -> nat {
    match which {
        Counter::Input => usage.input_tokens as nat,
        Counter::Output => usage.output_tokens as nat,
        Counter::Reasoning => usage.reasoning_tokens as nat,
        Counter::CacheRead => usage.cache_read_tokens as nat,
        Counter::CacheWrite => usage.cache_write_tokens as nat,
    }
}

/// What the turns add up to on one counter.
pub open spec fn turn_total(turns: Seq<TurnUsage>, which: Counter) -> nat
    decreases turns.len(),
{
    if turns.len() == 0 {
        0
    } else {
        turn_total(turns.drop_last(), which) + counter(turns.last().usage, which)
    }
}

/// What the lines add up to on one counter.
pub open spec fn model_total(rows: Seq<ModelView>, which: Counter) -> nat
    decreases rows.len(),
{
    if rows.len() == 0 {
        0
    } else {
        model_total(rows.drop_last(), which) + counter(rows.last().usage, which)
    }
}

proof fn lemma_model_total_update(rows: Seq<ModelView>, at: int, row: ModelView, which: Counter)
    requires
        0 <= at < rows.len(),
    ensures
        model_total(rows.update(at, row), which) + counter(rows[at].usage, which) == model_total(
            rows,
            which,
        ) + counter(row.usage, which),
        counter(rows[at].usage, which) <= model_total(rows, which),
    decreases rows.len(),
{
    let new = rows.update(at, row);
    if at == rows.len() - 1 {
        assert(new.drop_last() =~= rows.drop_last());
    } else {
        lemma_model_total_update(rows.drop_last(), at, row, which);
        assert(new.drop_last() =~= rows.drop_last().update(at, row));
    }
}

/// The per-model lines lose no token: on every counter that did not run over,
/// they add up to what the turns do.
pub proof fn law_the_lines_add_up_to_the_turns(turns: Seq<TurnUsage>, which: Counter)
    requires
        turn_total(turns, which) <= u64::MAX,
    ensures
        model_total(models_of(turns), which) == turn_total(turns, which),
    decreases turns.len(),
{
    if turns.len() > 0 {
        let front = turns.drop_last();
        law_the_lines_add_up_to_the_turns(front, which);
        let rows = models_of(front);
        let turn = turns.last();
        let at = row_of(rows, turn.model@, 0);
        lemma_row_of(rows, turn.model@, 0);
        if at < rows.len() {
            lemma_model_total_update(
                rows,
                at as int,
                ModelView {
                    usage: together(rows[at as int].usage, turn.usage),
                    cost: costs(rows[at as int].cost, turn.cost),
                    ..rows[at as int]
                },
                which,
            );
        } else {
            let row = ModelView { model: turn.model@, usage: turn.usage, cost: turn.cost };
            assert(rows.push(row).drop_last() =~= rows);
        }
    }
}

/// A cost as a number, one that is not known counting nothing.
pub open spec fn price(cost: Option<u128>) -> nat {
    match cost {
        Some(cost) => cost as nat,
        None => 0,
    }
}

/// What the turns cost together.
pub open spec fn turn_cost(turns: Seq<TurnUsage>) -> nat
    decreases turns.len(),
{
    if turns.len() == 0 {
        0
    } else {
        turn_cost(turns.drop_last()) + price(turns.last().cost)
    }
}

/// What the lines cost together.
pub open spec fn model_cost(rows: Seq<ModelView>) -> nat
    decreases rows.len(),
{
    if rows.len() == 0 {
        0
    } else {
        model_cost(rows.drop_last()) + price(rows.last().cost)
    }
}

/// The turns that one model finished, in order.
pub open spec fn turns_of(turns: Seq<TurnUsage>, model: Seq<char>) -> Seq<TurnUsage>
    decreases turns.len(),
{
    if turns.len() == 0 {
        Seq::empty()
    } else if turns.last().model@ == model {
        turns_of(turns.drop_last(), model).push(turns.last())
    } else {
        turns_of(turns.drop_last(), model)
    }
}

/// Whether one of the turns has a price.
pub open spec fn any_priced(turns: Seq<TurnUsage>) -> bool {
    exists|t: int| 0 <= t < turns.len() && (#[trigger] turns[t]).cost is Some
}

proof fn lemma_model_cost_update(rows: Seq<ModelView>, at: int, row: ModelView)
    requires
        0 <= at < rows.len(),
    ensures
        model_cost(rows.update(at, row)) + price(rows[at].cost) == model_cost(rows) + price(
            row.cost,
        ),
        price(rows[at].cost) <= model_cost(rows),
    decreases rows.len(),
{
    let new = rows.update(at, row);
    if at == rows.len() - 1 {
        assert(new.drop_last() =~= rows.drop_last());
    } else {
        lemma_model_cost_update(rows.drop_last(), at, row);
        assert(new.drop_last() =~= rows.drop_last().update(at, row));
    }
}

/// The per-model lines lose no money: while the sum does not run over, their
/// costs add up to what the turns cost.
pub proof fn law_the_lines_lose_no_money(turns: Seq<TurnUsage>)
    requires
        turn_cost(turns) <= u128::MAX,
    ensures
        model_cost(models_of(turns)) == turn_cost(turns),
    decreases turns.len(),
{
    if turns.len() > 0 {
        let front = turns.drop_last();
        law_the_lines_lose_no_money(front);
        let rows = models_of(front);
        let turn = turns.last();
        let at = row_of(rows, turn.model@, 0);
        lemma_row_of(rows, turn.model@, 0);
        if at < rows.len() {
            lemma_model_cost_update(
                rows,
                at as int,
                ModelView {
                    usage: together(rows[at as int].usage, turn.usage),
                    cost: costs(rows[at as int].cost, turn.cost),
                    ..rows[at as int]
                },
            );
        } else {
            let row = ModelView { model: turn.model@, usage: turn.usage, cost: turn.cost };
            assert(rows.push(row).drop_last() =~= rows);
        }
    }
}

proof fn lemma_turns_of_unused(turns: Seq<TurnUsage>, model: Seq<char>)
    requires
        !was_used(turns, model),
    ensures
        turns_of(turns, model) == Seq::<TurnUsage>::empty(),
    decreases turns.len(),
{
    if turns.len() > 0 {
        assert(turns[turns.len() - 1].model@ != model);
        let front = turns.drop_last();
        assert forall|t: int| 0 <= t < front.len() implies (#[trigger] front[t]).model@ != model by {
            assert(turns[t].model@ != model);
        }
        lemma_turns_of_unused(front, model);
    }
}

/// A model's own line carries the sum of the prices of that model's turns, and
/// of each of its counters, up to the largest number there is; it has a cost
/// exactly where one of those turns has a price.
pub proof fn law_a_line_sums_the_turns_of_its_model(
    turns: Seq<TurnUsage>,
    i: int,
    which: Counter,
)
    requires
        0 <= i < models_of(turns).len(),
    ensures
        turn_cost(turns_of(turns, models_of(turns)[i].model)) <= u128::MAX ==> price(
            models_of(turns)[i].cost,
        ) == turn_cost(turns_of(turns, models_of(turns)[i].model)),
        turn_cost(turns_of(turns, models_of(turns)[i].model)) > u128::MAX ==> models_of(
            turns,
        )[i].cost == Some(u128::MAX),
        models_of(turns)[i].cost is Some == any_priced(turns_of(turns, models_of(turns)[i].model)),
        turn_total(turns_of(turns, models_of(turns)[i].model), which) <= u64::MAX ==> counter(
            models_of(turns)[i].usage,
            which,
        ) == turn_total(turns_of(turns, models_of(turns)[i].model), which),
        turn_total(turns_of(turns, models_of(turns)[i].model), which) > u64::MAX ==> counter(
            models_of(turns)[i].usage,
            which,
        ) == u64::MAX,
    decreases turns.len(),
{
    if turns.len() > 0 {
        let front = turns.drop_last();
        let rows = models_of(front);
        let turn = turns.last();
        let at = row_of(rows, turn.model@, 0);
        lemma_row_of(rows, turn.model@, 0);
        let model = models_of(turns)[i].model;
        let before = turns_of(front, model);
        let after = turns_of(turns, model);
        if i < rows.len() {
            assert(rows[i].model == model);
            law_a_line_sums_the_turns_of_its_model(front, i, which);
            if i == at {
                assert(after == before.push(turn));
                assert(after.drop_last() =~= before);
                lemma_any_priced(before, turn);
            } else {
                if i > at {
                    law_no_model_has_two_lines(front, at as int, i);
                }
                assert(turn.model@ != model);
                assert(after == before);
            }
        } else {
            law_the_used_models_have_lines(front, model);
            if has_line(rows, model) {
                let k = choose|k: int| 0 <= k < rows.len() && (#[trigger] rows[k]).model == model;
                assert(rows[k].model == turn.model@);
            }
            lemma_turns_of_unused(front, model);
            assert(after == before.push(turn));
            assert(after.drop_last() =~= before);
            lemma_any_priced(before, turn);
        }
    }
}

proof fn lemma_any_priced(turns: Seq<TurnUsage>, turn: TurnUsage)
    ensures
        any_priced(turns.push(turn)) == (any_priced(turns) || turn.cost is Some),
{
    let new = turns.push(turn);
    if any_priced(turns) {
        let t = choose|t: int| 0 <= t < turns.len() && (#[trigger] turns[t]).cost is Some;
        assert(new[t].cost is Some);
    }
    if turn.cost is Some {
        assert(new[turns.len() as int].cost is Some);
    }
    if any_priced(new) {
        let t = choose|t: int| 0 <= t < new.len() && (#[trigger] new[t]).cost is Some;
        if t < turns.len() {
            assert(turns[t].cost is Some);
        }
    }
}

/// The lines stand in the order in which their models were first used: a model
/// whose line comes later finished no turn before the other's first.
pub proof fn law_lines_stand_in_order_of_first_use(turns: Seq<TurnUsage>, i: int, j: int, t: int)
    requires
        0 <= i < j < models_of(turns).len(),
        0 <= t < turns.len(),
        turns[t].model@ == models_of(turns)[j].model,
    ensures
        exists|u: int| 0 <= u < t && (#[trigger] turns[u]).model@ == models_of(turns)[i].model,
    decreases turns.len(),
{
    let front = turns.drop_last();
    let rows = models_of(front);
    let turn = turns.last();
    lemma_row_of(rows, turn.model@, 0);
    let first = models_of(turns)[i].model;
    let second = models_of(turns)[j].model;
    assert(first == rows[i].model);
    law_the_used_models_have_lines(front, first);
    assert(has_line(rows, first));
    assert(was_used(front, first));
    let w = choose|w: int| 0 <= w < front.len() && (#[trigger] front[w]).model@ == first;
    if t == turns.len() - 1 {
        assert(turns[w].model@ == first);
    } else {
        assert(front[t].model@ == second);
        law_the_used_models_have_lines(front, second);
        assert(was_used(front, second));
        let k = choose|k: int| 0 <= k < rows.len() && (#[trigger] rows[k]).model == second;
        assert(models_of(turns)[k].model == second);
        if k != j {
            if k < j {
                law_no_model_has_two_lines(turns, k, j);
            } else {
                law_no_model_has_two_lines(turns, j, k);
            }
        }
        law_lines_stand_in_order_of_first_use(front, i, j, t);
        let u = choose|u: int| 0 <= u < t && (#[trigger] front[u]).model@ == first;
        assert(turns[u].model@ == first);
    }
}

/// A row of the per-turn table.
pub open spec fn table_row(id: Seq<char>, cells: Seq<Seq<char>>) -> Seq<char> {
    "  "@ + layout::left_aligned(id, ID_WIDTH as nat) + table_cells(cells)
}

/// The cells behind the first, each right-aligned.
pub open spec fn table_cells(cells: Seq<Seq<char>>) -> Seq<char>
    decreases cells.len(),
{
    if cells.len() == 0 {
        Seq::empty()
    } else {
        table_cells(cells.drop_last()) + " "@ + layout::right_aligned(cells.last(), COUNT_WIDTH as nat)
    }
}

/// A row of the per-turn table; see [`table_row`].
fn table_text(id: &str, cells: &Vec<String>) -> (s: String)
    ensures
        s@ == table_row(id@, text::texts(cells@)),
{
    let ghost all = text::texts(cells@);
    let mut s = String::new();
    s.push_str("  ");
    push_left(&mut s, id, ID_WIDTH);
    let ghost head = s@;
    let mut i: usize = 0;
    assert(s@ =~= head + table_cells(all.take(0)));
    while i < cells.len()
        invariant
            i <= cells@.len(),
            all == text::texts(cells@),
            s@ == head + table_cells(all.take(i as int)),
        decreases cells.len() - i,
    {
        push_right(&mut s, &cells[i], COUNT_WIDTH);
        assert(all.take(i + 1).drop_last() =~= all.take(i as int));
        assert(s@ =~= head + table_cells(all.take(i + 1)));
        i += 1;
    }
    assert(all.take(i as int) =~= all);
    assert(s@ =~= table_row(id@, all));
    s
}

/// A duration in at most two units: `3h 9m`, `2m`, or `45s` under a minute.
pub open spec fn duration_text(seconds: nat) -> Seq<char> {
    let hours = seconds / 3_600;
    let minutes = (seconds % 3_600) / 60;
    if hours > 0 {
        text::decimal(hours) + "h "@ + text::decimal(minutes) + "m"@
    } else if minutes > 0 {
        text::decimal(minutes) + "m"@
    } else {
        text::decimal(seconds) + "s"@
    }
}

/// Spells a duration; see [`duration_text`].
pub fn compact_duration(seconds: u64) -> (s: String)
    ensures
        s@ == duration_text(seconds as nat),
{
    let hours: u64 = seconds / 3_600;
    let minutes: u64 = (seconds % 3_600) / 60;
    let mut s = String::new();
    if hours > 0 {
        push_decimal(&mut s, hours);
        s.push_str("h ");
        push_decimal(&mut s, minutes);
        s.push_str("m");
    } else if minutes > 0 {
        push_decimal(&mut s, minutes);
        s.push_str("m");
    } else {
        push_decimal(&mut s, seconds);
        s.push_str("s");
    }
    assert(s@ =~= duration_text(seconds as nat));
    s
}

/// A rolling window's length in the unit a person thinks about it in: `45m`,
/// `5h`, `1h 30m`, `7d`, `1d 1h`.
pub open spec fn minutes_text(minutes: nat) -> Seq<char> {
    if minutes < 60 {
        text::decimal(minutes) + "m"@
    } else if minutes < 1_440 {
        if minutes % 60 == 0 {
            text::decimal(minutes / 60) + "h"@
        } else {
            text::decimal(minutes / 60) + "h "@ + text::decimal(minutes % 60) + "m"@
        }
    } else {
        if (minutes % 1_440) / 60 == 0 {
            text::decimal(minutes / 1_440) + "d"@
        } else {
            text::decimal(minutes / 1_440) + "d "@ + text::decimal((minutes % 1_440) / 60) + "h"@
        }
    }
}

/// Spells a window's length; see [`minutes_text`].
pub fn compact_minutes(minutes: u64) -> (s: String)
    ensures
        s@ == minutes_text(minutes as nat),
{
    let mut s = String::new();
    if minutes < 60 {
        push_decimal(&mut s, minutes);
        s.push_str("m");
    } else if minutes < 1_440 {
        push_decimal(&mut s, minutes / 60);
        if minutes % 60 == 0 {
            s.push_str("h");
        } else {
            s.push_str("h ");
            push_decimal(&mut s, minutes % 60);
            s.push_str("m");
        }
    } else {
        push_decimal(&mut s, minutes / 1_440);
        if (minutes % 1_440) / 60 == 0 {
            s.push_str("d");
        } else {
            s.push_str("d ");
            push_decimal(&mut s, (minutes % 1_440) / 60);
            s.push_str("h");
        }
    }
    assert(s@ =~= minutes_text(minutes as nat));
    s
}

/// What is said of a window's reset, in the words for one that was not
/// reported.
pub open spec fn reset_text(reset: Reset, unreported: Seq<char>) -> Seq<char> {
    match reset {
        Reset::Unreported => unreported,
        Reset::Passed => "expired \u{2014} refreshes on the next request"@,
        Reset::In(seconds) => "resets in "@ + duration_text(seconds as nat),
    }
}

/// What is said of a window's reset; see [`reset_text`].
fn reset_label(reset: Reset, unreported: &str) -> (s: String)
    ensures
        s@ == reset_text(reset, unreported@),
{
    let mut s = String::new();
    match reset {
        Reset::Unreported => s.push_str(unreported),
        Reset::Passed => s.push_str("expired \u{2014} refreshes on the next request"),
        Reset::In(seconds) => {
            s.push_str("resets in ");
            s.push_str(&compact_duration(seconds));
        },
    }
    assert(s@ =~= reset_text(reset, unreported@));
    s
}

/// What one plan window says after its bar: what it is, how long it runs, and
/// when it comes back.
pub open spec fn plan_text(plan: PlanWindow) -> Seq<char> {
    plan.name@ + (match plan.limit_name {
        Some(limit) => " ("@ + limit@ + ")"@,
        None => Seq::empty(),
    }) + " \u{b7} "@ + (match plan.window_minutes {
        Some(minutes) => minutes_text(minutes as nat) + " window, "@,
        None => Seq::empty(),
    }) + reset_text(plan.reset, "no reset reported"@)
}

/// What one plan window says after its bar; see [`plan_text`].
pub fn plan_label(plan: &PlanWindow) -> (s: String)
    ensures
        s@ == plan_text(*plan),
{
    let mut s = plan.name.clone();
    match &plan.limit_name {
        Some(limit) => {
            s.push_str(" (");
            s.push_str(limit);
            s.push_str(")");
        },
        None => {},
    }
    s.push_str(" \u{b7} ");
    match plan.window_minutes {
        Some(minutes) => {
            s.push_str(&compact_minutes(minutes));
            s.push_str(" window, ");
        },
        None => {},
    }
    s.push_str(&reset_label(plan.reset, "no reset reported"));
    assert(s@ =~= plan_text(*plan));
    s
}

/// What one rate window says after its bar.
pub open spec fn rate_text(rate: RateWindow) -> Seq<char> {
    " "@ + rate.kind@ + " \u{b7} "@ + spell::compact(rate.remaining as nat) + " of "@
        + spell::compact(rate.limit as nat) + " left, "@ + reset_text(
        rate.reset,
        "resets: \u{2014}"@,
    )
}

/// What one rate window says after its bar; see [`rate_text`].
fn rate_label(rate: &RateWindow) -> (s: String)
    ensures
        s@ == rate_text(*rate),
{
    let mut s = String::new();
    s.push_str(" ");
    s.push_str(&rate.kind);
    s.push_str(" \u{b7} ");
    s.push_str(&compact_tokens(rate.remaining));
    s.push_str(" of ");
    s.push_str(&compact_tokens(rate.limit));
    s.push_str(" left, ");
    s.push_str(&reset_label(rate.reset, "resets: \u{2014}"));
    assert(s@ =~= rate_text(*rate));
    s
}

/// A line of the panel: a text cut to the width.
pub open spec fn cut_line(text: Seq<char>, columns: nat, style: Style) -> Seq<SpanView> {
    layout::plain_line(layout::clipped(text, columns), style)
}

/// Adds a line of the panel; see [`cut_line`].
fn push_cut(lines: &mut Vec<Line>, text: &str, columns: usize, style: Style)
    ensures
        style::line_views(final(lines)@) == style::line_views(old(lines)@).push(
            cut_line(text@, columns as nat, style),
        ),
{
    push_line(lines, line(clip(text, columns), style));
}

/// What one model's line says: its counters, and its cost in parentheses where
/// it has a price.
pub open spec fn model_text(row: ModelView) -> Seq<char> {
    "    "@ + row.model + ":  "@ + spell::compact(row.usage.input_tokens as nat) + " input, "@
        + spell::compact(row.usage.output_tokens as nat) + " output, "@ + spell::compact(
        row.usage.reasoning_tokens as nat,
    ) + " reasoning, "@ + spell::compact(row.usage.cache_read_tokens as nat) + " cache read, "@
        + spell::compact(row.usage.cache_write_tokens as nat) + " cache write"@ + (match row.cost {
        Some(cost) => " ("@ + spell::money(cost as nat, 100, 2) + ")"@,
        None => Seq::empty(),
    })
}

/// What one model's line says; see [`model_text`].
fn model_label(row: &ModelRow) -> (s: String)
    ensures
        s@ == model_text(row@),
{
    let mut s = String::new();
    s.push_str("    ");
    s.push_str(&row.model);
    s.push_str(":  ");
    s.push_str(&compact_tokens(row.usage.input_tokens));
    s.push_str(" input, ");
    s.push_str(&compact_tokens(row.usage.output_tokens));
    s.push_str(" output, ");
    s.push_str(&compact_tokens(row.usage.reasoning_tokens));
    s.push_str(" reasoning, ");
    s.push_str(&compact_tokens(row.usage.cache_read_tokens));
    s.push_str(" cache read, ");
    s.push_str(&compact_tokens(row.usage.cache_write_tokens));
    s.push_str(" cache write");
    match row.cost {
        Some(cost) => {
            s.push_str(" (");
            s.push_str(&dollars_in_cents(cost));
            s.push_str(")");
        },
        None => {},
    }
    assert(s@ =~= model_text(row@));
    s
}

/// The lines of the first `n` items, one each.
pub open spec fn each<A>(items: Seq<A>, draw: spec_fn(A) -> Seq<SpanView>) -> Seq<Seq<SpanView>> {
    Seq::new(items.len(), |i: int| draw(items[i]))
}

impl Data {
    /// Input tokens served from cache over every token that went in; none where
    /// nothing has gone in at all.
    pub open spec fn hit_rate(self) -> Option<(u64, u64)> {
        let input = sum(
            sum(self.splits.input_tokens, self.splits.cache_read_tokens),
            self.splits.cache_write_tokens,
        );
        if input == 0 {
            None
        } else {
            Some((self.splits.cache_read_tokens, input))
        }
    }

    /// What the cost row says.
    pub open spec fn cost_text(self) -> Seq<char> {
        match self.totals.cost {
            Some(cost) => spell::money(cost as nat, 100, 2),
            None => "unpriced \u{2014} uncataloged model"@,
        }
    }

    /// The Session section: the totals' own cost, the duration where it was
    /// measured, and one line per model.
    pub open spec fn session(self, columns: nat, theme: Theme) -> Seq<Seq<SpanView>> {
        seq![
            cut_line("Session"@, columns, theme.accent.as_bold()),
            cut_line("  Total cost:      "@ + self.cost_text(), columns, theme.fg),
        ] + (match self.duration {
            Some(seconds) => seq![
                cut_line("  Total duration:  "@ + duration_text(seconds as nat), columns, theme.fg),
            ],
            None => Seq::empty(),
        }) + seq![cut_line("  Usage by model:"@, columns, theme.fg)] + (if self.turns@.len() == 0 {
            seq![cut_line("    none yet"@, columns, theme.dim)]
        } else {
            each(
                models_of(self.turns@),
                |row: ModelView| cut_line(model_text(row), columns, theme.fg),
            )
        }) + seq![Seq::empty()]
    }

    /// The Context section: how full the window is, as far as there is one.
    pub open spec fn context_section(self, columns: nat, theme: Theme) -> Seq<Seq<SpanView>> {
        seq![cut_line("Context"@, columns, theme.accent.as_bold())] + (match self.context {
            Some((tokens, window)) => {
                let d: nat = if window == 0 {
                    1
                } else {
                    window as nat
                };
                let n: nat = if tokens as nat <= d {
                    tokens as nat
                } else {
                    d
                };
                seq![
                    bar_line(n, d, " used"@, theme),
                    cut_line(
                        "  "@ + spell::compact(tokens as nat) + " of "@ + spell::compact(
                            window as nat,
                        ) + " tokens \u{2014} estimated"@,
                        columns,
                        theme.dim,
                    ),
                ]
            },
            None => seq![
                cut_line("  unsized model \u{2014} no window to meter"@, columns, theme.dim),
            ],
        }) + seq![Seq::empty()]
    }

    /// The plan windows, the tightest first.
    pub open spec fn tightest_plans(self) -> Seq<PlanWindow> {
        let order = rank::ranking(
            self.plans@.len(),
            rank::greater(Seq::new(self.plans@.len(), |i: int| self.plans@[i].used)),
        );
        Seq::new(order.len(), |k: int| self.plans@[order[k]])
    }

    /// The Plan limits section: the tightest windows, and how many more there
    /// are; nothing where there are none.
    pub open spec fn plan_section(self, columns: nat, theme: Theme) -> Seq<Seq<SpanView>> {
        if self.plans@.len() == 0 {
            Seq::empty()
        } else {
            let plans = self.tightest_plans();
            seq![cut_line("Plan limits"@, columns, theme.accent.as_bold())] + each(
                if plans.len() <= PLAN_ROWS {
                    plans
                } else {
                    plans.take(PLAN_ROWS as int)
                },
                |plan: PlanWindow|
                    bar_line(plan.used as nat, WHOLE as nat, " "@ + plan_text(plan), theme),
            ) + rest_line(plans.len(), PLAN_ROWS as nat, " roomier plan windows not shown)"@, columns, theme)
                + seq![Seq::empty()]
        }
    }

    /// The rate windows, the tightest first.
    pub open spec fn tightest_rates(self) -> Seq<RateWindow> {
        let order = rank::ranking(
            self.rates@.len(),
            rank::greater(Seq::new(self.rates@.len(), |i: int| self.rates@[i].used)),
        );
        Seq::new(order.len(), |k: int| self.rates@[order[k]])
    }

    /// The Current window section: the tightest windows, and how many more
    /// there are; nothing where there are none.
    pub open spec fn rate_section(self, columns: nat, theme: Theme) -> Seq<Seq<SpanView>> {
        if self.rates@.len() == 0 {
            Seq::empty()
        } else {
            let rates = self.tightest_rates();
            seq![cut_line("Current window"@, columns, theme.accent.as_bold())] + each(
                if rates.len() <= RATE_ROWS {
                    rates
                } else {
                    rates.take(RATE_ROWS as int)
                },
                |rate: RateWindow|
                    bar_line(rate.used as nat, WHOLE as nat, rate_text(rate), theme),
            ) + rest_line(rates.len(), RATE_ROWS as nat, " roomier windows not shown)"@, columns, theme)
                + seq![Seq::empty()]
        }
    }

    /// The Cache section: how much of the input was read from cache.
    pub open spec fn cache_section(self, columns: nat, theme: Theme) -> Seq<Seq<SpanView>> {
        seq![
            cut_line("Cache"@, columns, theme.accent.as_bold()),
            match self.hit_rate() {
                Some((n, d)) => bar_line(n as nat, d as nat, " of input read from cache"@, theme),
                None => cut_line("  nothing sent yet"@, columns, theme.dim),
            },
            Seq::empty(),
        ]
    }

    /// Everything above the turns.
    pub open spec fn above(self, columns: nat, theme: Theme) -> Seq<Seq<SpanView>> {
        self.session(columns, theme) + self.context_section(columns, theme) + self.plan_section(
            columns,
            theme,
        ) + self.rate_section(columns, theme) + self.cache_section(columns, theme)
    }

    /// How many turns are not shown in a panel of `room` lines: as many as do
    /// not fit between what stands above and what stands below, but one turn is
    /// always shown.
    pub open spec fn skipped(self, columns: nat, room: nat, theme: Theme) -> nat {
        let fixed = self.above(columns, theme).len() + 4 + tail_lines(self.plans@.len());
        let left = width::room(room, fixed);
        width::room(
            self.turns@.len(),
            if left < 1 {
                1
            } else {
                left
            },
        )
    }

    /// The Turns section: the newest turns, and how many earlier ones there
    /// are.
    pub open spec fn turn_section(self, columns: nat, room: nat, theme: Theme) -> Seq<
        Seq<SpanView>,
    > {
        seq![cut_line("Turns"@, columns, theme.accent.as_bold())] + (if self.turns@.len() == 0 {
            seq![cut_line("  no finished turns yet"@, columns, theme.dim)]
        } else {
            let skipped = self.skipped(columns, room, theme);
            seq![cut_line(table_row("turn"@, headings()), columns, theme.dim)] + each(
                self.turns@.skip(skipped as int),
                |turn: TurnUsage|
                    cut_line(table_row(turn.short_id@, turn_cells(turn)), columns, theme.fg),
            ) + (if skipped > 0 {
                seq![
                    cut_line(
                        "  ("@ + text::decimal(skipped) + " earlier turns not shown)"@,
                        columns,
                        theme.dim,
                    ),
                ]
            } else {
                Seq::empty()
            })
        }) + seq![Seq::empty()]
    }

    /// The foot: why there are no plan limits, where there are none, and the
    /// key that closes the panel.
    pub open spec fn foot(self, columns: nat, theme: Theme) -> Seq<Seq<SpanView>> {
        (if self.plans@.len() == 0 {
            each(no_plan_limits(self.limits_page@), |text: Seq<char>| cut_line(text, columns, theme.dim))
        } else {
            Seq::empty()
        }) + seq![cut_line("[Esc] close"@, columns, theme.dim)]
    }

    /// The panel in an area of `columns` by `rows` cells; none where the area
    /// is empty.
    pub open spec fn drawn(self, columns: u16, rows: u16, theme: Theme) -> Option<PopupView> {
        if columns == 0 || rows == 0 {
            None
        } else {
            let width = layout::extent(columns as nat, 4, MAX_WIDTH as nat);
            let available = layout::extent(rows as nat, 2, MAX_HEIGHT as nat);
            let inner = width::room(width, 2);
            let lines = self.above(inner, theme) + self.turn_section(
                inner,
                width::room(available, 2),
                theme,
            ) + self.foot(inner, theme);
            Some(
                PopupView {
                    width,
                    height: if lines.len() + 2 <= available {
                        lines.len() + 2
                    } else {
                        available
                    },
                    title: " usage "@,
                    lines,
                },
            )
        }
    }
}

/// The line that counts what a section does not show, where that is anything.
pub open spec fn rest_line(
    count: nat,
    shown: nat,
    what: Seq<char>,
    columns: nat,
    theme: Theme,
) -> Seq<Seq<SpanView>> {
    if count > shown {
        seq![cut_line("  ("@ + text::decimal((count - shown) as nat) + what, columns, theme.dim)]
    } else {
        Seq::empty()
    }
}

/// The headings of the counts in the per-turn table.
pub open spec fn headings() -> Seq<Seq<char>> {
    seq!["in"@, "out"@, "reason"@, "cache-r"@, "cache-w"@, "cost"@]
}

/// The counts of a turn.
pub open spec fn turn_cells(turn: TurnUsage) -> Seq<Seq<char>> {
    seq![
        text::decimal(turn.usage.input_tokens as nat),
        text::decimal(turn.usage.output_tokens as nat),
        text::decimal(turn.usage.reasoning_tokens as nat),
        text::decimal(turn.usage.cache_read_tokens as nat),
        text::decimal(turn.usage.cache_write_tokens as nat),
        turn.cost_cell@,
    ]
}

/// What stands where the plan limits would, on a credential that served none:
/// why, and the page that tells how they are asked for.
pub open spec fn no_plan_limits(page: Seq<char>) -> Seq<Seq<char>> {
    seq![
        "plan limits unavailable on this credential (probed 2026-08-14):"@,
        "  an openai API key's backend sends none; anthropic's needs an"@,
        "  Admin key \u{2014} "@ + page,
    ]
}

/// How many lines that takes.
pub open spec fn tail_lines(plans: nat) -> nat {
    if plans == 0 {
        3
    } else {
        0
    }
}

/// A bar is filled to the nearest of its twenty cells, a tie filling one more.
pub proof fn law_a_bar_is_filled_to_the_nearest_cell(n: nat, d: nat)
    requires
        d > 0,
        n <= d,
    ensures
        2 * cells(n, d) * d <= 40 * n + d,
        40 * n < 2 * cells(n, d) * d + d,
{
    let q = (40 * n + d) / (2 * d);
    assert(2 * n * METER_WIDTH + d == 40 * n + d);
    assert(2 * q * d <= 40 * n + d && 40 * n < 2 * q * d + d && q <= 20) by (nonlinear_arith)
        requires
            q == (40 * n + d) / (2 * d),
            d > 0,
            n <= d,
    ;
}

/// What a bar is drawn as: filled cells, then hollow ones, twenty together, and
/// the percentage to the nearest whole.
pub proof fn law_a_bar_says_its_percentage(n: nat, d: nat, theme: Theme)
    requires
        d > 0,
        n <= d,
    ensures
        bar_spans(n, d, theme).len() == 3,
        bar_spans(n, d, theme)[0].text.len() + bar_spans(n, d, theme)[1].text.len() == 20,
        bar_spans(n, d, theme)[0].text.len() == cells(n, d),
        forall|i: int|
            0 <= i < bar_spans(n, d, theme)[0].text.len() ==> #[trigger] bar_spans(
                n,
                d,
                theme,
            )[0].text[i] == '\u{2588}',
        forall|i: int|
            0 <= i < bar_spans(n, d, theme)[1].text.len() ==> #[trigger] bar_spans(
                n,
                d,
                theme,
            )[1].text[i] == '\u{2591}',
        ({
            let label = bar_spans(n, d, theme)[2].text;
            let v = text::digits_value(label.subrange(1, label.len() - 1));
            &&& label[0] == ' '
            &&& label.last() == '%'
            &&& 2 * v * d <= 200 * n + d
            &&& 200 * n <= 2 * v * d + d
        }),
{
    law_a_bar_never_overfills(n, d);
    reveal_strlit(" ");
    reveal_strlit("%");
    let v = nearest_even(100 * n, d);
    text::lemma_decimal(v);
    let label = bar_spans(n, d, theme)[2].text;
    assert(label.subrange(1, label.len() - 1) =~= text::decimal(v));
    spell::law_rounding_is_near(100 * n, d);
}

/// A duration is spelled in hours and minutes from an hour on, in minutes from
/// a minute on, and in seconds below that; what is smaller is dropped.
pub proof fn law_durations_are_spelled_in_two_units(h: nat, m: nat, s: nat)
    requires
        m < 60,
        s < 60,
    ensures
        h > 0 ==> duration_text(3600 * h + 60 * m + s) == text::decimal(h) + "h "@ + text::decimal(
            m,
        ) + "m"@,
        h == 0 && m > 0 ==> duration_text(60 * m + s) == text::decimal(m) + "m"@,
        h == 0 && m == 0 ==> duration_text(s) == text::decimal(s) + "s"@,
{
    let all = 3600 * h + 60 * m + s;
    assert(all / 3_600 == h);
    assert((all % 3_600) / 60 == m);
}

/// A window's length is spelled in days and hours from a day on, in hours and
/// minutes from an hour on, and in minutes below that; a second unit that would
/// read zero is left out.
pub proof fn law_windows_are_spelled_in_two_units(d: nat, h: nat, m: nat)
    requires
        h < 24,
        m < 60,
    ensures
        d > 0 && h > 0 ==> minutes_text(1440 * d + 60 * h + m) == text::decimal(d) + "d "@
            + text::decimal(h) + "h"@,
        d > 0 && h == 0 ==> minutes_text(1440 * d + m) == text::decimal(d) + "d"@,
        d == 0 && h > 0 && m > 0 ==> minutes_text(60 * h + m) == text::decimal(h) + "h "@
            + text::decimal(m) + "m"@,
        d == 0 && h > 0 && m == 0 ==> minutes_text(60 * h) == text::decimal(h) + "h"@,
        d == 0 && h == 0 ==> minutes_text(m) == text::decimal(m) + "m"@,
{
    let all = 1440 * d + 60 * h + m;
    assert(all / 1_440 == d);
    assert((all % 1_440) / 60 == h);
    if d == 0 {
        assert(all / 60 == h);
        assert(all % 60 == m);
    }
}

/// The share of the input that was read from cache is a share: what was read is
/// the cached tokens, all that went in is the sum of the three ways in, and
/// there is none where nothing went in.
pub proof fn law_the_hit_rate_is_a_share(data: Data)
    requires
        data.splits.input_tokens + data.splits.cache_read_tokens + data.splits.cache_write_tokens
            <= u64::MAX,
    ensures
        data.hit_rate() is None == (data.splits.input_tokens == 0 && data.splits.cache_read_tokens
            == 0 && data.splits.cache_write_tokens == 0),
        data.hit_rate() matches Some((n, d)) ==> n == data.splits.cache_read_tokens && n <= d && d
            == data.splits.input_tokens + data.splits.cache_read_tokens
            + data.splits.cache_write_tokens,
{
}

/// The panel shows as many of the newest turns as fit, and says how many it
/// does not show: with one turn more shown, its lines would not fit.
pub proof fn law_as_many_turns_as_fit(data: Data, columns: nat, room: nat, theme: Theme)
    requires
        data.turns@.len() > 0,
    ensures
        ({
            let skipped = data.skipped(columns, room, theme);
            let fixed = data.above(columns, theme).len() + 4 + (if data.plans@.len() == 0 {
                3nat
            } else {
                0
            });
            let shown = data.turns@.len() - skipped;
            &&& 1 <= shown <= data.turns@.len()
            &&& shown == 1 || fixed + shown <= room
            &&& skipped > 0 ==> fixed + shown + 1 > room
        }),
        data.turn_section(columns, room, theme).len() == 3 + data.turns@.len() - data.skipped(
            columns,
            room,
            theme,
        ) + (if data.skipped(columns, room, theme) > 0 {
            1nat
        } else {
            0
        }),
{
}

/// A section shows every window it has room for and counts the others: two
/// plan windows and two rate windows, the tightest of them.
pub proof fn law_a_section_counts_what_it_leaves_out(data: Data, columns: nat, theme: Theme)
    ensures
        data.plans@.len() == 0 ==> data.plan_section(columns, theme).len() == 0,
        0 < data.plans@.len() <= 2 ==> data.plan_section(columns, theme).len()
            == data.plans@.len() + 2,
        data.plans@.len() > 2 ==> data.plan_section(columns, theme).len() == 5
            && data.plan_section(columns, theme)[3] == cut_line(
            "  ("@ + text::decimal((data.plans@.len() - 2) as nat)
                + " roomier plan windows not shown)"@,
            columns,
            theme.dim,
        ),
        data.rates@.len() == 0 ==> data.rate_section(columns, theme).len() == 0,
        0 < data.rates@.len() <= 2 ==> data.rate_section(columns, theme).len()
            == data.rates@.len() + 2,
        data.rates@.len() > 2 ==> data.rate_section(columns, theme).len() == 5
            && data.rate_section(columns, theme)[3] == cut_line(
            "  ("@ + text::decimal((data.rates@.len() - 2) as nat)
                + " roomier windows not shown)"@,
            columns,
            theme.dim,
        ),
{
    law_the_tightest_window_comes_first(data);
}

/// What is said of a window: its name, the limit it belongs to, how long it
/// runs, and when it comes back.
pub proof fn law_windows_say_when_they_come_back(plan: PlanWindow, rate: RateWindow, seconds: u64)
    ensures
        reset_text(Reset::In(seconds), Seq::empty()) == "resets in "@ + duration_text(
            seconds as nat,
        ),
        reset_text(Reset::Passed, Seq::empty())
            == "expired \u{2014} refreshes on the next request"@,
        reset_text(Reset::Unreported, "?"@) == "?"@,
        plan.limit_name is None && plan.window_minutes is None && plan.reset == Reset::Unreported
            ==> plan_text(plan) == plan.name@ + " \u{b7} no reset reported"@,
        plan.limit_name matches Some(limit) ==> (plan.window_minutes matches Some(minutes)
            ==> plan_text(plan) == plan.name@ + " ("@ + limit@ + ") \u{b7} "@ + minutes_text(
            minutes as nat,
        ) + " window, "@ + reset_text(plan.reset, "no reset reported"@)),
        rate_text(rate) == " "@ + rate.kind@ + " \u{b7} "@ + spell::compact(rate.remaining as nat)
            + " of "@ + spell::compact(rate.limit as nat) + " left, "@ + reset_text(
            rate.reset,
            "resets: \u{2014}"@,
        ),
{
    reveal_strlit(" \u{b7} ");
    reveal_strlit("no reset reported");
    reveal_strlit(" \u{b7} no reset reported");
    reveal_strlit(")");
    reveal_strlit(") \u{b7} ");
    if plan.limit_name is None && plan.window_minutes is None && plan.reset == Reset::Unreported {
        assert(plan_text(plan) =~= plan.name@ + " \u{b7} no reset reported"@);
    }
    if let Some(limit) = plan.limit_name {
        if let Some(minutes) = plan.window_minutes {
            let m = minutes_text(minutes as nat);
            let r = reset_text(plan.reset, "no reset reported"@);
            assert(")"@ + " \u{b7} "@ =~= ") \u{b7} "@);
            assert(plan.name@ + (" ("@ + limit@ + ")"@) + " \u{b7} "@ =~= plan.name@ + " ("@ + limit@
                + (")"@ + " \u{b7} "@));
            let front = plan.name@ + " ("@ + limit@ + ") \u{b7} "@;
            assert(front + (m + " window, "@) + r =~= front + m + " window, "@ + r);
        }
    }
}

/// A row of the per-turn table is set in columns: two blanks, ten characters
/// for the first, and a blank and eight for each other.
pub proof fn law_the_turns_are_set_in_columns(id: Seq<char>, cells: Seq<Seq<char>>, k: int)
    requires
        id.len() <= 10,
        forall|i: int| 0 <= i < cells.len() ==> (#[trigger] cells[i]).len() <= 8,
        0 <= k < cells.len(),
    ensures
        table_row(id, cells).len() == 12 + 9 * cells.len(),
        table_row(id, cells).subrange(2, 2 + id.len() as int) == id,
        table_row(id, cells).subrange(
            21 + 9 * k - cells[k].len(),
            21 + 9 * k,
        ) == cells[k],
{
    reveal_strlit("  ");
    lemma_table_cells(cells, k);
    let row = table_row(id, cells);
    let head = "  "@ + layout::left_aligned(id, ID_WIDTH as nat);
    assert(head.len() == 12);
    assert(row.subrange(2, 2 + id.len() as int) =~= id);
    let tail = table_cells(cells);
    assert(row.subrange(21 + 9 * k - cells[k].len(), 21 + 9 * k) =~= tail.subrange(
        9 + 9 * k - cells[k].len(),
        9 + 9 * k,
    ));
}

proof fn lemma_table_cells(cells: Seq<Seq<char>>, k: int)
    requires
        forall|i: int| 0 <= i < cells.len() ==> (#[trigger] cells[i]).len() <= 8,
        0 <= k < cells.len(),
    ensures
        table_cells(cells).len() == 9 * cells.len(),
        table_cells(cells).subrange(9 + 9 * k - cells[k].len(), 9 + 9 * k) == cells[k],
    decreases cells.len(),
{
    reveal_strlit(" ");
    let front = cells.drop_last();
    let last = cells[cells.len() - 1];
    assert forall|i: int| 0 <= i < front.len() implies (#[trigger] front[i]).len() <= 8 by {
        assert(cells[i].len() <= 8);
    }
    assert(last.len() <= 8);
    let all = table_cells(cells);
    if front.len() > 0 {
        lemma_table_cells(front, if k < front.len() {
            k
        } else {
            0
        });
    }
    assert(table_cells(front).len() == 9 * front.len());
    let cell = layout::right_aligned(last, COUNT_WIDTH as nat);
    assert(cell.len() == 8);
    if k < front.len() {
        assert(all.subrange(9 + 9 * k - cells[k].len(), 9 + 9 * k) =~= table_cells(front).subrange(
            9 + 9 * k - cells[k].len(),
            9 + 9 * k,
        ));
    } else {
        assert(all.subrange(9 + 9 * k - last.len(), 9 + 9 * k) =~= last);
    }
}

/// The columns of the per-turn table, and what a turn says in them.
pub proof fn law_the_columns_of_a_turn(turn: TurnUsage)
    ensures
        headings() == seq!["in"@, "out"@, "reason"@, "cache-r"@, "cache-w"@, "cost"@],
        turn_cells(turn).len() == 6,
        turn_cells(turn)[0] == text::decimal(turn.usage.input_tokens as nat),
        turn_cells(turn)[1] == text::decimal(turn.usage.output_tokens as nat),
        turn_cells(turn)[2] == text::decimal(turn.usage.reasoning_tokens as nat),
        turn_cells(turn)[3] == text::decimal(turn.usage.cache_read_tokens as nat),
        turn_cells(turn)[4] == text::decimal(turn.usage.cache_write_tokens as nat),
        turn_cells(turn)[5] == turn.cost_cell@,
{
}

/// A model's line says its counters in this order, and its cost where it has
/// one.
pub proof fn law_a_model_says_its_counters(row: ModelView)
    ensures
        ({
            let counters = "    "@ + row.model + ":  "@ + spell::compact(
                row.usage.input_tokens as nat,
            ) + " input, "@ + spell::compact(row.usage.output_tokens as nat) + " output, "@
                + spell::compact(row.usage.reasoning_tokens as nat) + " reasoning, "@
                + spell::compact(row.usage.cache_read_tokens as nat) + " cache read, "@
                + spell::compact(row.usage.cache_write_tokens as nat) + " cache write"@;
            &&& row.cost is None ==> model_text(row) == counters
            &&& row.cost matches Some(cost) ==> model_text(row) == counters + (" ("@ + spell::money(
                cost as nat,
                100,
                2,
            ) + ")"@)
        }),
{
    if row.cost is None {
        let counters = "    "@ + row.model + ":  "@ + spell::compact(
            row.usage.input_tokens as nat,
        ) + " input, "@ + spell::compact(row.usage.output_tokens as nat) + " output, "@
            + spell::compact(row.usage.reasoning_tokens as nat) + " reasoning, "@
            + spell::compact(row.usage.cache_read_tokens as nat) + " cache read, "@
            + spell::compact(row.usage.cache_write_tokens as nat) + " cache write"@;
        assert(model_text(row) == counters + Seq::<char>::empty());
        assert(counters + Seq::<char>::empty() =~= counters);
    }
}

/// The context bar is the share of the window that is used, never more than all
/// of it, and the cache bar the share of the input that was read from cache.
pub proof fn law_the_bars_show_their_shares(
    data: Data,
    columns: nat,
    theme: Theme,
    tokens: u64,
    window: u64,
)
    requires
        data.context == Some((tokens, window)),
        window > 0,
    ensures
        data.context_section(columns, theme).len() == 4,
        tokens <= window ==> data.context_section(columns, theme)[1] == bar_line(
            tokens as nat,
            window as nat,
            " used"@,
            theme,
        ),
        tokens > window ==> data.context_section(columns, theme)[1] == bar_line(
            window as nat,
            window as nat,
            " used"@,
            theme,
        ),
        data.context_section(columns, theme)[2] == cut_line(
            "  "@ + spell::compact(tokens as nat) + " of "@ + spell::compact(window as nat)
                + " tokens \u{2014} estimated"@,
            columns,
            theme.dim,
        ),
        data.hit_rate() matches Some((n, d)) ==> data.cache_section(columns, theme)[1] == bar_line(
            n as nat,
            d as nat,
            " of input read from cache"@,
            theme,
        ),
        data.hit_rate() is None ==> data.cache_section(columns, theme)[1] == cut_line(
            "  nothing sent yet"@,
            columns,
            theme.dim,
        ),
        data.totals.cost matches Some(cost) ==> data.cost_text() == spell::money(
            cost as nat,
            100,
            2,
        ),
        data.totals.cost is None ==> data.cost_text() == "unpriced \u{2014} uncataloged model"@,
{
}

/// The panel is titled, stands within its area, and shows the session first:
/// what it cost, how long it took where that is known, and a line for each
/// model.
pub proof fn law_the_panel_opens_with_the_session(
    data: Data,
    columns: u16,
    rows: u16,
    theme: Theme,
    i: int,
)
    requires
        columns > 0,
        rows > 0,
        0 <= i < models_of(data.turns@).len(),
        data.turns@.len() > 0,
    ensures
        data.drawn(columns, rows, theme) matches Some(popup) && ({
            let inner = width::room(popup.width, 2);
            let timed: int = if data.duration is Some {
                1
            } else {
                0
            };
            &&& popup.title == " usage "@
            &&& columns > 100 ==> popup.width == 96
            &&& 4 < columns <= 100 ==> popup.width + 4 == columns
            &&& rows > 32 ==> popup.height <= 30
            &&& 2 < rows <= 32 ==> popup.height + 2 <= rows
            &&& popup.lines[0] == cut_line("Session"@, inner, theme.accent.as_bold())
            &&& popup.lines[1] == cut_line(
                "  Total cost:      "@ + data.cost_text(),
                inner,
                theme.fg,
            )
            &&& data.duration matches Some(seconds) ==> popup.lines[2] == cut_line(
                "  Total duration:  "@ + duration_text(seconds as nat),
                inner,
                theme.fg,
            )
            &&& popup.lines[2 + timed] == cut_line("  Usage by model:"@, inner, theme.fg)
            &&& popup.lines[3 + timed + i] == cut_line(
                model_text(models_of(data.turns@)[i]),
                inner,
                theme.fg,
            )
            &&& popup.lines.last() == cut_line("[Esc] close"@, inner, theme.dim)
        }),
{
    let popup = data.drawn(columns, rows, theme)->0;
    let inner = width::room(popup.width, 2);
    let session = data.session(inner, theme);
    let above = data.above(inner, theme);
    let timed: int = if data.duration is Some {
        1
    } else {
        0
    };
    assert(session.len() == 4 + timed + models_of(data.turns@).len());
    assert(session[3 + timed + i] == cut_line(
        model_text(models_of(data.turns@)[i]),
        inner,
        theme.fg,
    ));
    assert forall|k: int| 0 <= k < session.len() implies popup.lines[k] == #[trigger] session[k] by {
        assert(above[k] == session[k]);
    }
    assert(session[0] == cut_line("Session"@, inner, theme.accent.as_bold()));
    assert(session[1] == cut_line("  Total cost:      "@ + data.cost_text(), inner, theme.fg));
    assert(session[2 + timed] == cut_line("  Usage by model:"@, inner, theme.fg));
    if let Some(seconds) = data.duration {
        assert(session[2] == cut_line(
            "  Total duration:  "@ + duration_text(seconds as nat),
            inner,
            theme.fg,
        ));
    }
}

/// The panel draws a plan meter or says why it has none: one of the two, and
/// never both.
pub proof fn law_plan_meters_or_a_reason(data: Data, columns: nat, theme: Theme)
    ensures
        (data.plan_section(columns, theme).len() == 0) == (data.foot(columns, theme).len() == 4),
        (data.plan_section(columns, theme).len() > 0) == (data.foot(columns, theme).len() == 1),
{
}

/// The window a section draws first is the tightest: none is used more.
pub proof fn law_the_tightest_window_comes_first(data: Data)
    ensures
        data.tightest_rates().len() == data.rates@.len(),
        data.tightest_plans().len() == data.plans@.len(),
        forall|a: int, b: int|
            0 <= a < b < data.rates@.len() ==> (#[trigger] data.tightest_rates()[a]).used >= (
            #[trigger] data.tightest_rates()[b]).used,
        forall|a: int, b: int|
            0 <= a < b < data.plans@.len() ==> (#[trigger] data.tightest_plans()[a]).used >= (
            #[trigger] data.tightest_plans()[b]).used,
{
    let rates = Seq::new(data.rates@.len(), |i: int| data.rates@[i].used);
    rank::law_a_ranking_is_in_order(rates.len(), rank::greater(rates));
    let plans = Seq::new(data.plans@.len(), |i: int| data.plans@[i].used);
    rank::law_a_ranking_is_in_order(plans.len(), rank::greater(plans));
    let first = rank::ranking(rates.len(), rank::greater(rates));
    let second = rank::ranking(plans.len(), rank::greater(plans));
    assert forall|a: int, b: int| 0 <= a < b < data.rates@.len() implies (
    #[trigger] data.tightest_rates()[a]).used >= (#[trigger] data.tightest_rates()[b]).used by {
        assert(!rank::greater(rates)(first[b], first[a]));
    }
    assert forall|a: int, b: int| 0 <= a < b < data.plans@.len() implies (
    #[trigger] data.tightest_plans()[a]).used >= (#[trigger] data.tightest_plans()[b]).used by {
        assert(!rank::greater(plans)(second[b], second[a]));
    }
}

/// The newest turn is always on the panel, however little room there is.
pub proof fn law_the_newest_turn_is_shown(data: Data, columns: nat, room: nat, theme: Theme)
    requires
        data.turns@.len() > 0,
    ensures
        data.skipped(columns, room, theme) < data.turns@.len(),
{
}

/// The panel itself.
#[derive(Clone, Debug)]
pub struct Usage {
    data: Data,
}

impl View for Usage {
    type V = Data;

    closed spec fn view(&self) -> Data {
        self.data
    }
}

impl Usage {
    /// Opens the panel over what was read.
    pub fn new(data: Data) -> (u: Usage)
        ensures
            u@ == data,
    {
        Usage { data }
    }

    /// Input tokens served from cache, over every token that went in: a
    /// numerator and a denominator; see [`Data::hit_rate`].
    pub fn cache_hit_rate(&self) -> (r: Option<(u64, u64)>)
        ensures
            r == self@.hit_rate(),
    {
        let splits = &self.data.splits;
        let input = saturating(
            saturating(splits.input_tokens, splits.cache_read_tokens),
            splits.cache_write_tokens,
        );
        if input == 0 {
            None
        } else {
            Some((splits.cache_read_tokens, input))
        }
    }

    /// Per-model sums of the finished turns; see [`models_of`].
    pub fn by_model(&self) -> (rows: Vec<ModelRow>)
        ensures
            model_views(rows@) == models_of(self@.turns@),
    {
        let turns = &self.data.turns;
        let mut rows: Vec<ModelRow> = Vec::new();
        let mut t: usize = 0;
        assert(model_views(rows@) =~= models_of(turns@.take(0)));
        while t < turns.len()
            invariant
                t <= turns@.len(),
                model_views(rows@) == models_of(turns@.take(t as int)),
            decreases turns.len() - t,
        {
            let turn = &turns[t];
            let ghost was = model_views(rows@);
            let mut at: usize = 0;
            while at < rows.len() && !str_eq(&rows[at].model, &turn.model)
                invariant
                    at <= rows@.len(),
                    was == model_views(rows@),
                    row_of(was, turn.model@, 0) == row_of(was, turn.model@, at as nat),
                decreases rows.len() - at,
            {
                assert(was[at as int].model == rows@[at as int].model@);
                at += 1;
            }
            if at < rows.len() {
                assert(was[at as int].model == turn.model@);
                let old_row = &rows[at];
                let usage = TokenUsage {
                    input_tokens: saturating(old_row.usage.input_tokens, turn.usage.input_tokens),
                    output_tokens: saturating(
                        old_row.usage.output_tokens,
                        turn.usage.output_tokens,
                    ),
                    reasoning_tokens: saturating(
                        old_row.usage.reasoning_tokens,
                        turn.usage.reasoning_tokens,
                    ),
                    cache_read_tokens: saturating(
                        old_row.usage.cache_read_tokens,
                        turn.usage.cache_read_tokens,
                    ),
                    cache_write_tokens: saturating(
                        old_row.usage.cache_write_tokens,
                        turn.usage.cache_write_tokens,
                    ),
                };
                let cost = match (old_row.cost, turn.cost) {
                    (Some(total), Some(more)) => Some(total.saturating_add(more)),
                    (Some(total), None) => Some(total),
                    (None, more) => more,
                };
                let row = ModelRow { model: old_row.model.clone(), usage, cost };
                rows.set(at, row);
            } else {
                rows.push(
                    ModelRow { model: turn.model.clone(), usage: turn.usage, cost: turn.cost },
                );
            }
            assert(model_views(rows@) =~= counted(was, *turn));
            assert(turns@.take(t + 1).drop_last() =~= turns@.take(t as int));
            t += 1;
        }
        assert(turns@.take(t as int) =~= turns@);
        rows
    }

    /// Draws the panel for an area of `columns` by `rows` cells.
    pub fn render(&self, columns: u16, rows: u16, theme: &Theme) -> (popup: Option<Popup>)
        ensures
            layout::popup_seen(popup) == self@.drawn(columns, rows, *theme),
    {
        if columns == 0 || rows == 0 {
            return None;
        }
        let width = grow(columns, 4, MAX_WIDTH);
        let available = grow(rows, 2, MAX_HEIGHT);
        let inner: usize = if width >= 2 {
            (width - 2) as usize
        } else {
            0
        };
        let room: usize = if available >= 2 {
            (available - 2) as usize
        } else {
            0
        };
        let mut lines = self.session(inner, theme);
        push_lines(&mut lines, self.context_section(inner, theme));
        push_lines(&mut lines, self.plan_section(inner, theme));
        push_lines(&mut lines, self.rate_section(inner, theme));
        push_lines(&mut lines, self.cache_section(inner, theme));
        assert(style::line_views(lines@) =~= self@.above(inner as nat, *theme));
        assert(lines@.len() == style::line_views(lines@).len());
        let above: usize = lines.len();
        push_lines(&mut lines, self.turn_section(inner, room, above, theme));
        push_lines(&mut lines, self.foot(inner, theme));
        let ghost seen = style::line_views(lines@);
        assert(seen.len() == lines@.len());
        let height: u16 = if lines.len() < available as usize && lines.len() + 2
            <= available as usize {
            (lines.len() + 2) as u16
        } else {
            available
        };
        Some(Popup { width, height, title: " usage ".to_string(), lines })
    }

    /// The Session section; see [`Data::session`].
    fn session(&self, columns: usize, theme: &Theme) -> (lines: Vec<Line>)
        ensures
            style::line_views(lines@) == self@.session(columns as nat, *theme),
    {
        let mut lines: Vec<Line> = Vec::new();
        assert(style::line_views(lines@) =~= Seq::empty());
        push_cut(&mut lines, "Session", columns, theme.accent.bold());
        let mut cost = String::new();
        cost.push_str("  Total cost:      ");
        match self.data.totals.cost {
            Some(amount) => cost.push_str(&dollars_in_cents(amount)),
            None => cost.push_str("unpriced \u{2014} uncataloged model"),
        }
        push_cut(&mut lines, &cost, columns, theme.fg);
        match self.data.duration {
            Some(seconds) => {
                let mut s = String::new();
                s.push_str("  Total duration:  ");
                s.push_str(&compact_duration(seconds));
                push_cut(&mut lines, &s, columns, theme.fg);
            },
            None => {},
        }
        push_cut(&mut lines, "  Usage by model:", columns, theme.fg);
        let ghost head = style::line_views(lines@);
        let models = self.by_model();
        let ghost rows = model_views(models@);
        let ghost draw = |row: ModelView| cut_line(model_text(row), columns as nat, theme.fg);
        if self.data.turns.len() == 0 {
            push_cut(&mut lines, "    none yet", columns, theme.dim);
        } else {
            let mut i: usize = 0;
            assert(head =~= head + each(rows, draw).take(0));
            while i < models.len()
                invariant
                    i <= models@.len(),
                    rows == model_views(models@),
                    draw == (|row: ModelView| cut_line(model_text(row), columns as nat, theme.fg)),
                    style::line_views(lines@) == head + each(rows, draw).take(i as int),
                decreases models.len() - i,
            {
                push_cut(&mut lines, &model_label(&models[i]), columns, theme.fg);
                assert(each(rows, draw)[i as int] == draw(models@[i as int]@));
                i += 1;
                assert(style::line_views(lines@) =~= head + each(rows, draw).take(i as int));
            }
            assert(each(rows, draw).take(i as int) =~= each(rows, draw));
        }
        push_line(&mut lines, blank());
        assert(style::line_views(lines@) =~= self@.session(columns as nat, *theme));
        lines
    }

    /// The Context section; see [`Data::context_section`].
    fn context_section(&self, columns: usize, theme: &Theme) -> (lines: Vec<Line>)
        ensures
            style::line_views(lines@) == self@.context_section(columns as nat, *theme),
    {
        let mut lines: Vec<Line> = Vec::new();
        push_cut(&mut lines, "Context", columns, theme.accent.bold());
        match self.data.context {
            Some((tokens, window)) => {
                let d: u64 = if window == 0 {
                    1
                } else {
                    window
                };
                let n: u64 = if tokens <= d {
                    tokens
                } else {
                    d
                };
                push_line(&mut lines, bar(n, d, " used".to_string(), theme));
                let mut s = String::new();
                s.push_str("  ");
                s.push_str(&compact_tokens(tokens));
                s.push_str(" of ");
                s.push_str(&compact_tokens(window));
                s.push_str(" tokens \u{2014} estimated");
                push_cut(&mut lines, &s, columns, theme.dim);
            },
            None => {
                push_cut(
                    &mut lines,
                    "  unsized model \u{2014} no window to meter",
                    columns,
                    theme.dim,
                );
            },
        }
        push_line(&mut lines, blank());
        assert(style::line_views(lines@) =~= self@.context_section(columns as nat, *theme));
        lines
    }

    /// The Plan limits section; see [`Data::plan_section`].
    fn plan_section(&self, columns: usize, theme: &Theme) -> (lines: Vec<Line>)
        ensures
            style::line_views(lines@) == self@.plan_section(columns as nat, *theme),
    {
        let plans = &self.data.plans;
        let mut lines: Vec<Line> = Vec::new();
        assert(style::line_views(lines@) =~= Seq::empty());
        if plans.len() == 0 {
            return lines;
        }
        let mut keys: Vec<u64> = Vec::new();
        let mut i: usize = 0;
        while i < plans.len()
            invariant
                i <= plans@.len(),
                keys@ =~= Seq::new(i as nat, |k: int| plans@[k].used),
            decreases plans.len() - i,
        {
            keys.push(plans[i].used);
            i += 1;
        }
        let order = rank_descending(&keys);
        let ghost ranked = self@.tightest_plans();
        assert(keys@ =~= Seq::new(plans@.len(), |k: int| plans@[k].used));
        assert forall|k: int| 0 <= k < order@.len() implies #[trigger] ranked[k]
            == plans@[order@[k] as int] by {
            assert(rank::positions(order@)[k] == order@[k]);
        }
        assert(ranked.len() == order@.len()) by {
            assert(rank::positions(order@).len() == order@.len());
        }
        push_cut(&mut lines, "Plan limits", columns, theme.accent.bold());
        let ghost head = style::line_views(lines@);
        let shown: usize = if order.len() <= PLAN_ROWS {
            order.len()
        } else {
            PLAN_ROWS
        };
        let ghost kept = if ranked.len() <= PLAN_ROWS {
            ranked
        } else {
            ranked.take(PLAN_ROWS as int)
        };
        let ghost draw = |plan: PlanWindow|
            bar_line(plan.used as nat, WHOLE as nat, " "@ + plan_text(plan), *theme);
        let mut i: usize = 0;
        assert(head =~= head + each(kept, draw).take(0));
        while i < shown
            invariant
                i <= shown <= order@.len(),
                plans@ == self@.plans@,
                kept.len() == shown,
                forall|k: int|
                    0 <= k < kept.len() ==> #[trigger] kept[k] == plans@[order@[k] as int],
                forall|k: int| 0 <= k < order@.len() ==> #[trigger] order@[k] < plans@.len(),
                draw == (|plan: PlanWindow|
                    bar_line(plan.used as nat, WHOLE as nat, " "@ + plan_text(plan), *theme)),
                style::line_views(lines@) == head + each(kept, draw).take(i as int),
            decreases shown - i,
        {
            let plan = &plans[order[i]];
            let mut tail = String::new();
            tail.push_str(" ");
            tail.push_str(&plan_label(plan));
            assert(tail@ =~= " "@ + plan_text(*plan));
            push_line(&mut lines, bar(plan.used, WHOLE, tail, theme));
            assert(kept[i as int] == *plan);
            assert(each(kept, draw)[i as int] == draw(*plan));
            i += 1;
            assert(style::line_views(lines@) =~= head + each(kept, draw).take(i as int));
        }
        assert(each(kept, draw).take(i as int) =~= each(kept, draw));
        if order.len() > PLAN_ROWS {
            let mut s = String::new();
            s.push_str("  (");
            push_decimal(&mut s, (order.len() - PLAN_ROWS) as u64);
            s.push_str(" roomier plan windows not shown)");
            push_cut(&mut lines, &s, columns, theme.dim);
        }
        push_line(&mut lines, blank());
        assert(style::line_views(lines@) =~= self@.plan_section(columns as nat, *theme));
        lines
    }

    /// The Current window section; see [`Data::rate_section`].
    fn rate_section(&self, columns: usize, theme: &Theme) -> (lines: Vec<Line>)
        ensures
            style::line_views(lines@) == self@.rate_section(columns as nat, *theme),
    {
        let rates = &self.data.rates;
        let mut lines: Vec<Line> = Vec::new();
        assert(style::line_views(lines@) =~= Seq::empty());
        if rates.len() == 0 {
            return lines;
        }
        let mut keys: Vec<u64> = Vec::new();
        let mut i: usize = 0;
        while i < rates.len()
            invariant
                i <= rates@.len(),
                keys@ =~= Seq::new(i as nat, |k: int| rates@[k].used),
            decreases rates.len() - i,
        {
            keys.push(rates[i].used);
            i += 1;
        }
        let order = rank_descending(&keys);
        let ghost ranked = self@.tightest_rates();
        assert(keys@ =~= Seq::new(rates@.len(), |k: int| rates@[k].used));
        assert forall|k: int| 0 <= k < order@.len() implies #[trigger] ranked[k]
            == rates@[order@[k] as int] by {
            assert(rank::positions(order@)[k] == order@[k]);
        }
        assert(ranked.len() == order@.len()) by {
            assert(rank::positions(order@).len() == order@.len());
        }
        push_cut(&mut lines, "Current window", columns, theme.accent.bold());
        let ghost head = style::line_views(lines@);
        let shown: usize = if order.len() <= RATE_ROWS {
            order.len()
        } else {
            RATE_ROWS
        };
        let ghost kept = if ranked.len() <= RATE_ROWS {
            ranked
        } else {
            ranked.take(RATE_ROWS as int)
        };
        let ghost draw = |rate: RateWindow|
            bar_line(rate.used as nat, WHOLE as nat, rate_text(rate), *theme);
        let mut i: usize = 0;
        assert(head =~= head + each(kept, draw).take(0));
        while i < shown
            invariant
                i <= shown <= order@.len(),
                rates@ == self@.rates@,
                kept.len() == shown,
                forall|k: int|
                    0 <= k < kept.len() ==> #[trigger] kept[k] == rates@[order@[k] as int],
                forall|k: int| 0 <= k < order@.len() ==> #[trigger] order@[k] < rates@.len(),
                draw == (|rate: RateWindow|
                    bar_line(rate.used as nat, WHOLE as nat, rate_text(rate), *theme)),
                style::line_views(lines@) == head + each(kept, draw).take(i as int),
            decreases shown - i,
        {
            let rate = &rates[order[i]];
            push_line(&mut lines, bar(rate.used, WHOLE, rate_label(rate), theme));
            assert(kept[i as int] == *rate);
            assert(each(kept, draw)[i as int] == draw(*rate));
            i += 1;
            assert(style::line_views(lines@) =~= head + each(kept, draw).take(i as int));
        }
        assert(each(kept, draw).take(i as int) =~= each(kept, draw));
        if order.len() > RATE_ROWS {
            let mut s = String::new();
            s.push_str("  (");
            push_decimal(&mut s, (order.len() - RATE_ROWS) as u64);
            s.push_str(" roomier windows not shown)");
            push_cut(&mut lines, &s, columns, theme.dim);
        }
        push_line(&mut lines, blank());
        assert(style::line_views(lines@) =~= self@.rate_section(columns as nat, *theme));
        lines
    }

    /// The Cache section; see [`Data::cache_section`].
    fn cache_section(&self, columns: usize, theme: &Theme) -> (lines: Vec<Line>)
        ensures
            style::line_views(lines@) == self@.cache_section(columns as nat, *theme),
    {
        let mut lines: Vec<Line> = Vec::new();
        push_cut(&mut lines, "Cache", columns, theme.accent.bold());
        match self.cache_hit_rate() {
            Some((n, d)) => {
                push_line(&mut lines, bar(n, d, " of input read from cache".to_string(), theme));
            },
            None => {
                push_cut(&mut lines, "  nothing sent yet", columns, theme.dim);
            },
        }
        push_line(&mut lines, blank());
        assert(style::line_views(lines@) =~= self@.cache_section(columns as nat, *theme));
        lines
    }

    /// The Turns section; see [`Data::turn_section`].
    fn turn_section(&self, columns: usize, room: usize, above: usize, theme: &Theme) -> (lines: Vec<
        Line,
    >)
        requires
            above == self@.above(columns as nat, *theme).len(),
        ensures
            style::line_views(lines@) == self@.turn_section(columns as nat, room as nat, *theme),
    {
        let turns = &self.data.turns;
        let mut lines: Vec<Line> = Vec::new();
        assert(style::line_views(lines@) =~= Seq::empty());
        push_cut(&mut lines, "Turns", columns, theme.accent.bold());
        if turns.len() == 0 {
            push_cut(&mut lines, "  no finished turns yet", columns, theme.dim);
        } else {
            let headings: Vec<String> = vec![
                "in".to_string(),
                "out".to_string(),
                "reason".to_string(),
                "cache-r".to_string(),
                "cache-w".to_string(),
                "cost".to_string(),
            ];
            assert(text::texts(headings@) =~= self::headings());
            push_cut(&mut lines, &table_text("turn", &headings), columns, theme.dim);
            let fixed = above.saturating_add(
                if self.data.plans.len() == 0 {
                    7
                } else {
                    4
                },
            );
            let left: usize = if fixed < room {
                room - fixed
            } else {
                1
            };
            let skipped: usize = if left <= turns.len() {
                turns.len() - left
            } else {
                0
            };
            assert(skipped == self@.skipped(columns as nat, room as nat, *theme));
            let ghost shown = turns@.skip(skipped as int);
            let ghost draw = |turn: TurnUsage|
                cut_line(
                    table_row(turn.short_id@, turn_cells(turn)),
                    columns as nat,
                    theme.fg,
                );
            let ghost head = style::line_views(lines@);
            let mut i: usize = skipped;
            assert(head =~= head + each(shown, draw).take(0));
            while i < turns.len()
                invariant
                    skipped <= i <= turns@.len(),
                    shown == turns@.skip(skipped as int),
                    draw == (|turn: TurnUsage|
                        cut_line(
                            table_row(turn.short_id@, turn_cells(turn)),
                            columns as nat,
                            theme.fg,
                        )),
                    style::line_views(lines@) == head + each(shown, draw).take(i - skipped),
                decreases turns.len() - i,
            {
                let turn = &turns[i];
                let cells: Vec<String> = vec![
                    spelled(turn.usage.input_tokens),
                    spelled(turn.usage.output_tokens),
                    spelled(turn.usage.reasoning_tokens),
                    spelled(turn.usage.cache_read_tokens),
                    spelled(turn.usage.cache_write_tokens),
                    turn.cost_cell.clone(),
                ];
                assert(text::texts(cells@) =~= turn_cells(*turn));
                push_cut(&mut lines, &table_text(&turn.short_id, &cells), columns, theme.fg);
                assert(shown[i - skipped] == *turn);
                assert(each(shown, draw)[i - skipped] == draw(*turn));
                i += 1;
                assert(style::line_views(lines@) =~= head + each(shown, draw).take(i - skipped));
            }
            assert(each(shown, draw).take(i - skipped) =~= each(shown, draw));
            if skipped > 0 {
                let mut s = String::new();
                s.push_str("  (");
                push_decimal(&mut s, skipped as u64);
                s.push_str(" earlier turns not shown)");
                push_cut(&mut lines, &s, columns, theme.dim);
            }
        }
        push_line(&mut lines, blank());
        assert(style::line_views(lines@) =~= self@.turn_section(
            columns as nat,
            room as nat,
            *theme,
        ));
        lines
    }

    /// The foot; see [`Data::foot`].
    fn foot(&self, columns: usize, theme: &Theme) -> (lines: Vec<Line>)
        ensures
            style::line_views(lines@) == self@.foot(columns as nat, *theme),
    {
        let mut lines: Vec<Line> = Vec::new();
        assert(style::line_views(lines@) =~= Seq::empty());
        if self.data.plans.len() == 0 {
            push_cut(
                &mut lines,
                "plan limits unavailable on this credential (probed 2026-08-14):",
                columns,
                theme.dim,
            );
            push_cut(
                &mut lines,
                "  an openai API key's backend sends none; anthropic's needs an",
                columns,
                theme.dim,
            );
            let mut admin = String::new();
            admin.push_str("  Admin key \u{2014} ");
            admin.push_str(&self.data.limits_page);
            assert(admin@ =~= "  Admin key \u{2014} "@ + self.data.limits_page@);
            push_cut(&mut lines, &admin, columns, theme.dim);
        }
        push_cut(&mut lines, "[Esc] close", columns, theme.dim);
        assert(style::line_views(lines@) =~= self@.foot(columns as nat, *theme));
        lines
    }
}

/// A count in decimal.
fn spelled(n: u64) -> (s: String)
    ensures
        s@ == text::decimal(n as nat),
{
    let mut s = String::new();
    push_decimal(&mut s, n);
    assert(s@ =~= text::decimal(n as nat));
    s
}

} // verus!
