//! The status bar: what the engine is doing, what it has spent, plus the keys
//! that matter.
//!
//! Two renderings share one set of named elements. Without a configured roster
//! the bar draws its default segments. A configuration that names elements gets
//! the named elements only, in the named order, joined with dim ` | `
//! separators, truncated with an ellipsis at the width limit, a
//! `repo:… | branch:…` line above the bar when `git` is named, and an optional
//! detail line under it.
//!
//! Instants are milliseconds since any fixed one; the caller reads the clock
//! and the disk.

use vstd::prelude::*;

use crate::markdown::wrap::{self, span_width};
use crate::spell::{self, compact_tokens, copied, dollars_in_full};
use crate::style::{self, clone_spans, Line, Span, SpanView, Style};
use crate::text::{
    self, chars_eq, from_chars, push_decimal, slice_chars, to_chars, trim_chars,
};
use crate::theme::Theme;
use crate::width::{self, chars_width, fit_at, repeat_char, str_width};

verus! {

/// Bar cells between a meter's brackets.
pub const METER_SLOTS: u64 = 8;

/// How long each spinner phase is shown, in milliseconds.
pub const SPINNER_PERIOD: u64 = 80;

/// Separates the things on the left of the bar.
pub open spec fn separator() -> Seq<char> {
    " \u{b7} "@
}

/// Separates a configured roster's elements.
pub open spec fn hud_separator() -> Seq<char> {
    " | "@
}

/// The standing marker of a session that answers its own permission dialogs.
pub open spec fn yolo_marker() -> Seq<char> {
    "yolo"@
}

/// What a truncated line ends with.
pub open spec fn ellipsis() -> Seq<char> {
    "..."@
}

/// Key reminders, dropped whole when the terminal is too narrow for them.
pub open spec fn key_hints() -> Seq<char> {
    "Enter send \u{b7} Alt+Enter newline \u{b7} Esc cancel \u{b7} Ctrl-C quit"@
}

/// The same reminders while the composer is running shell commands.
pub open spec fn shell_hints() -> Seq<char> {
    "Enter run \u{b7} Esc exit shell mode \u{b7} Ctrl-C quit"@
}

/// The `i`-th spinner phase.
pub open spec fn spinner_phase(i: int) -> Seq<char> {
    if i == 0 {
        "\u{280b}"@
    } else if i == 1 {
        "\u{2819}"@
    } else if i == 2 {
        "\u{2839}"@
    } else if i == 3 {
        "\u{2838}"@
    } else if i == 4 {
        "\u{283c}"@
    } else if i == 5 {
        "\u{2834}"@
    } else if i == 6 {
        "\u{2826}"@
    } else {
        "\u{2827}"@
    }
}

/// What the engine is doing.
#[derive(Debug, PartialEq, Eq)]
pub enum Activity {
    /// Idle, waiting for a prompt.
    Ready,
    /// A reply is streaming in.
    Streaming,
    /// A tool call is executing, named by its registry id.
    Tool(String),
    /// A tool call is waiting on the user's permission decision.
    Permission,
    /// The last turn was cancelled.
    Stopped,
    /// The last turn could not be answered; the notice says why.
    Failed,
}

/// An activity as the contracts speak of it.
pub enum ActivityView {
    Ready,
    Streaming,
    Tool(Seq<char>),
    Permission,
    Stopped,
    Failed,
}

impl View for Activity {
    type V = ActivityView;

    open spec fn view(&self) -> ActivityView {
        match self {
            Activity::Ready => ActivityView::Ready,
            Activity::Streaming => ActivityView::Streaming,
            Activity::Tool(tool) => ActivityView::Tool(tool@),
            Activity::Permission => ActivityView::Permission,
            Activity::Stopped => ActivityView::Stopped,
            Activity::Failed => ActivityView::Failed,
        }
    }
}

impl ActivityView {
    /// What the bar calls it.
    pub open spec fn label(self) -> Seq<char> {
        match self {
            ActivityView::Ready => "ready"@,
            ActivityView::Streaming => "streaming"@,
            ActivityView::Tool(tool) => "tool: "@ + tool,
            ActivityView::Permission => "waiting on permission"@,
            ActivityView::Stopped => "stopped"@,
            ActivityView::Failed => "failed"@,
        }
    }
}

impl Activity {
    /// What the bar calls it.
    fn label(&self) -> (s: String)
        ensures
            s@ == self@.label(),
    {
        match self {
            Activity::Ready => "ready".to_owned(),
            Activity::Streaming => "streaming".to_owned(),
            Activity::Tool(tool) => {
                let mut s = "tool: ".to_owned();
                s.push_str(tool);
                s
            },
            Activity::Permission => "waiting on permission".to_owned(),
            Activity::Stopped => "stopped".to_owned(),
            Activity::Failed => "failed".to_owned(),
        }
    }

    /// Whether two activities are the same.
    fn same(&self, other: &Activity) -> (r: bool)
        ensures
            r == (self@ == other@),
    {
        match (self, other) {
            (Activity::Ready, Activity::Ready) => true,
            (Activity::Streaming, Activity::Streaming) => true,
            (Activity::Tool(a), Activity::Tool(b)) => text::str_eq(a, b),
            (Activity::Permission, Activity::Permission) => true,
            (Activity::Stopped, Activity::Stopped) => true,
            (Activity::Failed, Activity::Failed) => true,
            _ => false,
        }
    }
}

/// What a session has spent so far.
#[derive(Clone, Copy, Debug, PartialEq, Eq, Structural)]
pub struct Totals {
    /// Tokens sent, cache traffic included.
    pub input_tokens: u64,
    /// Tokens generated, thinking included.
    pub output_tokens: u64,
    /// What was spent, in the parts of a dollar that [`spell::DOLLAR`] counts;
    /// absent while the model is one the catalog cannot price.
    pub cost: Option<u128>,
}

impl Totals {
    /// The compact rendering the bar has room for beside everything else: four
    /// decimals of a dollar, because a short exchange costs less than a cent.
    pub open spec fn spelled(self) -> Seq<char> {
        let tokens = spell::compact(self.input_tokens as nat) + " in"@ + separator()
            + spell::compact(self.output_tokens as nat) + " out"@;
        match self.cost {
            Some(cost) => tokens + separator() + spell::money(cost as nat, 10_000, 4),
            None => tokens,
        }
    }

    /// The compact rendering; see [`Totals::spelled`].
    pub fn segment(&self) -> (s: String)
        ensures
            s@ == self.spelled(),
    {
        let mut s = compact_tokens(self.input_tokens);
        s.push_str(" in");
        s.push_str(" \u{b7} ");
        s.push_str(&compact_tokens(self.output_tokens));
        s.push_str(" out");
        match self.cost {
            Some(cost) => {
                s.push_str(" \u{b7} ");
                s.push_str(&dollars_in_full(cost));
            },
            None => {},
        }
        s
    }
}

/// Todo progress, handed in from the todo state the transcript renders.
#[derive(Debug, PartialEq, Eq)]
pub struct Todos {
    /// How many entries are completed.
    pub done: usize,
    /// How many entries there are.
    pub total: usize,
    /// The in-progress entry's title, when one is in progress.
    pub current: Option<String>,
}

/// Todo progress as the contracts speak of it.
pub struct TodosView {
    pub done: nat,
    pub total: nat,
    pub current: Option<Seq<char>>,
}

impl View for Todos {
    type V = TodosView;

    open spec fn view(&self) -> TodosView {
        TodosView {
            done: self.done as nat,
            total: self.total as nat,
            current: spell::seen(self.current),
        }
    }
}

/// The elements a configured roster can name.
#[derive(Clone, Copy, Debug, PartialEq, Eq, Structural)]
pub enum StatuslineElement {
    Activity,
    Agent,
    Effort,
    Queued,
    Jobs,
    Tasks,
    Dialogs,
    Tokens,
    Notice,
    Model,
    Context,
    Session,
    Cwd,
    Todos,
    Git,
    Hints,
}

/// A configured status line.
#[derive(Debug)]
pub struct StatuslineConfig {
    pub elements: Option<Vec<StatuslineElement>>,
    pub max_width: Option<u16>,
    pub detail: Option<bool>,
}

/// What is known of the repository the session runs in.
#[derive(Clone, Debug)]
pub struct GitCache {
    /// Whether an ancestor of the working directory is a repository.
    pub found: bool,
    /// The repository's name: the directory holding `.git`.
    pub repo: Option<String>,
    /// When HEAD was last modified at the time `branch` was read.
    pub read_at: Option<u64>,
    /// What HEAD named at `read_at`.
    pub branch: Option<String>,
}

/// A repository as the contracts speak of it.
pub struct GitView {
    pub found: bool,
    pub repo: Option<Seq<char>>,
    pub read_at: Option<u64>,
    pub branch: Option<Seq<char>>,
}

impl View for GitCache {
    type V = GitView;

    open spec fn view(&self) -> GitView {
        GitView {
            found: self.found,
            repo: spell::seen(self.repo),
            read_at: self.read_at,
            branch: spell::seen(self.branch),
        }
    }
}

/// What HEAD names: the branch of a symbolic reference, or the first eight
/// characters of a detached head.
pub open spec fn head_of(text: Seq<char>) -> Option<Seq<char>> {
    let trimmed = text::trim(text);
    if starts_with(trimmed, "ref:"@) {
        let reference = text::trim(trimmed.skip("ref:"@.len() as int));
        let branch = if starts_with(reference, "refs/heads/"@) {
            reference.skip("refs/heads/"@.len() as int)
        } else {
            reference
        };
        if branch.len() == 0 {
            None
        } else {
            Some(branch)
        }
    } else if trimmed.len() == 0 {
        None
    } else if trimmed.len() <= 8 {
        Some(trimmed)
    } else {
        Some(trimmed.take(8))
    }
}

/// Whether a text starts with another.
pub open spec fn starts_with(s: Seq<char>, front: Seq<char>) -> bool {
    s.len() >= front.len() && s.take(front.len() as int) == front
}

/// What is behind a front, where a text starts with it.
pub open spec fn stripped(s: Seq<char>, front: Seq<char>) -> Option<Seq<char>> {
    if starts_with(s, front) {
        Some(s.skip(front.len() as int))
    } else {
        None
    }
}

/// What is behind a front, where a text starts with it; see [`stripped`].
pub fn strip(s: &[char], front: &str) -> (r: Option<Vec<char>>)
    ensures
        r is Some <==> stripped(s@, front@) is Some,
        r matches Some(rest) ==> stripped(s@, front@) == Some(rest@),
{
    let front = to_chars(front);
    if s.len() < front.len() {
        return None;
    }
    let head = slice_chars(s, 0, front.len());
    assert(head@ =~= s@.take(front@.len() as int));
    if !chars_eq(&head, &front) {
        return None;
    }
    let rest = slice_chars(s, front.len(), s.len());
    assert(rest@ =~= s@.skip(front@.len() as int));
    Some(rest)
}

/// What a HEAD file names; see [`head_of`].
pub fn head_name(text: &str) -> (r: Option<String>)
    ensures
        spell::seen(r) == head_of(text@),
{
    let trimmed = trim_chars(&to_chars(text));
    if let Some(rest) = strip(&trimmed, "ref:") {
        let reference = trim_chars(&rest);
        let branch = match strip(&reference, "refs/heads/") {
            Some(branch) => branch,
            None => reference,
        };
        if branch.len() == 0 {
            return None;
        }
        return Some(from_chars(&branch));
    }
    if trimmed.len() == 0 {
        return None;
    }
    if trimmed.len() <= 8 {
        return Some(from_chars(&trimmed));
    }
    let head = slice_chars(&trimmed, 0, 8);
    assert(head@ =~= trimmed@.take(8));
    Some(from_chars(&head))
}

/// What stands at `.git` in a directory.
#[derive(Debug)]
pub enum Dotgit {
    /// Nothing.
    Absent,
    /// The repository itself.
    Directory,
    /// A linked worktree's one-line file; its text, where it could be read.
    File(Option<String>),
}

/// Where a repository keeps HEAD.
#[derive(Debug, PartialEq, Eq)]
pub enum HeadAt {
    /// In its own `.git` directory.
    Own,
    /// In the directory a linked worktree points to.
    Pointed(String),
}

/// The directory a linked worktree's `.git` file points to.
pub open spec fn pointed_to(text: Seq<char>) -> Option<Seq<char>> {
    match stripped(text::trim(text), "gitdir:"@) {
        Some(path) => Some(text::trim(path)),
        None => None,
    }
}

/// The directory a linked worktree's `.git` file points to.
fn pointer(text: &str) -> (r: Option<String>)
    ensures
        spell::seen(r) == pointed_to(text@),
{
    match strip(&trim_chars(&to_chars(text)), "gitdir:") {
        Some(path) => Some(from_chars(&trim_chars(&path))),
        None => None,
    }
}

/// Whether what stands at `.git` makes a directory a repository.
pub open spec fn is_repository(dotgit: Dotgit) -> bool {
    match dotgit {
        Dotgit::Absent => false,
        Dotgit::Directory => true,
        Dotgit::File(Some(text)) => pointed_to(text@) is Some,
        Dotgit::File(None) => false,
    }
}

/// Where the repository lies that a directory sits in, given what stands at
/// `.git` in it and in each of its ancestors, nearest first: the nearest one
/// that is a repository, and where it keeps HEAD.
pub fn discover_git(ancestors: &Vec<Dotgit>) -> (r: Option<(usize, HeadAt)>)
    ensures
        r is None <==> forall|i: int|
            0 <= i < ancestors@.len() ==> !is_repository(#[trigger] ancestors@[i]),
        r matches Some((at, head)) ==> {
            &&& at < ancestors@.len()
            &&& is_repository(ancestors@[at as int])
            &&& forall|i: int| 0 <= i < at ==> !is_repository(#[trigger] ancestors@[i])
            &&& match (ancestors@[at as int], head) {
                (Dotgit::Directory, HeadAt::Own) => true,
                (Dotgit::File(Some(text)), HeadAt::Pointed(path)) => pointed_to(text@) == Some(
                    path@,
                ),
                _ => false,
            }
        },
{
    let mut i: usize = 0;
    while i < ancestors.len()
        invariant
            i <= ancestors@.len(),
            forall|k: int| 0 <= k < i ==> !is_repository(#[trigger] ancestors@[k]),
        decreases ancestors.len() - i,
    {
        match &ancestors[i] {
            Dotgit::Absent => {},
            Dotgit::Directory => {
                assert(is_repository(ancestors@[i as int]));
                return Some((i, HeadAt::Own));
            },
            Dotgit::File(text) => match text {
                Some(text) => match pointer(text) {
                    Some(path) => {
                        assert(is_repository(ancestors@[i as int]));
                        return Some((i, HeadAt::Pointed(path)));
                    },
                    None => {},
                },
                None => {},
            },
        }
        i += 1;
    }
    None
}

impl GitCache {
    /// A directory that sits in no repository.
    pub fn none() -> (g: GitCache)
        ensures
            g@ == (GitView { found: false, repo: None, read_at: None, branch: None }),
    {
        GitCache { found: false, repo: None, read_at: None, branch: None }
    }

    /// A repository of this name, whose HEAD is yet to be read.
    pub fn at(repo: Option<String>) -> (g: GitCache)
        ensures
            g@ == (GitView { found: true, repo: spell::seen(repo), read_at: None, branch: None }),
    {
        GitCache { found: true, repo, read_at: None, branch: None }
    }

    /// Whether HEAD has to be read, given when it was last modified: only when
    /// that moved.
    pub fn is_stale(&self, modified: u64) -> (r: bool)
        ensures
            r == (self.read_at != Some(modified)),
    {
        match self.read_at {
            Some(at) => at != modified,
            None => true,
        }
    }

    /// Takes in what HEAD reads as now, at a modification time; `text` is
    /// absent where it could not be read.
    pub fn read(&mut self, modified: u64, text: Option<&str>)
        ensures
            final(self)@ == (GitView {
                read_at: Some(modified),
                branch: match text {
                    Some(text) => head_of(text@),
                    None => None,
                },
                ..old(self)@
            }),
    {
        self.branch = match text {
            Some(text) => head_name(text),
            None => None,
        };
        self.read_at = Some(modified);
    }

    /// HEAD went away: say nothing rather than a stale branch.
    pub fn forget(&mut self)
        ensures
            final(self)@ == (GitView { read_at: None, branch: None, ..old(self)@ }),
    {
        self.branch = None;
        self.read_at = None;
    }
}

/// Where a percentage sits on the severity ladder.
#[derive(Clone, Copy, Debug, PartialEq, Eq, Structural)]
pub enum Severity {
    /// Below 70.
    Calm,
    /// 70 to 79: worth a glance.
    Warning,
    /// 80 to 84: where compaction is worth suggesting.
    Compact,
    /// 85 and up: about to hit the wall.
    Critical,
}

/// Where a percentage sits on the severity ladder.
pub open spec fn severity(percent: nat) -> Severity {
    if percent < 70 {
        Severity::Calm
    } else if percent < 80 {
        Severity::Warning
    } else if percent < 85 {
        Severity::Compact
    } else {
        Severity::Critical
    }
}

/// Where a percentage sits on the severity ladder.
pub fn meter_severity(percent: u64) -> (s: Severity)
    ensures
        s == severity(percent as nat),
{
    if percent < 70 {
        Severity::Calm
    } else if percent < 80 {
        Severity::Warning
    } else if percent < 85 {
        Severity::Compact
    } else {
        Severity::Critical
    }
}

/// A percentage, never more than full.
pub open spec fn at_most_full(percent: nat) -> nat {
    if percent < 100 {
        percent
    } else {
        100
    }
}

/// How many of a meter's slots are filled: the nearest whole number of them.
pub open spec fn filled(percent: nat) -> nat {
    (at_most_full(percent) * METER_SLOTS as nat + 50) / 100
}

/// How many of a meter's slots are filled at a percentage.
pub fn meter_fill(percent: u64) -> (n: u64)
    ensures
        n == filled(percent as nat),
        n <= METER_SLOTS,
{
    let percent = if percent < 100 {
        percent
    } else {
        100
    };
    (percent * METER_SLOTS + 50) / 100
}

/// Tokens as a whole percentage of a window, never more than full; a window of
/// none is full.
pub open spec fn share(tokens: nat, window: nat) -> nat {
    if window == 0 {
        100
    } else {
        at_most_full(tokens * 100 / window)
    }
}

/// Tokens as a whole percentage of a window; see [`share`].
pub fn percent_of(tokens: u64, window: u64) -> (n: u64)
    ensures
        n == share(tokens as nat, window as nat),
        n <= 100,
{
    if window == 0 {
        return 100;
    }
    let whole: u128 = tokens as u128 * 100 / window as u128;
    if whole < 100 {
        whole as u64
    } else {
        100
    }
}

/// The style a meter's fill is painted in.
pub open spec fn severity_style(percent: nat, theme: Theme) -> Style {
    match severity(percent) {
        Severity::Calm => theme.success,
        Severity::Warning => theme.warning,
        Severity::Compact => theme.warning,
        Severity::Critical => theme.error,
    }
}

/// One `label:[####----]NN%` meter.
pub open spec fn meter_spans(label: Seq<char>, percent: nat, theme: Theme) -> Seq<SpanView> {
    let shown = at_most_full(percent);
    let style = severity_style(shown, theme);
    seq![
        SpanView { text: label + ":["@, style: theme.dim },
        SpanView { text: width::repeated('#', filled(shown)), style },
        SpanView {
            text: width::repeated('-', (METER_SLOTS - filled(shown)) as nat),
            style: theme.dim,
        },
        SpanView { text: "]"@, style: theme.dim },
        SpanView { text: text::decimal(shown).push('%'), style },
    ]
}

/// One meter; see [`meter_spans`].
fn meter(label: &str, percent: u64, theme: &Theme) -> (spans: Vec<Span>)
    ensures
        style::views(spans@) == meter_spans(label@, percent as nat, *theme),
{
    let percent: u64 = if percent < 100 {
        percent
    } else {
        100
    };
    let fill = meter_fill(percent);
    let style = match meter_severity(percent) {
        Severity::Calm => theme.success,
        Severity::Warning | Severity::Compact => theme.warning,
        Severity::Critical => theme.error,
    };
    let mut open = label.to_owned();
    open.push_str(":[");
    let mut figure = String::new();
    push_decimal(&mut figure, percent);
    figure.push('%');
    let empty: u64 = METER_SLOTS - fill;
    let spans = vec![
        Span::styled(open, theme.dim),
        Span::styled(repeat_char('#', fill as usize), style),
        Span::styled(repeat_char('-', empty as usize), theme.dim),
        Span::styled("]".to_owned(), theme.dim),
        Span::styled(figure, style),
    ];
    assert(figure@ =~= text::decimal(percent as nat).push('%'));
    assert(style::views(spans@) =~= meter_spans(label@, percent as nat, *theme));
    spans
}

/// Spans cut at `target` columns, from the `k`-th on: whole ones as long as
/// they fit, then the front of the one that crosses.
pub open spec fn kept(
    spans: Seq<SpanView>,
    target: nat,
    so_far: Seq<SpanView>,
    used: nat,
    k: int,
) -> Seq<SpanView>
    decreases spans.len() - k,
{
    if k < 0 || k >= spans.len() {
        so_far
    } else {
        let next = width::columns(used, width::width_of(spans[k].text));
        if next <= target {
            kept(spans, target, so_far.push(spans[k]), next, k + 1)
        } else {
            let at = width::fitting(spans[k].text, 0, width::room(target, used)) as int;
            if at == 0 {
                so_far
            } else {
                so_far.push(SpanView { text: spans[k].text.take(at), ..spans[k] })
            }
        }
    }
}

/// Spans within a limit as they are, wider ones cut and ended with an ellipsis.
pub open spec fn truncated(spans: Seq<SpanView>, limit: nat, theme: Theme) -> Seq<SpanView> {
    if wrap::spans_width(spans) <= limit {
        spans
    } else {
        kept(
            spans,
            width::room(limit, width::width_of(ellipsis())),
            Seq::empty(),
            0,
            0,
        ).push(SpanView { text: ellipsis(), style: theme.dim })
    }
}

/// Cuts spans at `limit` columns; see [`truncated`].
pub fn truncate_spans(spans: Vec<Span>, limit: usize, theme: &Theme) -> (out: Vec<Span>)
    ensures
        style::views(out@) == truncated(style::views(spans@), limit as nat, *theme),
{
    if span_width(&spans) <= limit {
        return spans;
    }
    let ghost all = style::views(spans@);
    let target = limit.saturating_sub(str_width("..."));
    let ghost whole = kept(all, target as nat, Seq::empty(), 0, 0);
    let mut out: Vec<Span> = Vec::new();
    let mut used: usize = 0;
    let mut k: usize = 0;
    let mut cut = false;
    assert(style::views(out@) =~= Seq::empty());
    while k < spans.len() && !cut
        invariant
            k <= spans@.len(),
            all == style::views(spans@),
            cut ==> style::views(out@) == whole,
            !cut ==> whole == kept(all, target as nat, style::views(out@), used as nat, k as int),
        decreases spans.len() - k,
    {
        let ghost before = style::views(out@);
        let text = to_chars(&spans[k].content);
        let next = used.saturating_add(chars_width(&text));
        if next <= target {
            used = next;
            out.push(spans[k].clone());
            assert(style::views(out@) =~= before.push(all[k as int]));
        } else {
            // The span that crosses the cut is kept up to the last whole
            // character that fits.
            let at = fit_at(&text, 0, target.saturating_sub(used));
            if at > 0 {
                let head = slice_chars(&text, 0, at);
                assert(head@ =~= text@.take(at as int));
                out.push(Span::styled(from_chars(&head), spans[k].style));
                assert(style::views(out@) =~= before.push(
                    SpanView { text: head@, style: all[k as int].style },
                ));
            }
            cut = true;
        }
        k += 1;
    }
    assert(style::views(out@) == whole);
    out.push(Span::styled("...".to_owned(), theme.dim));
    assert(style::views(out@) =~= whole.push(SpanView { text: ellipsis(), style: theme.dim }));
    out
}

/// What is kept of spans takes no more than the target.
proof fn lemma_kept_fits(
    spans: Seq<SpanView>,
    target: nat,
    so_far: Seq<SpanView>,
    used: nat,
    k: int,
)
    requires
        wrap::spans_width(so_far) == used,
        used <= target <= usize::MAX,
    ensures
        wrap::spans_width(kept(spans, target, so_far, used, k)) <= target,
    decreases spans.len() - k,
{
    if k < 0 || k >= spans.len() {
    } else {
        let next = width::columns(used, width::width_of(spans[k].text));
        if next <= target {
            assert(so_far.push(spans[k]).drop_last() =~= so_far);
            lemma_kept_fits(spans, target, so_far.push(spans[k]), next, k + 1);
        } else {
            let left = width::room(target, used);
            let at = width::fitting(spans[k].text, 0, left);
            width::lemma_fitting(spans[k].text, 0, left);
            let head = SpanView { text: spans[k].text.take(at as int), ..spans[k] };
            assert(so_far.push(head).drop_last() =~= so_far);
        }
    }
}

/// A truncated line fits the limit it was truncated to, as long as the ellipsis
/// itself does.
pub proof fn law_truncated_lines_fit(spans: Seq<SpanView>, limit: nat, theme: Theme)
    requires
        width::width_of(ellipsis()) <= limit <= usize::MAX,
    ensures
        wrap::spans_width(truncated(spans, limit, theme)) <= limit,
{
    if wrap::spans_width(spans) > limit {
        let target = width::room(limit, width::width_of(ellipsis()));
        let front = kept(spans, target, Seq::empty(), 0, 0);
        lemma_kept_fits(spans, target, Seq::empty(), 0, 0);
        let last = SpanView { text: ellipsis(), style: theme.dim };
        assert(front.push(last).drop_last() =~= front);
    }
}

/// A meter never claims more than full, and always fills as many cells.
pub proof fn law_meters_never_overfill(tokens: nat, window: nat, percent: nat)
    ensures
        share(tokens, window) <= 100,
        filled(percent) <= METER_SLOTS,
        filled(percent) + (METER_SLOTS - filled(percent)) == METER_SLOTS,
        percent >= 100 ==> filled(percent) == METER_SLOTS,
{
}

/// The bottom line of the screen.
#[derive(Debug)]
pub struct Status {
    activity: Activity,
    /// When the current activity began; the spinner phase is derived from it.
    since: u64,
    notice: Option<String>,
    /// Absent until a provider reports what a turn spent.
    totals: Option<Totals>,
    /// The agent the next turn runs as, absent on a session without any.
    agent: Option<String>,
    /// The model and the effort it runs under, shown only while an effort is
    /// selected.
    effort: Option<(String, String)>,
    /// Whether the composer is running shell commands.
    shell: bool,
    /// How many messages are waiting for the running turn.
    queued: usize,
    /// How many background jobs are currently running.
    running_jobs: usize,
    /// How many delegated tasks of the running turn are in flight.
    running_tasks: usize,
    /// How many permission dialogs are waiting behind the one on screen.
    queued_dialogs: usize,
    /// Whether this session answers its own permission dialogs.
    yolo: bool,
    /// The roster a configuration asked for; absent renders the default bar.
    elements: Option<Vec<StatuslineElement>>,
    /// Widest a configured roster may draw; absent is the area's own width.
    max_width: Option<u16>,
    /// Whether elements may draw a detail line under the bar.
    detail: bool,
    /// The model the next turn asks for.
    model: Option<String>,
    /// Estimated tokens and the window they are of.
    context: Option<(u64, u64)>,
    todos: Option<Todos>,
    /// When this bar was built.
    started: u64,
    /// The working directory's name.
    cwd: Option<String>,
    git: GitCache,
}

/// A status bar as the contracts speak of it.
pub struct StatusView {
    pub activity: ActivityView,
    pub since: u64,
    pub notice: Option<Seq<char>>,
    pub totals: Option<Totals>,
    pub agent: Option<Seq<char>>,
    pub effort: Option<(Seq<char>, Seq<char>)>,
    pub shell: bool,
    pub queued: nat,
    pub running_jobs: nat,
    pub running_tasks: nat,
    pub queued_dialogs: nat,
    pub yolo: bool,
    pub elements: Option<Seq<StatuslineElement>>,
    pub max_width: Option<u16>,
    pub detail: bool,
    pub model: Option<Seq<char>>,
    pub context: Option<(u64, u64)>,
    pub todos: Option<TodosView>,
    pub started: u64,
    pub cwd: Option<Seq<char>>,
    pub git: GitView,
}

/// The view of an optional roster.
pub open spec fn roster_view(elements: Option<Vec<StatuslineElement>>) -> Option<
    Seq<StatuslineElement>,
> {
    match elements {
        Some(elements) => Some(elements@),
        None => None,
    }
}

/// The view of an optional pair of strings.
pub open spec fn pair_view(pair: Option<(String, String)>) -> Option<(Seq<char>, Seq<char>)> {
    match pair {
        Some((a, b)) => Some((a@, b@)),
        None => None,
    }
}

/// The view of optional todo progress.
pub open spec fn todos_view(todos: Option<Todos>) -> Option<TodosView> {
    match todos {
        Some(todos) => Some(todos@),
        None => None,
    }
}

impl View for Status {
    type V = StatusView;

    closed spec fn view(&self) -> StatusView {
        StatusView {
            activity: self.activity@,
            since: self.since,
            notice: spell::seen(self.notice),
            totals: self.totals,
            agent: spell::seen(self.agent),
            effort: pair_view(self.effort),
            shell: self.shell,
            queued: self.queued as nat,
            running_jobs: self.running_jobs as nat,
            running_tasks: self.running_tasks as nat,
            queued_dialogs: self.queued_dialogs as nat,
            yolo: self.yolo,
            elements: roster_view(self.elements),
            max_width: self.max_width,
            detail: self.detail,
            model: spell::seen(self.model),
            context: self.context,
            todos: todos_view(self.todos),
            started: self.started,
            cwd: spell::seen(self.cwd),
            git: self.git@,
        }
    }
}

/// What is said in front of the activity: nothing, or the text and a separator.
pub open spec fn leading(text: Option<Seq<char>>) -> Seq<char> {
    match text {
        Some(text) => text + separator(),
        None => Seq::empty(),
    }
}

/// What is said behind the activity: nothing, or a separator and the text.
pub open spec fn trailing(text: Option<Seq<char>>) -> Seq<char> {
    match text {
        Some(text) => separator() + text,
        None => Seq::empty(),
    }
}

/// A count and what it counts, shown from `least` on.
pub open spec fn count_of(n: nat, least: nat, what: Seq<char>) -> Option<Seq<char>> {
    if n >= least {
        Some(text::decimal(n) + what)
    } else {
        None
    }
}

impl StatusView {
    /// Whether a turn is streaming.
    pub open spec fn is_streaming(self) -> bool {
        self.activity is Streaming
    }

    /// The spinner phase at an instant.
    pub open spec fn spinner(self, now: u64) -> Seq<char> {
        let elapsed: nat = if now >= self.since {
            (now - self.since) as nat
        } else {
            0
        };
        spinner_phase((elapsed / SPINNER_PERIOD as nat % 8) as int)
    }

    /// The spinner and a space while a turn is streaming.
    pub open spec fn spinning(self, now: u64) -> Seq<char> {
        if self.is_streaming() {
            self.spinner(now).push(' ')
        } else {
            Seq::empty()
        }
    }

    /// The model and the effort it runs under.
    pub open spec fn effort_text(self) -> Option<Seq<char>> {
        match self.effort {
            Some((model, effort)) => Some((model + " ("@ + effort).push(')')),
            None => None,
        }
    }

    /// How many messages wait for the running turn, while any do.
    pub open spec fn queued_text(self) -> Option<Seq<char>> {
        count_of(self.queued, 1, " queued"@)
    }

    /// How many background jobs run, while any do.
    pub open spec fn jobs_text(self) -> Option<Seq<char>> {
        count_of(self.running_jobs, 1, " bash running"@)
    }

    /// How many delegated tasks run, from two on: a lone one is already named
    /// by the activity.
    pub open spec fn tasks_text(self) -> Option<Seq<char>> {
        count_of(self.running_tasks, 2, " tasks running"@)
    }

    /// How many dialogs wait behind the one on screen, while any do.
    pub open spec fn dialogs_text(self) -> Option<Seq<char>> {
        count_of(
            self.queued_dialogs,
            1,
            if self.queued_dialogs == 1 {
                " dialog queued"@
            } else {
                " dialogs queued"@
            },
        )
    }

    /// What the session has spent, once a provider reported it.
    pub open spec fn totals_text(self) -> Option<Seq<char>> {
        match self.totals {
            Some(totals) => Some(totals.spelled()),
            None => None,
        }
    }

    /// The left of the default bar.
    pub open spec fn left(self, now: u64) -> Seq<char> {
        self.spinning(now) + leading(self.agent) + leading(self.effort_text())
            + self.activity.label() + trailing(self.queued_text()) + trailing(self.jobs_text())
            + trailing(self.tasks_text()) + trailing(self.dialogs_text()) + trailing(
            self.totals_text(),
        ) + trailing(self.notice)
    }

    /// The reminders this mode is worth showing.
    pub open spec fn hints(self) -> Seq<char> {
        if self.shell {
            shell_hints()
        } else {
            key_hints()
        }
    }

    /// The reminders at the right edge of a line, where they leave a gap.
    pub open spec fn hinted(self, spans: Seq<SpanView>, used: nat, limit: nat, theme: Theme) -> Seq<
        SpanView,
    > {
        let gap = width::room(limit, width::columns(used, width::width_of(self.hints())));
        if gap > 0 {
            spans.push(
                SpanView { text: width::repeated(' ', gap), style: Style::plain() },
            ).push(SpanView { text: self.hints(), style: theme.dim })
        } else {
            spans
        }
    }

    /// The default bar.
    pub open spec fn default_line(self, columns: nat, now: u64, theme: Theme) -> Seq<SpanView> {
        let left = self.left(now);
        let marker = yolo_marker() + separator();
        let used = if self.yolo {
            width::columns(width::width_of(marker), width::width_of(left))
        } else {
            width::width_of(left)
        };
        let front = if self.yolo {
            seq![SpanView { text: marker, style: theme.warning }]
        } else {
            Seq::empty()
        };
        self.hinted(
            front.push(SpanView { text: left, style: theme.accent }),
            used,
            columns,
            theme,
        )
    }

    /// What the detail line would say: the in-progress todo's title.
    pub open spec fn detail_text(self) -> Option<Seq<char>> {
        match self.todos {
            Some(todos) if todos.total > 0 => todos.current,
            _ => None,
        }
    }

    /// The detail line under the bar.
    pub open spec fn detail_spans(self, theme: Theme) -> Option<Seq<SpanView>> {
        match self.detail_text() {
            Some(title) => Some(
                seq![
                    SpanView { text: "working: "@, style: theme.dim },
                    SpanView { text: title, style: theme.fg },
                ],
            ),
            None => None,
        }
    }

    /// The repository line above the bar.
    pub open spec fn git_spans(self, theme: Theme) -> Option<Seq<SpanView>> {
        match (self.git.found, self.git.repo, self.git.branch) {
            (true, Some(repo), Some(branch)) => Some(
                seq![
                    SpanView { text: "repo:"@, style: theme.dim },
                    SpanView { text: repo, style: theme.fg.as_bold() },
                    SpanView { text: hud_separator(), style: theme.dim },
                    SpanView { text: "branch:"@, style: theme.dim },
                    SpanView { text: branch, style: theme.fg.as_bold() },
                ],
            ),
            _ => None,
        }
    }

    /// The todo progress of a roster: the title rides inline unless it has a
    /// detail line of its own.
    pub open spec fn todos_text(self) -> Option<Seq<char>> {
        match self.todos {
            Some(todos) if todos.total > 0 => {
                let count = "todos:"@ + text::decimal(todos.done).push('/') + text::decimal(
                    todos.total,
                );
                Some(
                    match todos.current {
                        Some(current) if !self.detail => (count + " (working: "@ + current).push(
                            ')',
                        ),
                        _ => count,
                    },
                )
            },
            _ => None,
        }
    }

    /// Whole minutes since the bar was built.
    pub open spec fn session_text(self, now: u64) -> Seq<char> {
        let elapsed: nat = if now >= self.started {
            (now - self.started) as nat
        } else {
            0
        };
        ("session:"@ + text::decimal(elapsed / 60_000)).push('m')
    }

    /// A text in the accent, where there is one.
    pub open spec fn accented(text: Option<Seq<char>>, theme: Theme) -> Option<Seq<SpanView>> {
        match text {
            Some(text) => Some(seq![SpanView { text, style: theme.accent }]),
            None => None,
        }
    }

    /// One named element, nothing while it has nothing to say. The repository
    /// and the reminders have places of their own.
    pub open spec fn segment(self, element: StatuslineElement, now: u64, theme: Theme) -> Option<
        Seq<SpanView>,
    > {
        match element {
            StatuslineElement::Activity => Self::accented(
                Some(self.spinning(now) + self.activity.label()),
                theme,
            ),
            StatuslineElement::Agent => Self::accented(self.agent, theme),
            // The model it belongs to is drawn as the model itself is.
            StatuslineElement::Effort => match self.effort_text() {
                Some(text) => Some(seq![SpanView { text, style: theme.fg.as_bold() }]),
                None => None,
            },
            StatuslineElement::Queued => Self::accented(self.queued_text(), theme),
            StatuslineElement::Jobs => Self::accented(self.jobs_text(), theme),
            StatuslineElement::Tasks => Self::accented(self.tasks_text(), theme),
            StatuslineElement::Dialogs => Self::accented(self.dialogs_text(), theme),
            StatuslineElement::Tokens => Self::accented(self.totals_text(), theme),
            StatuslineElement::Notice => Self::accented(self.notice, theme),
            StatuslineElement::Model => match self.model {
                Some(model) => Some(
                    seq![
                        SpanView { text: "Model: "@, style: theme.dim },
                        SpanView { text: model, style: theme.fg.as_bold() },
                    ],
                ),
                None => None,
            },
            StatuslineElement::Context => match self.context {
                Some((tokens, window)) => Some(
                    meter_spans("ctx"@, share(tokens as nat, window as nat), theme),
                ),
                None => None,
            },
            StatuslineElement::Session => Self::accented(Some(self.session_text(now)), theme),
            StatuslineElement::Cwd => match self.cwd {
                Some(name) => Some(
                    seq![
                        SpanView { text: "cwd:"@, style: theme.dim },
                        SpanView { text: name, style: theme.fg },
                    ],
                ),
                None => None,
            },
            StatuslineElement::Todos => Self::accented(self.todos_text(), theme),
            StatuslineElement::Git => None,
            StatuslineElement::Hints => None,
        }
    }

    /// The first `n` elements of a roster, separators between those that have
    /// something to say, the standing marker ahead of them all.
    pub open spec fn roster(
        self,
        elements: Seq<StatuslineElement>,
        n: int,
        now: u64,
        theme: Theme,
    ) -> Seq<SpanView>
        decreases n,
    {
        if n <= 0 {
            if self.yolo {
                seq![SpanView { text: yolo_marker(), style: theme.warning }]
            } else {
                Seq::empty()
            }
        } else {
            let front = self.roster(elements, n - 1, now, theme);
            match self.segment(elements[n - 1], now, theme) {
                Some(segment) => if front.len() > 0 {
                    front.push(SpanView { text: hud_separator(), style: theme.dim }) + segment
                } else {
                    front + segment
                },
                None => front,
            }
        }
    }

    /// The columns a configured roster may draw in.
    pub open spec fn limit(self, columns: u16) -> nat {
        match self.max_width {
            Some(cap) if cap < columns => cap as nat,
            _ => columns as nat,
        }
    }

    /// The main line of a configured roster.
    pub open spec fn main_line(
        self,
        elements: Seq<StatuslineElement>,
        columns: u16,
        now: u64,
        theme: Theme,
    ) -> Seq<SpanView> {
        let limit = self.limit(columns);
        let main = truncated(
            self.roster(elements, elements.len() as int, now, theme),
            limit,
            theme,
        );
        if elements.contains(StatuslineElement::Hints) {
            self.hinted(main, wrap::spans_width(main), limit, theme)
        } else {
            main
        }
    }

    /// Whether a configured roster draws the repository line.
    pub open spec fn draws_git(self, elements: Seq<StatuslineElement>, rows: nat, theme: Theme) -> bool {
        elements.contains(StatuslineElement::Git) && self.git_spans(theme) is Some && rows >= 2
    }

    /// Whether a configured roster draws the detail line: a shorter area drops
    /// it first, the repository line second, the main line never.
    pub open spec fn draws_detail(self, elements: Seq<StatuslineElement>, rows: nat, theme: Theme) -> bool {
        let above: nat = if elements.contains(StatuslineElement::Git) && self.git_spans(
            theme,
        ) is Some {
            1
        } else {
            0
        };
        self.detail && elements.contains(StatuslineElement::Todos) && self.detail_text() is Some
            && rows >= 2 + above
    }

    /// The lines of a configured roster, top to bottom.
    pub open spec fn roster_lines(
        self,
        elements: Seq<StatuslineElement>,
        columns: u16,
        rows: nat,
        now: u64,
        theme: Theme,
    ) -> Seq<Seq<SpanView>> {
        let limit = self.limit(columns);
        let above = if self.draws_git(elements, rows, theme) {
            seq![truncated(self.git_spans(theme)->0, limit, theme)]
        } else {
            Seq::empty()
        };
        let below = if self.draws_detail(elements, rows, theme) {
            seq![truncated(self.detail_spans(theme)->0, limit, theme)]
        } else {
            Seq::empty()
        };
        above.push(self.main_line(elements, columns, now, theme)) + below
    }

    /// The lines of the bar in an area, top to bottom.
    pub open spec fn lines(self, columns: u16, rows: u16, now: u64, theme: Theme) -> Seq<
        Seq<SpanView>,
    > {
        if columns == 0 || rows == 0 {
            Seq::empty()
        } else {
            match self.elements {
                None => seq![self.default_line(columns as nat, now, theme)],
                Some(elements) => self.roster_lines(elements, columns, rows as nat, now, theme),
            }
        }
    }

    /// How many rows the bar wants.
    pub open spec fn wanted(self) -> nat {
        match self.elements {
            None => 1,
            Some(elements) => {
                let above: nat = if elements.contains(StatuslineElement::Git) && self.git.found {
                    1
                } else {
                    0
                };
                let below: nat = if self.detail && elements.contains(StatuslineElement::Todos)
                    && self.detail_text() is Some {
                    1
                } else {
                    0
                };
                1 + above + below
            },
        }
    }
}

/// The main line is the one row that never yields: an area with any cell at all
/// shows it, and no more rows than it has.
pub proof fn law_the_main_line_never_yields(
    status: StatusView,
    columns: u16,
    rows: u16,
    now: u64,
    theme: Theme,
)
    requires
        columns > 0,
        rows > 0,
    ensures
        1 <= status.lines(columns, rows, now, theme).len() <= rows,
        status.elements matches Some(elements) ==> status.lines(columns, rows, now, theme).contains(
            status.main_line(elements, columns, now, theme),
        ),
{
    match status.elements {
        None => {},
        Some(elements) => {
            let lines = status.lines(columns, rows, now, theme);
            let at: int = if status.draws_git(elements, rows as nat, theme) {
                1
            } else {
                0
            };
            assert(lines[at] == status.main_line(elements, columns, now, theme));
        },
    }
}

/// An idle bar with nothing to report says only what it is doing.
pub proof fn law_a_quiet_bar_shows_only_its_state(status: StatusView, now: u64)
    requires
        !status.is_streaming(),
        status.agent is None,
        status.effort is None,
        status.queued == 0,
        status.running_jobs == 0,
        status.running_tasks <= 1,
        status.queued_dialogs == 0,
        status.totals is None,
        status.notice is None,
    ensures
        status.left(now) == status.activity.label(),
{
    assert(status.left(now) =~= status.activity.label());
}

/// Whether a roster names an element.
fn names(elements: &Vec<StatuslineElement>, element: StatuslineElement) -> (r: bool)
    ensures
        r == elements@.contains(element),
{
    let mut i: usize = 0;
    while i < elements.len()
        invariant
            i <= elements@.len(),
            forall|k: int| 0 <= k < i ==> elements@[k] != element,
        decreases elements.len() - i,
    {
        if elements[i] == element {
            assert(elements@[i as int] == element);
            return true;
        }
        i += 1;
    }
    false
}

/// A count and what it counts; see [`count_of`].
fn count(n: usize, least: usize, what: &str) -> (r: Option<String>)
    ensures
        spell::seen(r) == count_of(n as nat, least as nat, what@),
{
    if n >= least {
        let mut s = String::new();
        push_decimal(&mut s, n as u64);
        assert(s@ =~= text::decimal(n as nat));
        s.push_str(what);
        Some(s)
    } else {
        None
    }
}

/// Adds what is said in front of the activity; see [`leading`].
fn push_leading(out: &mut String, text: &Option<String>)
    ensures
        final(out)@ == old(out)@ + leading(spell::seen(*text)),
{
    match text {
        Some(text) => {
            out.push_str(text);
            out.push_str(" \u{b7} ");
        },
        None => {},
    }
    assert(out@ =~= old(out)@ + leading(spell::seen(*text)));
}

/// Adds what is said behind the activity; see [`trailing`].
fn push_trailing(out: &mut String, text: &Option<String>)
    ensures
        final(out)@ == old(out)@ + trailing(spell::seen(*text)),
{
    match text {
        Some(text) => {
            out.push_str(" \u{b7} ");
            out.push_str(text);
        },
        None => {},
    }
    assert(out@ =~= old(out)@ + trailing(spell::seen(*text)));
}

/// A text in the accent; see [`StatusView::accented`].
fn accent(text: Option<String>, theme: &Theme) -> (r: Option<Vec<Span>>)
    ensures
        spans_seen(r) == StatusView::accented(spell::seen(text), *theme),
{
    match text {
        Some(text) => {
            let spans = vec![Span::styled(text, theme.accent)];
            assert(style::views(spans@) =~= seq![SpanView { text: text@, style: theme.accent }]);
            Some(spans)
        },
        None => None,
    }
}

/// The view of optional spans.
pub open spec fn spans_seen(spans: Option<Vec<Span>>) -> Option<Seq<SpanView>> {
    match spans {
        Some(spans) => Some(style::views(spans@)),
        None => None,
    }
}

/// Two spans.
fn two(a: Span, b: Span) -> (spans: Vec<Span>)
    ensures
        style::views(spans@) == seq![a@, b@],
{
    let spans = vec![a, b];
    assert(style::views(spans@) =~= seq![a@, b@]);
    spans
}

impl Status {
    /// Builds a status bar that starts idle at an instant, in a working
    /// directory of this name and repository, optionally carrying a notice.
    pub fn new(notice: Option<String>, now: u64, cwd: Option<String>, git: GitCache) -> (s: Status)
        ensures
            s@ == (StatusView {
                activity: ActivityView::Ready,
                since: now,
                notice: spell::seen(notice),
                totals: None,
                agent: None,
                effort: None,
                shell: false,
                queued: 0,
                running_jobs: 0,
                running_tasks: 0,
                queued_dialogs: 0,
                yolo: false,
                elements: None,
                max_width: None,
                detail: false,
                model: None,
                context: None,
                todos: None,
                started: now,
                cwd: spell::seen(cwd),
                git: git@,
            }),
    {
        Status {
            activity: Activity::Ready,
            since: now,
            notice,
            totals: None,
            agent: None,
            effort: None,
            shell: false,
            queued: 0,
            running_jobs: 0,
            running_tasks: 0,
            queued_dialogs: 0,
            yolo: false,
            elements: None,
            max_width: None,
            detail: false,
            model: None,
            context: None,
            todos: None,
            started: now,
            cwd,
            git,
        }
    }

    /// Applies a configured status line: the roster, the width cap, and whether
    /// a detail line may draw. [`None`] keeps the default bar.
    pub fn set_statusline(&mut self, statusline: Option<&StatuslineConfig>)
        ensures
            final(self)@ == match statusline {
                Some(table) => StatusView {
                    elements: roster_view(table.elements),
                    max_width: table.max_width,
                    detail: table.detail == Some(true),
                    ..old(self)@
                },
                None => StatusView {
                    elements: None,
                    max_width: None,
                    detail: false,
                    ..old(self)@
                },
            },
    {
        match statusline {
            Some(table) => {
                self.elements = match &table.elements {
                    Some(elements) => {
                        let copy = elements.clone();
                        assert(copy@ =~= elements@);
                        Some(copy)
                    },
                    None => None,
                };
                self.max_width = table.max_width;
                self.detail = match table.detail {
                    Some(detail) => detail,
                    None => false,
                };
            },
            None => {
                self.elements = None;
                self.max_width = None;
                self.detail = false;
            },
        }
    }

    /// Names the model the next turn asks for.
    pub fn set_model(&mut self, model: Option<String>)
        ensures
            final(self)@ == (StatusView { model: spell::seen(model), ..old(self)@ }),
    {
        self.model = model;
    }

    /// Records estimated tokens and the window they are of, or clears them.
    pub fn set_context(&mut self, context: Option<(u64, u64)>)
        ensures
            final(self)@ == (StatusView { context, ..old(self)@ }),
    {
        self.context = context;
    }

    /// Records todo progress.
    pub fn set_todos(&mut self, todos: Option<Todos>)
        ensures
            final(self)@ == (StatusView { todos: todos_view(todos), ..old(self)@ }),
    {
        self.todos = todos;
    }

    /// Records what is known of the repository.
    pub fn set_git(&mut self, git: GitCache)
        ensures
            final(self)@ == (StatusView { git: git@, ..old(self)@ }),
    {
        self.git = git;
    }

    /// How many rows this bar wants: one, plus the repository line above it and
    /// the detail line under it when the configured roster earns them.
    pub fn height(&self) -> (n: u16)
        ensures
            n == self@.wanted(),
    {
        match &self.elements {
            None => 1,
            Some(elements) => {
                let mut height: u16 = 1;
                if names(elements, StatuslineElement::Git) && self.git.found {
                    height += 1;
                }
                if self.detail && names(elements, StatuslineElement::Todos)
                    && self.detail_title().is_some() {
                    height += 1;
                }
                height
            },
        }
    }

    /// Names the agent the next turn runs as.
    pub fn set_agent(&mut self, agent: Option<String>)
        ensures
            final(self)@ == (StatusView { agent: spell::seen(agent), ..old(self)@ }),
    {
        self.agent = agent;
    }

    /// Names the model and the effort the next turn runs under, or clears the
    /// segment.
    pub fn set_effort(&mut self, effort: Option<(String, String)>)
        ensures
            final(self)@ == (StatusView { effort: pair_view(effort), ..old(self)@ }),
    {
        self.effort = effort;
    }

    /// Records whether the composer is running shell commands.
    pub fn set_shell(&mut self, shell: bool)
        ensures
            final(self)@ == (StatusView { shell, ..old(self)@ }),
    {
        self.shell = shell;
    }

    /// Records how many messages are waiting for the running turn.
    pub fn set_queued(&mut self, queued: usize)
        ensures
            final(self)@ == (StatusView { queued: queued as nat, ..old(self)@ }),
    {
        self.queued = queued;
    }

    /// Records how many background jobs are currently running.
    pub fn set_running_jobs(&mut self, running_jobs: usize)
        ensures
            final(self)@ == (StatusView { running_jobs: running_jobs as nat, ..old(self)@ }),
    {
        self.running_jobs = running_jobs;
    }

    /// Records how many delegated tasks the running turn has in flight.
    pub fn set_running_tasks(&mut self, running_tasks: usize)
        ensures
            final(self)@ == (StatusView { running_tasks: running_tasks as nat, ..old(self)@ }),
    {
        self.running_tasks = running_tasks;
    }

    /// Records whether this session answers its own permission dialogs.
    pub fn set_yolo(&mut self, yolo: bool)
        ensures
            final(self)@ == (StatusView { yolo, ..old(self)@ }),
    {
        self.yolo = yolo;
    }

    /// Records how many permission dialogs are waiting behind the open one.
    pub fn set_queued_dialogs(&mut self, queued_dialogs: usize)
        ensures
            final(self)@ == (StatusView { queued_dialogs: queued_dialogs as nat, ..old(self)@ }),
    {
        self.queued_dialogs = queued_dialogs;
    }

    /// Records what the engine is doing now; a new activity starts at `now`.
    pub fn set_activity(&mut self, activity: Activity, now: u64)
        ensures
            final(self)@ == (StatusView {
                activity: activity@,
                since: if old(self)@.activity == activity@ {
                    old(self)@.since
                } else {
                    now
                },
                ..old(self)@
            }),
    {
        if !self.activity.same(&activity) {
            self.since = now;
        }
        self.activity = activity;
    }

    /// Replaces the message shown next to the activity.
    pub fn set_notice(&mut self, notice: Option<String>)
        ensures
            final(self)@ == (StatusView { notice: spell::seen(notice), ..old(self)@ }),
    {
        self.notice = notice;
    }

    /// Shows what the session has spent so far.
    pub fn set_totals(&mut self, totals: Totals)
        ensures
            final(self)@ == (StatusView { totals: Some(totals), ..old(self)@ }),
    {
        self.totals = Some(totals);
    }

    /// Whether a turn is streaming, which is what keeps the spinner animating.
    pub fn is_streaming(&self) -> (r: bool)
        ensures
            r == self@.is_streaming(),
    {
        match self.activity {
            Activity::Streaming => true,
            _ => false,
        }
    }

    /// Draws the status bar in an area of `columns` by `rows` cells: the lines
    /// of it, top to bottom.
    pub fn render(&self, columns: u16, rows: u16, now: u64, theme: &Theme) -> (lines: Vec<Line>)
        ensures
            style::line_views(lines@) == self@.lines(columns, rows, now, *theme),
    {
        let mut lines: Vec<Line> = Vec::new();
        assert(style::line_views(lines@) =~= Seq::empty());
        if columns == 0 || rows == 0 {
            return lines;
        }
        match &self.elements {
            None => {
                lines.push(Line { spans: self.render_default(columns, now, theme) });
                assert(style::line_views(lines@) =~= self@.lines(columns, rows, now, *theme));
                lines
            },
            Some(elements) => self.render_roster(elements, columns, rows, now, theme),
        }
    }

    /// The spinner and a space while a turn is streaming.
    fn spinning(&self, now: u64) -> (s: String)
        ensures
            s@ == self@.spinning(now),
    {
        let mut s = String::new();
        if self.is_streaming() {
            s.push_str(self.spinner(now));
            s.push(' ');
        }
        assert(s@ =~= self@.spinning(now));
        s
    }

    fn effort_label(&self) -> (r: Option<String>)
        ensures
            spell::seen(r) == self@.effort_text(),
    {
        match &self.effort {
            Some((model, effort)) => {
                let mut s = model.clone();
                s.push_str(" (");
                s.push_str(effort);
                s.push(')');
                Some(s)
            },
            None => None,
        }
    }

    fn dialogs_label(&self) -> (r: Option<String>)
        ensures
            spell::seen(r) == self@.dialogs_text(),
    {
        if self.queued_dialogs == 1 {
            count(self.queued_dialogs, 1, " dialog queued")
        } else {
            count(self.queued_dialogs, 1, " dialogs queued")
        }
    }

    fn totals_label(&self) -> (r: Option<String>)
        ensures
            spell::seen(r) == self@.totals_text(),
    {
        match &self.totals {
            Some(totals) => Some(totals.segment()),
            None => None,
        }
    }

    /// The default bar.
    fn render_default(&self, columns: u16, now: u64, theme: &Theme) -> (spans: Vec<Span>)
        ensures
            style::views(spans@) == self@.default_line(columns as nat, now, *theme),
    {
        let mut left = self.spinning(now);
        // The agent comes first because it is the one part of the bar that says
        // what the next turn will be, rather than what the last one did.
        push_leading(&mut left, &self.agent);
        push_leading(&mut left, &self.effort_label());
        left.push_str(&self.activity.label());
        // What is waiting sits beside what is happening.
        push_trailing(&mut left, &count(self.queued, 1, " queued"));
        push_trailing(&mut left, &count(self.running_jobs, 1, " bash running"));
        push_trailing(&mut left, &count(self.running_tasks, 2, " tasks running"));
        push_trailing(&mut left, &self.dialogs_label());
        // Spend sits beside the state, where its width is predictable; the
        // notice is last because it is the one part with no length limit.
        push_trailing(&mut left, &self.totals_label());
        push_trailing(&mut left, &self.notice);
        assert(left@ == self@.left(now));
        let wide = str_width(&left);
        let mut spans: Vec<Span> = Vec::new();
        let mut used: usize = wide;
        if self.yolo {
            let mut marker = "yolo".to_owned();
            marker.push_str(" \u{b7} ");
            used = str_width(&marker).saturating_add(wide);
            spans.push(Span::styled(marker, theme.warning));
        }
        let ghost text = left@;
        spans.push(Span::styled(left, theme.accent));
        proof {
            let marker = yolo_marker() + separator();
            let front = if self.yolo {
                seq![SpanView { text: marker, style: theme.warning }]
            } else {
                Seq::empty()
            };
            assert(style::views(spans@) =~= front.push(SpanView { text, style: theme.accent }));
        }
        self.push_hints(&mut spans, used, columns as usize, theme);
        spans
    }

    /// Puts the reminders at the right edge; see [`StatusView::hinted`].
    fn push_hints(&self, spans: &mut Vec<Span>, used: usize, limit: usize, theme: &Theme)
        ensures
            style::views(final(spans)@) == self@.hinted(
                style::views(old(spans)@),
                used as nat,
                limit as nat,
                *theme,
            ),
    {
        let hints = self.hints();
        let gap = limit.saturating_sub(used.saturating_add(str_width(hints)));
        if gap > 0 {
            let ghost before = style::views(spans@);
            spans.push(Span::raw(repeat_char(' ', gap)));
            spans.push(Span::styled(hints.to_owned(), theme.dim));
            assert(style::views(spans@) =~= before.push(
                SpanView { text: width::repeated(' ', gap as nat), style: Style::plain() },
            ).push(SpanView { text: hints@, style: theme.dim }));
        }
    }

    /// The configured roster: the named elements only, in the named order, with
    /// the repository line above and the detail line under when they earned
    /// their rows.
    fn render_roster(
        &self,
        elements: &Vec<StatuslineElement>,
        columns: u16,
        rows: u16,
        now: u64,
        theme: &Theme,
    ) -> (lines: Vec<Line>)
        requires
            rows > 0,
        ensures
            style::line_views(lines@) == self@.roster_lines(
                elements@,
                columns,
                rows as nat,
                now,
                *theme,
            ),
    {
        let limit: usize = match self.max_width {
            Some(cap) => if cap < columns {
                cap as usize
            } else {
                columns as usize
            },
            None => columns as usize,
        };
        assert(limit == self@.limit(columns));
        let mut git: Option<Vec<Span>> = if names(elements, StatuslineElement::Git) {
            self.git_line(theme)
        } else {
            None
        };
        let mut detail: Option<Vec<Span>> = if self.detail && names(
            elements,
            StatuslineElement::Todos,
        ) {
            self.detail_line(theme)
        } else {
            None
        };
        // The main line is the one row that never yields: a shorter area drops
        // the detail line first, then the repository line.
        let above: usize = if git.is_some() {
            1
        } else {
            0
        };
        let below: usize = if detail.is_some() {
            1
        } else {
            0
        };
        let available = rows as usize;
        if 1 + above + below > available {
            detail = None;
        }
        if 1 + above > available {
            git = None;
        }
        assert(git is Some == self@.draws_git(elements@, rows as nat, *theme));
        assert(detail is Some == self@.draws_detail(elements@, rows as nat, *theme));
        let main = truncate_spans(self.roster_spans(elements, now, theme), limit, theme);
        let mut main = main;
        if names(elements, StatuslineElement::Hints) {
            let used = span_width(&main);
            self.push_hints(&mut main, used, limit, theme);
        }
        assert(style::views(main@) == self@.main_line(elements@, columns, now, *theme));
        let mut lines: Vec<Line> = Vec::new();
        match git {
            Some(git) => {
                lines.push(Line { spans: truncate_spans(git, limit, theme) });
            },
            None => {},
        }
        lines.push(Line { spans: main });
        match detail {
            Some(detail) => {
                lines.push(Line { spans: truncate_spans(detail, limit, theme) });
            },
            None => {},
        }
        assert(style::line_views(lines@) =~= self@.roster_lines(
            elements@,
            columns,
            rows as nat,
            now,
            *theme,
        ));
        lines
    }

    /// The elements of a roster in order; see [`StatusView::roster`].
    fn roster_spans(&self, elements: &Vec<StatuslineElement>, now: u64, theme: &Theme) -> (spans:
        Vec<Span>)
        ensures
            style::views(spans@) == self@.roster(
                elements@,
                elements@.len() as int,
                now,
                *theme,
            ),
    {
        let mut spans: Vec<Span> = Vec::new();
        // Ahead of the roster rather than inside it: whether this session asks
        // before it runs things is not a layout preference.
        if self.yolo {
            spans.push(Span::styled("yolo".to_owned(), theme.warning));
        }
        assert(style::views(spans@) =~= self@.roster(elements@, 0, now, *theme));
        let mut i: usize = 0;
        while i < elements.len()
            invariant
                i <= elements@.len(),
                style::views(spans@) == self@.roster(elements@, i as int, now, *theme),
            decreases elements.len() - i,
        {
            let ghost front = style::views(spans@);
            if let Some(mut segment) = self.hud_segment(elements[i], now, theme) {
                let ghost added = style::views(segment@);
                if spans.len() > 0 {
                    spans.push(Span::styled(" | ".to_owned(), theme.dim));
                }
                spans.append(&mut segment);
                assert(style::views(spans@) =~= self@.roster(elements@, i + 1, now, *theme));
            }
            i += 1;
        }
        spans
    }

    /// One named element's spans; see [`StatusView::segment`].
    fn hud_segment(&self, element: StatuslineElement, now: u64, theme: &Theme) -> (r: Option<
        Vec<Span>,
    >)
        ensures
            spans_seen(r) == self@.segment(element, now, *theme),
    {
        match element {
            StatuslineElement::Activity => {
                let mut text = self.spinning(now);
                text.push_str(&self.activity.label());
                accent(Some(text), theme)
            },
            StatuslineElement::Agent => accent(copied(&self.agent), theme),
            StatuslineElement::Effort => match self.effort_label() {
                Some(text) => {
                    let spans = vec![Span::styled(text, theme.fg.bold())];
                    assert(style::views(spans@) =~= seq![
                        SpanView { text: text@, style: theme.fg.as_bold() },
                    ]);
                    Some(spans)
                },
                None => None,
            },
            StatuslineElement::Queued => accent(count(self.queued, 1, " queued"), theme),
            StatuslineElement::Jobs => accent(count(self.running_jobs, 1, " bash running"), theme),
            StatuslineElement::Tasks => accent(
                count(self.running_tasks, 2, " tasks running"),
                theme,
            ),
            StatuslineElement::Dialogs => accent(self.dialogs_label(), theme),
            StatuslineElement::Tokens => accent(self.totals_label(), theme),
            StatuslineElement::Notice => accent(copied(&self.notice), theme),
            StatuslineElement::Model => match &self.model {
                Some(model) => Some(
                    two(
                        Span::styled("Model: ".to_owned(), theme.dim),
                        Span::styled(model.clone(), theme.fg.bold()),
                    ),
                ),
                None => None,
            },
            StatuslineElement::Context => match self.context {
                Some((tokens, window)) => Some(meter("ctx", percent_of(tokens, window), theme)),
                None => None,
            },
            StatuslineElement::Session => {
                let mut text = "session:".to_owned();
                push_decimal(&mut text, now.saturating_sub(self.started) / 60_000);
                text.push('m');
                assert(text@ =~= self@.session_text(now));
                accent(Some(text), theme)
            },
            StatuslineElement::Cwd => match &self.cwd {
                Some(name) => Some(
                    two(
                        Span::styled("cwd:".to_owned(), theme.dim),
                        Span::styled(name.clone(), theme.fg),
                    ),
                ),
                None => None,
            },
            StatuslineElement::Todos => accent(self.todos_label(), theme),
            // Rendered above the bar and at its right edge respectively.
            StatuslineElement::Git | StatuslineElement::Hints => None,
        }
    }

    fn todos_label(&self) -> (r: Option<String>)
        ensures
            spell::seen(r) == self@.todos_text(),
    {
        match &self.todos {
            Some(todos) => {
                if todos.total == 0 {
                    return None;
                }
                let mut s = "todos:".to_owned();
                push_decimal(&mut s, todos.done as u64);
                s.push('/');
                push_decimal(&mut s, todos.total as u64);
                let ghost count = "todos:"@ + text::decimal(todos.done as nat).push('/')
                    + text::decimal(todos.total as nat);
                assert(s@ =~= count);
                // The in-progress title rides inline unless the detail line is
                // on, where it gets a whole row.
                if !self.detail {
                    match &todos.current {
                        Some(current) => {
                            s.push_str(" (working: ");
                            s.push_str(current);
                            s.push(')');
                        },
                        None => {},
                    }
                }
                Some(s)
            },
            None => None,
        }
    }

    /// The repository line, values bold; see [`StatusView::git_spans`].
    fn git_line(&self, theme: &Theme) -> (r: Option<Vec<Span>>)
        ensures
            spans_seen(r) == self@.git_spans(*theme),
    {
        if !self.git.found {
            return None;
        }
        match (&self.git.repo, &self.git.branch) {
            (Some(repo), Some(branch)) => {
                let bold = theme.fg.bold();
                let spans = vec![
                    Span::styled("repo:".to_owned(), theme.dim),
                    Span::styled(repo.clone(), bold),
                    Span::styled(" | ".to_owned(), theme.dim),
                    Span::styled("branch:".to_owned(), theme.dim),
                    Span::styled(branch.clone(), bold),
                ];
                assert(style::views(spans@) =~= self@.git_spans(*theme)->0);
                Some(spans)
            },
            _ => None,
        }
    }

    /// What the detail line would say: the in-progress todo's title.
    fn detail_title(&self) -> (r: Option<String>)
        ensures
            spell::seen(r) == self@.detail_text(),
    {
        match &self.todos {
            Some(todos) => if todos.total > 0 {
                copied(&todos.current)
            } else {
                None
            },
            None => None,
        }
    }

    fn detail_line(&self, theme: &Theme) -> (r: Option<Vec<Span>>)
        ensures
            spans_seen(r) == self@.detail_spans(*theme),
    {
        match self.detail_title() {
            Some(title) => Some(
                two(
                    Span::styled("working: ".to_owned(), theme.dim),
                    Span::styled(title, theme.fg),
                ),
            ),
            None => None,
        }
    }

    /// The reminders this mode is worth showing.
    fn hints(&self) -> (s: &'static str)
        ensures
            s@ == self@.hints(),
    {
        if self.shell {
            "Enter run \u{b7} Esc exit shell mode \u{b7} Ctrl-C quit"
        } else {
            "Enter send \u{b7} Alt+Enter newline \u{b7} Esc cancel \u{b7} Ctrl-C quit"
        }
    }

    /// The spinner phase at an instant.
    fn spinner(&self, now: u64) -> (s: &'static str)
        ensures
            s@ == self@.spinner(now),
    {
        match now.saturating_sub(self.since) / SPINNER_PERIOD % 8 {
            0 => "\u{280b}",
            1 => "\u{2819}",
            2 => "\u{2839}",
            3 => "\u{2838}",
            4 => "\u{283c}",
            5 => "\u{2834}",
            6 => "\u{2826}",
            _ => "\u{2827}",
        }
    }
}

/// A meter is filled to the nearest of its eight slots, a tie filling one more,
/// and a share of a window is what it is in whole percent, no more than all.
pub proof fn law_a_meter_shows_the_share(tokens: nat, window: nat, percent: nat)
    requires
        percent <= 100,
        window > 0,
    ensures
        200 * filled(percent) <= 16 * percent + 100,
        16 * percent < 200 * filled(percent) + 100,
        tokens >= window ==> share(tokens, window) == 100,
        tokens <= window ==> share(tokens, window) * window <= 100 * tokens,
        tokens <= window ==> 100 * tokens < (share(tokens, window) + 1) * window,
        share(tokens, 0) == 100,
{
    let q = tokens * 100 / window;
    assert(q * window <= 100 * tokens && 100 * tokens < (q + 1) * window) by (nonlinear_arith)
        requires
            q == tokens * 100 / window,
            window > 0,
    ;
    if tokens >= window {
        assert(q >= 100) by (nonlinear_arith)
            requires
                100 * tokens < (q + 1) * window,
                tokens >= window,
                window > 0,
        ;
    }
    if tokens <= window {
        assert(q <= 100) by (nonlinear_arith)
            requires
                q * window <= 100 * tokens,
                tokens <= window,
                window > 0,
        ;
    }
}

/// A meter reads `label:[##------]25%`, its filled slots and its number in the
/// colour of how full it is: calm below 70, a warning from there and critical
/// from 85.
pub proof fn law_a_meter_reads_so(label: Seq<char>, percent: nat, theme: Theme)
    requires
        percent <= 100,
    ensures
        ({
            let spans = meter_spans(label, percent, theme);
            &&& spans.len() == 5
            &&& spans[0].text == label + seq![':', '[']
            &&& spans[1].text.len() == filled(percent)
            &&& spans[1].text.len() + spans[2].text.len() == 8
            &&& forall|i: int| 0 <= i < spans[1].text.len() ==> #[trigger] spans[1].text[i] == '#'
            &&& forall|i: int| 0 <= i < spans[2].text.len() ==> #[trigger] spans[2].text[i] == '-'
            &&& spans[3].text == seq![']']
            &&& spans[4].text == text::decimal(percent) + seq!['%']
            &&& spans[1].style == spans[4].style
            &&& spans[4].style == (if percent < 70 {
                theme.success
            } else if percent < 85 {
                theme.warning
            } else {
                theme.error
            })
            &&& spans[0].style == theme.dim && spans[2].style == theme.dim && spans[3].style
                == theme.dim
        }),
        severity(percent) == Severity::Compact <==> 80 <= percent < 85,
{
    reveal_strlit(":[");
    reveal_strlit("]");
    assert(":["@ =~= seq![':', '[']);
    assert("]"@ =~= seq![']']);
    assert(text::decimal(percent).push('%') =~= text::decimal(percent) + seq!['%']);
    law_meters_never_overfill(0, 1, percent);
}

/// A line that does not fit is cut: spans are kept whole as long as they fit in
/// front of the ellipsis, the first that does not is kept as far as it fits, and
/// nothing behind it is kept.
pub proof fn law_a_truncated_line_is_its_longest_front(
    spans: Seq<SpanView>,
    limit: nat,
    theme: Theme,
) -> (k: int)
    requires
        limit <= usize::MAX,
        wrap::spans_width(spans) > limit,
    ensures
        ({
            let target = width::room(limit, width::width_of(seq!['.', '.', '.']));
            let line = truncated(spans, limit, theme);
            let used = wrap::spans_width(spans.take(k));
            let rest = spans[k].text;
            &&& 0 <= k < spans.len()
            &&& line.last() == (SpanView { text: seq!['.', '.', '.'], style: theme.dim })
            &&& k + 1 <= line.len() <= k + 2
            &&& line.take(k) == spans.take(k)
            &&& used <= target
            &&& used + width::width_of(rest) > target
            &&& line.len() == k + 2 ==> ({
                let n = line[k].text.len();
                &&& 0 < n <= rest.len()
                &&& line[k].text == rest.take(n as int)
                &&& line[k].style == spans[k].style
                &&& width::width_of(line[k].text) <= target - used
                &&& n < rest.len() ==> width::width_of(rest.take(n as int + 1)) > target - used
            })
            &&& line.len() == k + 1 && rest.len() > 0 ==> width::width_of(rest.take(1)) > target
                - used
        }),
{
    reveal_strlit("...");
    assert("..."@ =~= seq!['.', '.', '.']);
    let target = width::room(limit, width::width_of(ellipsis()));
    assert(spans.take(0) =~= Seq::empty());
    lemma_kept_front(spans, target, 0)
}

proof fn lemma_kept_front(spans: Seq<SpanView>, target: nat, from: int) -> (k: int)
    requires
        0 <= from <= spans.len(),
        target <= usize::MAX,
        wrap::spans_width(spans.take(from)) <= target,
        wrap::spans_width(spans) > target,
    ensures
        ({
            let line = kept(
                spans,
                target,
                spans.take(from),
                wrap::spans_width(spans.take(from)),
                from,
            );
            let used = wrap::spans_width(spans.take(k));
            let rest = spans[k].text;
            let n = width::fitting(rest, 0, (target - used) as nat);
            &&& from <= k < spans.len()
            &&& used <= target
            &&& used + width::width_of(rest) > target
            &&& n == 0 ==> line == spans.take(k)
            &&& n > 0 ==> line == spans.take(k).push(
                SpanView { text: rest.take(n as int), ..spans[k] },
            )
            &&& n <= rest.len()
            &&& n > 0 ==> width::width_of(rest.take(n as int)) <= target - used
            &&& n < rest.len() ==> width::width_of(rest.take(n as int + 1)) > target - used
        }),
    decreases spans.len() - from,
{
    if from == spans.len() {
        assert(spans.take(from) =~= spans);
        from
    } else {
        let used = wrap::spans_width(spans.take(from));
        let next = width::columns(used, width::width_of(spans[from].text));
        assert(spans.take(from + 1).drop_last() =~= spans.take(from));
        assert(spans.take(from + 1) =~= spans.take(from).push(spans[from]));
        if next <= target {
            lemma_kept_front(spans, target, from + 1)
        } else {
            width::lemma_fitting_fronts(spans[from].text, 0, (target - used) as nat);
            from
        }
    }
}

/// HEAD names a branch behind `ref: refs/heads/`, and otherwise a commit, of
/// which eight characters are shown.
pub proof fn law_head_names_a_branch_or_a_commit(name: Seq<char>, back: Seq<char>)
    requires
        name.len() > 0,
        !text::white_space(name[0]),
        !text::white_space(name.last()),
        text::all_white(back),
    ensures
        head_of("ref: refs/heads/"@ + name + back) == Some(name),
        !starts_with(name, "ref:"@) && name.len() <= 8 ==> head_of(name + back) == Some(name),
        !starts_with(name, "ref:"@) && name.len() > 8 ==> head_of(name + back) == Some(
            name.take(8),
        ),
        head_of(back) is None,
{
    reveal_strlit("ref: refs/heads/");
    reveal_strlit("ref:");
    reveal_strlit("refs/heads/");
    let none = Seq::<char>::empty();
    let whole = "ref: refs/heads/"@ + name;
    assert(whole.last() == name.last());
    text::law_trimming_leaves_the_middle(none, whole, back);
    assert(none + whole + back =~= "ref: refs/heads/"@ + name + back);
    assert(whole.take(4) =~= "ref:"@);
    let rest = "refs/heads/"@ + name;
    assert(rest.last() == name.last());
    assert(rest[0] == 'r');
    assert(seq![' '][0] == ' ');
    text::law_trimming_leaves_the_middle(seq![' '], rest, none);
    assert(whole.skip(4) =~= seq![' '] + rest + none);
    assert(rest.take(11) =~= "refs/heads/"@);
    assert(rest.skip(11) =~= name);
    text::law_trimming_leaves_the_middle(none, name, back);
    assert(none + name + back =~= name + back);
    let n = text::law_trimming_keeps_what_is_between(back);
    if text::trim(back).len() > 0 {
        assert(text::trim(back)[0] == back[n]);
    }
}

/// A linked worktree's file points to what stands behind `gitdir:`.
pub proof fn law_a_worktree_points_to_its_directory(path: Seq<char>, back: Seq<char>)
    requires
        path.len() > 0,
        !text::white_space(path[0]),
        !text::white_space(path.last()),
        text::all_white(back),
    ensures
        pointed_to("gitdir: "@ + path + back) == Some(path),
        !starts_with(path, "gitdir:"@) ==> pointed_to(path + back) is None,
{
    reveal_strlit("gitdir: ");
    reveal_strlit("gitdir:");
    let none = Seq::<char>::empty();
    let whole = "gitdir: "@ + path;
    assert(whole.last() == path.last());
    text::law_trimming_leaves_the_middle(none, whole, back);
    assert(none + whole + back =~= "gitdir: "@ + path + back);
    assert(whole.take(7) =~= "gitdir:"@);
    text::law_trimming_leaves_the_middle(seq![' '], path, none);
    assert(whole.skip(7) =~= seq![' '] + path + none);
    text::law_trimming_leaves_the_middle(none, path, back);
    assert(none + path + back =~= path + back);
}

/// What is counted is shown while there is any of it, two for tasks, and says
/// what it counts.
pub proof fn law_counts_say_what_they_count(status: StatusView)
    ensures
        status.queued == 0 ==> status.queued_text() is None,
        status.queued > 0 ==> status.queued_text() == Some(
            text::decimal(status.queued) + " queued"@,
        ),
        status.running_jobs == 0 ==> status.jobs_text() is None,
        status.running_jobs > 0 ==> status.jobs_text() == Some(
            text::decimal(status.running_jobs) + " bash running"@,
        ),
        status.running_tasks < 2 ==> status.tasks_text() is None,
        status.running_tasks >= 2 ==> status.tasks_text() == Some(
            text::decimal(status.running_tasks) + " tasks running"@,
        ),
        status.queued_dialogs == 0 ==> status.dialogs_text() is None,
        status.queued_dialogs == 1 ==> status.dialogs_text() == Some("1 dialog queued"@),
        status.queued_dialogs > 1 ==> status.dialogs_text() == Some(
            text::decimal(status.queued_dialogs) + " dialogs queued"@,
        ),
{
    reveal_strlit("1 dialog queued");
    reveal_strlit(" dialog queued");
    assert(text::decimal(1) =~= seq!['1']);
    assert(text::decimal(1) + " dialog queued"@ =~= "1 dialog queued"@);
}

/// What the bar says the engine is doing.
pub proof fn law_activities_are_labelled(tool: Seq<char>)
    ensures
        ActivityView::Ready.label() == "ready"@,
        ActivityView::Streaming.label() == "streaming"@,
        ActivityView::Tool(tool).label() == "tool: "@ + tool,
        ActivityView::Permission.label() == "waiting on permission"@,
        ActivityView::Stopped.label() == "stopped"@,
        ActivityView::Failed.label() == "failed"@,
{
}

/// In the default bar the agent comes first, then the effort, and the notice
/// last, each set off from the rest and without changing it.
pub proof fn law_the_bar_adds_piece_by_piece(status: StatusView, now: u64, text: Seq<char>)
    requires
        !status.is_streaming(),
    ensures
        (StatusView { notice: Some(text), ..status }).left(now) == (StatusView {
            notice: None,
            ..status
        }).left(now) + " \u{b7} "@ + text,
        (StatusView { agent: Some(text), ..status }).left(now) == text + " \u{b7} "@ + (StatusView {
            agent: None,
            ..status
        }).left(now),
        status.agent is None ==> (StatusView { effort: Some((text, text)), ..status }).left(now)
            == text + " ("@ + text + ") \u{b7} "@ + (StatusView { effort: None, ..status }).left(now),
{
    reveal_strlit(" (");
    reveal_strlit(") \u{b7} ");
    reveal_strlit(" \u{b7} ");
    let none = Seq::<char>::empty();
    let sep = separator();
    let e = leading(status.effort_text());
    let l = status.activity.label();
    let q = trailing(status.queued_text());
    let j = trailing(status.jobs_text());
    let t = trailing(status.tasks_text());
    let d = trailing(status.dialogs_text());
    let o = trailing(status.totals_text());
    let n = trailing(status.notice);
    let noted = StatusView { notice: Some(text), ..status };
    let quiet = StatusView { notice: None, ..status };
    let all = none + leading(status.agent) + e + l + q + j + t + d + o;
    assert(quiet.left(now) == all + none);
    assert(all + none =~= all);
    assert(noted.left(now) == all + (sep + text));
    assert(all + (sep + text) =~= all + sep + text);
    let named = StatusView { agent: Some(text), ..status };
    let nameless = StatusView { agent: None, ..status };
    assert(named.left(now) == none + (text + sep) + e + l + q + j + t + d + o + n);
    assert(nameless.left(now) == none + none + e + l + q + j + t + d + o + n);
    assert(none + (text + sep) =~= text + sep);
    assert(none + none =~= none);
    lemma_in_front(text + sep, e, l, q, j, t, d, o, n);
    if status.agent is None {
        let hard = StatusView { effort: Some((text, text)), ..status };
        let easy = StatusView { effort: None, ..status };
        let h = (text + " ("@ + text).push(')') + sep;
        assert(hard.left(now) == none + none + h + l + q + j + t + d + o + n);
        assert(easy.left(now) == none + none + none + l + q + j + t + d + o + n);
        assert(h =~= text + " ("@ + text + ") \u{b7} "@);
        assert(none + none + h =~= h + none);
        assert(none + none + none =~= none + none);
        lemma_in_front(h, none, l, q, j, t, d, o, n);
    }
}

/// What stands in front of pieces stands in front of all of them together.
proof fn lemma_in_front(
    a: Seq<char>,
    e: Seq<char>,
    l: Seq<char>,
    q: Seq<char>,
    j: Seq<char>,
    t: Seq<char>,
    d: Seq<char>,
    o: Seq<char>,
    n: Seq<char>,
)
    ensures
        a + e + l + q + j + t + d + o + n == a + (Seq::<char>::empty() + e + l + q + j + t + d + o
            + n),
{
    let none = Seq::<char>::empty();
    assert(a + e =~= a + (none + e));
    assert(a + (none + e) + l =~= a + (none + e + l));
    assert(a + (none + e + l) + q =~= a + (none + e + l + q));
    assert(a + (none + e + l + q) + j =~= a + (none + e + l + q + j));
    assert(a + (none + e + l + q + j) + t =~= a + (none + e + l + q + j + t));
    assert(a + (none + e + l + q + j + t) + d =~= a + (none + e + l + q + j + t + d));
    assert(a + (none + e + l + q + j + t + d) + o =~= a + (none + e + l + q + j + t + d + o));
    assert(a + (none + e + l + q + j + t + d + o) + n =~= a + (none + e + l + q + j + t + d + o
        + n));
}

/// A streaming bar turns: the same piece behind a frame of the spinner and a
/// blank, another frame every 80 milliseconds, and the first again behind the
/// eighth.
pub proof fn law_the_spinner_turns(status: StatusView, now: u64, elapsed: u64)
    requires
        status.is_streaming(),
        now == status.since + elapsed,
    ensures
        status.spinning(now) == status.spinner(now).push(' '),
        status.spinner(now).len() == 1,
        now + 640 <= u64::MAX ==> status.spinner((now + 640) as u64) == status.spinner(now),
        now + 80 <= u64::MAX ==> status.spinner((now + 80) as u64) != status.spinner(now),
        elapsed < 80 ==> status.spinner(now) == seq!['\u{280b}'],
        status.left(now).len() >= 2 && status.left(now)[0] == status.spinner(now)[0],
{
    reveal_strlit("\u{280b}");
    reveal_strlit("\u{2819}");
    reveal_strlit("\u{2839}");
    reveal_strlit("\u{2838}");
    reveal_strlit("\u{283c}");
    reveal_strlit("\u{2834}");
    reveal_strlit("\u{2826}");
    reveal_strlit("\u{2827}");
    let phase = elapsed as nat / 80 % 8;
    assert((elapsed + 640) / 80 % 8 == phase);
    assert((elapsed + 80) / 80 % 8 != phase);
    assert(status.spinner(now)[0] != ' ');
    if now + 80 <= u64::MAX {
        assert(status.spinner((now + 80) as u64)[0] != status.spinner(now)[0]);
    }
    assert("\u{280b}"@ =~= seq!['\u{280b}']);
    assert(status.left(now)[0] == status.spinner(now)[0]);
}

/// What each element of a roster shows.
pub proof fn law_elements_show_their_own(status: StatusView, now: u64, theme: Theme)
    ensures
        status.segment(StatuslineElement::Activity, now, theme) == Some(
            seq![
                SpanView {
                    text: status.spinning(now) + status.activity.label(),
                    style: theme.accent,
                },
            ],
        ),
        status.agent matches Some(agent) ==> status.segment(StatuslineElement::Agent, now, theme)
            == Some(seq![SpanView { text: agent, style: theme.accent }]),
        status.effort matches Some((model, effort)) ==> status.segment(
            StatuslineElement::Effort,
            now,
            theme,
        ) == Some(
            seq![SpanView { text: model + " ("@ + effort + ")"@, style: theme.fg.as_bold() }],
        ),
        status.queued > 0 ==> status.segment(StatuslineElement::Queued, now, theme) == Some(
            seq![SpanView { text: text::decimal(status.queued) + " queued"@, style: theme.accent }],
        ),
        status.running_jobs > 0 ==> status.segment(StatuslineElement::Jobs, now, theme) == Some(
            seq![
                SpanView {
                    text: text::decimal(status.running_jobs) + " bash running"@,
                    style: theme.accent,
                },
            ],
        ),
        status.running_tasks > 1 ==> status.segment(StatuslineElement::Tasks, now, theme) == Some(
            seq![
                SpanView {
                    text: text::decimal(status.running_tasks) + " tasks running"@,
                    style: theme.accent,
                },
            ],
        ),
        status.queued_dialogs > 1 ==> status.segment(StatuslineElement::Dialogs, now, theme)
            == Some(
            seq![
                SpanView {
                    text: text::decimal(status.queued_dialogs) + " dialogs queued"@,
                    style: theme.accent,
                },
            ],
        ),
        status.totals matches Some(totals) ==> status.segment(StatuslineElement::Tokens, now, theme)
            == Some(seq![SpanView { text: totals.spelled(), style: theme.accent }]),
        status.notice matches Some(notice) ==> status.segment(StatuslineElement::Notice, now, theme)
            == Some(seq![SpanView { text: notice, style: theme.accent }]),
        status.model matches Some(model) ==> status.segment(StatuslineElement::Model, now, theme)
            == Some(
            seq![
                SpanView { text: "Model: "@, style: theme.dim },
                SpanView { text: model, style: theme.fg.as_bold() },
            ],
        ),
        status.context matches Some((tokens, window)) ==> status.segment(
            StatuslineElement::Context,
            now,
            theme,
        ) == Some(meter_spans("ctx"@, share(tokens as nat, window as nat), theme)),
        status.cwd matches Some(name) ==> status.segment(StatuslineElement::Cwd, now, theme)
            == Some(
            seq![
                SpanView { text: "cwd:"@, style: theme.dim },
                SpanView { text: name, style: theme.fg },
            ],
        ),
        status.segment(StatuslineElement::Git, now, theme) is None,
        status.segment(StatuslineElement::Hints, now, theme) is None,
{
    reveal_strlit(")");
    if let Some((model, effort)) = status.effort {
        assert((model + " ("@ + effort).push(')') =~= model + " ("@ + effort + ")"@);
    }
}

/// What an element has nothing to show for is not shown.
pub proof fn law_what_is_not_known_is_not_shown(status: StatusView, now: u64, theme: Theme)
    ensures
        status.segment(StatuslineElement::Agent, now, theme) is None == status.agent is None,
        status.segment(StatuslineElement::Effort, now, theme) is None == status.effort is None,
        status.segment(StatuslineElement::Queued, now, theme) is None == (status.queued == 0),
        status.segment(StatuslineElement::Jobs, now, theme) is None == (status.running_jobs == 0),
        status.segment(StatuslineElement::Tasks, now, theme) is None == (status.running_tasks < 2),
        status.segment(StatuslineElement::Dialogs, now, theme) is None == (status.queued_dialogs
            == 0),
        status.segment(StatuslineElement::Tokens, now, theme) is None == status.totals is None,
        status.segment(StatuslineElement::Notice, now, theme) is None == status.notice is None,
        status.segment(StatuslineElement::Model, now, theme) is None == status.model is None,
        status.segment(StatuslineElement::Context, now, theme) is None == status.context is None,
        status.segment(StatuslineElement::Session, now, theme) is Some,
        status.segment(StatuslineElement::Cwd, now, theme) is None == status.cwd is None,
        status.segment(StatuslineElement::Todos, now, theme) is None == !(status.todos is Some
            && status.todos->0.total > 0),
{
}

/// A session's age is shown in whole minutes, and its todos as how many are
/// done of how many, with the current one where no line below shows it.
pub proof fn law_ages_and_todos_read_so(
    status: StatusView,
    todos: TodosView,
    minutes: nat,
    ms: nat,
)
    requires
        status.todos == Some(todos),
        todos.total > 0,
        ms < 60_000,
        status.started + 60_000 * minutes + ms <= u64::MAX,
    ensures
        status.session_text((status.started + 60_000 * minutes + ms) as u64) == "session:"@
            + text::decimal(minutes) + "m"@,
        status.detail || todos.current is None ==> status.todos_text() == Some(
            "todos:"@ + text::decimal(todos.done) + "/"@ + text::decimal(todos.total),
        ),
        !status.detail && todos.current is Some ==> status.todos_text() == Some(
            "todos:"@ + text::decimal(todos.done) + "/"@ + text::decimal(todos.total)
                + " (working: "@ + todos.current->0 + ")"@,
        ),
        status.detail_text() == todos.current,
{
    reveal_strlit("m");
    reveal_strlit("/");
    reveal_strlit(")");
    assert((60_000 * minutes + ms) / 60_000 == minutes);
    assert(("session:"@ + text::decimal(minutes)).push('m') =~= "session:"@ + text::decimal(minutes)
        + "m"@);
    let count = "todos:"@ + text::decimal(todos.done).push('/') + text::decimal(todos.total);
    assert(count =~= "todos:"@ + text::decimal(todos.done) + "/"@ + text::decimal(todos.total));
    if let Some(current) = todos.current {
        assert((count + " (working: "@ + current).push(')') =~= "todos:"@ + text::decimal(
            todos.done,
        ) + "/"@ + text::decimal(todos.total) + " (working: "@ + current + ")"@);
    }
}

/// A roster shows its elements in the named order: one more adds what it shows
/// behind the others, set off by a bar where anything stands before it.
pub proof fn law_a_roster_keeps_its_order(
    status: StatusView,
    elements: Seq<StatuslineElement>,
    element: StatuslineElement,
    now: u64,
    theme: Theme,
)
    ensures
        ({
            let n = elements.len() as int;
            let before = status.roster(elements, n, now, theme);
            let after = status.roster(elements.push(element), n + 1, now, theme);
            match status.segment(element, now, theme) {
                None => after == before,
                Some(segment) => after == (if before.len() == 0 {
                    segment
                } else {
                    before + seq![SpanView { text: seq![' ', '|', ' '], style: theme.dim }]
                        + segment
                }),
            }
        }),
        status.roster(elements, 0, now, theme) == (if status.yolo {
            seq![SpanView { text: "yolo"@, style: theme.warning }]
        } else {
            Seq::empty()
        }),
{
    let n = elements.len() as int;
    lemma_roster_front(status, elements, element, n, now, theme);
    reveal_strlit(" | ");
    assert(" | "@ =~= seq![' ', '|', ' ']);
    let before = status.roster(elements, n, now, theme);
    let bar = SpanView { text: hud_separator(), style: theme.dim };
    if let Some(segment) = status.segment(element, now, theme) {
        assert(before.push(bar) + segment =~= before + seq![bar] + segment);
        if before.len() == 0 {
            assert(before + segment =~= segment);
        }
    }
}

proof fn lemma_roster_front(
    status: StatusView,
    elements: Seq<StatuslineElement>,
    element: StatuslineElement,
    n: int,
    now: u64,
    theme: Theme,
)
    requires
        0 <= n <= elements.len(),
    ensures
        status.roster(elements.push(element), n, now, theme) == status.roster(
            elements,
            n,
            now,
            theme,
        ),
    decreases n,
{
    if n > 0 {
        lemma_roster_front(status, elements, element, n - 1, now, theme);
        assert(elements.push(element)[n - 1] == elements[n - 1]);
    }
}

/// The hints stand flush right: with the gap in front of them the line is as
/// wide as it may be; they are left out where no gap would be left.
pub proof fn law_the_hints_stand_flush_right(
    status: StatusView,
    spans: Seq<SpanView>,
    used: nat,
    limit: nat,
    theme: Theme,
)
    requires
        used + width::width_of(status.hints()) <= usize::MAX,
    ensures
        used + width::width_of(status.hints()) >= limit ==> status.hinted(spans, used, limit, theme)
            == spans,
        used + width::width_of(status.hints()) < limit ==> ({
            let line = status.hinted(spans, used, limit, theme);
            &&& line.len() == spans.len() + 2
            &&& line.take(spans.len() as int) == spans
            &&& used + line[spans.len() as int].text.len() + width::width_of(status.hints())
                == limit
            &&& forall|i: int|
                0 <= i < line[spans.len() as int].text.len()
                    ==> #[trigger] line[spans.len() as int].text[i] == ' '
            &&& line.last().text == status.hints()
            &&& line.last().style == theme.dim
        }),
{
    if used + width::width_of(status.hints()) < limit {
        let line = status.hinted(spans, used, limit, theme);
        assert(line.take(spans.len() as int) =~= spans);
    }
}

/// A configured width caps the area's own, and never widens it.
pub proof fn law_a_configured_width_caps(status: StatusView, columns: u16)
    ensures
        status.limit(columns) <= columns,
        status.max_width matches Some(cap) ==> status.limit(columns) <= cap,
        status.limit(columns) == columns || status.max_width == Some(status.limit(columns) as u16),
{
}

/// With the rows it asks for a bar draws all it has: the repository above, the
/// detail below, and the bar between them.
pub proof fn law_the_bar_stands_between(
    status: StatusView,
    columns: u16,
    rows: u16,
    now: u64,
    theme: Theme,
    elements: Seq<StatuslineElement>,
)
    requires
        columns > 0,
        rows >= status.wanted(),
        status.elements == Some(elements),
        status.git.found ==> status.git.repo is Some && status.git.branch is Some,
    ensures
        ({
            let lines = status.lines(columns, rows, now, theme);
            let git = elements.contains(StatuslineElement::Git) && status.git.found;
            let detail = status.detail && elements.contains(StatuslineElement::Todos)
                && status.detail_text() is Some;
            let limit = status.limit(columns);
            &&& lines.len() == status.wanted()
            &&& git ==> lines[0] == truncated(status.git_spans(theme)->0, limit, theme)
            &&& lines[if git {
                1
            } else {
                0int
            }] == status.main_line(elements, columns, now, theme)
            &&& detail ==> lines.last() == truncated(status.detail_spans(theme)->0, limit, theme)
            &&& git ==> status.git_spans(theme)->0 == seq![
                SpanView { text: "repo:"@, style: theme.dim },
                SpanView { text: status.git.repo->0, style: theme.fg.as_bold() },
                SpanView { text: " | "@, style: theme.dim },
                SpanView { text: "branch:"@, style: theme.dim },
                SpanView { text: status.git.branch->0, style: theme.fg.as_bold() },
            ]
            &&& detail ==> status.detail_spans(theme)->0 == seq![
                SpanView { text: "working: "@, style: theme.dim },
                SpanView { text: status.detail_text()->0, style: theme.fg },
            ]
        }),
{
}

/// What was spent reads `in`, `out` and, where it is priced, the money.
pub proof fn law_totals_read_so(totals: Totals)
    ensures
        totals.cost is None ==> totals.spelled() == spell::compact(totals.input_tokens as nat)
            + " in \u{b7} "@ + spell::compact(totals.output_tokens as nat) + " out"@,
        totals.cost matches Some(cost) ==> totals.spelled() == spell::compact(
            totals.input_tokens as nat,
        ) + " in \u{b7} "@ + spell::compact(totals.output_tokens as nat) + " out \u{b7} "@
            + spell::money(cost as nat, 10_000, 4),
{
    reveal_strlit(" in");
    reveal_strlit(" out");
    reveal_strlit(" \u{b7} ");
    reveal_strlit(" in \u{b7} ");
    reveal_strlit(" out \u{b7} ");
    assert(" in"@ + separator() =~= " in \u{b7} "@);
    assert(" out"@ + separator() =~= " out \u{b7} "@);
    let a = spell::compact(totals.input_tokens as nat);
    let b = spell::compact(totals.output_tokens as nat);
    assert(a + " in"@ + separator() + b + " out"@ =~= a + " in \u{b7} "@ + b + " out"@);
    if let Some(cost) = totals.cost {
        let m = spell::money(cost as nat, 10_000, 4);
        assert(totals.spelled() =~= a + " in \u{b7} "@ + b + " out \u{b7} "@ + m);
    }
}

/// The nearest directory is a repository where it holds one itself or points to
/// one, and not where it holds nothing that can be read.
pub proof fn law_what_a_repository_is(text: String)
    ensures
        !is_repository(Dotgit::Absent),
        is_repository(Dotgit::Directory),
        !is_repository(Dotgit::File(None)),
        is_repository(Dotgit::File(Some(text))) == pointed_to(text@) is Some,
{
}

/// The default bar is the marker of a session that answers its own dialogs, in
/// the colour of warnings, then the state, then the hints where they fit.
pub proof fn law_the_default_bar_reads_so(status: StatusView, columns: nat, now: u64, theme: Theme)
    ensures
        !status.yolo ==> status.default_line(columns, now, theme)[0] == (SpanView {
            text: status.left(now),
            style: theme.accent,
        }),
        status.yolo ==> status.default_line(columns, now, theme)[0] == (SpanView {
            text: "yolo \u{b7} "@,
            style: theme.warning,
        }) && status.default_line(columns, now, theme)[1] == (SpanView {
            text: status.left(now),
            style: theme.accent,
        }),
        status.shell ==> status.hints()
            == "Enter run \u{b7} Esc exit shell mode \u{b7} Ctrl-C quit"@,
        !status.shell ==> status.hints()
            == "Enter send \u{b7} Alt+Enter newline \u{b7} Esc cancel \u{b7} Ctrl-C quit"@,
{
    reveal_strlit("yolo");
    reveal_strlit(" \u{b7} ");
    reveal_strlit("yolo \u{b7} ");
    assert("yolo"@ + " \u{b7} "@ =~= "yolo \u{b7} "@);
}

} // verus!
