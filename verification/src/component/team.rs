//! The teammate dialog: one row per member of this session's team — its name,
//! the surface it runs on, whether it is the lead, and the ring of what it most
//! recently did — with the actions a row offers behind Enter, and a Spawn row
//! that belongs to the team rather than to any member. Under all of it stands
//! the team's shared task list.
//!
//! The dialog owns its own state and its own notice line. Running an [`Effect`]
//! and polling the team are the caller's, and so is the grammar a spawn line is
//! written in: the caller reads the line that [`Team::spawn_line`] names and
//! hands what it read to [`Team::submit`].

use vstd::prelude::*;

use crate::component::layout::{
    self, action_row, blank, body_rows, clamped, clip, first_visible, front_of, grow, line, pad,
    push_line, push_lines, show_window, step, Popup, PopupView, CHROME, MAX_HEIGHT, MAX_WIDTH,
};
use crate::spell::{self, copied};
use crate::style::{self, Line, SpanView};
use crate::text::{
    self, first_line_of, from_chars, is_control, join, push_decimal, str_eq, to_chars, trim_chars,
    trim_end_chars,
};
use crate::theme::Theme;
use crate::width::{self, str_width};

verus! {

/// How many of a member's recent calls a row shows.
pub const RING_LINES: usize = 4;

/// What a spawn is refused with while another one is still starting.
pub open spec fn busy_notice() -> Seq<char> {
    "a teammate is already starting \u{b7} wait for it to finish, or Esc to close"@
}

/// What is shown when the team holds nobody at all.
pub open spec fn empty() -> Seq<char> {
    "no team members"@
}

/// The agent kind of a spawn that names none.
pub open spec fn general() -> Seq<char> {
    "general"@
}

/// The surface a member runs on.
#[derive(Debug, PartialEq, Eq)]
pub enum MemberBackend {
    /// This very process.
    InProcess,
    /// A process of this program, in a pane.
    Ganja,
    Codex,
    Agy,
    Grok,
    /// Another program in a pane, by the argument that asks for it.
    Foreign(String),
}

/// A surface as the contracts speak of it.
pub enum BackendView {
    InProcess,
    Ganja,
    Codex,
    Agy,
    Grok,
    Foreign(Seq<char>),
}

impl View for MemberBackend {
    type V = BackendView;

    open spec fn view(&self) -> BackendView {
        match self {
            MemberBackend::InProcess => BackendView::InProcess,
            MemberBackend::Ganja => BackendView::Ganja,
            MemberBackend::Codex => BackendView::Codex,
            MemberBackend::Agy => BackendView::Agy,
            MemberBackend::Grok => BackendView::Grok,
            MemberBackend::Foreign(name) => BackendView::Foreign(name@),
        }
    }
}

impl Clone for MemberBackend {
    fn clone(&self) -> (backend: MemberBackend)
        ensures
            backend@ == self@,
    {
        match self {
            MemberBackend::InProcess => MemberBackend::InProcess,
            MemberBackend::Ganja => MemberBackend::Ganja,
            MemberBackend::Codex => MemberBackend::Codex,
            MemberBackend::Agy => MemberBackend::Agy,
            MemberBackend::Grok => MemberBackend::Grok,
            MemberBackend::Foreign(name) => MemberBackend::Foreign(name.clone()),
        }
    }
}

impl MemberBackend {
    /// Whether two surfaces are the same.
    fn same(&self, other: &MemberBackend) -> (r: bool)
        ensures
            r == (self@ == other@),
    {
        match (self, other) {
            (MemberBackend::InProcess, MemberBackend::InProcess) => true,
            (MemberBackend::Ganja, MemberBackend::Ganja) => true,
            (MemberBackend::Codex, MemberBackend::Codex) => true,
            (MemberBackend::Agy, MemberBackend::Agy) => true,
            (MemberBackend::Grok, MemberBackend::Grok) => true,
            (MemberBackend::Foreign(a), MemberBackend::Foreign(b)) => str_eq(a, b),
            _ => false,
        }
    }
}

impl BackendView {
    /// How a member's surface is spelled on its row: as the argument that asks
    /// for it is.
    pub open spec fn spelled(self) -> Seq<char> {
        match self {
            BackendView::InProcess => "in-process"@,
            BackendView::Ganja => "ganja"@,
            BackendView::Codex => "codex"@,
            BackendView::Agy => "agy"@,
            BackendView::Grok => "grok"@,
            BackendView::Foreign(name) => name,
        }
    }

    /// Whether a member on this surface reads the team's task list.
    pub open spec fn shares(self) -> bool {
        self is InProcess || self is Ganja
    }
}

/// How a member's surface is spelled on its row; see
/// [`BackendView::spelled`].
pub fn backend_label(backend: &MemberBackend) -> (s: &str)
    ensures
        s@ == backend@.spelled(),
{
    match backend {
        MemberBackend::InProcess => "in-process",
        MemberBackend::Ganja => "ganja",
        MemberBackend::Codex => "codex",
        MemberBackend::Agy => "agy",
        MemberBackend::Grok => "grok",
        MemberBackend::Foreign(name) => name.as_str(),
    }
}

/// Whether a member running on `backend` reads the same list the dialog draws:
/// another program keeps a list of its own.
pub fn shares_the_list(backend: &MemberBackend) -> (r: bool)
    ensures
        r == backend@.shares(),
{
    match backend {
        MemberBackend::InProcess | MemberBackend::Ganja => true,
        MemberBackend::Codex | MemberBackend::Agy | MemberBackend::Grok
        | MemberBackend::Foreign(_) => false,
    }
}

/// One member as the engine reports it.
#[derive(Clone, Debug, PartialEq, Eq)]
pub struct MemberView {
    pub name: String,
    pub agent_id: String,
    pub backend: MemberBackend,
    pub color: Option<String>,
    pub is_lead: bool,
    pub recent_calls: Vec<String>,
}

/// A whole team as the engine reports it.
#[derive(Clone, Debug, PartialEq, Eq)]
pub struct TeamView {
    pub team: String,
    pub lead: String,
    pub members: Vec<MemberView>,
}

/// One member of the team, as the dialog shows it.
#[derive(Clone, Debug, PartialEq, Eq)]
pub struct Row {
    /// The bare member name, which is also what a chosen action names.
    pub name: String,
    /// The surface it runs on.
    pub backend: MemberBackend,
    /// Whether it is the team's lead, which is to say this session.
    pub is_lead: bool,
    /// The colour it was assigned, where one was.
    pub color: Option<String>,
    /// One-line summaries of what it most recently did, newest last.
    pub recent: Vec<String>,
}

/// A row as the contracts speak of it.
pub struct RowView {
    pub name: Seq<char>,
    pub backend: BackendView,
    pub is_lead: bool,
    pub color: Option<Seq<char>>,
    pub recent: Seq<Seq<char>>,
}

impl View for Row {
    type V = RowView;

    open spec fn view(&self) -> RowView {
        RowView {
            name: self.name@,
            backend: self.backend@,
            is_lead: self.is_lead,
            color: spell::seen(self.color),
            recent: text::texts(self.recent@),
        }
    }
}

/// The views of rows.
pub open spec fn row_views(rows: Seq<Row>) -> Seq<RowView> {
    Seq::new(rows.len(), |i: int| rows[i]@)
}

/// One member as the dialog shows it.
pub open spec fn row_of(member: MemberView) -> RowView {
    RowView {
        name: member.name@,
        backend: member.backend@,
        is_lead: member.is_lead,
        color: spell::seen(member.color),
        recent: text::texts(member.recent_calls@),
    }
}

/// Of the members, those that are the lead, or those that are not, in order.
pub open spec fn rows_where(members: Seq<MemberView>, lead: bool) -> Seq<RowView>
    decreases members.len(),
{
    if members.len() == 0 {
        Seq::empty()
    } else {
        let front = rows_where(members.drop_last(), lead);
        if members.last().is_lead == lead {
            front.push(row_of(members.last()))
        } else {
            front
        }
    }
}

/// A copy of strings.
fn copies(strings: &Vec<String>) -> (out: Vec<String>)
    ensures
        text::texts(out@) == text::texts(strings@),
{
    let mut out: Vec<String> = Vec::new();
    let mut i: usize = 0;
    while i < strings.len()
        invariant
            i <= strings@.len(),
            text::texts(out@) =~= text::texts(strings@).take(i as int),
        decreases strings.len() - i,
    {
        let ghost before = text::texts(out@);
        out.push(strings[i].clone());
        assert(text::texts(out@) =~= before.push(strings@[i as int]@));
        i += 1;
    }
    assert(text::texts(out@) =~= text::texts(strings@));
    out
}

impl Row {
    /// One member, as this dialog shows it.
    fn of(member: &MemberView) -> (row: Row)
        ensures
            row@ == row_of(*member),
    {
        Row {
            name: member.name.clone(),
            backend: member.backend.clone(),
            is_lead: member.is_lead,
            color: copied(&member.color),
            recent: copies(&member.recent_calls),
        }
    }

    /// Whether two rows show the same.
    fn same(&self, other: &Row) -> (r: bool)
        ensures
            r == (self@ == other@),
    {
        same_option(&self.color, &other.color) && self.backend.same(&other.backend) && self.is_lead
            == other.is_lead && str_eq(&self.name, &other.name) && same_strings(
            &self.recent,
            &other.recent,
        )
    }
}

fn same_option(a: &Option<String>, b: &Option<String>) -> (r: bool)
    ensures
        r == (spell::seen(*a) == spell::seen(*b)),
{
    match (a, b) {
        (Some(a), Some(b)) => str_eq(a, b),
        (None, None) => true,
        _ => false,
    }
}

fn same_strings(a: &Vec<String>, b: &Vec<String>) -> (r: bool)
    ensures
        r == (text::texts(a@) == text::texts(b@)),
{
    if a.len() != b.len() {
        assert(text::texts(a@).len() != text::texts(b@).len());
        return false;
    }
    let mut i: usize = 0;
    while i < a.len()
        invariant
            i <= a@.len(),
            a@.len() == b@.len(),
            forall|k: int| 0 <= k < i ==> text::texts(a@)[k] == text::texts(b@)[k],
        decreases a.len() - i,
    {
        if !str_eq(&a[i], &b[i]) {
            assert(text::texts(a@)[i as int] != text::texts(b@)[i as int]);
            return false;
        }
        assert(text::texts(a@)[i as int] == text::texts(b@)[i as int]);
        i += 1;
    }
    assert(text::texts(a@) =~= text::texts(b@));
    true
}

/// A whole team as the dialog shows it: the lead first, because it is the row a
/// person looks for to know which session they are in, and the members in the
/// order they were reported in otherwise.
pub fn rows(view: &TeamView) -> (out: Vec<Row>)
    ensures
        row_views(out@) == rows_where(view.members@, true) + rows_where(view.members@, false),
{
    let mut out: Vec<Row> = Vec::new();
    push_where(&mut out, &view.members, true);
    push_where(&mut out, &view.members, false);
    assert(row_views(out@) =~= rows_where(view.members@, true) + rows_where(view.members@, false));
    out
}

/// Adds the rows of the members that are the lead, or of those that are not.
fn push_where(out: &mut Vec<Row>, members: &Vec<MemberView>, lead: bool)
    ensures
        row_views(final(out)@) == row_views(old(out)@) + rows_where(members@, lead),
{
    let ghost was = row_views(out@);
    let mut i: usize = 0;
    assert(was + rows_where(members@.take(0), lead) =~= was);
    while i < members.len()
        invariant
            i <= members@.len(),
            row_views(out@) == was + rows_where(members@.take(i as int), lead),
        decreases members.len() - i,
    {
        let ghost before = row_views(out@);
        assert(members@.take(i + 1).drop_last() =~= members@.take(i as int));
        if members[i].is_lead == lead {
            out.push(Row::of(&members[i]));
            assert(row_views(out@) =~= before.push(row_of(members@[i as int])));
        }
        assert(row_views(out@) =~= was + rows_where(members@.take(i + 1), lead));
        i += 1;
    }
    assert(members@.take(i as int) =~= members@);
}

proof fn lemma_rows_where(members: Seq<MemberView>, lead: bool)
    ensures
        forall|i: int|
            0 <= i < rows_where(members, lead).len() ==> (#[trigger] rows_where(members, lead)[i]).is_lead
                == lead,
    decreases members.len(),
{
    if members.len() > 0 {
        lemma_rows_where(members.drop_last(), lead);
    }
}

proof fn lemma_rows_counted(members: Seq<MemberView>)
    ensures
        rows_where(members, true).len() + rows_where(members, false).len() == members.len(),
    decreases members.len(),
{
    if members.len() > 0 {
        lemma_rows_counted(members.drop_last());
    }
}

/// However the members were reported, every one of them has its row, and no row
/// of a lead stands behind one of a member that is not.
pub proof fn law_the_lead_comes_first(members: Seq<MemberView>, i: int, j: int)
    requires
        0 <= i <= j < (rows_where(members, true) + rows_where(members, false)).len(),
        (rows_where(members, true) + rows_where(members, false))[j].is_lead,
    ensures
        (rows_where(members, true) + rows_where(members, false))[i].is_lead,
        (rows_where(members, true) + rows_where(members, false)).len() == members.len(),
{
    lemma_rows_where(members, true);
    lemma_rows_where(members, false);
    lemma_rows_counted(members);
    let all = rows_where(members, true) + rows_where(members, false);
    if j >= rows_where(members, true).len() {
        assert(all[j] == rows_where(members, false)[j - rows_where(members, true).len()]);
    }
}

/// A spawn line as the grammar reads it.
#[derive(Clone, Debug, PartialEq, Eq)]
pub struct TeamSpawn {
    pub name: String,
    pub backend: Option<String>,
    pub agent_type: Option<String>,
    pub prompt: String,
}

/// A spawn line as the contracts speak of it.
pub struct TeamSpawnView {
    pub name: Seq<char>,
    pub backend: Option<Seq<char>>,
    pub agent_type: Option<Seq<char>>,
    pub prompt: Seq<char>,
}

impl View for TeamSpawn {
    type V = TeamSpawnView;

    open spec fn view(&self) -> TeamSpawnView {
        TeamSpawnView {
            name: self.name@,
            backend: spell::seen(self.backend),
            agent_type: spell::seen(self.agent_type),
            prompt: self.prompt@,
        }
    }
}

/// The request that starts a teammate.
#[derive(Clone, Debug, PartialEq, Eq)]
pub struct TeammateSpawn {
    pub name: String,
    /// The surface, as it was typed.
    pub backend: Option<String>,
    pub agent_type: String,
    pub prompt: String,
}

/// A request as the contracts speak of it.
pub struct TeammateSpawnView {
    pub name: Seq<char>,
    pub backend: Option<Seq<char>>,
    pub agent_type: Seq<char>,
    pub prompt: Seq<char>,
}

impl View for TeammateSpawn {
    type V = TeammateSpawnView;

    open spec fn view(&self) -> TeammateSpawnView {
        TeammateSpawnView {
            name: self.name@,
            backend: spell::seen(self.backend),
            agent_type: self.agent_type@,
            prompt: self.prompt@,
        }
    }
}

/// The request a spawn line asks for: as typed, with the general-purpose agent
/// kind where the line names none.
pub open spec fn request_for(line: TeamSpawnView) -> TeammateSpawnView {
    TeammateSpawnView {
        name: line.name,
        backend: line.backend,
        agent_type: match line.agent_type {
            Some(kind) => kind,
            None => general(),
        },
        prompt: line.prompt,
    }
}

/// The request a spawn line asks for; see [`request_for`].
pub fn spawn_request(line: &TeamSpawn) -> (request: TeammateSpawn)
    ensures
        request@ == request_for(line@),
{
    TeammateSpawn {
        name: line.name.clone(),
        backend: copied(&line.backend),
        agent_type: match &line.agent_type {
            Some(kind) => kind.clone(),
            None => "general".to_string(),
        },
        prompt: line.prompt.clone(),
    }
}

/// What a submitted spawn came back with, as the notice line needs it.
#[derive(Clone, Debug, PartialEq, Eq)]
pub struct Spawned {
    /// The name the team really gave it.
    pub name: String,
    /// Where the spawn prompt was persisted verbatim.
    pub prompt_path: String,
}

impl Spawned {
    /// The one sentence a finished spawn is reported with: who started, and
    /// where the prompt now sits in cleartext.
    pub open spec fn sentence(self) -> Seq<char> {
        self.name@ + " started \u{b7} prompt persisted in cleartext at "@ + self.prompt_path@
    }

    /// The one sentence a finished spawn is reported with; see
    /// [`Spawned::sentence`].
    pub fn notice(&self) -> (s: String)
        ensures
            s@ == self.sentence(),
    {
        let mut s = self.name.clone();
        s.push_str(" started \u{b7} prompt persisted in cleartext at ");
        s.push_str(&self.prompt_path);
        s
    }
}

/// What Enter resolved to: everything the caller has to act on.
#[derive(Clone, Debug, PartialEq, Eq)]
pub enum Effect {
    /// Start a teammate.
    Spawn {
        request: TeammateSpawn,
        /// The words as typed into the step.
        typed: String,
    },
    /// Send what was typed to one member.
    Message { to: String, text: String },
    /// Ask the named member to shut down.
    Shutdown(String),
}

/// An effect as the contracts speak of it.
pub enum EffectView {
    Spawn { request: TeammateSpawnView, typed: Seq<char> },
    Message { to: Seq<char>, text: Seq<char> },
    Shutdown(Seq<char>),
}

impl View for Effect {
    type V = EffectView;

    open spec fn view(&self) -> EffectView {
        match self {
            Effect::Spawn { request, typed } => EffectView::Spawn {
                request: request@,
                typed: typed@,
            },
            Effect::Message { to, text } => EffectView::Message { to: to@, text: text@ },
            Effect::Shutdown(name) => EffectView::Shutdown(name@),
        }
    }
}

/// The view of an optional effect.
pub open spec fn effect_seen(effect: Option<Effect>) -> Option<EffectView> {
    match effect {
        Some(effect) => Some(effect@),
        None => None,
    }
}

/// Where a task of the shared list is.
#[derive(Clone, Copy, Debug, PartialEq, Eq, Structural)]
pub enum TaskStatus {
    Pending,
    InProgress,
    Completed,
}

impl TaskStatus {
    /// How a status is spelled.
    pub open spec fn spelled(self) -> Seq<char> {
        match self {
            TaskStatus::Pending => "pending"@,
            TaskStatus::InProgress => "in_progress"@,
            TaskStatus::Completed => "completed"@,
        }
    }

    /// How a status is spelled.
    pub fn as_str(self) -> (s: &'static str)
        ensures
            s@ == self.spelled(),
    {
        match self {
            TaskStatus::Pending => "pending",
            TaskStatus::InProgress => "in_progress",
            TaskStatus::Completed => "completed",
        }
    }
}

/// One task of the shared list.
#[derive(Clone, Debug, PartialEq, Eq)]
pub struct Summary {
    pub id: String,
    pub subject: String,
    pub status: TaskStatus,
    /// The member that holds it; empty where nobody does.
    pub owner: String,
    /// The tasks it waits on.
    pub blocked_by: Vec<String>,
}

/// A task as the contracts speak of it.
pub struct SummaryView {
    pub id: Seq<char>,
    pub subject: Seq<char>,
    pub status: TaskStatus,
    pub owner: Seq<char>,
    pub blocked_by: Seq<Seq<char>>,
}

impl View for Summary {
    type V = SummaryView;

    open spec fn view(&self) -> SummaryView {
        SummaryView {
            id: self.id@,
            subject: self.subject@,
            status: self.status,
            owner: self.owner@,
            blocked_by: text::texts(self.blocked_by@),
        }
    }
}

/// The views of tasks.
pub open spec fn task_views(tasks: Seq<Summary>) -> Seq<SummaryView> {
    Seq::new(tasks.len(), |i: int| tasks[i]@)
}

impl Summary {
    /// Whether two tasks show the same.
    fn same(&self, other: &Summary) -> (r: bool)
        ensures
            r == (self@ == other@),
    {
        self.status == other.status && str_eq(&self.id, &other.id) && str_eq(
            &self.subject,
            &other.subject,
        ) && str_eq(&self.owner, &other.owner) && same_strings(&self.blocked_by, &other.blocked_by)
    }
}

fn same_rows(a: &Vec<Row>, b: &Vec<Row>) -> (r: bool)
    ensures
        r == (row_views(a@) == row_views(b@)),
{
    if a.len() != b.len() {
        assert(row_views(a@).len() != row_views(b@).len());
        return false;
    }
    let mut i: usize = 0;
    while i < a.len()
        invariant
            i <= a@.len(),
            a@.len() == b@.len(),
            forall|k: int| 0 <= k < i ==> row_views(a@)[k] == row_views(b@)[k],
        decreases a.len() - i,
    {
        if !a[i].same(&b[i]) {
            assert(row_views(a@)[i as int] != row_views(b@)[i as int]);
            return false;
        }
        assert(row_views(a@)[i as int] == row_views(b@)[i as int]);
        i += 1;
    }
    assert(row_views(a@) =~= row_views(b@));
    true
}

fn same_tasks(a: &Vec<Summary>, b: &Vec<Summary>) -> (r: bool)
    ensures
        r == (task_views(a@) == task_views(b@)),
{
    if a.len() != b.len() {
        assert(task_views(a@).len() != task_views(b@).len());
        return false;
    }
    let mut i: usize = 0;
    while i < a.len()
        invariant
            i <= a@.len(),
            a@.len() == b@.len(),
            forall|k: int| 0 <= k < i ==> task_views(a@)[k] == task_views(b@)[k],
        decreases a.len() - i,
    {
        if !a[i].same(&b[i]) {
            assert(task_views(a@)[i as int] != task_views(b@)[i as int]);
            return false;
        }
        assert(task_views(a@)[i as int] == task_views(b@)[i as int]);
        i += 1;
    }
    assert(task_views(a@) =~= task_views(b@));
    true
}

/// What Enter on a member row offers.
#[derive(Clone, Copy, Debug, PartialEq, Eq, Structural)]
pub enum RowAction {
    /// Write a message into that member's inbox.
    Message,
    /// Ask it to shut down.
    Shutdown,
}

impl RowAction {
    /// What the action step shows for it.
    pub open spec fn spelled(self) -> Seq<char> {
        match self {
            RowAction::Message => "Message\u{2026}"@,
            RowAction::Shutdown => "Shutdown"@,
        }
    }

    /// What the action step shows for it.
    fn label(self) -> (s: &'static str)
        ensures
            s@ == self.spelled(),
    {
        match self {
            RowAction::Message => "Message\u{2026}",
            RowAction::Shutdown => "Shutdown",
        }
    }
}

/// The actions a row offers: none on the lead's, which is this session.
pub open spec fn offered(row: RowView) -> Seq<RowAction> {
    if row.is_lead {
        Seq::empty()
    } else {
        seq![RowAction::Message, RowAction::Shutdown]
    }
}

/// The actions a member row offers; see [`offered`].
fn actions(row: &Row) -> (out: Vec<RowAction>)
    ensures
        out@ == offered(row@),
{
    let out: Vec<RowAction> = if row.is_lead {
        Vec::new()
    } else {
        vec![RowAction::Message, RowAction::Shutdown]
    };
    assert(out@ =~= offered(row@));
    out
}

/// What a free-text step is collecting.
#[derive(Clone, Debug, PartialEq, Eq)]
enum Asking {
    /// A spawn line.
    Spawn,
    /// A message for the named member.
    Message(String),
}

/// What a free-text step is collecting, as the contracts speak of it.
pub enum AskingView {
    Spawn,
    Message(Seq<char>),
}

impl View for Asking {
    type V = AskingView;

    closed spec fn view(&self) -> AskingView {
        match self {
            Asking::Spawn => AskingView::Spawn,
            Asking::Message(member) => AskingView::Message(member@),
        }
    }
}

/// Which of the dialog's steps is on screen.
#[derive(Clone, Debug, PartialEq, Eq)]
enum Step {
    /// Choosing a member row or the Spawn row under them.
    Members,
    /// Choosing one of a named member's actions: by name, because the rows move
    /// under the cursor with every poll.
    Actions { member: String, option: usize },
    /// Typing the text a step needs.
    Input { asking: Asking, buffer: String },
}

/// A step as the contracts speak of it.
pub enum StepView {
    Members,
    Actions { member: Seq<char>, option: nat },
    Input { asking: AskingView, buffer: Seq<char> },
}

impl View for Step {
    type V = StepView;

    closed spec fn view(&self) -> StepView {
        match self {
            Step::Members => StepView::Members,
            Step::Actions { member, option } => StepView::Actions {
                member: member@,
                option: *option as nat,
            },
            Step::Input { asking, buffer } => StepView::Input { asking: asking@, buffer: buffer@ },
        }
    }
}

/// The team, which row the cursor is on, which step is showing, and what the
/// last action had to say.
#[derive(Clone, Debug)]
pub struct Team {
    rows: Vec<Row>,
    /// The team's shared task list, in the order it arrived in.
    tasks: Vec<Summary>,
    /// Index over the member rows and the Spawn row after them.
    selected: usize,
    step: Step,
    /// A refused spawn line, a spawn's cleartext notice, or whatever the caller
    /// had to say about the action it just ran.
    notice: Option<String>,
    /// Whether a spawn is still starting.
    busy: bool,
}

/// The dialog as the contracts speak of it.
#[verifier::ext_equal]
pub struct TeamState {
    pub rows: Seq<RowView>,
    pub tasks: Seq<SummaryView>,
    pub selected: nat,
    pub step: StepView,
    pub notice: Option<Seq<char>>,
    pub busy: bool,
}

impl View for Team {
    type V = TeamState;

    closed spec fn view(&self) -> TeamState {
        TeamState {
            rows: row_views(self.rows@),
            tasks: task_views(self.tasks@),
            selected: self.selected as nat,
            step: self.step@,
            notice: spell::seen(self.notice),
            busy: self.busy,
        }
    }
}

/// What a spawn line was read as, as the contracts speak of it.
pub open spec fn reading(read: Option<Result<TeamSpawn, String>>) -> Option<
    Result<TeamSpawnView, Seq<char>>,
> {
    match read {
        Some(Ok(line)) => Some(Ok(line@)),
        Some(Err(refusal)) => Some(Err(refusal@)),
        None => None,
    }
}

/// The first of the rows from `i` on that carries a name.
pub open spec fn named_from(rows: Seq<RowView>, name: Seq<char>, i: nat) -> Option<RowView>
    decreases rows.len() - i,
{
    if i >= rows.len() {
        None
    } else if rows[i as int].name == name {
        Some(rows[i as int])
    } else {
        named_from(rows, name, i + 1)
    }
}

impl TeamState {
    /// The dialog over a team, the cursor on its first position.
    pub open spec fn opened(rows: Seq<RowView>, tasks: Seq<SummaryView>) -> TeamState {
        TeamState { rows, tasks, selected: 0, step: StepView::Members, notice: None, busy: false }
    }

    /// What every dialog keeps: the cursor is on a member or on the Spawn row,
    /// and an action step is about a member of the roster and on one of its
    /// actions.
    pub open spec fn valid(self) -> bool {
        &&& self.selected <= self.rows.len()
        &&& self.step matches StepView::Actions { member, option } ==> {
            &&& self.named(member) is Some
            &&& (option == 0 || option < offered(self.named(member).unwrap()).len())
        }
    }

    /// The row a name belongs to.
    pub open spec fn named(self, name: Seq<char>) -> Option<RowView> {
        named_from(self.rows, name, 0)
    }

    /// The step a poll leaves: an action step whose member is gone drops back
    /// to the roster.
    pub open spec fn kept_step(self, rows: Seq<RowView>) -> StepView {
        match self.step {
            StepView::Actions { member, option } => if named_from(rows, member, 0) is None {
                StepView::Members
            } else {
                self.step
            },
            _ => self.step,
        }
    }

    /// The dialog after a poll found `rows` and `tasks`: the cursor and the
    /// step stay, the cursor reclamped.
    pub open spec fn refreshed(self, rows: Seq<RowView>, tasks: Seq<SummaryView>) -> TeamState {
        TeamState {
            rows,
            tasks,
            selected: if self.selected <= rows.len() {
                self.selected
            } else {
                rows.len()
            },
            step: self.kept_step(rows),
            ..self
        }
    }

    /// Whether a poll changed anything that shows: the roster, the list, or a
    /// step that dropped.
    pub open spec fn moved_by(self, rows: Seq<RowView>, tasks: Seq<SummaryView>) -> bool {
        rows != self.rows || tasks != self.tasks || self.kept_step(rows) != self.step
    }

    /// The dialog after the cursor moved by `delta` in whichever list shows.
    pub open spec fn moved(self, delta: int) -> TeamState {
        match self.step {
            StepView::Members => TeamState {
                selected: layout::stepped(self.selected, delta, self.rows.len()),
                ..self
            },
            StepView::Actions { member, option } => TeamState {
                step: StepView::Actions {
                    member,
                    option: layout::clamped_to(
                        option,
                        delta,
                        match self.named(member) {
                            Some(row) => offered(row).len(),
                            None => 0,
                        },
                    ),
                },
                ..self
            },
            StepView::Input { asking, buffer } => self,
        }
    }

    /// The dialog with another text in its free-text step, where that shows.
    pub open spec fn edited(self, text: spec_fn(Seq<char>) -> Seq<char>) -> TeamState {
        match self.step {
            StepView::Input { asking, buffer } => TeamState {
                step: StepView::Input { asking, buffer: text(buffer) },
                ..self
            },
            _ => self,
        }
    }

    /// Whether the free-text step owns the keyboard.
    pub open spec fn typing(self) -> bool {
        self.step is Input
    }

    /// The dialog after Esc.
    pub open spec fn cancelled(self) -> TeamState {
        if self.typing() {
            TeamState { step: StepView::Members, notice: None, ..self }
        } else {
            self
        }
    }

    /// The spawn line Enter would submit now, without the blanks around it;
    /// none where Enter means something else, or where nothing was typed.
    pub open spec fn pending_line(self) -> Option<Seq<char>> {
        match self.step {
            StepView::Input { asking: AskingView::Spawn, buffer } => if text::trim(buffer).len()
                == 0 {
                None
            } else {
                Some(text::trim(buffer))
            },
            _ => None,
        }
    }

    /// Enter, wherever the dialog is: the dialog it leaves and the effect it
    /// resolves to. `read` is what the pending spawn line was read as.
    pub open spec fn submitted(self, read: Option<Result<TeamSpawnView, Seq<char>>>) -> (
        TeamState,
        Option<EffectView>,
    ) {
        match self.step {
            StepView::Members => (self.entered(), None),
            StepView::Actions { member, option } => self.acted(member, option),
            StepView::Input { asking, buffer } => self.sent(asking, text::trim(buffer), read),
        }
    }

    /// Enter on the member list: a row with actions opens them, one without
    /// does nothing, and the Spawn row opens its free-text step unless a spawn
    /// is still starting.
    pub open spec fn entered(self) -> TeamState {
        if self.selected < self.rows.len() {
            if offered(self.rows[self.selected as int]).len() == 0 {
                self
            } else {
                TeamState {
                    step: StepView::Actions {
                        member: self.rows[self.selected as int].name,
                        option: 0,
                    },
                    ..self
                }
            }
        } else if self.busy {
            TeamState { notice: Some(busy_notice()), ..self }
        } else {
            TeamState {
                step: StepView::Input { asking: AskingView::Spawn, buffer: Seq::empty() },
                ..self
            }
        }
    }

    /// Enter on one of a member's actions.
    pub open spec fn acted(self, member: Seq<char>, option: nat) -> (
        TeamState,
        Option<EffectView>,
    ) {
        match self.named(member) {
            Some(row) => if option >= offered(row).len() {
                (self, None)
            } else {
                match offered(row)[option as int] {
                    RowAction::Shutdown => (
                        TeamState { step: StepView::Members, ..self },
                        Some(EffectView::Shutdown(member)),
                    ),
                    RowAction::Message => (
                        TeamState {
                            step: StepView::Input {
                                asking: AskingView::Message(member),
                                buffer: Seq::empty(),
                            },
                            ..self
                        },
                        None,
                    ),
                }
            },
            None => (self, None),
        }
    }

    /// Enter on a typed text: nothing where nothing was typed; a message is
    /// sent; a spawn is asked for where its line was read, and where it was
    /// refused the refusal goes on the notice line and the text stays.
    pub open spec fn sent(
        self,
        asking: AskingView,
        typed: Seq<char>,
        read: Option<Result<TeamSpawnView, Seq<char>>>,
    ) -> (TeamState, Option<EffectView>) {
        if typed.len() == 0 {
            (self, None)
        } else {
            match asking {
                AskingView::Message(member) => (
                    TeamState { step: StepView::Members, ..self },
                    Some(EffectView::Message { to: member, text: typed }),
                ),
                AskingView::Spawn => match read {
                    Some(Ok(line)) => (
                        TeamState { step: StepView::Members, ..self },
                        Some(EffectView::Spawn { request: request_for(line), typed }),
                    ),
                    Some(Err(refusal)) => (TeamState { notice: Some(refusal), ..self }, None),
                    None => (self, None),
                },
            }
        }
    }
}

proof fn lemma_named(rows: Seq<RowView>, i: int, from: nat)
    requires
        from <= i < rows.len(),
    ensures
        named_from(rows, rows[i].name, from) is Some,
        named_from(rows, rows[i].name, from).unwrap().name == rows[i].name,
    decreases i - from,
{
    if rows[from as int].name != rows[i].name {
        lemma_named(rows, i, from + 1);
    }
}

/// Whatever keys are pressed and whatever the polls bring, the cursor stays on
/// a member or on the Spawn row, and an action step stays about a member of the
/// roster. (A poll that turned that member into the lead would leave the step
/// on an action the lead does not offer; a poll that does is left out.)
pub proof fn law_the_dialog_stays_valid(
    team: TeamState,
    rows: Seq<RowView>,
    tasks: Seq<SummaryView>,
    delta: int,
    read: Option<Result<TeamSpawnView, Seq<char>>>,
)
    requires
        team.valid(),
        team.step matches StepView::Actions { member, option } ==> (named_from(rows, member, 0)
            matches Some(row) ==> !row.is_lead),
    ensures
        TeamState::opened(rows, tasks).valid(),
        team.refreshed(rows, tasks).valid(),
        team.moved(delta).valid(),
        team.cancelled().valid(),
        team.submitted(read).0.valid(),
{
    if team.step is Members && team.selected < team.rows.len() {
        lemma_named(team.rows, team.selected as int, 0);
    }
    if let StepView::Actions { member, option } = team.step {
        assert(offered(team.named(member).unwrap()).len() == 0 || offered(
            team.named(member).unwrap(),
        ).len() == 2);
    }
}

/// Polling again and finding the same moves nothing and changes nothing.
pub proof fn law_the_same_poll_moves_nothing(
    team: TeamState,
    rows: Seq<RowView>,
    tasks: Seq<SummaryView>,
)
    ensures
        !team.refreshed(rows, tasks).moved_by(rows, tasks),
        team.refreshed(rows, tasks).refreshed(rows, tasks) == team.refreshed(rows, tasks),
{
}

/// A poll that moves nothing leaves the dialog as it was.
pub proof fn law_an_unmoved_dialog_is_unchanged(
    team: TeamState,
    rows: Seq<RowView>,
    tasks: Seq<SummaryView>,
)
    requires
        team.valid(),
        !team.moved_by(rows, tasks),
    ensures
        team.refreshed(rows, tasks) == team,
{
}

/// An action is about the member it was opened for, however the roster moved
/// since: Enter names that member or nobody.
pub proof fn law_an_action_names_its_member(
    team: TeamState,
    rows: Seq<RowView>,
    tasks: Seq<SummaryView>,
    delta: int,
    read: Option<Result<TeamSpawnView, Seq<char>>>,
    member: Seq<char>,
)
    requires
        team.step matches StepView::Actions { member: whose, option } && whose == member,
    ensures
        team.refreshed(rows, tasks).moved(delta).submitted(read).1 matches Some(effect)
            ==> effect == EffectView::Shutdown(member),
        team.refreshed(rows, tasks).step matches StepView::Actions { member: whose, option }
            ==> whose == member,
        team.refreshed(rows, tasks).submitted(read).0.step matches StepView::Input {
            asking,
            buffer,
        } ==> (asking is Message ==> asking == AskingView::Message(member)),
{
}

/// The lead's row offers nothing: Enter on it leaves the dialog as it was.
pub proof fn law_the_lead_offers_nothing(
    team: TeamState,
    read: Option<Result<TeamSpawnView, Seq<char>>>,
)
    requires
        team.step is Members,
        team.selected < team.rows.len(),
        team.rows[team.selected as int].is_lead,
    ensures
        team.submitted(read) == (team, None::<EffectView>),
{
}

/// Nothing a poll brings sends anything, and neither does Esc: what was typed
/// is abandoned, and the next Esc closes the dialog.
pub proof fn law_esc_abandons_what_was_typed(team: TeamState)
    ensures
        !team.cancelled().typing(),
        team.cancelled().cancelled() == team.cancelled(),
        team.cancelled().rows == team.rows,
        team.cancelled().tasks == team.tasks,
        team.cancelled().selected == team.selected,
{
}

/// A refused spawn line says why and keeps the step and what was typed.
pub proof fn law_a_refused_line_is_kept(team: TeamState, refusal: Seq<char>)
    requires
        team.pending_line() is Some,
    ensures
        team.submitted(Some(Err(refusal))).0.step == team.step,
        team.submitted(Some(Err(refusal))).0.notice == Some(refusal),
        team.submitted(Some(Err(refusal))).1 is None,
{
}

impl Team {
    /// Opens the dialog over `rows` and the team's `tasks`, the cursor on the
    /// first member, or on the Spawn row when the team holds nobody.
    pub fn new(rows: Vec<Row>, tasks: Vec<Summary>) -> (t: Team)
        ensures
            t@ == TeamState::opened(row_views(rows@), task_views(tasks@)),
            t@.valid(),
    {
        Team { rows, tasks, selected: 0, step: Step::Members, notice: None, busy: false }
    }

    /// Replaces the rows and the task list with a fresh poll, keeping the
    /// cursor and the step where they were. Answers whether anything changed.
    pub fn refresh(&mut self, rows: Vec<Row>, tasks: Vec<Summary>) -> (moved: bool)
        ensures
            final(self)@ == old(self)@.refreshed(row_views(rows@), task_views(tasks@)),
            moved == old(self)@.moved_by(row_views(rows@), task_views(tasks@)),
    {
        let mut moved = !same_rows(&rows, &self.rows) || !same_tasks(&tasks, &self.tasks);
        self.rows = rows;
        self.tasks = tasks;
        if self.selected > self.rows.len() {
            self.selected = self.rows.len();
        }
        let orphaned = match &self.step {
            Step::Actions { member, .. } => self.row_named(member).is_none(),
            Step::Members | Step::Input { .. } => false,
        };
        if orphaned {
            self.step = Step::Members;
            moved = true;
        }
        moved
    }

    /// Sets the notice line the next frame shows.
    pub fn set_notice(&mut self, notice: String)
        ensures
            final(self)@ == (TeamState { notice: Some(notice@), ..old(self)@ }),
    {
        self.notice = Some(notice);
    }

    /// Says a spawn succeeded, and where its prompt now sits in cleartext.
    pub fn spawned(&mut self, outcome: &Spawned)
        ensures
            final(self)@ == (TeamState { notice: Some(outcome.sentence()), ..old(self)@ }),
    {
        self.notice = Some(outcome.notice());
    }

    /// Says whether a spawn is still starting, which dims the Spawn row and
    /// refuses a second one.
    pub fn set_busy(&mut self, busy: bool)
        ensures
            final(self)@ == (TeamState { busy, ..old(self)@ }),
    {
        self.busy = busy;
    }

    /// Whether a spawn is still starting.
    pub fn is_busy(&self) -> (r: bool)
        ensures
            r == self@.busy,
    {
        self.busy
    }

    /// Whether the free-text step currently owns the keyboard.
    pub fn is_typing(&self) -> (r: bool)
        ensures
            r == self@.typing(),
    {
        match self.step {
            Step::Input { .. } => true,
            _ => false,
        }
    }

    /// Whether the per-member action step is the one on screen.
    pub fn is_choosing_action(&self) -> (r: bool)
        ensures
            r == self@.step is Actions,
    {
        match self.step {
            Step::Actions { .. } => true,
            _ => false,
        }
    }

    /// What has been typed into the free-text step.
    pub fn input(&self) -> (r: Option<&str>)
        ensures
            match self@.step {
                StepView::Input { asking, buffer } => r is Some && r->0@ == buffer,
                _ => r is None,
            },
    {
        match &self.step {
            Step::Input { buffer, .. } => Some(buffer.as_str()),
            _ => None,
        }
    }

    /// The member under the cursor; none when the cursor is on the Spawn row.
    pub fn selected_member(&self) -> (r: Option<&Row>)
        ensures
            match r {
                Some(row) => self@.selected < self@.rows.len() && row@
                    == self@.rows[self@.selected as int],
                None => self@.selected >= self@.rows.len(),
            },
    {
        if self.selected < self.rows.len() {
            Some(&self.rows[self.selected])
        } else {
            None
        }
    }

    /// The row a name belongs to.
    fn row_named(&self, name: &str) -> (r: Option<&Row>)
        ensures
            match r {
                Some(row) => self@.named(name@) == Some(row@),
                None => self@.named(name@) is None,
            },
    {
        let mut i: usize = 0;
        while i < self.rows.len()
            invariant
                i <= self.rows@.len(),
                self@.rows == row_views(self.rows@),
                self@.named(name@) == named_from(self@.rows, name@, i as nat),
            decreases self.rows.len() - i,
        {
            if str_eq(&self.rows[i].name, name) {
                return Some(&self.rows[i]);
            }
            i += 1;
        }
        None
    }

    /// Moves whichever list is showing by `delta` rows.
    pub fn move_selection(&mut self, delta: isize)
        ensures
            final(self)@ == old(self)@.moved(delta as int),
    {
        let mut moved: Option<(String, usize)> = None;
        match &self.step {
            Step::Members => {},
            Step::Actions { member, option } => {
                let count: usize = match self.row_named(member) {
                    Some(row) => actions(row).len(),
                    None => 0,
                };
                moved = Some((member.clone(), clamped(*option, delta, count)));
            },
            Step::Input { .. } => {
                return;
            },
        }
        match moved {
            None => {
                self.selected = step(self.selected, delta, self.rows.len());
            },
            Some((member, option)) => {
                self.step = Step::Actions { member, option };
            },
        }
    }

    /// Adds a character while the free-text step owns the keyboard.
    pub fn push(&mut self, character: char)
        ensures
            final(self)@ == old(self)@.edited(|text: Seq<char>| text.push(character)),
    {
        match &mut self.step {
            Step::Input { asking, buffer } => {
                buffer.push(character);
            },
            _ => {},
        }
    }

    /// Takes the last character back off while the free-text step owns the
    /// keyboard.
    pub fn backspace(&mut self)
        ensures
            final(self)@ == old(self)@.edited(
                |text: Seq<char>|
                    if text.len() == 0 {
                        text
                    } else {
                        text.drop_last()
                    },
            ),
    {
        match &mut self.step {
            Step::Input { asking, buffer } => {
                let mut chars = to_chars(buffer);
                if chars.len() > 0 {
                    let last = chars.pop();
                }
                *buffer = from_chars(&chars);
            },
            _ => {},
        }
    }

    /// Esc: leaves the free-text step for the member list, abandoning what was
    /// typed. Answers whether the key was consumed; otherwise the dialog itself
    /// should close.
    pub fn cancel(&mut self) -> (consumed: bool)
        ensures
            consumed == old(self)@.typing(),
            final(self)@ == old(self)@.cancelled(),
    {
        if self.is_typing() {
            self.step = Step::Members;
            self.notice = None;
            return true;
        }
        false
    }

    /// The spawn line that Enter would submit now: what the caller's grammar
    /// has to read before [`Team::submit`].
    pub fn spawn_line(&self) -> (r: Option<String>)
        ensures
            spell::seen(r) == self@.pending_line(),
    {
        match &self.step {
            Step::Input { asking: Asking::Spawn, buffer } => {
                let typed = trim_chars(&to_chars(buffer));
                if typed.len() == 0 {
                    None
                } else {
                    Some(from_chars(&typed))
                }
            },
            _ => None,
        }
    }

    /// Enter, wherever the dialog is: steps forward where a step is what Enter
    /// means, and answers with the effect to run where a decision was made.
    /// `read` is what the line that [`Team::spawn_line`] names was read as, or
    /// why it was refused; it counts where there is such a line.
    pub fn submit(&mut self, read: Option<Result<TeamSpawn, String>>) -> (effect: Option<Effect>)
        ensures
            final(self)@ == old(self)@.submitted(reading(read)).0,
            effect_seen(effect) == old(self)@.submitted(reading(read)).1,
    {
        match &self.step {
            Step::Members => {
                if self.selected < self.rows.len() {
                    let offers = actions(&self.rows[self.selected]);
                    if offers.len() == 0 {
                        return None;
                    }
                    self.step = Step::Actions {
                        member: self.rows[self.selected].name.clone(),
                        option: 0,
                    };
                    return None;
                }
                if self.busy {
                    self.notice = Some(
                        "a teammate is already starting \u{b7} wait for it to finish, or Esc to close".to_string(),
                    );
                    return None;
                }
                self.step = Step::Input { asking: Asking::Spawn, buffer: String::new() };
                None
            },
            Step::Actions { member, option } => {
                let option: usize = *option;
                let member = member.clone();
                let offers = match self.row_named(&member) {
                    Some(row) => actions(row),
                    None => {
                        return None;
                    },
                };
                if option >= offers.len() {
                    return None;
                }
                match offers[option] {
                    RowAction::Shutdown => {
                        self.step = Step::Members;
                        Some(Effect::Shutdown(member))
                    },
                    RowAction::Message => {
                        self.step = Step::Input {
                            asking: Asking::Message(member),
                            buffer: String::new(),
                        };
                        None
                    },
                }
            },
            Step::Input { asking, buffer } => {
                let typed = trim_chars(&to_chars(buffer));
                if typed.len() == 0 {
                    return None;
                }
                let typed = from_chars(&typed);
                match asking {
                    Asking::Message(member) => {
                        let effect = Effect::Message { to: member.clone(), text: typed };
                        self.step = Step::Members;
                        Some(effect)
                    },
                    Asking::Spawn => match read {
                        Some(Ok(line)) => {
                            self.step = Step::Members;
                            Some(Effect::Spawn { request: spawn_request(&line), typed })
                        },
                        Some(Err(refusal)) => {
                            self.notice = Some(refusal);
                            None
                        },
                        None => None,
                    },
                }
            },
        }
    }
}

/// A text with every control character shown as the replacement character,
/// none dropped.
pub open spec fn shown(text: Seq<char>) -> Seq<char> {
    Seq::new(
        text.len(),
        |i: int|
            if text::control(text[i]) {
                '\u{fffd}'
            } else {
                text[i]
            },
    )
}

/// Shows every control character; see [`shown`].
pub fn printable(text: &str) -> (s: String)
    ensures
        s@ == shown(text@),
{
    let chars = to_chars(text);
    let mut s = String::new();
    let mut i: usize = 0;
    assert(s@ =~= shown(text@).take(0));
    while i < chars.len()
        invariant
            i <= chars@.len(),
            chars@ == text@,
            s@ == shown(text@).take(i as int),
        decreases chars.len() - i,
    {
        if is_control(chars[i]) {
            s.push('\u{fffd}');
        } else {
            s.push(chars[i]);
        }
        i += 1;
        assert(s@ =~= shown(text@).take(i as int));
    }
    assert(shown(text@).take(i as int) =~= shown(text@));
    s
}

/// How a task's owner is listed: by name, or by the word for a task nobody
/// holds.
pub open spec fn owner_shown(owner: Seq<char>) -> Seq<char> {
    if owner.len() == 0 {
        "unowned"@
    } else {
        owner
    }
}

/// How a task's owner is listed; see [`owner_shown`].
pub fn owner_label(owner: &str) -> (s: &str)
    ensures
        s@ == owner_shown(owner@),
{
    if owner.is_empty() {
        "unowned"
    } else {
        owner
    }
}

/// The widest of the first `n` texts.
pub open spec fn widest(texts: spec_fn(int) -> Seq<char>, n: nat) -> nat
    decreases n,
{
    if n == 0 {
        0
    } else {
        let front = widest(texts, (n - 1) as nat);
        let last = width::width_of(texts(n - 1));
        if last > front {
            last
        } else {
            front
        }
    }
}

/// What stands in front of a call hung under a row.
pub open spec fn result_marker() -> Seq<char> {
    "  \u{23bf} "@
}

/// The line that admits how many calls are not shown.
pub open spec fn earlier(hidden: nat) -> Seq<char> {
    result_marker() + "\u{2026} +"@ + text::decimal(hidden) + (if hidden == 1 {
        " earlier call"@
    } else {
        " earlier calls"@
    })
}

/// How many of a member's calls are not shown.
pub open spec fn hidden_calls(calls: Seq<Seq<char>>) -> nat {
    width::room(calls.len(), RING_LINES as nat)
}

/// A member's calls hung under its row: the newest, newest last, below a line
/// that admits the cut where there was one.
pub open spec fn ring(calls: Seq<Seq<char>>, columns: nat, theme: Theme) -> Seq<Seq<SpanView>> {
    let hidden = hidden_calls(calls);
    (if hidden > 0 {
        seq![layout::plain_line(layout::clipped(earlier(hidden), columns), theme.dim)]
    } else {
        Seq::empty()
    }) + Seq::new(
        (calls.len() - hidden) as nat,
        |i: int|
            layout::plain_line(
                layout::clipped(shown(result_marker() + calls[hidden + i]), columns),
                theme.dim,
            ),
    )
}

/// A member's calls hung under its row; see [`ring`].
fn ring_rows(calls: &Vec<String>, columns: usize, theme: &Theme) -> (lines: Vec<Line>)
    ensures
        style::line_views(lines@) == ring(text::texts(calls@), columns as nat, *theme),
{
    let ghost all = text::texts(calls@);
    let ghost whole = ring(all, columns as nat, *theme);
    let hidden: usize = if calls.len() >= RING_LINES {
        calls.len() - RING_LINES
    } else {
        0
    };
    let mut lines: Vec<Line> = Vec::new();
    let ghost mut offset: int = 0;
    assert(style::line_views(lines@) =~= whole.take(0));
    if hidden > 0 {
        let mut s = String::new();
        s.push_str("  \u{23bf} ");
        s.push_str("\u{2026} +");
        push_decimal(&mut s, hidden as u64);
        if hidden == 1 {
            s.push_str(" earlier call");
        } else {
            s.push_str(" earlier calls");
        }
        assert(s@ =~= earlier(hidden as nat));
        push_line(&mut lines, line(clip(&s, columns), theme.dim));
        proof {
            offset = 1;
        }
        assert(style::line_views(lines@) =~= whole.take(1));
    }
    let mut i: usize = hidden;
    while i < calls.len()
        invariant
            hidden <= i <= calls@.len(),
            all == text::texts(calls@),
            hidden == hidden_calls(all),
            whole == ring(all, columns as nat, *theme),
            offset == (if hidden > 0 {
                1int
            } else {
                0int
            }),
            style::line_views(lines@) == whole.take(offset + i - hidden),
        decreases calls.len() - i,
    {
        let mut s = String::new();
        s.push_str("  \u{23bf} ");
        s.push_str(&calls[i]);
        assert(s@ =~= result_marker() + all[i as int]);
        push_line(&mut lines, line(clip(&printable(&s), columns), theme.dim));
        assert(hidden + (i - hidden) == i);
        assert(whole[offset + i - hidden] == layout::plain_line(
            layout::clipped(shown(result_marker() + all[i as int]), columns as nat),
            theme.dim,
        ));
        i += 1;
        assert(style::line_views(lines@) =~= whole.take(offset + i - hidden));
    }
    assert(whole.take(offset + i - hidden) =~= whole);
    lines
}

/// The most recent call is always on screen, and no more calls are than a row
/// shows.
pub proof fn law_the_newest_call_is_shown(calls: Seq<Seq<char>>, columns: nat, theme: Theme)
    requires
        calls.len() > 0,
    ensures
        ring(calls, columns, theme).last() == layout::plain_line(
            layout::clipped(shown(result_marker() + calls.last()), columns),
            theme.dim,
        ),
        ring(calls, columns, theme).len() <= RING_LINES + 1,
        hidden_calls(calls) + RING_LINES >= calls.len(),
{
    let hidden = hidden_calls(calls);
    let n = calls.len() - hidden;
    assert(hidden + (n - 1) == calls.len() - 1);
    assert(ring(calls, columns, theme).last() == layout::plain_line(
        layout::clipped(shown(result_marker() + calls[hidden + (n - 1)]), columns),
        theme.dim,
    ));
}

impl TeamState {
    /// The widest member name.
    pub open spec fn name_columns(self) -> nat {
        widest(|i: int| self.rows[i].name, self.rows.len())
    }

    /// The widest of the surfaces' labels.
    pub open spec fn backend_columns(self) -> nat {
        widest(|i: int| self.rows[i].backend.spelled(), self.rows.len())
    }

    /// What a member's line says, before it is cut and padded.
    pub open spec fn head(self, i: int) -> Seq<char> {
        text::trim_end(
            layout::front(i == self.selected) + layout::padded(
                self.rows[i].name,
                self.name_columns(),
            ) + "  "@ + layout::padded(self.rows[i].backend.spelled(), self.backend_columns())
                + "  "@ + (if self.rows[i].is_lead {
                "lead"@
            } else {
                ""@
            }),
        )
    }

    /// The line of one member.
    pub open spec fn member_line(self, i: int, columns: nat, theme: Theme) -> Seq<SpanView> {
        layout::plain_line(
            layout::padded(layout::clipped(self.head(i), columns), columns),
            if i == self.selected {
                theme.selection
            } else {
                theme.fg
            },
        )
    }

    /// The lines of the first `n` members, each with its ring under it.
    pub open spec fn roster(self, n: nat, columns: nat, theme: Theme) -> Seq<Seq<SpanView>>
        decreases n,
    {
        if n == 0 {
            if self.rows.len() == 0 {
                seq![layout::plain_line(layout::clipped(empty(), columns), theme.dim)]
            } else {
                Seq::empty()
            }
        } else {
            self.roster((n - 1) as nat, columns, theme).push(
                self.member_line(n - 1, columns, theme),
            ) + ring(self.rows[n - 1].recent, columns, theme)
        }
    }

    /// Whether the cursor is on the Spawn row.
    pub open spec fn on_spawn(self) -> bool {
        self.selected == self.rows.len()
    }

    /// The Spawn row: dim while a spawn is still starting.
    pub open spec fn spawn_row(self, columns: nat, theme: Theme) -> Seq<SpanView> {
        layout::plain_line(
            layout::clipped(
                layout::front(self.on_spawn()) + "Spawn teammate\u{2026}"@,
                columns,
            ),
            if self.busy {
                theme.dim
            } else if self.on_spawn() {
                theme.accent
            } else {
                theme.fg
            },
        )
    }

    /// Everything the member step has to show, of which a window is shown.
    pub open spec fn all_lines(self, columns: nat, theme: Theme) -> Seq<Seq<SpanView>> {
        self.roster(self.rows.len(), columns, theme).push(Seq::empty()).push(
            self.spawn_row(columns, theme),
        ) + self.task_section(columns, theme)
    }

    /// Where among them the cursor's own line stands.
    pub open spec fn selected_line(self, columns: nat, theme: Theme) -> nat {
        if self.selected < self.rows.len() {
            self.roster(self.selected, columns, theme).len()
        } else if self.on_spawn() {
            self.roster(self.rows.len(), columns, theme).len() + 1
        } else {
            0
        }
    }

    /// The member step in a window of `rows` lines.
    pub open spec fn member_rows(self, columns: nat, rows: nat, theme: Theme) -> Seq<
        Seq<SpanView>,
    > {
        layout::window(
            self.all_lines(columns, theme),
            layout::first_shown(self.selected_line(columns, theme), rows),
            rows,
        )
    }

    /// The names of those of the first `n` members that cannot see the task
    /// list. The lead is this session, which is looking at it.
    pub open spec fn unshared(self, n: nat) -> Seq<Seq<char>>
        decreases n,
    {
        if n == 0 {
            Seq::empty()
        } else {
            let front = self.unshared((n - 1) as nat);
            let row = self.rows[n - 1];
            if !row.is_lead && !row.backend.shares() {
                front.push(row.name)
            } else {
                front
            }
        }
    }

    /// The line that names them, where there are any.
    pub open spec fn unshared_text(self) -> Option<Seq<char>> {
        if self.unshared(self.rows.len()).len() == 0 {
            None
        } else {
            Some("  not visible to "@ + text::joined(self.unshared(self.rows.len()), ", "@))
        }
    }

    /// What a task's line says ahead of its subject: its id, where it is and
    /// who holds it, in columns.
    pub open spec fn task_head(self, i: int) -> Seq<char> {
        "  "@ + layout::padded(
            shown(self.tasks[i].id),
            widest(|k: int| shown(self.tasks[k].id), self.tasks.len()),
        ) + "  "@ + layout::padded(
            self.tasks[i].status.spelled(),
            widest(|k: int| self.tasks[k].status.spelled(), self.tasks.len()),
        ) + "  "@ + layout::padded(
            shown(owner_shown(self.tasks[i].owner)),
            widest(|k: int| shown(owner_shown(self.tasks[k].owner)), self.tasks.len()),
        ) + "  "@
    }

    /// The line of one task.
    pub open spec fn task_text(self, i: int, columns: nat) -> Seq<char> {
        composed(
            self.task_head(i),
            shown(self.tasks[i].subject),
            waits_on(self.tasks[i].blocked_by),
            columns,
        )
    }

    /// The Tasks section: nothing where no task was filed, and otherwise a
    /// heading, whom it is not visible to, and the tasks in the order they
    /// arrived in.
    pub open spec fn task_section(self, columns: nat, theme: Theme) -> Seq<Seq<SpanView>> {
        if self.tasks.len() == 0 {
            Seq::empty()
        } else {
            seq![
                Seq::empty(),
                layout::plain_line(layout::clipped("tasks"@, columns), theme.fg),
            ] + (match self.unshared_text() {
                Some(text) => seq![layout::plain_line(layout::clipped(text, columns), theme.dim)],
                None => Seq::empty(),
            }) + Seq::new(
                self.tasks.len(),
                |i: int| layout::plain_line(self.task_text(i, columns), theme.fg),
            )
        }
    }

    /// The per-member action step: whose it is, then what can be done.
    pub open spec fn action_rows(
        self,
        member: Seq<char>,
        option: nat,
        columns: nat,
        theme: Theme,
    ) -> Seq<Seq<SpanView>> {
        match self.named(member) {
            None => seq![layout::plain_line(layout::clipped(empty(), columns), theme.dim)],
            Some(row) => seq![layout::plain_line(layout::clipped(row.name, columns), theme.fg)]
                + Seq::new(
                offered(row).len(),
                |i: int|
                    layout::action_line(i as nat, option, offered(row)[i].spelled(), columns, theme),
            ),
        }
    }

    /// The body of whichever step is on screen.
    pub open spec fn body(
        self,
        columns: nat,
        rows: nat,
        grammar: Seq<char>,
        theme: Theme,
    ) -> Seq<Seq<SpanView>> {
        match self.step {
            StepView::Members => self.member_rows(columns, rows, theme),
            StepView::Actions { member, option } => self.action_rows(
                member,
                option,
                columns,
                theme,
            ),
            StepView::Input { asking, buffer } => input_lines(
                asking,
                buffer,
                columns,
                grammar,
                theme,
            ),
        }
    }

    /// The keys the step answers to.
    pub open spec fn hints(self) -> Seq<char> {
        match self.step {
            StepView::Members => "[j/k] [up/down] move   [Enter] select   [Esc] close"@,
            StepView::Actions { member, option } =>
                "[j/k] [up/down] move   [Enter] run   [Esc] close"@,
            StepView::Input { asking, buffer } => "[Enter] submit   [Esc] back"@,
        }
    }

    /// The lines of the dialog in a box of this inner width and full height.
    pub open spec fn inside(
        self,
        columns: nat,
        available: nat,
        grammar: Seq<char>,
        theme: Theme,
    ) -> Seq<Seq<SpanView>> {
        let chrome = CHROME as nat + if self.notice is Some {
            1nat
        } else {
            0nat
        };
        let body = self.body(columns, layout::left_for_list(available, chrome), grammar, theme);
        let told = match self.notice {
            Some(notice) => body.push(
                layout::plain_line(
                    layout::clipped(text::trim(text::first_line(notice)), columns),
                    theme.dim,
                ),
            ),
            None => body,
        };
        told.push(Seq::empty()).push(
            layout::plain_line(layout::clipped(self.hints(), columns), theme.dim),
        )
    }

    /// The dialog in an area of `columns` by `rows` cells; none where the area
    /// is empty. The member step takes the height it is given, the others what
    /// they need of it.
    pub open spec fn drawn(
        self,
        columns: u16,
        rows: u16,
        grammar: Seq<char>,
        theme: Theme,
    ) -> Option<PopupView> {
        if columns == 0 || rows == 0 {
            None
        } else {
            let width = layout::extent(columns as nat, 4, MAX_WIDTH as nat);
            let available = layout::extent(rows as nat, 2, MAX_HEIGHT as nat);
            let lines = self.inside(width::room(width, 2), available, grammar, theme);
            Some(
                PopupView {
                    width,
                    height: match self.step {
                        StepView::Members => available,
                        _ => if lines.len() + 2 <= available {
                            lines.len() + 2
                        } else {
                            available
                        },
                    },
                    title: " teammate "@,
                    lines,
                },
            )
        }
    }
}

/// What a task's line says of what the task waits on: nothing where it waits on
/// nothing.
pub open spec fn waits_on(blocked_by: Seq<Seq<char>>) -> Seq<char> {
    if blocked_by.len() == 0 {
        Seq::empty()
    } else {
        "  (blocked by "@ + shown(text::joined(blocked_by, ", "@)) + ")"@
    }
}

/// A task's line in a width: the subject gives way first, and what the task
/// waits on is whole or absent.
pub open spec fn composed(
    head: Seq<char>,
    subject: Seq<char>,
    blocked: Seq<char>,
    columns: nat,
) -> Seq<char> {
    let room = width::room(
        columns,
        width::columns(width::width_of(head), width::width_of(blocked)),
    );
    let kept = layout::clipped(subject, room);
    if blocked.len() == 0 || room == 0 || width::width_of(kept) > room {
        layout::clipped(text::trim_end(head + subject), columns)
    } else {
        head + kept + blocked
    }
}

/// A task's line holds what the task waits on whole or not at all: it is the
/// head, some front of the subject and the whole suffix, which take no more
/// than the width among them, or it is a front of the head and the subject.
pub proof fn law_a_suffix_is_whole_or_absent(
    head: Seq<char>,
    subject: Seq<char>,
    blocked: Seq<char>,
    columns: nat,
)
    requires
        columns <= usize::MAX,
    ensures
        ({
            let line = composed(head, subject, blocked, columns);
            let trimmed = text::trim_end(head + subject);
            ||| exists|n: int|
                0 <= n <= subject.len() && line == head + #[trigger] subject.take(n) + blocked
                    && width::width_of(head) + width::width_of(subject.take(n)) + width::width_of(
                    blocked,
                ) <= columns
            ||| exists|n: int| 0 <= n <= trimmed.len() && line == #[trigger] trimmed.take(n)
        }),
{
    let room = width::room(
        columns,
        width::columns(width::width_of(head), width::width_of(blocked)),
    );
    let kept = layout::clipped(subject, room);
    let trimmed = text::trim_end(head + subject);
    if blocked.len() == 0 || room == 0 || width::width_of(kept) > room {
        width::lemma_cut(trimmed, columns);
        assert(trimmed.take(trimmed.len() as int) =~= trimmed);
    } else {
        width::lemma_cut(subject, room);
        assert(subject.take(subject.len() as int) =~= subject);
    }
}

/// The free-text step: what is being asked for, and the line being typed behind
/// the marker, a block for its cursor.
pub open spec fn input_lines(
    asking: AskingView,
    buffer: Seq<char>,
    columns: nat,
    grammar: Seq<char>,
    theme: Theme,
) -> Seq<Seq<SpanView>> {
    let prompt = match asking {
        AskingView::Spawn => "Spawn: "@ + grammar,
        AskingView::Message(member) => "Message "@ + member + ":"@,
    };
    let typed = layout::marker() + buffer + "\u{2588}"@;
    seq![
        layout::plain_line(layout::clipped(prompt, columns), theme.fg),
        layout::plain_line(
            layout::clipped(typed, if columns > 2 {
                (columns - 1) as nat
            } else {
                1
            }),
            theme.selection,
        ),
    ]
}

/// A line of the task list as it is composed; see [`composed`].
fn compose(head: &str, subject: &str, blocked: &str, columns: usize) -> (s: String)
    ensures
        s@ == composed(head@, subject@, blocked@, columns as nat),
{
    let used = str_width(head).saturating_add(str_width(blocked));
    let room: usize = if used <= columns {
        columns - used
    } else {
        0
    };
    let kept = clip(subject, room);
    let mut s = String::new();
    s.push_str(head);
    if blocked.is_empty() || room == 0 || str_width(&kept) > room {
        s.push_str(subject);
        let trimmed = trim_end_chars(&to_chars(&s));
        clip(&from_chars(&trimmed), columns)
    } else {
        s.push_str(&kept);
        s.push_str(blocked);
        s
    }
}

impl Team {
    /// Draws the dialog for an area of `columns` by `rows` cells. `grammar` is
    /// how a spawn line is written.
    pub fn render(&self, columns: u16, rows: u16, grammar: &str, theme: &Theme) -> (popup: Option<
        Popup,
    >)
        ensures
            layout::popup_seen(popup) == self@.drawn(columns, rows, grammar@, *theme),
    {
        if columns == 0 || rows == 0 {
            return None;
        }
        let width = grow(columns, 4, MAX_WIDTH);
        let available = grow(rows, 2, MAX_HEIGHT);
        let inner: usize = if width >= 2 {
            (width - 2) as usize
        } else {
            0
        };
        let noted: usize = if self.notice.is_some() {
            1
        } else {
            0
        };
        let list = body_rows(available, CHROME + noted);
        let mut lines = match &self.step {
            Step::Members => self.member_rows(inner, list, theme),
            Step::Actions { member, option } => self.action_rows(inner, member, *option, theme),
            Step::Input { asking, buffer } => Self::input_rows(
                inner,
                asking,
                buffer,
                grammar,
                theme,
            ),
        };
        match &self.notice {
            Some(notice) => {
                let first = first_line_of(&to_chars(notice));
                let first = trim_chars(&first);
                push_line(&mut lines, line(clip(&from_chars(&first), inner), theme.dim));
            },
            None => {},
        }
        let hints = match &self.step {
            Step::Members => "[j/k] [up/down] move   [Enter] select   [Esc] close",
            Step::Actions { .. } => "[j/k] [up/down] move   [Enter] run   [Esc] close",
            Step::Input { .. } => "[Enter] submit   [Esc] back",
        };
        push_line(&mut lines, blank());
        push_line(&mut lines, line(clip(hints, inner), theme.dim));
        let ghost seen = style::line_views(lines@);
        assert(seen == self@.inside(inner as nat, available as nat, grammar@, *theme));
        let height: u16 = match &self.step {
            Step::Members => available,
            _ => if lines.len() < available as usize && lines.len() + 2 <= available as usize {
                (lines.len() + 2) as u16
            } else {
                available
            },
        };
        Some(Popup { width, height, title: " teammate ".to_string(), lines })
    }

    /// The member step; see [`TeamState::member_rows`].
    fn member_rows(&self, columns: usize, rows: usize, theme: &Theme) -> (out: Vec<Line>)
        ensures
            style::line_views(out@) == self@.member_rows(columns as nat, rows as nat, *theme),
    {
        let ghost state = self@;
        let ghost names = |i: int| state.rows[i].name;
        let ghost labels = |i: int| state.rows[i].backend.spelled();
        let mut name_columns: usize = 0;
        let mut backend_columns: usize = 0;
        let mut i: usize = 0;
        while i < self.rows.len()
            invariant
                i <= self.rows@.len(),
                state == self@,
                names == (|i: int| state.rows[i].name),
                labels == (|i: int| state.rows[i].backend.spelled()),
                name_columns == widest(names, i as nat),
                backend_columns == widest(labels, i as nat),
            decreases self.rows.len() - i,
        {
            let name = str_width(&self.rows[i].name);
            if name > name_columns {
                name_columns = name;
            }
            let label = str_width(backend_label(&self.rows[i].backend));
            if label > backend_columns {
                backend_columns = label;
            }
            assert(names(i as int) == state.rows[i as int].name);
            assert(labels(i as int) == state.rows[i as int].backend.spelled());
            i += 1;
        }
        let mut lines: Vec<Line> = Vec::new();
        assert(style::line_views(lines@) =~= Seq::empty());
        let mut selected_line: usize = 0;
        if self.rows.len() == 0 {
            push_line(&mut lines, line(clip("no team members", columns), theme.dim));
            assert(style::line_views(lines@) =~= state.roster(0, columns as nat, *theme));
        }
        let mut i: usize = 0;
        while i < self.rows.len()
            invariant
                i <= self.rows@.len(),
                state == self@,
                name_columns == state.name_columns(),
                backend_columns == state.backend_columns(),
                style::line_views(lines@) == state.roster(i as nat, columns as nat, *theme),
                selected_line == (if state.selected < i {
                    state.roster(state.selected, columns as nat, *theme).len()
                } else {
                    0
                }),
            decreases self.rows.len() - i,
        {
            if i == self.selected {
                selected_line = lines.len();
            }
            let row = &self.rows[i];
            let mut head = String::new();
            head.push_str(front_of(i == self.selected));
            head.push_str(&pad(&row.name, name_columns));
            head.push_str("  ");
            head.push_str(&pad(backend_label(&row.backend), backend_columns));
            head.push_str("  ");
            head.push_str(
                if row.is_lead {
                    "lead"
                } else {
                    ""
                },
            );
            let head = from_chars(&trim_end_chars(&to_chars(&head)));
            assert(head@ == state.head(i as int));
            let cut = clip(&head, columns);
            push_line(
                &mut lines,
                line(
                    pad(&cut, columns),
                    if i == self.selected {
                        theme.selection
                    } else {
                        theme.fg
                    },
                ),
            );
            push_lines(&mut lines, ring_rows(&row.recent, columns, theme));
            i += 1;
        }
        push_line(&mut lines, blank());
        let on_spawn = self.selected == self.rows.len();
        if on_spawn {
            selected_line = lines.len();
        }
        let mut label = String::new();
        label.push_str(front_of(on_spawn));
        label.push_str("Spawn teammate\u{2026}");
        push_line(
            &mut lines,
            line(
                clip(&label, columns),
                if self.busy {
                    theme.dim
                } else if on_spawn {
                    theme.accent
                } else {
                    theme.fg
                },
            ),
        );
        push_lines(&mut lines, self.task_lines(columns, theme));
        let first = first_visible(selected_line, rows);
        show_window(&lines, first, rows)
    }

    /// The Tasks section; see [`TeamState::task_section`].
    fn task_lines(&self, columns: usize, theme: &Theme) -> (lines: Vec<Line>)
        ensures
            style::line_views(lines@) == self@.task_section(columns as nat, *theme),
    {
        let ghost state = self@;
        let ghost whole = state.task_section(columns as nat, *theme);
        let mut lines: Vec<Line> = Vec::new();
        assert(style::line_views(lines@) =~= Seq::empty());
        if self.tasks.len() == 0 {
            return lines;
        }
        let ghost ids = |k: int| shown(state.tasks[k].id);
        let ghost statuses = |k: int| state.tasks[k].status.spelled();
        let ghost owners = |k: int| shown(owner_shown(state.tasks[k].owner));
        let mut id_columns: usize = 0;
        let mut status_columns: usize = 0;
        let mut owner_columns: usize = 0;
        let mut i: usize = 0;
        while i < self.tasks.len()
            invariant
                i <= self.tasks@.len(),
                state == self@,
                ids == (|k: int| shown(state.tasks[k].id)),
                statuses == (|k: int| state.tasks[k].status.spelled()),
                owners == (|k: int| shown(owner_shown(state.tasks[k].owner))),
                id_columns == widest(ids, i as nat),
                status_columns == widest(statuses, i as nat),
                owner_columns == widest(owners, i as nat),
            decreases self.tasks.len() - i,
        {
            let task = &self.tasks[i];
            let id = str_width(&printable(&task.id));
            if id > id_columns {
                id_columns = id;
            }
            let status = str_width(task.status.as_str());
            if status > status_columns {
                status_columns = status;
            }
            let owner = str_width(&printable(owner_label(&task.owner)));
            if owner > owner_columns {
                owner_columns = owner;
            }
            assert(ids(i as int) == shown(state.tasks[i as int].id));
            assert(statuses(i as int) == state.tasks[i as int].status.spelled());
            assert(owners(i as int) == shown(owner_shown(state.tasks[i as int].owner)));
            i += 1;
        }
        push_line(&mut lines, blank());
        push_line(&mut lines, line(clip("tasks", columns), theme.fg));
        match self.unshared_line() {
            Some(unshared) => {
                push_line(&mut lines, line(clip(&unshared, columns), theme.dim));
            },
            None => {},
        }
        let ghost fixed = lines@.len();
        assert(style::line_views(lines@) =~= whole.take(fixed as int));
        assert(whole.len() == fixed + state.tasks.len());
        let mut i: usize = 0;
        while i < self.tasks.len()
            invariant
                i <= self.tasks@.len(),
                state == self@,
                state.tasks.len() > 0,
                whole == state.task_section(columns as nat, *theme),
                whole.len() == fixed + state.tasks.len(),
                id_columns == widest(|k: int| shown(state.tasks[k].id), state.tasks.len()),
                status_columns == widest(
                    |k: int| state.tasks[k].status.spelled(),
                    state.tasks.len(),
                ),
                owner_columns == widest(
                    |k: int| shown(owner_shown(state.tasks[k].owner)),
                    state.tasks.len(),
                ),
                style::line_views(lines@) == whole.take(fixed + i),
            decreases self.tasks.len() - i,
        {
            let task = &self.tasks[i];
            let mut head = String::new();
            head.push_str("  ");
            head.push_str(&pad(&printable(&task.id), id_columns));
            head.push_str("  ");
            head.push_str(&pad(task.status.as_str(), status_columns));
            head.push_str("  ");
            head.push_str(&pad(&printable(owner_label(&task.owner)), owner_columns));
            head.push_str("  ");
            assert(head@ == state.task_head(i as int));
            let mut blocked = String::new();
            if task.blocked_by.len() > 0 {
                blocked.push_str("  (blocked by ");
                blocked.push_str(&printable(&join(&task.blocked_by, ", ")));
                blocked.push_str(")");
            }
            assert(blocked@ =~= waits_on(state.tasks[i as int].blocked_by));
            let subject = printable(&task.subject);
            let composed = compose(&head, &subject, &blocked, columns);
            push_line(&mut lines, line(composed, theme.fg));
            assert(whole[fixed + i] == layout::plain_line(
                state.task_text(i as int, columns as nat),
                theme.fg,
            ));
            i += 1;
            assert(style::line_views(lines@) =~= whole.take(fixed + i));
        }
        assert(whole.take(fixed + i) =~= whole);
        lines
    }

    /// The line naming the members that cannot see the task list; see
    /// [`TeamState::unshared_text`].
    fn unshared_line(&self) -> (r: Option<String>)
        ensures
            spell::seen(r) == self@.unshared_text(),
    {
        let ghost state = self@;
        let mut names: Vec<String> = Vec::new();
        let mut i: usize = 0;
        assert(text::texts(names@) =~= state.unshared(0));
        while i < self.rows.len()
            invariant
                i <= self.rows@.len(),
                state == self@,
                text::texts(names@) == state.unshared(i as nat),
            decreases self.rows.len() - i,
        {
            let ghost before = text::texts(names@);
            if !self.rows[i].is_lead && !shares_the_list(&self.rows[i].backend) {
                names.push(self.rows[i].name.clone());
                assert(text::texts(names@) =~= before.push(state.rows[i as int].name));
            }
            i += 1;
        }
        if names.len() == 0 {
            assert(text::texts(names@).len() == 0);
            return None;
        }
        assert(text::texts(names@).len() > 0);
        let mut s = String::new();
        s.push_str("  not visible to ");
        s.push_str(&join(&names, ", "));
        assert(s@ =~= state.unshared_text().unwrap());
        Some(s)
    }

    /// The per-member action step; see [`TeamState::action_rows`].
    fn action_rows(&self, columns: usize, member: &str, option: usize, theme: &Theme) -> (lines:
        Vec<Line>)
        ensures
            style::line_views(lines@) == self@.action_rows(
                member@,
                option as nat,
                columns as nat,
                *theme,
            ),
    {
        let ghost whole = self@.action_rows(member@, option as nat, columns as nat, *theme);
        let mut lines: Vec<Line> = Vec::new();
        assert(style::line_views(lines@) =~= Seq::empty());
        match self.row_named(member) {
            None => {
                push_line(&mut lines, line(clip("no team members", columns), theme.dim));
                assert(style::line_views(lines@) =~= whole);
            },
            Some(row) => {
                push_line(&mut lines, line(clip(&row.name, columns), theme.fg));
                let offers = actions(row);
                let mut i: usize = 0;
                assert(style::line_views(lines@) =~= whole.take(1));
                while i < offers.len()
                    invariant
                        i <= offers@.len(),
                        offers@ == offered(row@),
                        self@.named(member@) == Some(row@),
                        whole == self@.action_rows(
                            member@,
                            option as nat,
                            columns as nat,
                            *theme,
                        ),
                        whole.len() == 1 + offers@.len(),
                        style::line_views(lines@) == whole.take(1 + i),
                    decreases offers.len() - i,
                {
                    push_line(
                        &mut lines,
                        action_row(i, option, offers[i].label(), columns, theme),
                    );
                    i += 1;
                    assert(style::line_views(lines@) =~= whole.take(1 + i));
                }
                assert(whole.take(1 + i) =~= whole);
            },
        }
        lines
    }

    /// The free-text step; see [`input_lines`].
    fn input_rows(
        columns: usize,
        asking: &Asking,
        buffer: &str,
        grammar: &str,
        theme: &Theme,
    ) -> (lines: Vec<Line>)
        ensures
            style::line_views(lines@) == input_lines(
                asking@,
                buffer@,
                columns as nat,
                grammar@,
                *theme,
            ),
    {
        let mut prompt = String::new();
        match asking {
            Asking::Spawn => {
                prompt.push_str("Spawn: ");
                prompt.push_str(grammar);
            },
            Asking::Message(member) => {
                prompt.push_str("Message ");
                prompt.push_str(member);
                prompt.push_str(":");
            },
        }
        let mut typed = String::new();
        typed.push_str("> ");
        typed.push_str(buffer);
        typed.push_str("\u{2588}");
        let mut lines: Vec<Line> = Vec::new();
        push_line(&mut lines, line(clip(&prompt, columns), theme.fg));
        push_line(
            &mut lines,
            line(
                clip(
                    &typed,
                    if columns > 2 {
                        columns - 1
                    } else {
                        1
                    },
                ),
                theme.selection,
            ),
        );
        assert(style::line_views(lines@) =~= input_lines(
            asking@,
            buffer@,
            columns as nat,
            grammar@,
            *theme,
        ));
        lines
    }
}

/// Every member has a row that says of it what is known, and the rows of the
/// lead and of the others each keep the order of the team.
pub proof fn law_every_member_has_its_row(
    a: Seq<MemberView>,
    b: Seq<MemberView>,
    member: MemberView,
    lead: bool,
)
    ensures
        rows_where(a + b, lead) == rows_where(a, lead) + rows_where(b, lead),
        rows_where(seq![member], member.is_lead) == seq![
            RowView {
                name: member.name@,
                backend: member.backend@,
                is_lead: member.is_lead,
                color: spell::seen(member.color),
                recent: text::texts(member.recent_calls@),
            },
        ],
        rows_where(seq![member], !member.is_lead) == Seq::<RowView>::empty(),
    decreases b.len(),
{
    let one = seq![member];
    assert(one.drop_last() =~= Seq::empty());
    assert(rows_where(Seq::empty(), true) =~= Seq::<RowView>::empty());
    assert(rows_where(Seq::empty(), false) =~= Seq::<RowView>::empty());
    assert(rows_where(one, member.is_lead) =~= seq![row_of(member)]);
    assert(rows_where(one, !member.is_lead) =~= Seq::<RowView>::empty());
    if b.len() == 0 {
        assert(a + b =~= a);
        assert(rows_where(a, lead) + rows_where(b, lead) =~= rows_where(a, lead));
    } else {
        law_every_member_has_its_row(a, b.drop_last(), member, lead);
        assert((a + b).drop_last() =~= a + b.drop_last());
        assert(rows_where(a + b, lead) =~= rows_where(a, lead) + rows_where(b, lead));
    }
}

/// What the surfaces, the states of a task and the actions are called, and
/// which surfaces see the tasks.
pub proof fn law_surfaces_and_states_are_spelled_so(name: Seq<char>)
    ensures
        BackendView::InProcess.spelled() == "in-process"@,
        BackendView::Ganja.spelled() == "ganja"@,
        BackendView::Codex.spelled() == "codex"@,
        BackendView::Agy.spelled() == "agy"@,
        BackendView::Grok.spelled() == "grok"@,
        BackendView::Foreign(name).spelled() == name,
        BackendView::InProcess.shares(),
        BackendView::Ganja.shares(),
        !BackendView::Codex.shares(),
        !BackendView::Agy.shares(),
        !BackendView::Grok.shares(),
        !BackendView::Foreign(name).shares(),
        TaskStatus::Pending.spelled() == "pending"@,
        TaskStatus::InProgress.spelled() == "in_progress"@,
        TaskStatus::Completed.spelled() == "completed"@,
        RowAction::Message.spelled() == "Message\u{2026}"@,
        RowAction::Shutdown.spelled() == "Shutdown"@,
{
}

/// A member is written to by choosing it, choosing the first action and typing:
/// what leaves is the text without the blanks around it, to that member, and
/// the dialog is back at its members.
pub proof fn law_a_member_is_written_to(
    team: TeamState,
    text: Seq<char>,
    read: Option<Result<TeamSpawnView, Seq<char>>>,
)
    requires
        team.step is Members,
        team.selected < team.rows.len(),
        !team.rows[team.selected as int].is_lead,
        forall|i: int|
            0 <= i < team.selected ==> (#[trigger] team.rows[i]).name
                != team.rows[team.selected as int].name,
        text::trim(text).len() > 0,
    ensures
        ({
            let name = team.rows[team.selected as int].name;
            let (chosen, first) = team.submitted(read);
            let (asked, second) = chosen.submitted(read);
            let typed = asked.edited(|before: Seq<char>| before + text);
            let (after, effect) = typed.submitted(read);
            &&& first is None && second is None
            &&& chosen == (TeamState {
                step: StepView::Actions { member: name, option: 0 },
                ..team
            })
            &&& asked == (TeamState {
                step: StepView::Input {
                    asking: AskingView::Message(name),
                    buffer: Seq::empty(),
                },
                ..team
            })
            &&& typed.pending_line() is None
            &&& after == team
            &&& effect == Some((EffectView::Message { to: name, text: text::trim(text) }))
        }),
{
    lemma_named_first(team.rows, team.selected as int, 0);
    assert(Seq::<char>::empty() + text =~= text);
}

proof fn lemma_named_first(rows: Seq<RowView>, at: int, i: nat)
    requires
        i <= at < rows.len(),
        forall|k: int| i <= k < at ==> (#[trigger] rows[k]).name != rows[at].name,
    ensures
        named_from(rows, rows[at].name, i) == Some(rows[at]),
    decreases rows.len() - i,
{
    if i < at {
        assert(rows[i as int].name != rows[at].name);
        lemma_named_first(rows, at, i + 1);
    }
}

/// A member is asked to end by choosing it and, one further down, the other
/// action: what leaves names it, and the dialog is back at its members.
pub proof fn law_a_member_is_asked_to_end(
    team: TeamState,
    read: Option<Result<TeamSpawnView, Seq<char>>>,
)
    requires
        team.step is Members,
        team.selected < team.rows.len(),
        !team.rows[team.selected as int].is_lead,
        forall|i: int|
            0 <= i < team.selected ==> (#[trigger] team.rows[i]).name
                != team.rows[team.selected as int].name,
    ensures
        team.submitted(read).0.moved(1).submitted(read) == (
            team,
            Some(EffectView::Shutdown(team.rows[team.selected as int].name)),
        ),
        team.submitted(read).0.moved(1).moved(1) == team.submitted(read).0.moved(1),
        team.submitted(read).0.moved(1).moved(-1) == team.submitted(read).0,
{
    lemma_named_first(team.rows, team.selected as int, 0);
}

/// A teammate is started from the row below the members: what is typed there is
/// handed over without the blanks around it, what it reads as is asked for, and
/// where it names no kind a general one is. While one is starting no other is
/// asked for.
pub proof fn law_a_teammate_is_started(team: TeamState, text: Seq<char>, line: TeamSpawnView)
    requires
        team.step is Members,
        team.selected == team.rows.len(),
        text::trim(text).len() > 0,
    ensures
        !team.busy ==> ({
            let (asked, first) = team.submitted(None);
            let typed = asked.edited(|before: Seq<char>| before + text);
            let (after, effect) = typed.submitted(Some(Ok(line)));
            &&& first is None
            &&& asked.typing()
            &&& typed.pending_line() == Some(text::trim(text))
            &&& after == team
            &&& effect == Some(
                (EffectView::Spawn {
                    request: TeammateSpawnView {
                        name: line.name,
                        backend: line.backend,
                        agent_type: match line.agent_type {
                            Some(kind) => kind,
                            None => "general"@,
                        },
                        prompt: line.prompt,
                    },
                    typed: text::trim(text),
                }),
            )
        }),
        team.busy ==> team.submitted(None) == (
            TeamState {
                notice: Some(
                    "a teammate is already starting \u{b7} wait for it to finish, or Esc to close"@,
                ),
                ..team
            },
            None::<EffectView>,
        ),
{
    assert(Seq::<char>::empty() + text =~= text);
}

/// A refreshed dialog keeps the cursor where it can and moves it to the row
/// below the members where there are fewer now; what is being typed, said and
/// started is kept.
pub proof fn law_a_refresh_keeps_the_place(
    team: TeamState,
    rows: Seq<RowView>,
    tasks: Seq<SummaryView>,
)
    ensures
        team.refreshed(rows, tasks).rows == rows,
        team.refreshed(rows, tasks).tasks == tasks,
        team.selected <= rows.len() ==> team.refreshed(rows, tasks).selected == team.selected,
        team.selected > rows.len() ==> team.refreshed(rows, tasks).selected == rows.len(),
        team.typing() || team.step is Members ==> team.refreshed(rows, tasks).step == team.step,
        team.refreshed(rows, tasks).notice == team.notice,
        team.refreshed(rows, tasks).busy == team.busy,
        team.step matches StepView::Actions { member, option } ==> (team.refreshed(
            rows,
            tasks,
        ).step == team.step) == (named_from(rows, member, 0) is Some),
        team.refreshed(rows, tasks).step == team.step || team.refreshed(rows, tasks).step
            is Members,
{
}

/// A control character is shown as a replacement character, and everything else
/// as it is.
pub proof fn law_controls_are_shown_replaced(text: Seq<char>, i: int)
    requires
        0 <= i < text.len(),
    ensures
        shown(text).len() == text.len(),
        shown(text)[i] == (if text::control(text[i]) {
            '\u{fffd}'
        } else {
            text[i]
        }),
{
}

/// A column is as wide as the widest text in it: none is wider, and where there
/// is any, one is as wide.
pub proof fn law_a_column_is_as_wide_as_its_widest(texts: spec_fn(int) -> Seq<char>, n: nat, i: int)
    requires
        0 <= i < n,
    ensures
        width::width_of(texts(i)) <= widest(texts, n),
        exists|k: int| 0 <= k < n && width::width_of(#[trigger] texts(k)) == widest(texts, n),
    decreases n,
{
    let less = (n - 1) as nat;
    if n == 1 {
        assert(widest(texts, 0) == 0);
        assert(width::width_of(texts(0)) == widest(texts, n));
    } else {
        if i < less {
            law_a_column_is_as_wide_as_its_widest(texts, less, i);
        } else {
            law_a_column_is_as_wide_as_its_widest(texts, less, 0);
        }
        let last = width::width_of(texts(n - 1));
        if last > widest(texts, less) {
            assert(width::width_of(texts(n - 1)) == widest(texts, n));
        } else {
            let k = choose|k: int|
                0 <= k < less && width::width_of(#[trigger] texts(k)) == widest(texts, less);
            assert(width::width_of(texts(k)) == widest(texts, n));
        }
    }
}

/// Under a member stand its last four calls in their order, and above them how
/// many came before.
pub proof fn law_the_last_four_calls_are_shown(
    calls: Seq<Seq<char>>,
    columns: nat,
    theme: Theme,
    i: int,
)
    ensures
        calls.len() <= 4 ==> ring(calls, columns, theme).len() == calls.len(),
        calls.len() <= 4 && 0 <= i < calls.len() ==> ring(calls, columns, theme)[i]
            == layout::plain_line(
            layout::clipped(shown("  \u{23bf} "@ + calls[i]), columns),
            theme.dim,
        ),
        calls.len() > 4 ==> ring(calls, columns, theme).len() == 5,
        calls.len() > 4 && 0 <= i < 4 ==> ring(calls, columns, theme)[i + 1] == layout::plain_line(
            layout::clipped(shown("  \u{23bf} "@ + calls[calls.len() - 4 + i]), columns),
            theme.dim,
        ),
        calls.len() == 5 ==> ring(calls, columns, theme)[0] == layout::plain_line(
            layout::clipped("  \u{23bf} \u{2026} +1 earlier call"@, columns),
            theme.dim,
        ),
        calls.len() > 5 ==> ring(calls, columns, theme)[0] == layout::plain_line(
            layout::clipped(
                "  \u{23bf} \u{2026} +"@ + text::decimal((calls.len() - 4) as nat)
                    + " earlier calls"@,
                columns,
            ),
            theme.dim,
        ),
{
    reveal_strlit("  \u{23bf} ");
    reveal_strlit("\u{2026} +");
    reveal_strlit("  \u{23bf} \u{2026} +");
    reveal_strlit(" earlier call");
    reveal_strlit("  \u{23bf} \u{2026} +1 earlier call");
    assert(text::decimal(1) =~= seq!['1']);
    assert("  \u{23bf} "@ + "\u{2026} +"@ =~= "  \u{23bf} \u{2026} +"@);
    assert(earlier(1) =~= "  \u{23bf} \u{2026} +1 earlier call"@);
}

/// Exactly the members whose surface does not see the tasks are named.
pub proof fn law_who_does_not_see_the_tasks_is_named(team: TeamState, n: nat, name: Seq<char>)
    requires
        n <= team.rows.len(),
    ensures
        team.unshared(n).contains(name) == exists|i: int|
            0 <= i < n && !(#[trigger] team.rows[i]).is_lead && !(team.rows[i].backend is InProcess)
                && !(team.rows[i].backend is Ganja) && team.rows[i].name == name,
    decreases n,
{
    if n > 0 {
        let less = (n - 1) as nat;
        law_who_does_not_see_the_tasks_is_named(team, less, name);
        let front = team.unshared(less);
        let all = team.unshared(n);
        let row = team.rows[n - 1];
        if front.contains(name) {
            let k = choose|k: int| 0 <= k < front.len() && front[k] == name;
            assert(all[k] == name);
        }
        if !row.is_lead && !row.backend.shares() {
            assert(all[front.len() as int] == row.name);
            if all.contains(name) {
                let k = choose|k: int| 0 <= k < all.len() && all[k] == name;
                if k < front.len() {
                    assert(front[k] == name);
                }
            }
        }
    }
}

proof fn lemma_roster_len(team: TeamState, n: nat, m: nat, columns: nat, theme: Theme)
    requires
        n <= m <= team.rows.len(),
    ensures
        team.roster(n, columns, theme).len() <= team.roster(m, columns, theme).len(),
        team.roster(m, columns, theme).take(team.roster(n, columns, theme).len() as int)
            == team.roster(n, columns, theme),
    decreases m,
{
    let front = team.roster(n, columns, theme);
    if n < m {
        let less = (m - 1) as nat;
        lemma_roster_len(team, n, less, columns, theme);
        let mid = team.roster(less, columns, theme);
        let all = team.roster(m, columns, theme);
        assert(all.take(mid.len() as int) =~= mid);
        assert(all.take(front.len() as int) =~= mid.take(front.len() as int));
    } else {
        assert(front.take(front.len() as int) =~= front);
    }
}

/// The row the cursor is on is on the dialog: a member's, or the one that
/// starts another.
pub proof fn law_the_row_under_the_cursor_is_shown(
    team: TeamState,
    columns: nat,
    rows: nat,
    theme: Theme,
)
    requires
        team.valid(),
        rows > 0,
    ensures
        team.selected < team.rows.len() ==> team.member_rows(columns, rows, theme).contains(
            team.member_line(team.selected as int, columns, theme),
        ),
        team.selected == team.rows.len() ==> team.member_rows(columns, rows, theme).contains(
            team.spawn_row(columns, theme),
        ),
{
    let all = team.all_lines(columns, theme);
    let at = team.selected_line(columns, theme);
    let whole = team.roster(team.rows.len(), columns, theme);
    let wanted = if team.selected < team.rows.len() {
        team.member_line(team.selected as int, columns, theme)
    } else {
        team.spawn_row(columns, theme)
    };
    if team.selected < team.rows.len() {
        lemma_roster_len(team, team.selected + 1, team.rows.len(), columns, theme);
        let next = team.roster(team.selected + 1, columns, theme);
        assert(next[at as int] == wanted);
        assert(whole.take(next.len() as int)[at as int] == whole[at as int]);
        assert(all[at as int] == whole[at as int]);
    } else {
        assert(all[at as int] == wanted);
    }
    let first = layout::first_shown(at, rows);
    layout::law_the_cursor_is_always_shown(at, rows);
    layout::law_a_window_shows_neighbours(all, first, rows);
    let shown = team.member_rows(columns, rows, theme);
    assert(shown[at - first] == all[at as int]);
}

/// What a task waits on is said behind it, and nothing where it waits on
/// nothing; one that nobody holds says so.
pub proof fn law_what_a_task_waits_on_is_said(blocked_by: Seq<Seq<char>>, owner: Seq<char>)
    ensures
        blocked_by.len() == 0 ==> waits_on(blocked_by).len() == 0,
        blocked_by.len() > 0 ==> waits_on(blocked_by) == "  (blocked by "@ + shown(
            text::joined(blocked_by, seq![',', ' ']),
        ) + ")"@,
        owner.len() > 0 ==> owner_shown(owner) == owner,
        owner.len() == 0 ==> owner_shown(owner) == "unowned"@,
{
    reveal_strlit(", ");
    assert(", "@ =~= seq![',', ' ']);
}

/// A line that is being typed stands behind a marker and in front of a block,
/// below what it is asked for.
pub proof fn law_what_is_typed_is_shown(
    member: Seq<char>,
    buffer: Seq<char>,
    columns: nat,
    grammar: Seq<char>,
    theme: Theme,
)
    requires
        columns > 2,
        width::width_of(seq!['>', ' '] + buffer + seq!['\u{2588}']) <= columns - 1,
    ensures
        input_lines(AskingView::Spawn, buffer, columns, grammar, theme) == seq![
            layout::plain_line(layout::clipped("Spawn: "@ + grammar, columns), theme.fg),
            layout::plain_line(seq!['>', ' '] + buffer + seq!['\u{2588}'], theme.selection),
        ],
        input_lines(AskingView::Message(member), buffer, columns, grammar, theme) == seq![
            layout::plain_line(layout::clipped("Message "@ + member + ":"@, columns), theme.fg),
            layout::plain_line(seq!['>', ' '] + buffer + seq!['\u{2588}'], theme.selection),
        ],
{
    reveal_strlit("> ");
    reveal_strlit("\u{2588}");
    assert("> "@ =~= seq!['>', ' ']);
    assert("\u{2588}"@ =~= seq!['\u{2588}']);
}

/// The keys of each step are named below it, and a notice above them by its
/// first line.
pub proof fn law_the_keys_of_a_step_are_named(
    team: TeamState,
    columns: nat,
    available: nat,
    grammar: Seq<char>,
    theme: Theme,
)
    ensures
        team.step is Members ==> team.hints()
            == "[j/k] [up/down] move   [Enter] select   [Esc] close"@,
        team.step is Actions ==> team.hints()
            == "[j/k] [up/down] move   [Enter] run   [Esc] close"@,
        team.typing() ==> team.hints() == "[Enter] submit   [Esc] back"@,
        team.inside(columns, available, grammar, theme).last() == layout::plain_line(
            layout::clipped(team.hints(), columns),
            theme.dim,
        ),
        team.notice matches Some(notice) ==> ({
            let lines = team.inside(columns, available, grammar, theme);
            lines.len() >= 3 && lines[lines.len() - 3] == layout::plain_line(
                layout::clipped(text::trim(text::first_line(notice)), columns),
                theme.dim,
            )
        }),
{
}

/// The lead's row reads its name, its surface and that it is the lead, in
/// columns.
pub proof fn law_a_member_row_reads_so(team: TeamState, i: int)
    requires
        0 <= i < team.rows.len(),
        team.rows[i].is_lead,
    ensures
        team.head(i) == (if i == team.selected {
            seq!['>', ' ']
        } else {
            seq![' ', ' ']
        }) + layout::padded(team.rows[i].name, team.name_columns()) + seq![' ', ' ']
            + layout::padded(team.rows[i].backend.spelled(), team.backend_columns()) + seq![
            ' ',
            ' ',
            'l',
            'e',
            'a',
            'd',
        ],
{
    reveal_strlit("> ");
    reveal_strlit("  ");
    reveal_strlit("lead");
    assert("> "@ =~= seq!['>', ' ']);
    assert("  "@ =~= seq![' ', ' ']);
    let name = layout::padded(team.rows[i].name, team.name_columns());
    let surface = layout::padded(team.rows[i].backend.spelled(), team.backend_columns());
    let whole = layout::front(i == team.selected) + name + "  "@ + surface + "  "@ + "lead"@;
    assert(whole.last() == 'd');
    assert(text::trim_end(whole) == whole);
    assert(whole =~= layout::front(i == team.selected) + name + seq![' ', ' '] + surface + seq![
        ' ',
        ' ',
        'l',
        'e',
        'a',
        'd',
    ]);
}

/// The tasks stand below the roster in their order, under a heading, with who
/// does not see them named above.
pub proof fn law_the_tasks_stand_in_order(team: TeamState, columns: nat, theme: Theme, i: int)
    requires
        0 <= i < team.tasks.len(),
    ensures
        ({
            let lines = team.task_section(columns, theme);
            let told: int = if team.unshared(team.rows.len()).len() > 0 {
                1
            } else {
                0
            };
            &&& lines.len() == 2 + told + team.tasks.len()
            &&& lines[1] == layout::plain_line(layout::clipped("tasks"@, columns), theme.fg)
            &&& told == 1 ==> lines[2] == layout::plain_line(
                layout::clipped(
                    "  not visible to "@ + text::joined(
                        team.unshared(team.rows.len()),
                        seq![',', ' '],
                    ),
                    columns,
                ),
                theme.dim,
            )
            &&& lines[2 + told + i] == layout::plain_line(team.task_text(i, columns), theme.fg)
        }),
{
    reveal_strlit(", ");
    assert(", "@ =~= seq![',', ' ']);
}

/// The actions of a member stand below its name in the order they are offered,
/// the chosen one marked.
pub proof fn law_the_actions_stand_in_order(
    team: TeamState,
    at: int,
    option: nat,
    columns: nat,
    theme: Theme,
)
    requires
        0 <= at < team.rows.len(),
        !team.rows[at].is_lead,
        forall|i: int| 0 <= i < at ==> (#[trigger] team.rows[i]).name != team.rows[at].name,
    ensures
        ({
            let lines = team.action_rows(team.rows[at].name, option, columns, theme);
            &&& lines.len() == 3
            &&& lines[0] == layout::plain_line(
                layout::clipped(team.rows[at].name, columns),
                theme.fg,
            )
            &&& lines[1] == layout::plain_line(
                layout::clipped(
                    (if option == 0 {
                        "> "@
                    } else {
                        "  "@
                    }) + "Message\u{2026}"@,
                    columns,
                ),
                if option == 0 {
                    theme.selection
                } else {
                    theme.fg
                },
            )
            &&& lines[2] == layout::plain_line(
                layout::clipped(
                    (if option == 1 {
                        "> "@
                    } else {
                        "  "@
                    }) + "Shutdown"@,
                    columns,
                ),
                if option == 1 {
                    theme.selection
                } else {
                    theme.fg
                },
            )
        }),
{
    lemma_named_first(team.rows, at, 0);
}

/// What is said of a teammate that was started.
pub proof fn law_a_started_teammate_is_announced(spawned: Spawned)
    ensures
        spawned.sentence() == spawned.name@ + " started \u{b7} prompt persisted in cleartext at "@
            + spawned.prompt_path@,
{
}

/// Below each member stand its own calls: one more member adds its row, and
/// behind it what it most recently did.
pub proof fn law_calls_stand_below_their_member(
    team: TeamState,
    n: nat,
    columns: nat,
    theme: Theme,
)
    requires
        n < team.rows.len(),
    ensures
        team.roster(n + 1, columns, theme) == team.roster(n, columns, theme) + (seq![
            team.member_line(n as int, columns, theme),
        ] + ring(team.rows[n as int].recent, columns, theme)),
        team.roster(0, columns, theme).len() == 0,
{
    let front = team.roster(n, columns, theme);
    let line = team.member_line(n as int, columns, theme);
    let calls = ring(team.rows[n as int].recent, columns, theme);
    assert(front.push(line) + calls =~= front + (seq![line] + calls));
}

/// A task alone reads its id, its state and who holds it, two blanks around
/// each.
pub proof fn law_a_task_alone_reads_so(team: TeamState, task: SummaryView)
    requires
        team.tasks == seq![task],
    ensures
        team.task_head(0) == "  "@ + shown(task.id) + "  "@ + task.status.spelled() + "  "@ + shown(
            owner_shown(task.owner),
        ) + "  "@,
{
    let ids = |k: int| shown(team.tasks[k].id);
    let states = |k: int| team.tasks[k].status.spelled();
    let owners = |k: int| shown(owner_shown(team.tasks[k].owner));
    assert(team.tasks[0] == task);
    reveal_with_fuel(widest, 2);
    assert(widest(ids, 1) == width::width_of(shown(task.id)));
    assert(widest(states, 1) == width::width_of(task.status.spelled()));
    assert(widest(owners, 1) == width::width_of(shown(owner_shown(task.owner))));
    lemma_filled_already(shown(task.id));
    lemma_filled_already(task.status.spelled());
    lemma_filled_already(shown(owner_shown(task.owner)));
}

proof fn lemma_filled_already(text: Seq<char>)
    ensures
        layout::padded(text, width::width_of(text)) == text,
{
    assert(layout::padded(text, width::width_of(text)) =~= text);
}

} // verus!
