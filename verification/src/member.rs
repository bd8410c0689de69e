//! Running as a pane teammate: who this process is, and what each pass over its
//! own inbox comes to.
//!
//! A shutdown request goes ahead of everything. Then every frame is acted on
//! and leaves the inbox, the ones only the lead may send being taken from the
//! lead alone, and the plain messages are handed over, to leave the inbox when
//! they were delivered.
//!
//! Reading the inbox, decoding a frame, resolving the answer to an ask and
//! writing anything are the caller's.

use vstd::prelude::*;

use crate::spell::{self, copied};
use crate::text::{self, quote, str_eq};

verus! {

/// What a launch line said, as the command line hands it in.
#[derive(Clone, Debug, PartialEq, Eq)]
pub struct Flags {
    /// The member's name and its team, as the lead recorded them.
    pub agent_id: String,
    /// The member name this process answers to.
    pub name: String,
    /// The team whose documents this process reads.
    pub team: String,
    /// The assigned colour, where the lead gave one.
    pub color: Option<String>,
    /// The lead's session, which is what named the team's directory.
    pub parent_session_id: String,
}

/// Where an ask this member's rules raise is answered.
#[derive(Clone, Copy, Debug, PartialEq, Eq, Structural)]
pub enum Posture {
    /// By the person at the lead's dialog.
    ForwardToLead,
    /// By a person at this member's own.
    HumanAttended,
}

/// Where this process runs.
#[derive(Clone, Debug, PartialEq, Eq)]
pub enum Surface {
    /// In a pane of a multiplexer.
    Pane { id: String },
    /// In no pane.
    InProcess,
}

/// A surface as the contracts speak of it: the pane, where there is one.
pub open spec fn pane_seen(surface: Surface) -> Option<Seq<char>> {
    match surface {
        Surface::Pane { id } => Some(id@),
        Surface::InProcess => None,
    }
}

/// Why a launch line is refused.
#[derive(Clone, Debug, PartialEq, Eq)]
pub enum Refusal {
    /// The member name is not one.
    Name { name: String },
    /// The team name is not one.
    Team { team: String },
    /// The id names another member.
    AgentId { agent_id: String, name: String, team: String, expected: String },
}

/// A refusal as the contracts speak of it.
pub enum RefusalView {
    Name { name: Seq<char> },
    Team { team: Seq<char> },
    AgentId { agent_id: Seq<char>, name: Seq<char>, team: Seq<char>, expected: Seq<char> },
}

impl View for Refusal {
    type V = RefusalView;

    open spec fn view(&self) -> RefusalView {
        match self {
            Refusal::Name { name } => RefusalView::Name { name: name@ },
            Refusal::Team { team } => RefusalView::Team { team: team@ },
            Refusal::AgentId { agent_id, name, team, expected } => RefusalView::AgentId {
                agent_id: agent_id@,
                name: name@,
                team: team@,
                expected: expected@,
            },
        }
    }
}

impl RefusalView {
    /// What is said of a refusal.
    pub open spec fn message(self) -> Seq<char> {
        match self {
            RefusalView::Name { name } => "--agent-name "@ + text::quoted(name) + " is refused"@,
            RefusalView::Team { team } => "--team-name "@ + text::quoted(team) + " is refused"@,
            RefusalView::AgentId { agent_id, name, team, expected } => "--agent-id "@
                + text::quoted(agent_id) + " does not name --agent-name "@ + text::quoted(name)
                + " of --team-name "@ + text::quoted(team) + " (expected "@ + text::quoted(
                expected,
            ) + ")"@,
        }
    }
}

impl Refusal {
    /// What is said of a refusal; see [`RefusalView::message`].
    pub fn message(&self) -> (s: String)
        ensures
            s@ == self@.message(),
    {
        let mut s = String::new();
        match self {
            Refusal::Name { name } => {
                s.push_str("--agent-name ");
                s.push_str(&quote(name));
                s.push_str(" is refused");
            },
            Refusal::Team { team } => {
                s.push_str("--team-name ");
                s.push_str(&quote(team));
                s.push_str(" is refused");
            },
            Refusal::AgentId { agent_id, name, team, expected } => {
                s.push_str("--agent-id ");
                s.push_str(&quote(agent_id));
                s.push_str(" does not name --agent-name ");
                s.push_str(&quote(name));
                s.push_str(" of --team-name ");
                s.push_str(&quote(team));
                s.push_str(" (expected ");
                s.push_str(&quote(expected));
                s.push_str(")");
            },
        }
        assert(s@ =~= self@.message());
        s
    }
}

/// Who this process is, once the flags have been checked.
#[derive(Clone, Debug, PartialEq, Eq)]
pub struct Membership {
    name: String,
    team: String,
    lead: String,
    color: Option<String>,
    parent_session_id: String,
    surface: Surface,
    posture: Posture,
}

/// A membership as the contracts speak of it.
pub struct MembershipView {
    pub name: Seq<char>,
    pub team: Seq<char>,
    pub lead: Seq<char>,
    pub color: Option<Seq<char>>,
    pub parent_session_id: Seq<char>,
    pub pane: Option<Seq<char>>,
    pub posture: Posture,
}

impl View for Membership {
    type V = MembershipView;

    closed spec fn view(&self) -> MembershipView {
        MembershipView {
            name: self.name@,
            team: self.team@,
            lead: self.lead@,
            color: spell::seen(self.color),
            parent_session_id: self.parent_session_id@,
            pane: pane_seen(self.surface),
            posture: self.posture,
        }
    }
}

/// The id of a member of a team.
pub open spec fn agent_id(name: Seq<char>, team: Seq<char>) -> Seq<char> {
    name + "@"@ + team
}

/// Who a launch line says this process is, given whether its names are ones:
/// the member its id names, in the pane the environment names, answered for by
/// the lead.
pub open spec fn resolved(
    flags: Flags,
    name_parses: bool,
    team_parses: bool,
    pane: Option<Seq<char>>,
) -> Result<MembershipView, RefusalView> {
    let expected = agent_id(flags.name@, flags.team@);
    if !name_parses {
        Err(RefusalView::Name { name: flags.name@ })
    } else if !team_parses {
        Err(RefusalView::Team { team: flags.team@ })
    } else if flags.agent_id@ != expected {
        Err(
            RefusalView::AgentId {
                agent_id: flags.agent_id@,
                name: flags.name@,
                team: flags.team@,
                expected,
            },
        )
    } else {
        Ok(
            MembershipView {
                name: flags.name@,
                team: flags.team@,
                lead: "team-lead"@,
                color: spell::seen(flags.color),
                parent_session_id: flags.parent_session_id@,
                pane: match pane {
                    Some(id) => if id.len() == 0 {
                        None
                    } else {
                        Some(id)
                    },
                    None => None,
                },
                posture: Posture::ForwardToLead,
            },
        )
    }
}

/// The view of what a launch line came to.
pub open spec fn membership_seen(membership: Result<Membership, Refusal>) -> Result<
    MembershipView,
    RefusalView,
> {
    match membership {
        Ok(membership) => Ok(membership@),
        Err(refusal) => Err(refusal@),
    }
}

impl Membership {
    /// Checks the launch line; see [`resolved`]. The first two arguments behind
    /// it say whether the grammar takes the member's and the team's name.
    pub fn resolve(
        flags: Flags,
        name_parses: bool,
        team_parses: bool,
        pane: Option<String>,
    ) -> (r: Result<Membership, Refusal>)
        ensures
            membership_seen(r) == resolved(flags, name_parses, team_parses, spell::seen(pane)),
    {
        if !name_parses {
            return Err(Refusal::Name { name: flags.name });
        }
        if !team_parses {
            return Err(Refusal::Team { team: flags.team });
        }
        let mut expected = flags.name.clone();
        expected.push_str("@");
        expected.push_str(&flags.team);
        if !str_eq(&flags.agent_id, &expected) {
            return Err(
                Refusal::AgentId {
                    agent_id: flags.agent_id,
                    name: flags.name,
                    team: flags.team,
                    expected,
                },
            );
        }
        let surface = match pane {
            Some(id) => if id.as_str().is_empty() {
                Surface::InProcess
            } else {
                Surface::Pane { id }
            },
            None => Surface::InProcess,
        };
        Ok(
            Membership {
                name: flags.name,
                team: flags.team,
                lead: "team-lead".to_string(),
                color: flags.color,
                parent_session_id: flags.parent_session_id,
                surface,
                posture: Posture::ForwardToLead,
            },
        )
    }

    /// Where an ask this member's rules raise is answered.
    pub fn posture(&self) -> (p: Posture)
        ensures
            p == self@.posture,
    {
        self.posture
    }

    /// The name this process answers to.
    pub fn name(&self) -> (s: &str)
        ensures
            s@ == self@.name,
    {
        self.name.as_str()
    }

    /// The team it is a member of.
    pub fn team(&self) -> (s: &str)
        ensures
            s@ == self@.team,
    {
        self.team.as_str()
    }

    /// The assigned colour, where the lead gave one.
    pub fn color(&self) -> (r: Option<&str>)
        ensures
            match r {
                Some(color) => self@.color == Some(color@),
                None => self@.color is None,
            },
    {
        match &self.color {
            Some(color) => Some(color.as_str()),
            None => None,
        }
    }

    /// The lead's session, which named the team.
    pub fn parent_session_id(&self) -> (s: &str)
        ensures
            s@ == self@.parent_session_id,
    {
        self.parent_session_id.as_str()
    }

    /// Where this process runs.
    pub fn surface(&self) -> (s: &Surface)
        ensures
            pane_seen(*s) == self@.pane,
    {
        &self.surface
    }

    /// The answer to a shutdown request: stamped with this member's own name,
    /// naming the pane the lead has to end where there is one.
    pub fn shutdown_answer(&self, request_id: &str) -> (answer: ShutdownApproved)
        ensures
            answer.request_id@ == request_id@,
            answer.from@ == self@.name,
            spell::seen(answer.pane_id) == self@.pane,
            spell::seen(answer.backend_type) == (match self@.pane {
                Some(_) => Some("tmux"@),
                None => None,
            }),
    {
        let (pane_id, backend_type) = match &self.surface {
            Surface::Pane { id } => (Some(id.clone()), Some("tmux".to_string())),
            Surface::InProcess => (None, None),
        };
        ShutdownApproved {
            request_id: request_id.to_string(),
            from: self.name.clone(),
            pane_id,
            backend_type,
        }
    }

    /// What the lead is told when a turn ended: this member's own name, how it
    /// ended, and why where it failed.
    pub fn idle_notice(&self, reason: FinishReason, failure: Option<String>) -> (notice: Idle)
        ensures
            notice.from@ == self@.name,
            notice.reason == idle_for(reason),
            notice.failure_reason == failure,
    {
        Idle { from: self.name.clone(), reason: idle_reason(reason), failure_reason: failure }
    }
}

/// The answer to a shutdown request.
#[derive(Clone, Debug, PartialEq, Eq)]
pub struct ShutdownApproved {
    pub request_id: String,
    pub from: String,
    pub pane_id: Option<String>,
    pub backend_type: Option<String>,
}

/// How a turn ended.
#[derive(Clone, Copy, Debug, PartialEq, Eq, Structural)]
pub enum FinishReason {
    Completed,
    Cancelled,
    Failed,
}

/// Why a member is idle.
#[derive(Clone, Copy, Debug, PartialEq, Eq, Structural)]
pub enum IdleReason {
    Available,
    Interrupted,
    Failed,
}

/// Why a member is idle behind a turn that ended so.
pub open spec fn idle_for(reason: FinishReason) -> IdleReason {
    match reason {
        FinishReason::Completed => IdleReason::Available,
        FinishReason::Cancelled => IdleReason::Interrupted,
        FinishReason::Failed => IdleReason::Failed,
    }
}

/// Why a member is idle; see [`idle_for`].
pub fn idle_reason(reason: FinishReason) -> (r: IdleReason)
    ensures
        r == idle_for(reason),
{
    match reason {
        FinishReason::Completed => IdleReason::Available,
        FinishReason::Cancelled => IdleReason::Interrupted,
        FinishReason::Failed => IdleReason::Failed,
    }
}

/// What the lead is told when a turn ended.
#[derive(Clone, Debug, PartialEq, Eq)]
pub struct Idle {
    pub from: String,
    pub reason: IdleReason,
    pub failure_reason: Option<String>,
}

/// What to do about a record that is waited for.
#[derive(Clone, Copy, Debug, PartialEq, Eq, Structural)]
pub enum Wait {
    /// It is there.
    Done,
    /// It is not, and the time is over.
    Refuse,
    /// It is not; look again.
    Again,
}

/// What to do about a record that is waited for until an instant: one that is
/// there is taken, however late.
pub fn await_record(found: bool, now: u64, deadline: u64) -> (w: Wait)
    ensures
        w == (if found {
            Wait::Done
        } else if now >= deadline {
            Wait::Refuse
        } else {
            Wait::Again
        }),
{
    if found {
        Wait::Done
    } else if now >= deadline {
        Wait::Refuse
    } else {
        Wait::Again
    }
}

/// What tells one entry of a mailbox from another.
#[derive(Clone, Debug, PartialEq, Eq)]
pub struct Identity {
    pub from: String,
    pub timestamp: String,
    pub text: String,
}

/// An identity as the contracts speak of it.
pub struct IdentityView {
    pub from: Seq<char>,
    pub timestamp: Seq<char>,
    pub text: Seq<char>,
}

impl View for Identity {
    type V = IdentityView;

    open spec fn view(&self) -> IdentityView {
        IdentityView { from: self.from@, timestamp: self.timestamp@, text: self.text@ }
    }
}

/// The views of identities.
pub open spec fn identity_views(identities: Seq<Identity>) -> Seq<IdentityView> {
    Seq::new(identities.len(), |i: int| identities[i]@)
}

impl Identity {
    fn same(&self, other: &Identity) -> (r: bool)
        ensures
            r == (self@ == other@),
    {
        str_eq(&self.from, &other.from) && str_eq(&self.timestamp, &other.timestamp) && str_eq(
            &self.text,
            &other.text,
        )
    }

    fn copy(&self) -> (c: Identity)
        ensures
            c@ == self@,
    {
        Identity {
            from: self.from.clone(),
            timestamp: self.timestamp.clone(),
            text: self.text.clone(),
        }
    }
}

/// A decoded frame, as far as a member acts on it.
#[derive(Clone, Debug, PartialEq, Eq)]
pub enum Frame {
    /// The team wants this member to end.
    ShutdownRequest { request_id: String },
    /// An answer to an ask this member forwarded.
    PermissionResponse,
    /// An answer to a plan this member never asked about.
    PlanApprovalResponse,
    /// The permission mode to take; none for one there is no posture for.
    ModeSetRequest { mode: Option<String> },
    /// Work for this member.
    TaskAssignment { subject: String, description: String },
    /// Any other frame.
    Other,
}

/// A frame as the contracts speak of it.
pub enum FrameView {
    ShutdownRequest { request_id: Seq<char> },
    PermissionResponse,
    PlanApprovalResponse,
    ModeSetRequest { mode: Option<Seq<char>> },
    TaskAssignment { subject: Seq<char>, description: Seq<char> },
    Other,
}

impl View for Frame {
    type V = FrameView;

    open spec fn view(&self) -> FrameView {
        match self {
            Frame::ShutdownRequest { request_id } => FrameView::ShutdownRequest {
                request_id: request_id@,
            },
            Frame::PermissionResponse => FrameView::PermissionResponse,
            Frame::PlanApprovalResponse => FrameView::PlanApprovalResponse,
            Frame::ModeSetRequest { mode } => FrameView::ModeSetRequest {
                mode: spell::seen(*mode),
            },
            Frame::TaskAssignment { subject, description } => FrameView::TaskAssignment {
                subject: subject@,
                description: description@,
            },
            Frame::Other => FrameView::Other,
        }
    }
}

/// One entry of the inbox.
#[derive(Clone, Debug, PartialEq, Eq)]
pub struct Message {
    pub from: String,
    pub timestamp: String,
    pub summary: Option<String>,
    pub color: Option<String>,
    pub text: String,
    /// The reserved kind the text declares, where it is a frame.
    pub kind: Option<String>,
    /// The frame, where it decodes.
    pub frame: Option<Frame>,
}

/// An entry as the contracts speak of it.
pub struct MessageView {
    pub from: Seq<char>,
    pub timestamp: Seq<char>,
    pub summary: Option<Seq<char>>,
    pub color: Option<Seq<char>>,
    pub text: Seq<char>,
    pub kind: Option<Seq<char>>,
    pub frame: Option<FrameView>,
}

impl View for Message {
    type V = MessageView;

    open spec fn view(&self) -> MessageView {
        MessageView {
            from: self.from@,
            timestamp: self.timestamp@,
            summary: spell::seen(self.summary),
            color: spell::seen(self.color),
            text: self.text@,
            kind: spell::seen(self.kind),
            frame: match self.frame {
                Some(frame) => Some(frame@),
                None => None,
            },
        }
    }
}

impl MessageView {
    /// What tells this entry from another.
    pub open spec fn identity(self) -> IdentityView {
        IdentityView { from: self.from, timestamp: self.timestamp, text: self.text }
    }
}

/// The views of entries.
pub open spec fn message_views(messages: Seq<Message>) -> Seq<MessageView> {
    Seq::new(messages.len(), |i: int| messages[i]@)
}

impl Message {
    fn identity(&self) -> (i: Identity)
        ensures
            i@ == self@.identity(),
    {
        Identity {
            from: self.from.clone(),
            timestamp: self.timestamp.clone(),
            text: self.text.clone(),
        }
    }
}

/// A message as it is handed to the conversation.
#[derive(Clone, Debug, PartialEq, Eq)]
pub struct Delivered {
    pub from: String,
    pub timestamp: String,
    pub summary: Option<String>,
    pub color: Option<String>,
    pub body: String,
}

/// The same as the contracts speak of it.
pub struct DeliveredView {
    pub from: Seq<char>,
    pub timestamp: Seq<char>,
    pub summary: Option<Seq<char>>,
    pub color: Option<Seq<char>>,
    pub body: Seq<char>,
}

impl View for Delivered {
    type V = DeliveredView;

    open spec fn view(&self) -> DeliveredView {
        DeliveredView {
            from: self.from@,
            timestamp: self.timestamp@,
            summary: spell::seen(self.summary),
            color: spell::seen(self.color),
            body: self.body@,
        }
    }
}

impl DeliveredView {
    /// The identity its own fields give it, which is not that of the entry it
    /// was rendered from where it was rendered.
    pub open spec fn identity(self) -> IdentityView {
        IdentityView { from: self.from, timestamp: self.timestamp, text: self.body }
    }
}

/// The views of delivered messages.
pub open spec fn delivered_views(messages: Seq<Delivered>) -> Seq<DeliveredView> {
    Seq::new(messages.len(), |i: int| messages[i]@)
}

impl Delivered {
    fn identity(&self) -> (i: Identity)
        ensures
            i@ == self@.identity(),
    {
        Identity {
            from: self.from.clone(),
            timestamp: self.timestamp.clone(),
            text: self.body.clone(),
        }
    }
}

/// A message nobody has to interpret: as it was written.
pub open spec fn verbatim(message: MessageView) -> DeliveredView {
    DeliveredView {
        from: message.from,
        timestamp: message.timestamp,
        summary: message.summary,
        color: message.color,
        body: message.text,
    }
}

/// Work the lead assigned, as the message it becomes: from the sender of the
/// entry, summed up by the subject.
pub open spec fn assigned(
    message: MessageView,
    subject: Seq<char>,
    description: Seq<char>,
) -> DeliveredView {
    DeliveredView {
        from: message.from,
        timestamp: message.timestamp,
        summary: Some(subject),
        color: message.color,
        body: subject + "\n\n"@ + description,
    }
}

/// A message as it was written; see [`verbatim`].
fn plain(message: &Message) -> (d: Delivered)
    ensures
        d@ == verbatim(message@),
{
    Delivered {
        from: message.from.clone(),
        timestamp: message.timestamp.clone(),
        summary: copied(&message.summary),
        color: copied(&message.color),
        body: message.text.clone(),
    }
}

/// Work the lead assigned; see [`assigned`].
fn assignment(message: &Message, subject: &str, description: &str) -> (d: Delivered)
    ensures
        d@ == assigned(message@, subject@, description@),
{
    let mut body = String::new();
    body.push_str(subject);
    body.push_str("\n\n");
    body.push_str(description);
    assert(body@ =~= subject@ + "\n\n"@ + description@);
    Delivered {
        from: message.from.clone(),
        timestamp: message.timestamp.clone(),
        summary: Some(subject.to_string()),
        color: copied(&message.color),
        body,
    }
}

/// How an ask was answered.
#[derive(Clone, Copy, Debug, PartialEq, Eq, Structural)]
pub enum PermissionReply {
    Once,
    Always,
    Reject,
}

/// What the answer to an ask turned out to be.
#[derive(Clone, Debug, PartialEq, Eq)]
pub enum Resolved {
    /// The answer to an ask that is waiting.
    Answered { id: String, reply: PermissionReply },
    /// The answer to nothing that is.
    Stale,
}

/// The same as the contracts speak of it.
pub enum ResolvedView {
    Answered { id: Seq<char>, reply: PermissionReply },
    Stale,
}

impl View for Resolved {
    type V = ResolvedView;

    open spec fn view(&self) -> ResolvedView {
        match self {
            Resolved::Answered { id, reply } => ResolvedView::Answered { id: id@, reply: *reply },
            Resolved::Stale => ResolvedView::Stale,
        }
    }
}

/// The views of resolved answers.
pub open spec fn resolved_views(answers: Seq<Resolved>) -> Seq<ResolvedView> {
    Seq::new(answers.len(), |i: int| answers[i]@)
}

/// Whether an entry is an answer that only the lead may give, and the lead gave
/// it.
pub open spec fn asks_resolution(message: MessageView, lead: Seq<char>) -> bool {
    message.kind is Some && message.from == lead && message.frame
        == Some(FrameView::PermissionResponse)
}

/// What one frame turned out to be worth.
pub enum VerdictView {
    /// A permission mode the lead set.
    Mode(Seq<char>),
    /// The lead's answer to a forwarded ask.
    Answer(Seq<char>, PermissionReply),
    /// Stale, or not this member's to act on.
    Ignored,
    /// Named and dropped.
    Dropped(Seq<char>),
    /// Something the member reads.
    Tell(DeliveredView),
}

/// What a frame of a kind is worth, given what an answer to an ask turned out
/// to be: nothing to act on unless it decodes and the lead wrote it.
pub open spec fn verdict(
    message: MessageView,
    kind: Seq<char>,
    lead: Seq<char>,
    answer: ResolvedView,
) -> VerdictView {
    if message.from != lead {
        VerdictView::Dropped(kind)
    } else {
        match message.frame {
            None => VerdictView::Dropped(kind),
            Some(frame) => match frame {
                FrameView::PermissionResponse => match answer {
                    ResolvedView::Answered { id, reply } => VerdictView::Answer(id, reply),
                    ResolvedView::Stale => VerdictView::Ignored,
                },
                FrameView::PlanApprovalResponse => VerdictView::Ignored,
                FrameView::ModeSetRequest { mode } => match mode {
                    Some(mode) => VerdictView::Mode(mode),
                    None => VerdictView::Dropped("mode_set_request"@),
                },
                FrameView::TaskAssignment { subject, description } => VerdictView::Tell(
                    assigned(message, subject, description),
                ),
                _ => VerdictView::Dropped(kind),
            },
        }
    }
}

/// What one frame turned out to be worth.
enum Verdict {
    Mode(String),
    Answer(String, PermissionReply),
    Ignored,
    Dropped(String),
    Tell(Delivered),
}

impl View for Verdict {
    type V = VerdictView;

    closed spec fn view(&self) -> VerdictView {
        match self {
            Verdict::Mode(mode) => VerdictView::Mode(mode@),
            Verdict::Answer(id, reply) => VerdictView::Answer(id@, *reply),
            Verdict::Ignored => VerdictView::Ignored,
            Verdict::Dropped(kind) => VerdictView::Dropped(kind@),
            Verdict::Tell(delivered) => VerdictView::Tell(delivered@),
        }
    }
}

/// What one pass over the inbox found and did.
#[derive(Clone, Debug, PartialEq, Eq)]
pub struct Pass {
    /// The request id of a shutdown request, where the pass found one: it then
    /// carries nothing else.
    pub shutdown: Option<String>,
    /// The messages owed a delivery, oldest first.
    pub messages: Vec<Delivered>,
    /// The permission modes the lead set, in order.
    pub modes: Vec<String>,
    /// The lead's answers to asks this member forwarded, in order.
    pub answers: Vec<(String, PermissionReply)>,
    /// How many approvals were ignored as stale.
    pub ignored: usize,
    /// The frames this pass named and dropped, by kind.
    pub dropped: Vec<String>,
}

/// A pass as the contracts speak of it.
#[verifier::ext_equal]
pub struct PassView {
    pub shutdown: Option<Seq<char>>,
    pub messages: Seq<DeliveredView>,
    pub modes: Seq<Seq<char>>,
    pub answers: Seq<(Seq<char>, PermissionReply)>,
    pub ignored: nat,
    pub dropped: Seq<Seq<char>>,
}

/// The views of answers.
pub open spec fn answer_views(answers: Seq<(String, PermissionReply)>) -> Seq<
    (Seq<char>, PermissionReply),
> {
    Seq::new(answers.len(), |i: int| (answers[i].0@, answers[i].1))
}

impl View for Pass {
    type V = PassView;

    open spec fn view(&self) -> PassView {
        PassView {
            shutdown: spell::seen(self.shutdown),
            messages: delivered_views(self.messages@),
            modes: text::texts(self.modes@),
            answers: answer_views(self.answers@),
            ignored: self.ignored as nat,
            dropped: text::texts(self.dropped@),
        }
    }
}

impl PassView {
    /// The pass that found nothing.
    pub open spec fn nothing() -> PassView {
        PassView {
            shutdown: None,
            messages: Seq::empty(),
            modes: Seq::empty(),
            answers: Seq::empty(),
            ignored: 0,
            dropped: Seq::empty(),
        }
    }
}

impl Pass {
    fn nothing() -> (p: Pass)
        ensures
            p@ == PassView::nothing(),
    {
        let p = Pass {
            shutdown: None,
            messages: Vec::new(),
            modes: Vec::new(),
            answers: Vec::new(),
            ignored: 0,
            dropped: Vec::new(),
        };
        assert(p@ =~= PassView::nothing());
        p
    }

    /// Whether this pass found nothing at all.
    pub fn is_empty(&self) -> (r: bool)
        ensures
            r == (self@ == PassView::nothing()),
    {
        let r = self.shutdown.is_none() && self.messages.len() == 0 && self.modes.len() == 0
            && self.answers.len() == 0 && self.ignored == 0 && self.dropped.len() == 0;
        if r {
            assert(self@ =~= PassView::nothing());
        } else {
            assert(self@.messages.len() == self.messages@.len());
            assert(self@.modes.len() == self.modes@.len());
            assert(self@.answers.len() == self.answers@.len());
            assert(self@.dropped.len() == self.dropped@.len());
        }
        r
    }
}

/// A pass in the making: what it has come to, what leaves the inbox, what was
/// rendered from what, and how many answers were resolved.
#[verifier::ext_equal]
pub struct Sweep {
    pub pass: PassView,
    pub handled: Seq<IdentityView>,
    pub rendered: Map<IdentityView, IdentityView>,
    pub answered: nat,
}

impl Sweep {
    /// One more entry.
    pub open spec fn with(
        self,
        message: MessageView,
        lead: Seq<char>,
        answers: Seq<ResolvedView>,
    ) -> Sweep {
        match message.kind {
            None => Sweep {
                pass: PassView {
                    messages: self.pass.messages.push(verbatim(message)),
                    ..self.pass
                },
                ..self
            },
            Some(kind) => {
                let answer = if self.answered < answers.len() {
                    answers[self.answered as int]
                } else {
                    ResolvedView::Stale
                };
                let next = Sweep {
                    answered: if asks_resolution(message, lead) {
                        self.answered + 1
                    } else {
                        self.answered
                    },
                    ..self
                };
                let pass = self.pass;
                let handled = self.handled.push(message.identity());
                match verdict(message, kind, lead, answer) {
                    VerdictView::Mode(mode) => Sweep {
                        pass: PassView { modes: pass.modes.push(mode), ..pass },
                        handled,
                        ..next
                    },
                    VerdictView::Answer(id, reply) => Sweep {
                        pass: PassView { answers: pass.answers.push((id, reply)), ..pass },
                        handled,
                        ..next
                    },
                    VerdictView::Ignored => Sweep {
                        pass: PassView { ignored: pass.ignored + 1, ..pass },
                        handled,
                        ..next
                    },
                    VerdictView::Dropped(name) => Sweep {
                        pass: PassView { dropped: pass.dropped.push(name), ..pass },
                        handled,
                        ..next
                    },
                    VerdictView::Tell(delivered) => Sweep {
                        pass: PassView { messages: pass.messages.push(delivered), ..pass },
                        rendered: self.rendered.insert(delivered.identity(), message.identity()),
                        ..next
                    },
                }
            },
        }
    }

    /// The entries from `i` on.
    pub open spec fn over(
        self,
        messages: Seq<MessageView>,
        i: nat,
        lead: Seq<char>,
        answers: Seq<ResolvedView>,
    ) -> Sweep
        decreases messages.len() - i,
    {
        if i >= messages.len() {
            self
        } else {
            self.with(messages[i as int], lead, answers).over(messages, i + 1, lead, answers)
        }
    }
}

/// The first entry from `i` on that is a shutdown request; past the end where
/// none is.
pub open spec fn shutdown_at(messages: Seq<MessageView>, i: nat) -> nat
    decreases messages.len() - i,
{
    if i >= messages.len() {
        i
    } else if messages[i as int].frame matches Some(FrameView::ShutdownRequest { request_id }) {
        i
    } else {
        shutdown_at(messages, i + 1)
    }
}

/// What a pass over the inbox comes to, from what was rendered in earlier ones.
pub open spec fn swept(
    rendered: Map<IdentityView, IdentityView>,
    messages: Seq<MessageView>,
    lead: Seq<char>,
    answers: Seq<ResolvedView>,
) -> Sweep {
    let start = Sweep {
        pass: PassView::nothing(),
        handled: Seq::empty(),
        rendered,
        answered: 0,
    };
    let at = shutdown_at(messages, 0);
    if at < messages.len() {
        Sweep {
            pass: PassView {
                shutdown: match messages[at as int].frame {
                    Some(FrameView::ShutdownRequest { request_id }) => Some(request_id),
                    _ => None,
                },
                ..start.pass
            },
            handled: seq![messages[at as int].identity()],
            ..start
        }
    } else {
        start.over(messages, 0, lead, answers)
    }
}

/// The pairs of a list, as a map; of two under one key the later counts.
pub open spec fn as_map(pairs: Seq<(IdentityView, IdentityView)>) -> Map<
    IdentityView,
    IdentityView,
>
    decreases pairs.len(),
{
    if pairs.len() == 0 {
        Map::empty()
    } else {
        as_map(pairs.drop_last()).insert(pairs.last().0, pairs.last().1)
    }
}

/// The views of pairs.
pub open spec fn pair_views(pairs: Seq<(Identity, Identity)>) -> Seq<(IdentityView, IdentityView)> {
    Seq::new(pairs.len(), |i: int| (pairs[i].0@, pairs[i].1@))
}

/// The pairs under other keys.
pub open spec fn without(pairs: Seq<(IdentityView, IdentityView)>, key: IdentityView) -> Seq<
    (IdentityView, IdentityView),
>
    decreases pairs.len(),
{
    if pairs.len() == 0 {
        Seq::empty()
    } else if pairs.last().0 == key {
        without(pairs.drop_last(), key)
    } else {
        without(pairs.drop_last(), key).push(pairs.last())
    }
}

proof fn lemma_without(pairs: Seq<(IdentityView, IdentityView)>, key: IdentityView)
    ensures
        as_map(without(pairs, key)) == as_map(pairs).remove(key),
    decreases pairs.len(),
{
    if pairs.len() == 0 {
        assert(as_map(without(pairs, key)) =~= as_map(pairs).remove(key));
    } else {
        lemma_without(pairs.drop_last(), key);
        let front = without(pairs.drop_last(), key);
        if pairs.last().0 != key {
            assert(front.push(pairs.last()).drop_last() =~= front);
        }
        assert(as_map(without(pairs, key)) =~= as_map(pairs).remove(key));
    }
}

/// This member's own mailbox.
#[derive(Clone, Debug)]
pub struct Inbox {
    membership: Membership,
    /// What a message was rendered from, for those that were.
    rendered: Vec<(Identity, Identity)>,
}

/// A mailbox as the contracts speak of it.
pub struct InboxView {
    pub membership: MembershipView,
    pub rendered: Map<IdentityView, IdentityView>,
}

impl View for Inbox {
    type V = InboxView;

    closed spec fn view(&self) -> InboxView {
        InboxView {
            membership: self.membership@,
            rendered: as_map(pair_views(self.rendered@)),
        }
    }
}

/// The entries that leave the inbox when messages were delivered, and what is
/// remembered of renderings behind that: a rendered message stands for the
/// entry it was rendered from.
pub open spec fn pruned(
    rendered: Map<IdentityView, IdentityView>,
    messages: Seq<DeliveredView>,
) -> (Seq<IdentityView>, Map<IdentityView, IdentityView>)
    decreases messages.len(),
{
    if messages.len() == 0 {
        (Seq::empty(), rendered)
    } else {
        let (front, left) = pruned(rendered, messages.drop_last());
        let held = messages.last().identity();
        (
            front.push(
                if left.dom().contains(held) {
                    left[held]
                } else {
                    held
                },
            ),
            left.remove(held),
        )
    }
}

impl Inbox {
    /// The inbox of a member.
    pub fn new(membership: Membership) -> (inbox: Inbox)
        ensures
            inbox@ == (InboxView { membership: membership@, rendered: Map::empty() }),
    {
        let inbox = Inbox { membership, rendered: Vec::new() };
        assert(pair_views(inbox.rendered@) =~= Seq::empty());
        inbox
    }

    /// Who this inbox belongs to.
    pub fn membership(&self) -> (m: &Membership)
        ensures
            m@ == self@.membership,
    {
        &self.membership
    }

    /// The entries whose answers the caller has to resolve, in order, before
    /// [`Inbox::poll`]: those of the lead, and of nobody else; none where a
    /// shutdown request goes ahead.
    pub fn to_resolve(&self, messages: &Vec<Message>) -> (out: Vec<usize>)
        ensures
            positions(out@) == resolving(
                message_views(messages@),
                self@.membership.lead,
                messages@.len(),
            ),
    {
        let ghost all = message_views(messages@);
        let mut out: Vec<usize> = Vec::new();
        let at = Self::find_shutdown(messages);
        if at < messages.len() {
            assert(positions(out@) =~= Seq::empty());
            return out;
        }
        let mut i: usize = 0;
        assert(positions(out@) =~= lead_answers(all, self@.membership.lead, 0));
        while i < messages.len()
            invariant
                i <= messages@.len(),
                all == message_views(messages@),
                positions(out@) == lead_answers(all, self@.membership.lead, i as nat),
            decreases messages.len() - i,
        {
            let message = &messages[i];
            assert(all[i as int] == message@);
            let ghost before = positions(out@);
            let asks = match (&message.kind, &message.frame) {
                (Some(_), Some(Frame::PermissionResponse)) => str_eq(
                    &message.from,
                    &self.membership.lead,
                ),
                _ => false,
            };
            if asks {
                out.push(i);
                assert(positions(out@) =~= before.push(i as int));
            }
            i += 1;
        }
        out
    }

    /// Where the first shutdown request stands; see [`shutdown_at`].
    fn find_shutdown(messages: &Vec<Message>) -> (at: usize)
        ensures
            at == shutdown_at(message_views(messages@), 0),
            at <= messages@.len(),
    {
        let ghost all = message_views(messages@);
        let mut i: usize = 0;
        while i < messages.len()
            invariant
                i <= messages@.len(),
                all == message_views(messages@),
                shutdown_at(all, 0) == shutdown_at(all, i as nat),
            decreases messages.len() - i,
        {
            assert(all[i as int] == messages@[i as int]@);
            let found = match &messages[i].frame {
                Some(Frame::ShutdownRequest { .. }) => true,
                _ => false,
            };
            if found {
                return i;
            }
            i += 1;
        }
        i
    }

    /// One pass over the entries of the inbox; see [`swept`]. `answers` are
    /// what the entries that [`Inbox::to_resolve`] names turned out to be. The
    /// second result is what leaves the inbox now.
    pub fn poll(&mut self, messages: &Vec<Message>, answers: &Vec<Resolved>) -> (r: (
        Pass,
        Vec<Identity>,
    ))
        ensures
            ({
                let sweep = swept(
                    old(self)@.rendered,
                    message_views(messages@),
                    old(self)@.membership.lead,
                    resolved_views(answers@),
                );
                &&& r.0@ == sweep.pass
                &&& identity_views(r.1@) == sweep.handled
                &&& final(self)@ == (InboxView { rendered: sweep.rendered, ..old(self)@ })
            }),
    {
        let ghost all = message_views(messages@);
        let ghost lead = self@.membership.lead;
        let ghost resolved = resolved_views(answers@);
        let ghost membership = self@.membership;
        let mut pass = Pass::nothing();
        let mut handled: Vec<Identity> = Vec::new();
        let at = Self::find_shutdown(messages);
        if at < messages.len() {
            assert(all[at as int] == messages@[at as int]@);
            proof {
                lemma_shutdown_found(all, 0);
            }
            match &messages[at].frame {
                Some(Frame::ShutdownRequest { request_id }) => {
                    pass.shutdown = Some(request_id.clone());
                },
                _ => {},
            }
            handled.push(messages[at].identity());
            assert(identity_views(handled@) =~= seq![all[at as int].identity()]);
            assert(pass@ =~= swept(self@.rendered, all, lead, resolved).pass);
            return (pass, handled);
        }
        let ghost whole = swept(self@.rendered, all, lead, resolved);
        let mut answered: usize = 0;
        let mut i: usize = 0;
        let ghost mut state = Sweep {
            pass: PassView::nothing(),
            handled: Seq::empty(),
            rendered: self@.rendered,
            answered: 0,
        };
        assert(identity_views(handled@) =~= state.handled);
        while i < messages.len()
            invariant
                i <= messages@.len(),
                all == message_views(messages@),
                resolved == resolved_views(answers@),
                self@.membership == membership,
                membership.lead == lead,
                whole == state.over(all, i as nat, lead, resolved),
                pass@ == state.pass,
                pass.ignored <= i,
                identity_views(handled@) == state.handled,
                self@.rendered == state.rendered,
                answered == state.answered,
                answered <= i,
            decreases messages.len() - i,
        {
            let message = &messages[i];
            assert(all[i as int] == message@);
            let ghost before = state;
            let ghost next = state.with(message@, lead, resolved);
            match &message.kind {
                None => {
                    pass.messages.push(plain(message));
                    assert(pass@ =~= next.pass);
                },
                Some(kind) => {
                    let stale = Resolved::Stale;
                    let answer = if answered < answers.len() {
                        assert(resolved[answered as int] == answers@[answered as int]@);
                        &answers[answered]
                    } else {
                        &stale
                    };
                    let verdict = self.apply(kind, message, answer);
                    let asks = match &message.frame {
                        Some(Frame::PermissionResponse) => str_eq(
                            &message.from,
                            &self.membership.lead,
                        ),
                        _ => false,
                    };
                    if asks {
                        answered += 1;
                    }
                    match verdict {
                        Verdict::Mode(mode) => {
                            pass.modes.push(mode);
                            handled.push(message.identity());
                        },
                        Verdict::Answer(id, reply) => {
                            pass.answers.push((id, reply));
                            handled.push(message.identity());
                        },
                        Verdict::Ignored => {
                            pass.ignored += 1;
                            handled.push(message.identity());
                        },
                        Verdict::Dropped(name) => {
                            pass.dropped.push(name);
                            handled.push(message.identity());
                        },
                        Verdict::Tell(delivered) => {
                            self.remember(delivered.identity(), message.identity());
                            pass.messages.push(delivered);
                        },
                    }
                    assert(pass@ =~= next.pass);
                    assert(identity_views(handled@) =~= next.handled);
                },
            }
            proof {
                state = next;
            }
            i += 1;
        }
        (pass, handled)
    }

    /// What one frame is worth; see [`verdict`].
    fn apply(&self, kind: &str, message: &Message, answer: &Resolved) -> (v: Verdict)
        ensures
            v@ == verdict(message@, kind@, self@.membership.lead, answer@),
    {
        if !str_eq(&message.from, &self.membership.lead) {
            return Verdict::Dropped(kind.to_string());
        }
        match &message.frame {
            Some(Frame::PermissionResponse) => match answer {
                Resolved::Answered { id, reply } => Verdict::Answer(id.clone(), *reply),
                Resolved::Stale => Verdict::Ignored,
            },
            Some(Frame::PlanApprovalResponse) => Verdict::Ignored,
            Some(Frame::ModeSetRequest { mode }) => match mode {
                Some(mode) => Verdict::Mode(mode.clone()),
                None => Verdict::Dropped("mode_set_request".to_string()),
            },
            Some(Frame::TaskAssignment { subject, description }) => Verdict::Tell(
                assignment(message, subject, description),
            ),
            _ => Verdict::Dropped(kind.to_string()),
        }
    }

    /// Forgets what a message was rendered from.
    fn forget(&mut self, key: &Identity)
        ensures
            final(self)@ == (InboxView {
                rendered: old(self)@.rendered.remove(key@),
                ..old(self)@
            }),
    {
        let ghost all = pair_views(self.rendered@);
        let mut kept: Vec<(Identity, Identity)> = Vec::new();
        let mut i: usize = 0;
        assert(pair_views(kept@) =~= without(all.take(0), key@));
        while i < self.rendered.len()
            invariant
                i <= self.rendered@.len(),
                all == pair_views(self.rendered@),
                pair_views(kept@) == without(all.take(i as int), key@),
            decreases self.rendered.len() - i,
        {
            let pair = &self.rendered[i];
            assert(all[i as int] == (pair.0@, pair.1@));
            assert(all.take(i + 1).drop_last() =~= all.take(i as int));
            let ghost before = pair_views(kept@);
            if !pair.0.same(key) {
                kept.push((pair.0.copy(), pair.1.copy()));
                assert(pair_views(kept@) =~= before.push(all[i as int]));
            }
            i += 1;
        }
        assert(all.take(i as int) =~= all);
        proof {
            lemma_without(all, key@);
        }
        self.rendered = kept;
    }

    /// Remembers what a message was rendered from.
    fn remember(&mut self, key: Identity, value: Identity)
        ensures
            final(self)@ == (InboxView {
                rendered: old(self)@.rendered.insert(key@, value@),
                ..old(self)@
            }),
    {
        let ghost was = self@.rendered;
        self.forget(&key);
        let ghost kept = pair_views(self.rendered@);
        let ghost pair = (key@, value@);
        self.rendered.push((key, value));
        assert(pair_views(self.rendered@) =~= kept.push(pair));
        assert(kept.push(pair).drop_last() =~= kept);
        assert(self@.rendered =~= was.insert(pair.0, pair.1));
    }

    /// What a message was rendered from, where it was.
    fn source(&self, key: &Identity) -> (r: Option<Identity>)
        ensures
            match r {
                Some(source) => self@.rendered.dom().contains(key@) && self@.rendered[key@]
                    == source@,
                None => !self@.rendered.dom().contains(key@),
            },
    {
        let ghost all = pair_views(self.rendered@);
        let mut n: usize = self.rendered.len();
        assert(all.take(n as int) =~= all);
        while n > 0
            invariant
                n <= self.rendered@.len(),
                all == pair_views(self.rendered@),
                self@.rendered == as_map(all),
                as_map(all).dom().contains(key@) == as_map(all.take(n as int)).dom().contains(
                    key@,
                ),
                as_map(all)[key@] == as_map(all.take(n as int))[key@],
            decreases n,
        {
            let pair = &self.rendered[n - 1];
            assert(all[n - 1] == (pair.0@, pair.1@));
            assert(all.take(n as int).drop_last() =~= all.take(n - 1));
            assert(all.take(n as int).last() == all[n - 1]);
            if pair.0.same(key) {
                return Some(pair.1.copy());
            }
            n -= 1;
        }
        None
    }

    /// The entries that leave the inbox because these messages were delivered;
    /// see [`pruned`].
    pub fn delivered(&mut self, messages: &Vec<Delivered>) -> (out: Vec<Identity>)
        ensures
            identity_views(out@) == pruned(old(self)@.rendered, delivered_views(messages@)).0,
            final(self)@ == (InboxView {
                rendered: pruned(old(self)@.rendered, delivered_views(messages@)).1,
                ..old(self)@
            }),
    {
        let ghost all = delivered_views(messages@);
        let ghost was = self@;
        let mut out: Vec<Identity> = Vec::new();
        let mut i: usize = 0;
        assert(identity_views(out@) =~= pruned(was.rendered, all.take(0)).0);
        while i < messages.len()
            invariant
                i <= messages@.len(),
                all == delivered_views(messages@),
                identity_views(out@) == pruned(was.rendered, all.take(i as int)).0,
                self@.rendered == pruned(was.rendered, all.take(i as int)).1,
                self@.membership == was.membership,
            decreases messages.len() - i,
        {
            let held = messages[i].identity();
            assert(all[i as int] == messages@[i as int]@);
            assert(all.take(i + 1).drop_last() =~= all.take(i as int));
            assert(all.take(i + 1).last() == all[i as int]);
            let ghost before = identity_views(out@);
            let source = match self.source(&held) {
                Some(source) => source,
                None => held.copy(),
            };
            let ghost gone = source@;
            self.forget(&held);
            out.push(source);
            assert(identity_views(out@) =~= before.push(gone));
            i += 1;
        }
        assert(all.take(i as int) =~= all);
        out
    }
}

/// Positions as the contracts speak of them.
pub open spec fn positions(indices: Seq<usize>) -> Seq<int> {
    Seq::new(indices.len(), |i: int| indices[i] as int)
}

/// The positions of the first `n` entries that are answers of the lead.
pub open spec fn lead_answers(messages: Seq<MessageView>, lead: Seq<char>, n: nat) -> Seq<int>
    decreases n,
{
    if n == 0 {
        Seq::empty()
    } else {
        let front = lead_answers(messages, lead, (n - 1) as nat);
        if asks_resolution(messages[n - 1], lead) {
            front.push(n - 1)
        } else {
            front
        }
    }
}

/// The positions of the entries whose answers have to be resolved for a pass.
pub open spec fn resolving(messages: Seq<MessageView>, lead: Seq<char>, n: nat) -> Seq<int> {
    if shutdown_at(messages, 0) < messages.len() {
        Seq::empty()
    } else {
        lead_answers(messages, lead, n)
    }
}

proof fn lemma_shutdown_found(messages: Seq<MessageView>, i: nat)
    requires
        i <= messages.len(),
    ensures
        i <= shutdown_at(messages, i) <= messages.len(),
        shutdown_at(messages, i) < messages.len() ==> (messages[shutdown_at(
            messages,
            i,
        ) as int].frame matches Some(FrameView::ShutdownRequest { request_id })),
        forall|k: int|
            i <= k < shutdown_at(messages, i) ==> !(
            (#[trigger] messages[k]).frame matches Some(FrameView::ShutdownRequest { request_id })),
    decreases messages.len() - i,
{
    if i < messages.len() && !(messages[i as int].frame matches Some(
        FrameView::ShutdownRequest { request_id },
    )) {
        lemma_shutdown_found(messages, i + 1);
    }
}

/// Whether an entry is a shutdown request.
pub open spec fn shuts_down(message: MessageView) -> bool {
    message.frame matches Some(FrameView::ShutdownRequest { request_id })
}

/// A shutdown request goes ahead of everything else in the inbox: the pass
/// carries it and nothing more, and only it leaves.
pub proof fn law_a_shutdown_goes_first(
    rendered: Map<IdentityView, IdentityView>,
    messages: Seq<MessageView>,
    lead: Seq<char>,
    answers: Seq<ResolvedView>,
    at: int,
)
    requires
        0 <= at < messages.len(),
        shuts_down(messages[at]),
    ensures
        ({
            let sweep = swept(rendered, messages, lead, answers);
            &&& sweep.pass.shutdown is Some
            &&& sweep.pass == (PassView { shutdown: sweep.pass.shutdown, ..PassView::nothing() })
            &&& sweep.handled.len() == 1
            &&& sweep.rendered == rendered
        }),
{
    lemma_shutdown_found(messages, 0);
    if shutdown_at(messages, 0) >= messages.len() {
        assert(!shuts_down(messages[at]));
    }
}

/// Nothing a peer writes is acted on: a frame that is not the lead's is named
/// and dropped, whatever it says.
pub proof fn law_only_the_lead_commands(
    message: MessageView,
    kind: Seq<char>,
    lead: Seq<char>,
    answer: ResolvedView,
)
    requires
        message.from != lead,
    ensures
        verdict(message, kind, lead, answer) == VerdictView::Dropped(kind),
        !asks_resolution(message, lead),
{
}

/// Every entry is accounted for: it leaves the inbox with the pass, or it is
/// handed over as a message.
pub proof fn law_every_entry_is_accounted_for(
    rendered: Map<IdentityView, IdentityView>,
    messages: Seq<MessageView>,
    lead: Seq<char>,
    answers: Seq<ResolvedView>,
)
    requires
        forall|i: int| 0 <= i < messages.len() ==> !shuts_down(#[trigger] messages[i]),
    ensures
        ({
            let sweep = swept(rendered, messages, lead, answers);
            &&& sweep.pass.shutdown is None
            &&& sweep.handled.len() + sweep.pass.messages.len() == messages.len()
            &&& sweep.handled.len() == sweep.pass.modes.len() + sweep.pass.answers.len()
                + sweep.pass.ignored + sweep.pass.dropped.len()
        }),
{
    lemma_shutdown_found(messages, 0);
    let start = Sweep {
        pass: PassView::nothing(),
        handled: Seq::empty(),
        rendered,
        answered: 0,
    };
    lemma_accounted(start, messages, 0, lead, answers);
}

proof fn lemma_accounted(
    state: Sweep,
    messages: Seq<MessageView>,
    i: nat,
    lead: Seq<char>,
    answers: Seq<ResolvedView>,
)
    requires
        i <= messages.len(),
        state.pass.shutdown is None,
        state.handled.len() + state.pass.messages.len() == i,
        state.handled.len() == state.pass.modes.len() + state.pass.answers.len()
            + state.pass.ignored + state.pass.dropped.len(),
    ensures
        ({
            let after = state.over(messages, i, lead, answers);
            &&& after.pass.shutdown is None
            &&& after.handled.len() + after.pass.messages.len() == messages.len()
            &&& after.handled.len() == after.pass.modes.len() + after.pass.answers.len()
                + after.pass.ignored + after.pass.dropped.len()
        }),
    decreases messages.len() - i,
{
    if i < messages.len() {
        lemma_accounted(
            state.with(messages[i as int], lead, answers),
            messages,
            i + 1,
            lead,
            answers,
        );
    }
}

/// Whether an entry is handed over rather than acted on.
pub open spec fn owed(message: MessageView, lead: Seq<char>) -> bool {
    message.kind is None || (message.from == lead && message.frame is Some
        && message.frame->Some_0 is TaskAssignment)
}

/// The identities of the entries handed over, of the first `n`.
pub open spec fn owed_entries(messages: Seq<MessageView>, lead: Seq<char>, n: nat) -> Seq<
    IdentityView,
>
    decreases n,
{
    if n == 0 {
        Seq::empty()
    } else {
        let front = owed_entries(messages, lead, (n - 1) as nat);
        if owed(messages[n - 1], lead) {
            front.push(messages[n - 1].identity())
        } else {
            front
        }
    }
}

/// Whether the messages told so far stand for the entries they came from: a
/// rendered one by what is remembered of it, any other by itself; and whether
/// nothing is remembered of any other message.
spec fn stands_for(
    rendered: Map<IdentityView, IdentityView>,
    told: Seq<DeliveredView>,
    entries: Seq<IdentityView>,
) -> bool {
    &&& told.len() == entries.len()
    &&& forall|k: int|
        0 <= k < told.len() ==> entries[k] == (if rendered.dom().contains(
            (#[trigger] told[k]).identity(),
        ) {
            rendered[told[k].identity()]
        } else {
            told[k].identity()
        })
    &&& forall|id: IdentityView|
        rendered.dom().contains(id) ==> exists|k: int|
            0 <= k < told.len() && (#[trigger] told[k]).identity() == id
}

/// Whether no two messages carry the same identity.
pub open spec fn told_apart(told: Seq<DeliveredView>) -> bool {
    forall|j: int, k: int|
        0 <= j < k < told.len() ==> (#[trigger] told[j]).identity() != (
        #[trigger] told[k]).identity()
}

/// The messages a pass will have told are those told so far and more.
proof fn lemma_told_grows(
    state: Sweep,
    messages: Seq<MessageView>,
    i: nat,
    lead: Seq<char>,
    answers: Seq<ResolvedView>,
)
    ensures
        ({
            let after = state.over(messages, i, lead, answers);
            &&& after.pass.messages.len() >= state.pass.messages.len()
            &&& after.pass.messages.take(state.pass.messages.len() as int) == state.pass.messages
        }),
    decreases messages.len() - i,
{
    if i < messages.len() {
        let next = state.with(messages[i as int], lead, answers);
        lemma_told_grows(next, messages, i + 1, lead, answers);
        let after = state.over(messages, i, lead, answers);
        let n = state.pass.messages.len();
        assert(next.pass.messages.take(n as int) =~= state.pass.messages);
        assert(after.pass.messages.take(n as int) =~= after.pass.messages.take(
            next.pass.messages.len() as int,
        ).take(n as int));
    } else {
        assert(state.pass.messages.take(state.pass.messages.len() as int)
            =~= state.pass.messages);
    }
}

proof fn lemma_stands_for(
    state: Sweep,
    messages: Seq<MessageView>,
    i: nat,
    lead: Seq<char>,
    answers: Seq<ResolvedView>,
)
    requires
        i <= messages.len(),
        stands_for(state.rendered, state.pass.messages, owed_entries(messages, lead, i)),
        told_apart(state.over(messages, i, lead, answers).pass.messages),
    ensures
        ({
            let after = state.over(messages, i, lead, answers);
            stands_for(
                after.rendered,
                after.pass.messages,
                owed_entries(messages, lead, messages.len()),
            )
        }),
    decreases messages.len() - i,
{
    if i < messages.len() {
        let message = messages[i as int];
        let next = state.with(message, lead, answers);
        let after = state.over(messages, i, lead, answers);
        lemma_told_grows(next, messages, i + 1, lead, answers);
        let told = state.pass.messages;
        let more = next.pass.messages;
        assert forall|j: int, k: int| 0 <= j < k < more.len() implies (
        #[trigger] more[j]).identity() != (#[trigger] more[k]).identity() by {
            assert(after.pass.messages.take(more.len() as int)[j] == after.pass.messages[j]);
            assert(after.pass.messages.take(more.len() as int)[k] == after.pass.messages[k]);
        }
        let entries = owed_entries(messages, lead, i);
        let longer = owed_entries(messages, lead, i + 1);
        if owed(message, lead) {
            let last = more.last();
            assert(more =~= told.push(last));
            assert(longer =~= entries.push(message.identity()));
            assert(more[told.len() as int] == last);
            assert forall|k: int| 0 <= k < more.len() implies longer[k] == (
            if next.rendered.dom().contains((#[trigger] more[k]).identity()) {
                next.rendered[more[k].identity()]
            } else {
                more[k].identity()
            }) by {
                if k < told.len() {
                    assert(more[k] == told[k]);
                    assert(more[k].identity() != last.identity());
                    assert(longer[k] == entries[k]);
                } else if message.kind is None {
                    if state.rendered.dom().contains(last.identity()) {
                        let j = choose|j: int|
                            0 <= j < told.len() && (#[trigger] told[j]).identity()
                                == last.identity();
                        assert(more[j].identity() == more[told.len() as int].identity());
                    }
                }
            }
            assert forall|id: IdentityView| next.rendered.dom().contains(id) implies exists|k: int|
                0 <= k < more.len() && (#[trigger] more[k]).identity() == id by {
                if id == last.identity() {
                    assert(more[told.len() as int].identity() == id);
                } else {
                    assert(state.rendered.dom().contains(id));
                    let k = choose|k: int|
                        0 <= k < told.len() && (#[trigger] told[k]).identity() == id;
                    assert(more[k].identity() == id);
                }
            }
        } else {
            assert(next.rendered == state.rendered);
            assert(more == told);
            assert(longer == entries);
        }
        lemma_stands_for(next, messages, i + 1, lead, answers);
    }
}

proof fn lemma_pruned(
    rendered: Map<IdentityView, IdentityView>,
    told: Seq<DeliveredView>,
    n: nat,
)
    requires
        n <= told.len(),
        told_apart(told),
    ensures
        ({
            let (gone, left) = pruned(rendered, told.take(n as int));
            &&& gone.len() == n
            &&& forall|k: int|
                0 <= k < n ==> #[trigger] gone[k] == (if rendered.dom().contains(
                    told[k].identity(),
                ) {
                    rendered[told[k].identity()]
                } else {
                    told[k].identity()
                })
            &&& forall|k: int|
                n <= k < told.len() ==> left.dom().contains((#[trigger] told[k]).identity())
                    == rendered.dom().contains(told[k].identity()) && (left.dom().contains(
                    told[k].identity(),
                ) ==> left[told[k].identity()] == rendered[told[k].identity()])
        }),
    decreases n,
{
    if n > 0 {
        lemma_pruned(rendered, told, (n - 1) as nat);
        let some = told.take(n as int);
        assert(some.drop_last() =~= told.take(n - 1));
        assert(some.last() == told[n - 1]);
        let (front, left) = pruned(rendered, told.take(n - 1));
        let held = told[n - 1].identity();
        assert forall|k: int| n <= k < told.len() implies (#[trigger] told[k]).identity()
            != held by {
            assert(told[n - 1].identity() != told[k].identity());
        }
        let (gone, after) = pruned(rendered, some);
        assert forall|k: int| 0 <= k < n implies #[trigger] gone[k] == (
        if rendered.dom().contains(told[k].identity()) {
            rendered[told[k].identity()]
        } else {
            told[k].identity()
        }) by {
            if k < n - 1 {
                assert(gone[k] == front[k]);
            }
        }
    }
}

/// Delivering what a pass handed over takes exactly those entries out of the
/// inbox, the rendered ones among them, where no two of them read the same.
pub proof fn law_delivering_prunes_what_was_handed_over(
    messages: Seq<MessageView>,
    lead: Seq<char>,
    answers: Seq<ResolvedView>,
)
    requires
        forall|i: int| 0 <= i < messages.len() ==> !shuts_down(#[trigger] messages[i]),
        told_apart(swept(Map::empty(), messages, lead, answers).pass.messages),
    ensures
        ({
            let sweep = swept(Map::empty(), messages, lead, answers);
            pruned(sweep.rendered, sweep.pass.messages).0 == owed_entries(
                messages,
                lead,
                messages.len(),
            )
        }),
{
    lemma_shutdown_found(messages, 0);
    let start = Sweep {
        pass: PassView::nothing(),
        handled: Seq::empty(),
        rendered: Map::empty(),
        answered: 0,
    };
    lemma_stands_for(start, messages, 0, lead, answers);
    let sweep = swept(Map::empty(), messages, lead, answers);
    let told = sweep.pass.messages;
    lemma_pruned(sweep.rendered, told, told.len());
    assert(told.take(told.len() as int) =~= told);
    assert(pruned(sweep.rendered, told).0 =~= owed_entries(messages, lead, messages.len()));
}

/// Of several shutdown requests the first counts: the pass names its request,
/// and its entry is the one that leaves.
pub proof fn law_the_first_shutdown_counts(
    rendered: Map<IdentityView, IdentityView>,
    messages: Seq<MessageView>,
    lead: Seq<char>,
    answers: Seq<ResolvedView>,
    at: int,
    request_id: Seq<char>,
)
    requires
        0 <= at < messages.len(),
        messages[at].frame == Some((FrameView::ShutdownRequest { request_id })),
        forall|i: int| 0 <= i < at ==> !shuts_down(#[trigger] messages[i]),
    ensures
        swept(rendered, messages, lead, answers).pass.shutdown == Some(request_id),
        swept(rendered, messages, lead, answers).handled == seq![messages[at].identity()],
        resolving(messages, lead, messages.len()) == Seq::<int>::empty(),
{
    lemma_shutdown_found(messages, 0);
    let found = shutdown_at(messages, 0);
    if found < at {
        assert(!shuts_down(messages[found as int]));
    }
    if at < found {
        assert(!(messages[at].frame matches Some(FrameView::ShutdownRequest { request_id })));
    }
}

/// What the lead's frames are worth, one by one.
pub proof fn law_what_the_lead_says_is_done(
    message: MessageView,
    kind: Seq<char>,
    answer: ResolvedView,
    a: Seq<char>,
    b: Seq<char>,
    reply: PermissionReply,
)
    ensures
        ({
            let lead = message.from;
            &&& message.frame == Some((FrameView::ModeSetRequest { mode: Some(a) })) ==> verdict(
                message,
                kind,
                lead,
                answer,
            ) == VerdictView::Mode(a)
            &&& message.frame == Some((FrameView::ModeSetRequest { mode: None })) ==> verdict(
                message,
                kind,
                lead,
                answer,
            ) == VerdictView::Dropped("mode_set_request"@)
            &&& message.frame == Some(FrameView::PermissionResponse) ==> verdict(
                message,
                kind,
                lead,
                (ResolvedView::Answered { id: a, reply }),
            ) == VerdictView::Answer(a, reply) && verdict(
                message,
                kind,
                lead,
                ResolvedView::Stale,
            ) == VerdictView::Ignored
            &&& message.frame == Some(FrameView::PlanApprovalResponse) ==> verdict(
                message,
                kind,
                lead,
                answer,
            ) == VerdictView::Ignored
            &&& message.frame is None || message.frame == Some(FrameView::Other) ==> verdict(
                message,
                kind,
                lead,
                answer,
            ) == VerdictView::Dropped(kind)
            &&& message.frame == Some((FrameView::TaskAssignment { subject: a, description: b }))
                ==> verdict(message, kind, lead, answer) == VerdictView::Tell(
                (DeliveredView {
                    from: message.from,
                    timestamp: message.timestamp,
                    summary: Some(a),
                    color: message.color,
                    body: a + seq!['\n', '\n'] + b,
                }),
            )
        }),
{
    reveal_strlit("\n\n");
    assert("\n\n"@ =~= seq!['\n', '\n']);
}

proof fn lemma_over_one_more(
    state: Sweep,
    messages: Seq<MessageView>,
    i: nat,
    message: MessageView,
    lead: Seq<char>,
    answers: Seq<ResolvedView>,
)
    requires
        i <= messages.len(),
    ensures
        state.over(messages.push(message), i, lead, answers) == state.over(
            messages,
            i,
            lead,
            answers,
        ).with(message, lead, answers),
    decreases messages.len() - i,
{
    let longer = messages.push(message);
    if i < messages.len() {
        assert(longer[i as int] == messages[i as int]);
        lemma_over_one_more(
            state.with(messages[i as int], lead, answers),
            messages,
            i + 1,
            message,
            lead,
            answers,
        );
    } else {
        let next = state.with(message, lead, answers);
        assert(longer[i as int] == message);
        assert(next.over(longer, i + 1, lead, answers) == next);
    }
}

proof fn lemma_answered(
    state: Sweep,
    messages: Seq<MessageView>,
    i: nat,
    lead: Seq<char>,
    answers: Seq<ResolvedView>,
)
    requires
        i <= messages.len(),
        state.answered == lead_answers(messages, lead, i).len(),
    ensures
        state.over(messages, i, lead, answers).answered == lead_answers(
            messages,
            lead,
            messages.len(),
        ).len(),
    decreases messages.len() - i,
{
    if i < messages.len() {
        lemma_answered(
            state.with(messages[i as int], lead, answers),
            messages,
            i + 1,
            lead,
            answers,
        );
    }
}

/// A message that is no frame is handed over behind the others, exactly as it
/// was written, and changes nothing else.
pub proof fn law_a_plain_message_is_handed_over(
    rendered: Map<IdentityView, IdentityView>,
    messages: Seq<MessageView>,
    message: MessageView,
    lead: Seq<char>,
    answers: Seq<ResolvedView>,
)
    requires
        forall|i: int| 0 <= i < messages.len() ==> !shuts_down(#[trigger] messages[i]),
        message.kind is None,
        message.frame is None,
    ensures
        ({
            let before = swept(rendered, messages, lead, answers);
            let after = swept(rendered, messages.push(message), lead, answers);
            &&& after.pass.messages == before.pass.messages.push(
                DeliveredView {
                    from: message.from,
                    timestamp: message.timestamp,
                    summary: message.summary,
                    color: message.color,
                    body: message.text,
                },
            )
            &&& after == (Sweep {
                pass: PassView { messages: after.pass.messages, ..before.pass },
                ..before
            })
        }),
{
    lemma_no_shutdown(rendered, messages, message, lead, answers);
}

proof fn lemma_no_shutdown(
    rendered: Map<IdentityView, IdentityView>,
    messages: Seq<MessageView>,
    message: MessageView,
    lead: Seq<char>,
    answers: Seq<ResolvedView>,
)
    requires
        forall|i: int| 0 <= i < messages.len() ==> !shuts_down(#[trigger] messages[i]),
        !shuts_down(message),
    ensures
        swept(rendered, messages.push(message), lead, answers) == swept(
            rendered,
            messages,
            lead,
            answers,
        ).with(message, lead, answers),
        swept(rendered, messages, lead, answers).answered == lead_answers(
            messages,
            lead,
            messages.len(),
        ).len(),
{
    let longer = messages.push(message);
    lemma_shutdown_found(messages, 0);
    lemma_shutdown_found(longer, 0);
    let at = shutdown_at(messages, 0);
    if at < messages.len() {
        assert(!shuts_down(messages[at as int]));
    }
    let other = shutdown_at(longer, 0);
    if other < longer.len() {
        if other < messages.len() {
            assert(longer[other as int] == messages[other as int]);
            assert(!shuts_down(messages[other as int]));
        } else {
            assert(longer[other as int] == message);
        }
    }
    let start = Sweep {
        pass: PassView::nothing(),
        handled: Seq::empty(),
        rendered,
        answered: 0,
    };
    lemma_over_one_more(start, messages, 0, message, lead, answers);
    lemma_answered(start, messages, 0, lead, answers);
}

/// Each answer of the lead is resolved by its own: the one behind as many as
/// the lead gave before. A stale one is only counted. Either way the entry
/// leaves.
pub proof fn law_each_answer_is_resolved_by_its_own(
    rendered: Map<IdentityView, IdentityView>,
    messages: Seq<MessageView>,
    message: MessageView,
    lead: Seq<char>,
    answers: Seq<ResolvedView>,
    id: Seq<char>,
    reply: PermissionReply,
)
    requires
        forall|i: int| 0 <= i < messages.len() ==> !shuts_down(#[trigger] messages[i]),
        message.kind is Some,
        message.from == lead,
        message.frame == Some(FrameView::PermissionResponse),
        lead_answers(messages, lead, messages.len()).len() < answers.len(),
    ensures
        ({
            let before = swept(rendered, messages, lead, answers);
            let after = swept(rendered, messages.push(message), lead, answers);
            let answer = answers[lead_answers(messages, lead, messages.len()).len() as int];
            &&& after.handled == before.handled.push(message.identity())
            &&& answer == (ResolvedView::Answered { id, reply }) ==> after.pass == (PassView {
                answers: before.pass.answers.push((id, reply)),
                ..before.pass
            })
            &&& answer == ResolvedView::Stale ==> after.pass == (PassView {
                ignored: before.pass.ignored + 1,
                ..before.pass
            })
        }),
{
    lemma_no_shutdown(rendered, messages, message, lead, answers);
}

/// The entries whose answers have to be resolved are the lead's answers to
/// asks, all of them and in order.
pub proof fn law_the_lead_answers_are_found(messages: Seq<MessageView>, lead: Seq<char>, n: nat, i: int)
    requires
        n <= messages.len(),
    ensures
        lead_answers(messages, lead, n).contains(i) == (0 <= i < n && messages[i].kind is Some
            && messages[i].from == lead && messages[i].frame == Some(
            FrameView::PermissionResponse,
        )),
        forall|a: int, b: int|
            0 <= a < b < lead_answers(messages, lead, n).len() ==> #[trigger] lead_answers(
                messages,
                lead,
                n,
            )[a] < #[trigger] lead_answers(messages, lead, n)[b],
        forall|a: int|
            0 <= a < lead_answers(messages, lead, n).len() ==> #[trigger] lead_answers(
                messages,
                lead,
                n,
            )[a] < n,
    decreases n,
{
    if n > 0 {
        let less = (n - 1) as nat;
        law_the_lead_answers_are_found(messages, lead, less, i);
        let front = lead_answers(messages, lead, less);
        let all = lead_answers(messages, lead, n);
        if front.contains(i) {
            let k = choose|k: int| 0 <= k < front.len() && front[k] == i;
            assert(all[k] == i);
        }
        if asks_resolution(messages[n - 1], lead) {
            assert(all[front.len() as int] == n - 1);
            if all.contains(i) {
                let k = choose|k: int| 0 <= k < all.len() && all[k] == i;
                if k < front.len() {
                    assert(front[k] == i);
                }
            }
        }
    }
}

/// A process is the member its launch line names exactly where both names are
/// ones and the id is the two of them with an at sign between; it is answered
/// for by the lead, and runs in a pane where the environment names one.
pub proof fn law_a_member_is_who_its_id_names(
    flags: Flags,
    name_parses: bool,
    team_parses: bool,
    pane: Option<Seq<char>>,
)
    ensures
        resolved(flags, name_parses, team_parses, pane) is Ok == (name_parses && team_parses
            && flags.agent_id@ == flags.name@ + seq!['@'] + flags.team@),
        resolved(flags, name_parses, team_parses, pane) matches Ok(member) ==> {
            &&& member.name == flags.name@
            &&& member.team == flags.team@
            &&& member.lead == "team-lead"@
            &&& member.color == spell::seen(flags.color)
            &&& member.parent_session_id == flags.parent_session_id@
            &&& member.posture == Posture::ForwardToLead
            &&& member.pane is Some == (pane is Some && pane->0.len() > 0)
            &&& member.pane is Some ==> member.pane == pane
        },
        !name_parses ==> resolved(flags, name_parses, team_parses, pane) == Err::<
            MembershipView,
            RefusalView,
        >((RefusalView::Name { name: flags.name@ })),
        name_parses && !team_parses ==> resolved(flags, name_parses, team_parses, pane) == Err::<
            MembershipView,
            RefusalView,
        >((RefusalView::Team { team: flags.team@ })),
{
    reveal_strlit("@");
    assert("@"@ =~= seq!['@']);
}

/// Why a member is idle says how its turn ended.
pub proof fn law_an_idle_member_says_why()
    ensures
        idle_for(FinishReason::Completed) == IdleReason::Available,
        idle_for(FinishReason::Cancelled) == IdleReason::Interrupted,
        idle_for(FinishReason::Failed) == IdleReason::Failed,
{
}

/// What a rendered message stands for is used up when it is delivered: a second
/// delivery that reads the same stands for itself, and what was not delivered is
/// still remembered.
pub proof fn law_a_rendering_is_used_once(
    rendered: Map<IdentityView, IdentityView>,
    messages: Seq<DeliveredView>,
    more: DeliveredView,
    id: IdentityView,
)
    ensures
        pruned(rendered, messages).1.dom().contains(id) == (rendered.dom().contains(id) && forall|
            k: int,
        |
            0 <= k < messages.len() ==> (#[trigger] messages[k]).identity() != id),
        pruned(rendered, messages).1.dom().contains(id) ==> pruned(rendered, messages).1[id]
            == rendered[id],
        pruned(rendered, messages.push(more)).0 == pruned(rendered, messages).0.push(
            if rendered.dom().contains(more.identity()) && (forall|k: int|
                0 <= k < messages.len() ==> (#[trigger] messages[k]).identity()
                    != more.identity()) {
                rendered[more.identity()]
            } else {
                more.identity()
            },
        ),
{
    lemma_left_behind(rendered, messages, id);
    lemma_left_behind(rendered, messages, more.identity());
    assert(messages.push(more).drop_last() =~= messages);
}

proof fn lemma_left_behind(
    rendered: Map<IdentityView, IdentityView>,
    messages: Seq<DeliveredView>,
    id: IdentityView,
)
    ensures
        pruned(rendered, messages).1.dom().contains(id) == (rendered.dom().contains(id) && forall|
            k: int,
        |
            0 <= k < messages.len() ==> (#[trigger] messages[k]).identity() != id),
        pruned(rendered, messages).1.dom().contains(id) ==> pruned(rendered, messages).1[id]
            == rendered[id],
    decreases messages.len(),
{
    if messages.len() > 0 {
        let front = messages.drop_last();
        lemma_left_behind(rendered, front, id);
        let last = messages[messages.len() - 1];
        assert(messages.last() == last);
        if forall|k: int| 0 <= k < messages.len() ==> (#[trigger] messages[k]).identity() != id {
            assert(last.identity() != id);
            assert forall|k: int| 0 <= k < front.len() implies (#[trigger] front[k]).identity()
                != id by {
                assert(messages[k].identity() != id);
            }
        } else if last.identity() != id {
            let k = choose|k: int|
                0 <= k < messages.len() && (#[trigger] messages[k]).identity() == id;
            assert(front[k].identity() == id);
        }
    }
}

} // verus!
