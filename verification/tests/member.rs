use ganja_tui::member::{
    await_record, Delivered, FinishReason, Flags, Frame, Identity, IdleReason, Inbox, Membership,
    Message, Pass, PermissionReply, Posture, Refusal, Resolved, Surface, Wait,
};

const PARENT: &str = "224cbeab-1111-4222-8333-444455556666";

fn flags(name: &str) -> Flags {
    Flags {
        agent_id: format!("{name}@session-224cbeab"),
        name: name.to_owned(),
        team: "session-224cbeab".to_owned(),
        color: Some("blue".to_owned()),
        parent_session_id: PARENT.to_owned(),
    }
}

fn membership(pane: Option<&str>) -> Membership {
    Membership::resolve(flags("w1"), true, true, pane.map(str::to_owned))
        .expect("the fixture resolves")
}

/// A member's inbox, and what lies in it.
struct Held {
    inbox: Inbox,
    messages: Vec<Message>,
}

impl Held {
    fn new(pane: Option<&str>) -> Held {
        Held { inbox: Inbox::new(membership(pane)), messages: Vec::new() }
    }

    fn put(&mut self, from: &str, text: &str, kind: Option<&str>, frame: Option<Frame>) {
        let n = self.messages.len();
        self.messages.push(Message {
            from: from.to_owned(),
            timestamp: format!("2026-01-01T00:00:{n:02}Z"),
            summary: None,
            color: None,
            text: text.to_owned(),
            kind: kind.map(str::to_owned),
            frame,
        });
    }

    fn write(&mut self, from: &str, text: &str) {
        self.put(from, text, None, None);
    }

    fn write_frame(&mut self, from: &str, kind: &str, frame: Frame) {
        let n = self.messages.len();
        self.put(from, &format!("{{\"type\":\"{kind}\",\"n\":{n}}}"), Some(kind), Some(frame));
    }

    fn prune(&mut self, gone: &[Identity]) {
        self.messages.retain(|message| {
            !gone.iter().any(|identity| {
                identity.from == message.from
                    && identity.timestamp == message.timestamp
                    && identity.text == message.text
            })
        });
    }

    /// One pass; `resolve` answers for each ask that is to be resolved.
    fn poll_with(&mut self, resolve: &dyn Fn(usize) -> Resolved) -> Pass {
        let asked = self.inbox.to_resolve(&self.messages);
        let answers: Vec<Resolved> = (0..asked.len()).map(resolve).collect();
        let (pass, gone) = self.inbox.poll(&self.messages, &answers);
        self.prune(&gone);
        pass
    }

    fn poll(&mut self) -> Pass {
        self.poll_with(&|_| Resolved::Stale)
    }

    fn delivered(&mut self, messages: &Vec<Delivered>) {
        let gone = self.inbox.delivered(messages);
        self.prune(&gone);
    }
}

#[test]
fn member_a_member_reads_the_directory_its_lead_wrote_into() {
    let member = membership(Some("%7"));

    assert_eq!(member.name(), "w1");
    assert_eq!(member.team(), "session-224cbeab");
    assert_eq!(member.color(), Some("blue"));
    assert_eq!(member.parent_session_id(), PARENT);
    assert_eq!(member.surface(), &Surface::Pane { id: "%7".to_owned() });
}

#[test]
fn member_an_agent_id_naming_another_member_is_refused_before_anything_runs() {
    let mut wrong = flags("w1");
    wrong.agent_id = "w2@session-224cbeab".to_owned();

    let refused = Membership::resolve(wrong, true, true, None)
        .expect_err("a mismatched id is refused");

    assert!(
        refused.message().contains("w1@session-224cbeab"),
        "the refusal names what was expected: {refused:?}"
    );
    assert!(
        Membership::resolve(Flags { name: "main".to_owned(), ..flags("main") }, false, true, None)
            .is_err(),
        "and the reserved name is refused by the grammar"
    );
}

#[test]
fn member_the_seeded_prompt_is_a_plain_message_that_stays_until_delivered() {
    let mut held = Held::new(None);
    held.write("team-lead", "start on the parser");

    let pass = held.poll();

    assert_eq!(pass.messages.len(), 1);
    assert_eq!(pass.messages[0].from, "team-lead");
    assert_eq!(pass.messages[0].body, "start on the parser");
    assert_eq!(held.messages.len(), 1, "not pruned by the read");

    held.delivered(&pass.messages);

    assert!(held.messages.is_empty(), "delivered means gone");
}

#[test]
fn member_a_shutdown_request_goes_ahead_of_everything_else() {
    let mut held = Held::new(Some("%3"));
    held.write("team-lead", "one");
    held.write("w2", "two");
    held.write_frame(
        "team-lead",
        "shutdown_request",
        Frame::ShutdownRequest { request_id: "req-9".to_owned() },
    );

    let pass = held.poll();

    assert_eq!(pass.shutdown.as_deref(), Some("req-9"));
    assert!(pass.messages.is_empty(), "nothing else is delivered: {pass:?}");
    assert_eq!(
        held.messages.len(),
        2,
        "the request left the inbox, the messages it jumped did not"
    );
}

#[test]
fn member_a_shutdown_answer_names_the_pane_and_reaches_the_lead() {
    let approved = membership(Some("%3")).shutdown_answer("req-9");

    assert_eq!(approved.request_id, "req-9");
    assert_eq!(approved.from, "w1");
    assert_eq!(approved.pane_id.as_deref(), Some("%3"));
    assert_eq!(approved.backend_type.as_deref(), Some("tmux"));
}

#[test]
fn member_a_member_with_no_pane_names_none() {
    let approved = membership(Some("")).shutdown_answer("req-1");

    assert_eq!(approved.pane_id, None);
    assert_eq!(approved.backend_type, None);
}

#[test]
fn member_the_turns_end_maps_onto_the_three_idle_reasons() {
    let member = membership(None);
    let reasons: Vec<_> = [
        (FinishReason::Completed, None),
        (FinishReason::Cancelled, None),
        (FinishReason::Failed, Some("the provider hung up".to_owned())),
    ]
    .into_iter()
    .map(|(reason, failure)| {
        let idle = member.idle_notice(reason, failure);
        assert_eq!(idle.from, "w1");
        (idle.reason, idle.failure_reason)
    })
    .collect();

    assert_eq!(
        reasons,
        [
            (IdleReason::Available, None),
            (IdleReason::Interrupted, None),
            (IdleReason::Failed, Some("the provider hung up".to_owned())),
        ]
    );
}

#[test]
fn member_a_mode_is_taken_from_the_lead_only_and_refused_by_name_when_unknown() {
    let mut held = Held::new(None);
    let bypass = || Frame::ModeSetRequest { mode: Some("bypass".to_owned()) };
    held.write_frame("team-lead", "mode_set_request", bypass());
    held.write_frame("w2", "mode_set_request", bypass());
    held.write_frame("team-lead", "mode_set_request", Frame::ModeSetRequest { mode: None });

    let pass = held.poll();

    assert_eq!(pass.modes, ["bypass"]);
    assert_eq!(pass.dropped, ["mode_set_request", "mode_set_request"]);
    assert!(pass.messages.is_empty());
    assert!(held.messages.is_empty(), "every frame left the inbox");
}

#[test]
fn member_a_plan_approval_is_stale_by_definition_and_leaves_the_inbox() {
    let mut held = Held::new(None);
    held.write_frame("team-lead", "plan_approval_response", Frame::PlanApprovalResponse);
    held.write_frame("w2", "plan_approval_response", Frame::PlanApprovalResponse);

    let pass = held.poll();

    assert_eq!(pass.ignored, 1);
    assert_eq!(pass.dropped, ["plan_approval_response"]);
    assert!(held.messages.is_empty());
}

#[test]
fn member_a_task_assignment_from_the_lead_becomes_a_message_and_prunes_by_the_rendered_identity() {
    let mut held = Held::new(None);
    let assignment = || Frame::TaskAssignment {
        subject: "look at the parser".to_owned(),
        description: "the whole of it".to_owned(),
    };
    held.write_frame("team-lead", "task_assignment", assignment());
    held.write_frame("w2", "task_assignment", assignment());

    let pass = held.poll();

    assert_eq!(pass.messages.len(), 1);
    assert_eq!(pass.messages[0].from, "team-lead");
    assert_eq!(pass.messages[0].summary.as_deref(), Some("look at the parser"));
    assert_eq!(pass.messages[0].body, "look at the parser\n\nthe whole of it");
    assert_eq!(pass.dropped, ["task_assignment"], "a peer cannot assign work");
    assert_eq!(held.messages.len(), 1, "the lead's stays until delivered");

    held.delivered(&pass.messages);

    assert!(held.messages.is_empty(), "and the rendered identity found it");
}

#[test]
fn member_an_unhandled_frame_is_dropped_by_name_and_never_delivered() {
    let mut held = Held::new(None);
    held.write_frame("team-lead", "teammate_terminated", Frame::Other);

    let pass = held.poll();

    assert_eq!(pass.dropped, ["teammate_terminated"]);
    assert!(pass.messages.is_empty());
    assert!(held.messages.is_empty());
}

#[test]
fn member_a_pane_forwards_its_asks_to_its_lead() {
    assert_eq!(membership(None).posture(), Posture::ForwardToLead);
    assert_eq!(
        membership(Some("%5")).posture(),
        Posture::ForwardToLead,
        "a pane id changes the surface, never the posture"
    );
}

#[test]
fn member_a_member_waits_for_its_record_and_refuses_when_no_lead_writes_one() {
    assert_eq!(await_record(false, 10, 20), Wait::Again);
    assert_eq!(await_record(false, 20, 20), Wait::Refuse);
    assert_eq!(await_record(true, 10, 20), Wait::Done);
    assert_eq!(await_record(true, 30, 20), Wait::Done);
}

#[test]
fn member_a_leads_answer_resolves_a_waiting_ask_and_a_peers_or_a_stale_one_does_not() {
    let mut held = Held::new(None);
    held.write_frame("w2", "permission_response", Frame::PermissionResponse);
    held.write_frame("team-lead", "permission_response", Frame::PermissionResponse);
    held.write_frame("team-lead", "permission_response", Frame::PermissionResponse);
    held.write_frame("team-lead", "permission_response", Frame::PermissionResponse);

    let pass = held.poll_with(&|i| match i {
        0 => Resolved::Answered { id: "perm-1".to_owned(), reply: PermissionReply::Always },
        1 => Resolved::Answered { id: "perm-2".to_owned(), reply: PermissionReply::Reject },
        _ => Resolved::Stale,
    });

    assert_eq!(
        pass.answers,
        [
            ("perm-1".to_owned(), PermissionReply::Always),
            ("perm-2".to_owned(), PermissionReply::Reject),
        ]
    );
    assert_eq!(pass.dropped, ["permission_response"], "a peer cannot answer");
    assert_eq!(pass.ignored, 1, "an answer to nothing waited on is stale");
    assert!(held.messages.is_empty());
}

#[test]
fn member_tests_a_member_reads_the_directory_its_lead_wrote_into() {
    let member = membership(Some("%7"));

    assert_eq!(member.name(), "w1");
    assert_eq!(member.team(), "session-224cbeab");
    assert_eq!(member.color(), Some("blue"));
    assert_eq!(member.parent_session_id(), PARENT);
    assert_eq!(member.surface(), &Surface::Pane { id: "%7".to_owned() });
}

#[test]
fn member_tests_an_agent_id_naming_another_member_is_refused_before_anything_runs() {
    let mut wrong = flags("w1");
    wrong.agent_id = "w2@session-224cbeab".to_owned();

    let refused = Membership::resolve(wrong, true, true, None)
        .expect_err("a mismatched id is refused");

    assert!(
        refused.message().contains("w1@session-224cbeab"),
        "the refusal names what was expected: {refused:?}"
    );
    assert!(
        Membership::resolve(Flags { name: "main".to_owned(), ..flags("main") }, false, true, None)
            .is_err(),
        "and the reserved name is refused by the grammar"
    );
}

#[test]
fn member_tests_the_seeded_prompt_is_a_plain_message_that_stays_until_delivered() {
    let mut held = Held::new(None);
    held.write("team-lead", "start on the parser");

    let pass = held.poll();

    assert_eq!(pass.messages.len(), 1);
    assert_eq!(pass.messages[0].from, "team-lead");
    assert_eq!(pass.messages[0].body, "start on the parser");
    assert_eq!(held.messages.len(), 1, "not pruned by the read");

    held.delivered(&pass.messages);

    assert!(held.messages.is_empty(), "delivered means gone");
}

#[test]
fn member_tests_a_shutdown_request_goes_ahead_of_everything_else() {
    let mut held = Held::new(Some("%3"));
    held.write("team-lead", "one");
    held.write("w2", "two");
    held.write_frame(
        "team-lead",
        "shutdown_request",
        Frame::ShutdownRequest { request_id: "req-9".to_owned() },
    );

    let pass = held.poll();

    assert_eq!(pass.shutdown.as_deref(), Some("req-9"));
    assert!(pass.messages.is_empty(), "nothing else is delivered: {pass:?}");
    assert_eq!(
        held.messages.len(),
        2,
        "the request left the inbox, the messages it jumped did not"
    );
}

#[test]
fn member_tests_a_shutdown_answer_names_the_pane_and_reaches_the_lead() {
    let approved = membership(Some("%3")).shutdown_answer("req-9");

    assert_eq!(approved.request_id, "req-9");
    assert_eq!(approved.from, "w1");
    assert_eq!(approved.pane_id.as_deref(), Some("%3"));
    assert_eq!(approved.backend_type.as_deref(), Some("tmux"));
}

#[test]
fn member_tests_a_member_with_no_pane_names_none() {
    let approved = membership(Some("")).shutdown_answer("req-1");

    assert_eq!(approved.pane_id, None);
    assert_eq!(approved.backend_type, None);
}

#[test]
fn member_tests_the_turns_end_maps_onto_the_three_idle_reasons() {
    let member = membership(None);
    let reasons: Vec<_> = [
        (FinishReason::Completed, None),
        (FinishReason::Cancelled, None),
        (FinishReason::Failed, Some("the provider hung up".to_owned())),
    ]
    .into_iter()
    .map(|(reason, failure)| {
        let idle = member.idle_notice(reason, failure);
        assert_eq!(idle.from, "w1");
        (idle.reason, idle.failure_reason)
    })
    .collect();

    assert_eq!(
        reasons,
        [
            (IdleReason::Available, None),
            (IdleReason::Interrupted, None),
            (IdleReason::Failed, Some("the provider hung up".to_owned())),
        ]
    );
}

#[test]
fn member_tests_a_mode_is_taken_from_the_lead_only_and_refused_by_name_when_unknown() {
    let mut held = Held::new(None);
    let bypass = || Frame::ModeSetRequest { mode: Some("bypass".to_owned()) };
    held.write_frame("team-lead", "mode_set_request", bypass());
    held.write_frame("w2", "mode_set_request", bypass());
    held.write_frame("team-lead", "mode_set_request", Frame::ModeSetRequest { mode: None });

    let pass = held.poll();

    assert_eq!(pass.modes, ["bypass"]);
    assert_eq!(pass.dropped, ["mode_set_request", "mode_set_request"]);
    assert!(pass.messages.is_empty());
    assert!(held.messages.is_empty(), "every frame left the inbox");
}

#[test]
fn member_tests_a_plan_approval_is_stale_by_definition_and_leaves_the_inbox() {
    let mut held = Held::new(None);
    held.write_frame("team-lead", "plan_approval_response", Frame::PlanApprovalResponse);
    held.write_frame("w2", "plan_approval_response", Frame::PlanApprovalResponse);

    let pass = held.poll();

    assert_eq!(pass.ignored, 1);
    assert_eq!(pass.dropped, ["plan_approval_response"]);
    assert!(held.messages.is_empty());
}

#[test]
fn member_tests_a_task_assignment_from_the_lead_becomes_a_message_and_prunes_by_the_rendered_identity() {
    let mut held = Held::new(None);
    let assignment = || Frame::TaskAssignment {
        subject: "look at the parser".to_owned(),
        description: "the whole of it".to_owned(),
    };
    held.write_frame("team-lead", "task_assignment", assignment());
    held.write_frame("w2", "task_assignment", assignment());

    let pass = held.poll();

    assert_eq!(pass.messages.len(), 1);
    assert_eq!(pass.messages[0].from, "team-lead");
    assert_eq!(pass.messages[0].summary.as_deref(), Some("look at the parser"));
    assert_eq!(pass.messages[0].body, "look at the parser\n\nthe whole of it");
    assert_eq!(pass.dropped, ["task_assignment"], "a peer cannot assign work");
    assert_eq!(held.messages.len(), 1, "the lead's stays until delivered");

    held.delivered(&pass.messages);

    assert!(held.messages.is_empty(), "and the rendered identity found it");
}

#[test]
fn member_tests_an_unhandled_frame_is_dropped_by_name_and_never_delivered() {
    let mut held = Held::new(None);
    held.write_frame("team-lead", "teammate_terminated", Frame::Other);

    let pass = held.poll();

    assert_eq!(pass.dropped, ["teammate_terminated"]);
    assert!(pass.messages.is_empty());
    assert!(held.messages.is_empty());
}

#[test]
fn member_tests_a_pane_forwards_its_asks_to_its_lead() {
    assert_eq!(membership(None).posture(), Posture::ForwardToLead);
    assert_eq!(
        membership(Some("%5")).posture(),
        Posture::ForwardToLead,
        "a pane id changes the surface, never the posture"
    );
}

#[test]
fn member_tests_a_member_waits_for_its_record_and_refuses_when_no_lead_writes_one() {
    assert_eq!(await_record(false, 10, 20), Wait::Again);
    assert_eq!(await_record(false, 20, 20), Wait::Refuse);
    assert_eq!(await_record(true, 10, 20), Wait::Done);
    assert_eq!(await_record(true, 30, 20), Wait::Done);
}

#[test]
fn member_tests_a_leads_answer_resolves_a_waiting_ask_and_a_peers_or_a_stale_one_does_not() {
    let mut held = Held::new(None);
    held.write_frame("w2", "permission_response", Frame::PermissionResponse);
    held.write_frame("team-lead", "permission_response", Frame::PermissionResponse);
    held.write_frame("team-lead", "permission_response", Frame::PermissionResponse);
    held.write_frame("team-lead", "permission_response", Frame::PermissionResponse);

    let pass = held.poll_with(&|i| match i {
        0 => Resolved::Answered { id: "perm-1".to_owned(), reply: PermissionReply::Always },
        1 => Resolved::Answered { id: "perm-2".to_owned(), reply: PermissionReply::Reject },
        _ => Resolved::Stale,
    });

    assert_eq!(
        pass.answers,
        [
            ("perm-1".to_owned(), PermissionReply::Always),
            ("perm-2".to_owned(), PermissionReply::Reject),
        ]
    );
    assert_eq!(pass.dropped, ["permission_response"], "a peer cannot answer");
    assert_eq!(pass.ignored, 1, "an answer to nothing waited on is stale");
    assert!(held.messages.is_empty());
}

#[test]
fn only_the_leads_answers_are_resolved() {
    let mut held = Held::new(None);
    held.write("team-lead", "prose");
    held.write_frame("w2", "permission_response", Frame::PermissionResponse);
    held.write_frame("team-lead", "permission_response", Frame::PermissionResponse);

    assert_eq!(held.inbox.to_resolve(&held.messages), vec![2]);
    assert_eq!(held.inbox.membership().name(), "w1");
}

#[test]
fn an_empty_inbox_is_an_empty_pass() {
    let mut held = Held::new(None);
    assert!(held.poll().is_empty());
    held.write("w2", "hello");
    assert!(!held.poll().is_empty());
}

#[test]
fn a_refusal_says_what_was_wrong() {
    let name = Membership::resolve(flags("a/b"), false, true, None).expect_err("it is refused");
    assert_eq!(name, Refusal::Name { name: "a/b".to_owned() });
    assert_eq!(name.message(), "--agent-name \"a/b\" is refused");

    let team = Membership::resolve(flags("w1"), true, false, None).expect_err("it is refused");
    assert_eq!(team.message(), "--team-name \"session-224cbeab\" is refused");

    let mut wrong = flags("w1");
    wrong.agent_id = "w2@t".to_owned();
    let id = Membership::resolve(wrong, true, true, None).expect_err("it is refused");
    assert_eq!(
        id.message(),
        "--agent-id \"w2@t\" does not name --agent-name \"w1\" of --team-name \
         \"session-224cbeab\" (expected \"w1@session-224cbeab\")"
    );
}
