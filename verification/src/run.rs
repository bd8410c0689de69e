//! The course of a run: what is done in which order, and what a failure leads
//! to. The caller does the work of each phase and says how it went.
//!
//! Everything that can refuse does so before the terminal is taken over, and a
//! terminal that was taken over is given back whichever way the run ends.

use vstd::prelude::*;

use crate::startup::Role;

verus! {

/// One phase of a run, in the order they come in.
#[derive(Clone, Copy, Debug, PartialEq, Eq, Structural)]
pub enum Phase {
    /// Reading the launch line of a member, and the record its lead keeps.
    Identify,
    /// Reading the configuration.
    Configure,
    /// Reading the key bindings.
    Bind,
    /// Selecting a provider.
    Select,
    /// Resolving the agents.
    Recruit,
    /// Locating the project's data.
    Locate,
    /// Opening a stored session.
    Resume,
    /// Taking the terminal over.
    TakeOver,
    /// Turning on what the terminal reports.
    Capture,
    /// The session itself.
    Session,
    /// Stopping what runs in the background.
    StopBackground,
    /// Letting the teammates finish their turns; a turn may still call a
    /// server.
    StopTeammates,
    /// Stopping the servers.
    StopServers,
    /// Stopping the jobs.
    StopJobs,
    /// Giving the terminal back.
    Restore,
    /// Nothing is left to do.
    Ended,
}

impl Phase {
    /// Where a phase comes in the order.
    pub open spec fn rank(self) -> nat {
        match self {
            Phase::Identify => 0,
            Phase::Configure => 1,
            Phase::Bind => 2,
            Phase::Select => 3,
            Phase::Recruit => 4,
            Phase::Locate => 5,
            Phase::Resume => 6,
            Phase::TakeOver => 7,
            Phase::Capture => 8,
            Phase::Session => 9,
            Phase::StopBackground => 10,
            Phase::StopTeammates => 11,
            Phase::StopServers => 12,
            Phase::StopJobs => 13,
            Phase::Restore => 14,
            Phase::Ended => 15,
        }
    }

    /// Whether the terminal is taken over in a phase.
    pub open spec fn holds_the_terminal(self) -> bool {
        Phase::Capture.rank() <= self.rank() <= Phase::Restore.rank()
    }
}

/// A run under way.
#[derive(Clone, Copy, Debug, PartialEq, Eq, Structural)]
pub struct Run {
    /// What is to be done.
    pub phase: Phase,
    /// What failed first, which is what the run reports in the end.
    pub failed: Option<Phase>,
    /// Whether a stored session is opened.
    pub resumes: bool,
    /// Whether teammates may be left to stop.
    pub leads: bool,
}

impl Run {
    /// A run that has done nothing yet.
    pub open spec fn started(role: Role, resumes: bool) -> Run {
        Run {
            phase: if role == Role::Member {
                Phase::Identify
            } else {
                Phase::Configure
            },
            failed: None,
            resumes,
            leads: role == Role::Lead,
        }
    }

    /// The phase behind one that went well.
    pub open spec fn following(self) -> Phase {
        match self.phase {
            Phase::Identify => Phase::Configure,
            Phase::Configure => Phase::Bind,
            Phase::Bind => Phase::Select,
            Phase::Select => Phase::Recruit,
            Phase::Recruit => Phase::Locate,
            Phase::Locate => if self.resumes {
                Phase::Resume
            } else {
                Phase::TakeOver
            },
            Phase::Resume => Phase::TakeOver,
            Phase::TakeOver => Phase::Capture,
            Phase::Capture => Phase::Session,
            Phase::Session => Phase::StopBackground,
            Phase::StopBackground => if self.leads {
                Phase::StopTeammates
            } else {
                Phase::StopServers
            },
            Phase::StopTeammates => Phase::StopServers,
            Phase::StopServers => Phase::StopJobs,
            Phase::StopJobs => Phase::Restore,
            Phase::Restore => Phase::Ended,
            Phase::Ended => Phase::Ended,
        }
    }

    /// The run once its phase's work was done, well or not: up to the taking
    /// over a failure ends it at once, a capture that failed costs the session,
    /// and past that everything is still stopped and given back. The first
    /// failure is the one that is reported.
    pub open spec fn advanced(self, well: bool) -> Run {
        if self.phase == Phase::Ended {
            self
        } else if well {
            Run { phase: self.following(), ..self }
        } else {
            Run {
                phase: if self.phase.rank() <= Phase::TakeOver.rank() {
                    Phase::Ended
                } else if self.phase == Phase::Capture {
                    Phase::StopBackground
                } else {
                    self.following()
                },
                failed: match self.failed {
                    Some(first) => Some(first),
                    None => Some(self.phase),
                },
                ..self
            }
        }
    }

    /// Starts a run; see [`Run::started`].
    pub fn new(role: Role, resumes: bool) -> (run: Run)
        ensures
            run == Run::started(role, resumes),
    {
        Run {
            phase: match role {
                Role::Member => Phase::Identify,
                Role::Lead => Phase::Configure,
                Role::Solo => Phase::Configure,
            },
            failed: None,
            resumes,
            leads: match role {
                Role::Lead => true,
                Role::Member => false,
                Role::Solo => false,
            },
        }
    }

    /// The phase behind one that went well; see [`Run::following`].
    fn next(&self) -> (phase: Phase)
        ensures
            phase == self.following(),
    {
        match self.phase {
            Phase::Identify => Phase::Configure,
            Phase::Configure => Phase::Bind,
            Phase::Bind => Phase::Select,
            Phase::Select => Phase::Recruit,
            Phase::Recruit => Phase::Locate,
            Phase::Locate => if self.resumes {
                Phase::Resume
            } else {
                Phase::TakeOver
            },
            Phase::Resume => Phase::TakeOver,
            Phase::TakeOver => Phase::Capture,
            Phase::Capture => Phase::Session,
            Phase::Session => Phase::StopBackground,
            Phase::StopBackground => if self.leads {
                Phase::StopTeammates
            } else {
                Phase::StopServers
            },
            Phase::StopTeammates => Phase::StopServers,
            Phase::StopServers => Phase::StopJobs,
            Phase::StopJobs => Phase::Restore,
            Phase::Restore => Phase::Ended,
            Phase::Ended => Phase::Ended,
        }
    }

    /// Takes note of how the phase's work went; see [`Run::advanced`].
    pub fn advance(&mut self, well: bool)
        ensures
            *final(self) == old(self).advanced(well),
    {
        let phase = self.phase;
        match phase {
            Phase::Ended => {
                return;
            },
            _ => {},
        }
        if well {
            self.phase = self.next();
            return;
        }
        if self.failed.is_none() {
            self.failed = Some(phase);
        }
        self.phase =
        match phase {
            Phase::Identify
            | Phase::Configure
            | Phase::Bind
            | Phase::Select
            | Phase::Recruit
            | Phase::Locate
            | Phase::Resume
            | Phase::TakeOver => Phase::Ended,
            Phase::Capture => Phase::StopBackground,
            _ => self.next(),
        };
    }
}

/// The run once several phases' work was done.
pub open spec fn over(run: Run, well: Seq<bool>) -> Run
    decreases well.len(),
{
    if well.len() == 0 {
        run
    } else {
        over(run, well.drop_last()).advanced(well.last())
    }
}

/// A run only ever moves on, so it ends, whatever goes wrong in it.
pub proof fn law_a_run_ends(run: Run, well: Seq<bool>)
    requires
        well.len() >= 15,
    ensures
        over(run, well).phase == Phase::Ended,
{
    lemma_moves_on(run, well);
}

proof fn lemma_moves_on(run: Run, well: Seq<bool>)
    ensures
        over(run, well).phase.rank() >= run.phase.rank(),
        over(run, well).phase == Phase::Ended || over(run, well).phase.rank() >= run.phase.rank()
            + well.len(),
    decreases well.len(),
{
    if well.len() > 0 {
        lemma_moves_on(run, well.drop_last());
    }
}

/// The phases come in their order: a run never goes back and never stays where
/// it is.
pub proof fn law_phases_come_in_order(run: Run, well: bool)
    requires
        run.phase != Phase::Ended,
    ensures
        run.advanced(well).phase.rank() > run.phase.rank(),
{
}

/// What refuses a run refuses it before the terminal is taken over, and is what
/// the run then reports.
pub proof fn law_refusals_leave_the_terminal_alone(run: Run)
    requires
        run.phase.rank() <= Phase::TakeOver.rank(),
        run.failed is None,
    ensures
        run.advanced(false).phase == Phase::Ended,
        run.advanced(false).failed == Some(run.phase),
        !run.phase.holds_the_terminal(),
{
}

/// A terminal that was taken over is given back: from any phase that holds it a
/// run comes to another that does, until it has been through the one that
/// gives it back.
pub proof fn law_a_terminal_taken_is_given_back(run: Run, well: bool)
    requires
        run.phase.holds_the_terminal(),
    ensures
        run.phase != Phase::Restore ==> run.advanced(well).phase.holds_the_terminal(),
        run.phase == Phase::Restore ==> run.advanced(well).phase == Phase::Ended,
{
}

proof fn lemma_leads(run: Run, well: Seq<bool>)
    ensures
        over(run, well).leads == run.leads,
    decreases well.len(),
{
    if well.len() > 0 {
        lemma_leads(run, well.drop_last());
    }
}

/// Where a run has teammates to stop, it stops them before it stops a server:
/// it cannot have come to the one without having been at the other.
pub proof fn law_teammates_finish_first(run: Run, well: Seq<bool>)
    requires
        run.leads,
        run.phase.rank() < Phase::StopTeammates.rank(),
        over(run, well).phase == Phase::StopServers,
    ensures
        exists|n: int|
            0 <= n < well.len() && over(run, #[trigger] well.take(n)).phase
                == Phase::StopTeammates,
{
    assert(well.len() > 0);
    let before = over(run, well.drop_last());
    lemma_leads(run, well.drop_last());
    assert(before.phase == Phase::StopTeammates);
    assert(well.drop_last() =~= well.take(well.len() - 1));
}

/// What failed first is what a run reports, however much fails behind it.
pub proof fn law_the_first_failure_is_reported(run: Run, well: bool)
    ensures
        run.failed is Some ==> run.advanced(well).failed == run.failed,
        run.failed is None && run.phase != Phase::Ended ==> run.advanced(well).failed == (if well {
            None
        } else {
            Some(run.phase)
        }),
{
}

/// A run that goes well passes every phase in order: a member identifies itself
/// first, a stored session is opened only where one is asked for, and teammates
/// are stopped only by who leads them.
pub proof fn law_a_good_run_passes_every_phase(role: Role, resumes: bool)
    ensures
        Run::started(role, resumes).failed is None,
        Run::started(role, resumes).resumes == resumes,
        Run::started(role, resumes).leads == (role == Role::Lead),
        Run::started(role, resumes).phase == (if role == Role::Member {
            Phase::Identify
        } else {
            Phase::Configure
        }),
        forall|run: Run|
            run.phase == Phase::Locate ==> (#[trigger] run.advanced(true)).phase == (
            if run.resumes {
                Phase::Resume
            } else {
                Phase::TakeOver
            }),
        forall|run: Run|
            run.phase == Phase::StopBackground ==> (#[trigger] run.advanced(true)).phase == (
            if run.leads {
                Phase::StopTeammates
            } else {
                Phase::StopServers
            }),
        forall|run: Run|
            run.phase != Phase::Locate && run.phase != Phase::StopBackground && run.phase
                != Phase::Ended ==> (#[trigger] run.advanced(true)).phase.rank()
                == run.phase.rank() + 1,
        forall|run: Run|
            run.phase == Phase::Capture ==> (#[trigger] run.advanced(false)).phase
                == Phase::StopBackground,
        forall|run: Run|
            run.phase.rank() > Phase::Capture.rank() ==> (#[trigger] run.advanced(false)).phase
                == run.advanced(true).phase,
{
}

} // verus!
