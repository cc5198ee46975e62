//! The one-time bring-up: acquire network connectivity, then wait for
//! clock synchronization, before anything else starts.
//!
//! The controller is a state machine fed by its driving loop: the loop
//! performs the prescribed action (request association, poll the link,
//! request time sync, poll the sync status) and hands the result back as
//! an event. Connectivity that is not yet up is never an error: the
//! controller stays in place and keeps polling, by design without bound.

use vstd::prelude::*;

verus! {

/// The bring-up phases, in the order they are passed.
#[derive(PartialEq, Eq, Structural, Clone, Copy, Debug)]
pub enum Phase {
    Disconnected,
    Connecting,
    Connected,
    TimeSyncing,
    Ready,
}

/// What the driving loop reports back to the controller.
#[derive(PartialEq, Eq, Structural, Clone, Copy, Debug)]
pub enum BringUpEvent {
    /// Network association has been requested.
    AssociationRequested,
    /// A connectivity poll came back with this status.
    LinkUp(bool),
    /// Clock synchronization has been requested.
    SyncRequested,
    /// A sync-status poll came back with this status.
    SyncDone(bool),
}

/// What the controller asks its driving loop to do next.
#[derive(PartialEq, Eq, Structural, Clone, Copy, Debug)]
pub enum BringUpAction {
    RequestAssociation,
    PollConnectivity,
    RequestTimeSync,
    PollSync,
    Run,
}

/// The transition function. A poll that comes back negative leaves the
/// phase unchanged, and an event that does not belong to the current
/// phase is ignored.
pub open spec fn next_phase(p: Phase, e: BringUpEvent) -> Phase {
    match (p, e) {
        (Phase::Disconnected, BringUpEvent::AssociationRequested) => Phase::Connecting,
        (Phase::Connecting, BringUpEvent::LinkUp(up)) => if up {
            Phase::Connected
        } else {
            Phase::Connecting
        },
        (Phase::Connected, BringUpEvent::SyncRequested) => Phase::TimeSyncing,
        (Phase::TimeSyncing, BringUpEvent::SyncDone(done)) => if done {
            Phase::Ready
        } else {
            Phase::TimeSyncing
        },
        (_, _) => p,
    }
}

/// The action prescribed in each phase.
pub open spec fn action_of(p: Phase) -> BringUpAction {
    match p {
        Phase::Disconnected => BringUpAction::RequestAssociation,
        Phase::Connecting => BringUpAction::PollConnectivity,
        Phase::Connected => BringUpAction::RequestTimeSync,
        Phase::TimeSyncing => BringUpAction::PollSync,
        Phase::Ready => BringUpAction::Run,
    }
}

/// The phase after feeding a whole run of events, oldest first.
pub open spec fn run_phase(p0: Phase, events: Seq<BringUpEvent>) -> Phase
    decreases events.len(),
{
    if events.len() == 0 {
        p0
    } else {
        next_phase(run_phase(p0, events.drop_last()), events.last())
    }
}

/// How far along bring-up a phase is.
pub open spec fn rank(p: Phase) -> nat {
    match p {
        Phase::Disconnected => 0,
        Phase::Connecting => 1,
        Phase::Connected => 2,
        Phase::TimeSyncing => 3,
        Phase::Ready => 4,
    }
}

/// The bring-up controller, run once at startup before the scanner and
/// the query endpoint start.
pub struct BringUpController {
    phase: Phase,
}

impl BringUpController {
    pub closed spec fn phase(&self) -> Phase {
        self.phase
    }

    /// Bring-up starts disconnected.
    pub fn new() -> (c: Self)
        ensures
            c.phase() == Phase::Disconnected,
    {
        BringUpController { phase: Phase::Disconnected }
    }

    /// Feeds one event and returns the action for the new phase. Total:
    /// a negative poll is not an error, the controller keeps polling.
    pub fn step(&mut self, e: BringUpEvent) -> (a: BringUpAction)
        ensures
            final(self).phase() == next_phase(old(self).phase(), e),
            a == action_of(final(self).phase()),
    {
        self.phase = match (self.phase, e) {
            (Phase::Disconnected, BringUpEvent::AssociationRequested) => Phase::Connecting,
            (Phase::Connecting, BringUpEvent::LinkUp(up)) => if up {
                Phase::Connected
            } else {
                Phase::Connecting
            },
            (Phase::Connected, BringUpEvent::SyncRequested) => Phase::TimeSyncing,
            (Phase::TimeSyncing, BringUpEvent::SyncDone(done)) => if done {
                Phase::Ready
            } else {
                Phase::TimeSyncing
            },
            (p, _) => p,
        };
        match self.phase {
            Phase::Disconnected => BringUpAction::RequestAssociation,
            Phase::Connecting => BringUpAction::PollConnectivity,
            Phase::Connected => BringUpAction::RequestTimeSync,
            Phase::TimeSyncing => BringUpAction::PollSync,
            Phase::Ready => BringUpAction::Run,
        }
    }

    /// Whether bring-up has completed and the pipeline may start.
    pub fn is_ready(&self) -> (b: bool)
        ensures
            b == (self.phase() == Phase::Ready),
    {
        match self.phase {
            Phase::Ready => true,
            _ => false,
        }
    }
}

/// Each transition either stays in place or advances to the phase of
/// the immediately following rank: bring-up never skips a phase.
pub proof fn lemma_step_rank(p: Phase, e: BringUpEvent)
    ensures
        next_phase(p, e) == p || rank(next_phase(p, e)) == rank(p) + 1,
{
}

/// Two phases of equal rank are the same phase.
proof fn lemma_rank_injective(a: Phase, b: Phase)
    requires
        rank(a) == rank(b),
    ensures
        a == b,
{
}

/// Bring-up ordering: a run from `Disconnected` that has reached a
/// phase at least as far along as `target` passed through `target` at
/// some earlier point.
pub proof fn lemma_bringup_ordering(events: Seq<BringUpEvent>, target: Phase)
    requires
        rank(target) <= rank(run_phase(Phase::Disconnected, events)),
    ensures
        exists|i: int|
            0 <= i <= events.len() && run_phase(Phase::Disconnected, #[trigger] events.take(i))
                == target,
    decreases events.len(),
{
    let fin = run_phase(Phase::Disconnected, events);
    if events.len() == 0 {
        lemma_rank_injective(target, Phase::Disconnected);
        assert(events.take(0) =~= events);
    } else {
        let prefix = events.drop_last();
        let prev = run_phase(Phase::Disconnected, prefix);
        lemma_step_rank(prev, events.last());
        if rank(target) <= rank(prev) {
            lemma_bringup_ordering(prefix, target);
            let i = choose|i: int|
                0 <= i <= prefix.len() && run_phase(Phase::Disconnected, #[trigger] prefix.take(i))
                    == target;
            assert(events.take(i) =~= prefix.take(i));
            assert(run_phase(Phase::Disconnected, events.take(i)) == target);
        } else {
            lemma_rank_injective(target, fin);
            assert(events.take(events.len() as int) =~= events);
            assert(run_phase(Phase::Disconnected, events.take(events.len() as int)) == target);
        }
    }
}

/// A run that reaches `Ready` passed through `Connected`.
pub proof fn lemma_ready_implies_connected(events: Seq<BringUpEvent>)
    requires
        run_phase(Phase::Disconnected, events) == Phase::Ready,
    ensures
        exists|i: int|
            0 <= i <= events.len() && run_phase(Phase::Disconnected, #[trigger] events.take(i))
                == Phase::Connected,
{
    lemma_bringup_ordering(events, Phase::Connected);
}

/// A run that stands in `TimeSyncing` after some prefix passed through
/// `Connected` within that prefix: time sync never begins before
/// connectivity is up.
pub proof fn lemma_timesync_after_connected(events: Seq<BringUpEvent>, i: int)
    requires
        0 <= i <= events.len(),
        run_phase(Phase::Disconnected, events.take(i)) == Phase::TimeSyncing,
    ensures
        exists|j: int|
            0 <= j <= i && run_phase(Phase::Disconnected, #[trigger] events.take(j))
                == Phase::Connected,
{
    let prefix = events.take(i);
    lemma_bringup_ordering(prefix, Phase::Connected);
    let j = choose|j: int|
        0 <= j <= prefix.len() && run_phase(Phase::Disconnected, #[trigger] prefix.take(j))
            == Phase::Connected;
    assert(prefix.take(j) =~= events.take(j));
    assert(run_phase(Phase::Disconnected, events.take(j)) == Phase::Connected);
}

} // verus!
