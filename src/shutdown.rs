//! The order in which the broadcasting subsystem is torn down.
//!
//! Every peer worker is told to exit, then each is joined and its stream
//! recovered; only then is the coordinator told to exit and joined. The
//! decisions are made here; the caller performs each step and reports how it
//! went.

use vstd::prelude::*;

verus! {

/// One step of the teardown.
#[derive(Debug, Clone, Copy, PartialEq, Eq, Structural)]
pub enum ShutdownStep {
    SendExitToPeer(usize),
    JoinPeer(usize),
    SendExitToCoordinator,
    JoinCoordinator,
    Done,
}

/// How a step went.
#[derive(Debug, Clone, Copy, PartialEq, Eq, Structural)]
pub enum StepOutcome {
    /// The exit signal was delivered, or the thread finished with its result.
    Succeeded,
    /// The receiving side had already stopped: the exit signal was not delivered.
    ChannelClosed,
    /// The thread panicked.
    ThreadFailed,
    /// The peer worker finished with a stream error.
    StreamFailed,
}

/// Why the teardown stopped.
#[derive(Debug, Clone, Copy, PartialEq, Eq, Structural)]
pub enum ErrorProcess {
    CannotSendExit,
    ThreadPanicked,
    StreamError,
    StepAfterDone,
    /// A message other than the exit signal could not be delivered.
    CannotSendMessage,
    /// The chain handed to the coordinator is empty or has a block that does
    /// not name its predecessor.
    InvalidBlockChain,
}

/// The teardown of a subsystem with `peer_count` peer workers.
#[derive(Debug, Clone, Copy, PartialEq, Eq, Structural)]
pub struct Shutdown {
    pub peer_count: usize,
    pub step: ShutdownStep,
}

/// Every step in order: exit to each peer, join each peer, exit to the
/// coordinator, join it.
pub open spec fn shutdown_plan(k: nat) -> Seq<ShutdownStep> {
    Seq::new(k, |i: int| ShutdownStep::SendExitToPeer(i as usize)) + Seq::new(
        k,
        |i: int| ShutdownStep::JoinPeer(i as usize),
    ) + seq![ShutdownStep::SendExitToCoordinator, ShutdownStep::JoinCoordinator, ShutdownStep::Done]
}

/// Where a step stands in the plan for `k` peers.
pub open spec fn step_position(step: ShutdownStep, k: nat) -> int {
    match step {
        ShutdownStep::SendExitToPeer(i) => i as int,
        ShutdownStep::JoinPeer(i) => k + i,
        ShutdownStep::SendExitToCoordinator => 2 * k as int,
        ShutdownStep::JoinCoordinator => 2 * k as int + 1,
        ShutdownStep::Done => 2 * k as int + 2,
    }
}

/// The error that a failed step reports.
pub open spec fn error_of(outcome: StepOutcome) -> ErrorProcess {
    match outcome {
        StepOutcome::ChannelClosed => ErrorProcess::CannotSendExit,
        StepOutcome::ThreadFailed => ErrorProcess::ThreadPanicked,
        _ => ErrorProcess::StreamError,
    }
}

impl Shutdown {
    /// The current step sits in the plan.
    pub open spec fn wf(&self) -> bool {
        let k = self.peer_count as nat;
        0 <= step_position(self.step, k) < shutdown_plan(k).len() && shutdown_plan(k)[step_position(
            self.step,
            k,
        )] == self.step
    }

    pub fn new(peer_count: usize) -> (r: Shutdown)
        ensures
            r.wf(),
            r.peer_count == peer_count,
            r.step == shutdown_plan(peer_count as nat)[0],
    {
        let step = if peer_count > 0 {
            ShutdownStep::SendExitToPeer(0)
        } else {
            ShutdownStep::SendExitToCoordinator
        };
        let r = Shutdown { peer_count, step };
        proof {
            let k = peer_count as nat;
            if k > 0 {
                assert(shutdown_plan(k)[0] == ShutdownStep::SendExitToPeer(0));
            } else {
                assert(shutdown_plan(k)[0] == ShutdownStep::SendExitToCoordinator);
            }
        }
        r
    }

    /// The step after the current one once it went as `outcome` says: the
    /// next step of the plan on success, the error of the failure otherwise.
    /// Nothing follows `Done`.
    pub fn next(&self, outcome: StepOutcome) -> (r: Result<Shutdown, ErrorProcess>)
        requires
            self.wf(),
        ensures
            self.step == ShutdownStep::Done ==> r == Err::<Shutdown, ErrorProcess>(
                ErrorProcess::StepAfterDone,
            ),
            self.step != ShutdownStep::Done && outcome != StepOutcome::Succeeded ==> r == Err::<
                Shutdown,
                ErrorProcess,
            >(error_of(outcome)),
            self.step != ShutdownStep::Done && outcome == StepOutcome::Succeeded ==> (r matches Ok(s)
                && s.wf() && s.peer_count == self.peer_count && s.step == shutdown_plan(
                self.peer_count as nat,
            )[step_position(self.step, self.peer_count as nat) + 1]),
    {
        let k = self.peer_count;
        if let ShutdownStep::Done = self.step {
            return Err(ErrorProcess::StepAfterDone);
        }
        match outcome {
            StepOutcome::Succeeded => {},
            StepOutcome::ChannelClosed => return Err(ErrorProcess::CannotSendExit),
            StepOutcome::ThreadFailed => return Err(ErrorProcess::ThreadPanicked),
            StepOutcome::StreamFailed => return Err(ErrorProcess::StreamError),
        }
        let step = match self.step {
            ShutdownStep::SendExitToPeer(i) => {
                if i + 1 < k {
                    ShutdownStep::SendExitToPeer(i + 1)
                } else {
                    ShutdownStep::JoinPeer(0)
                }
            },
            ShutdownStep::JoinPeer(i) => {
                if i + 1 < k {
                    ShutdownStep::JoinPeer(i + 1)
                } else {
                    ShutdownStep::SendExitToCoordinator
                }
            },
            ShutdownStep::SendExitToCoordinator => ShutdownStep::JoinCoordinator,
            _ => ShutdownStep::Done,
        };
        let r = Shutdown { peer_count: k, step };
        proof {
            let kk = k as nat;
            let p = shutdown_plan(kk);
            let pos = step_position(self.step, kk);
            assert(p[pos + 1] == step);
            assert(step_position(step, kk) == pos + 1);
        }
        Ok(r)
    }
}

/// In the teardown of `k` peers, each peer is sent exit exactly once, and
/// every exit and join of a peer comes before the coordinator is told to exit.
pub proof fn lemma_shutdown_order(k: nat)
    ensures
        forall|i: int|
            0 <= i < k ==> #[trigger] shutdown_plan(k)[i] == ShutdownStep::SendExitToPeer(i as usize)
                && shutdown_plan(k)[k + i] == ShutdownStep::JoinPeer(i as usize),
        forall|i: int|
            0 <= i < shutdown_plan(k).len() && (#[trigger] shutdown_plan(k)[i]) is SendExitToPeer
                ==> i < k && shutdown_plan(k)[i] == ShutdownStep::SendExitToPeer(i as usize),
        shutdown_plan(k)[2 * k as int] == ShutdownStep::SendExitToCoordinator,
        shutdown_plan(k)[2 * k as int + 1] == ShutdownStep::JoinCoordinator,
        shutdown_plan(k).len() == 2 * k + 3,
{
    assert forall|i: int|
        0 <= i < shutdown_plan(k).len() && (#[trigger] shutdown_plan(k)[i]) is SendExitToPeer
            implies i < k && shutdown_plan(k)[i] == ShutdownStep::SendExitToPeer(i as usize) by {
        if i >= k && i < 2 * k {
            assert(shutdown_plan(k)[i] == ShutdownStep::JoinPeer((i - k) as usize));
        }
    }
}

} // verus!
