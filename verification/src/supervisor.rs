use vstd::prelude::*;

verus! {

/// Upstream forward failures tolerated within one monitor window.
pub const ERROR_LIMIT: u32 = 100;

/// The window-scoped count of upstream forward failures.
pub struct ErrorCounter {
    count: u32,
}

impl ErrorCounter {
    pub closed spec fn count_spec(self) -> u32 {
        self.count
    }

    pub fn new() -> (c: ErrorCounter)
        ensures
            c.count_spec() == 0,
    {
        ErrorCounter { count: 0 }
    }

    /// One more forward failed; the count saturates rather than wraps.
    pub fn inc_count(&mut self)
        ensures
            final(self).count_spec() == if old(self).count_spec() < u32::MAX {
                (old(self).count_spec() + 1) as u32
            } else {
                u32::MAX
            },
    {
        self.count = self.count.saturating_add(1);
    }

    /// A monitor cycle ended: the window starts afresh.
    pub fn reset_count(&mut self)
        ensures
            final(self).count_spec() == 0,
    {
        self.count = 0;
    }

    pub fn count(&self) -> (n: u32)
        ensures
            n == self.count_spec(),
    {
        self.count
    }
}

/// Why the supervisor last bounced the child.
pub enum RestartReason {
    Maintenance,
    ErrorLimit,
    ChildExit,
}

/// What the monitor loop does with the child after one cycle.
pub enum MonitorAction {
    UpdateAndRestart,
    Restart,
    Continue,
}

/// The supervisor's bookkeeping for its one child process. Holding
/// the pid in an option is what makes a second live child impossible.
pub struct UpstreamState {
    pub child_pid: Option<u32>,
    pub restarts: u64,
    pub last_restart_reason: Option<RestartReason>,
}

impl UpstreamState {
    pub open spec fn child_spec(self) -> Option<u32> {
        self.child_pid
    }

    /// How many children are alive under this supervisor.
    pub open spec fn live_children(self) -> nat {
        if self.child_spec() is Some {
            1nat
        } else {
            0nat
        }
    }

    pub fn new() -> (s: UpstreamState)
        ensures
            s.child_spec() is None,
            s.restarts == 0,
    {
        UpstreamState { child_pid: None, restarts: 0, last_restart_reason: None }
    }

    /// A child was spawned; only possible while none is alive.
    pub fn note_spawned(&mut self, pid: u32)
        requires
            old(self).child_spec() is None,
        ensures
            final(self).child_spec() == Some(pid),
            final(self).restarts == old(self).restarts,
            final(self).last_restart_reason == old(self).last_restart_reason,
    {
        self.child_pid = Some(pid);
    }

    /// The child is gone, for the given reason.
    pub fn note_stopped(&mut self, reason: RestartReason)
        requires
            old(self).restarts < u64::MAX,
        ensures
            final(self).child_spec() is None,
            final(self).restarts == old(self).restarts + 1,
            final(self).last_restart_reason == Some(reason),
    {
        self.child_pid = None;
        self.restarts = self.restarts + 1;
        self.last_restart_reason = Some(reason);
    }
}

/// The supervisor never has more than one live child.
pub proof fn lemma_at_most_one_child(s: UpstreamState)
    ensures
        s.live_children() <= 1,
{
}

/// One monitor cycle's verdict, checked in this order: past the
/// maintenance boundary the child is updated and restarted; over the
/// error limit, or dead, it is restarted; otherwise it keeps running.
pub fn monitor_decision(
    past_maintenance: bool,
    errors: u32,
    child_exited: bool,
) -> (r: MonitorAction)
    ensures
        past_maintenance ==> r == MonitorAction::UpdateAndRestart,
        !past_maintenance && (errors >= ERROR_LIMIT || child_exited) ==> r
            == MonitorAction::Restart,
        !past_maintenance && errors < ERROR_LIMIT && !child_exited ==> r
            == MonitorAction::Continue,
{
    if past_maintenance {
        MonitorAction::UpdateAndRestart
    } else if errors >= ERROR_LIMIT || child_exited {
        MonitorAction::Restart
    } else {
        MonitorAction::Continue
    }
}

} // verus!
