use vstd::prelude::*;

verus! {

/// Where the frame loop stands.
#[derive(Clone, Copy, Debug, PartialEq, Eq, Structural)]
pub enum Phase {
    /// Running each system's `init`, once, in registration order.
    Initializing,
    /// Running each system's `update`, frame after frame, in registration order.
    Running,
    /// The running flag was found cleared at the top of a frame.
    Stopped,
}

/// What the driver of the frame loop is to do next.
#[derive(Clone, Copy, Debug, PartialEq, Eq, Structural)]
pub enum Action {
    /// Run the `init` of the system registered at this position.
    Init(usize),
    /// Run the `update` of the system registered at this position.
    Update(usize),
    /// A frame passes with no system to run.
    Idle,
    /// Leave the loop.
    Stop,
}

/// The decisions of the frame loop over a fixed, ordered list of systems.
/// The driver performs each action against the shared state and reports the
/// state's running flag when it asks for the next one.
pub struct Scheduler {
    n_systems: usize,
    phase: Phase,
    next: usize,
}

/// The scheduler's state: phase, and position of the next system to run.
pub open spec fn step_spec(n: usize, phase: Phase, next: usize, running: bool) -> (
    Phase,
    usize,
    Action,
) {
    match phase {
        Phase::Initializing => if next < n {
            (Phase::Initializing, (next + 1) as usize, Action::Init(next))
        } else {
            running_step(n, 0, running)
        },
        Phase::Running => running_step(n, next, running),
        Phase::Stopped => (Phase::Stopped, next, Action::Stop),
    }
}

/// A step of the running phase: the flag is read only at the top of a frame.
pub open spec fn running_step(n: usize, next: usize, running: bool) -> (Phase, usize, Action) {
    if next == 0 && !running {
        (Phase::Stopped, 0, Action::Stop)
    } else if n == 0 {
        (Phase::Running, 0, Action::Idle)
    } else if next + 1 < n {
        (Phase::Running, (next + 1) as usize, Action::Update(next))
    } else {
        (Phase::Running, 0, Action::Update(next))
    }
}

impl Scheduler {
    /// Scheduler state of the frame loop.
    pub closed spec fn state(&self) -> (usize, Phase, usize) {
        (self.n_systems, self.phase, self.next)
    }

    /// Invariant: the next position is within the list of systems.
    pub closed spec fn wf(&self) -> bool {
        &&& self.next <= self.n_systems
        &&& self.phase == Phase::Running ==> (self.next == 0 || self.next < self.n_systems)
    }

    /// A scheduler for `n_systems` systems, before any `init` has run.
    pub fn new(n_systems: usize) -> (r: Self)
        ensures
            r.wf(),
            r.state() == (n_systems, Phase::Initializing, 0usize),
    {
        Scheduler { n_systems, phase: Phase::Initializing, next: 0 }
    }

    /// The current phase.
    pub fn phase(&self) -> (r: Phase)
        ensures
            r == self.state().1,
    {
        self.phase
    }

    /// Decides the next action, given whether the shared state's running flag
    /// is still set.
    pub fn next_action(&mut self, running: bool) -> (r: Action)
        requires
            old(self).wf(),
        ensures
            final(self).wf(),
            ({
                let (n, phase, next) = old(self).state();
                let (phase2, next2, action) = step_spec(n, phase, next, running);
                &&& final(self).state() == (n, phase2, next2)
                &&& r == action
            }),
    {
        if self.phase == Phase::Initializing {
            if self.next < self.n_systems {
                let i = self.next;
                self.next = i + 1;
                return Action::Init(i);
            }
            self.phase = Phase::Running;
            self.next = 0;
        }
        if self.phase == Phase::Stopped {
            return Action::Stop;
        }
        if self.next == 0 && !running {
            self.phase = Phase::Stopped;
            return Action::Stop;
        }
        if self.n_systems == 0 {
            return Action::Idle;
        }
        let i = self.next;
        self.next = if i + 1 < self.n_systems {
            i + 1
        } else {
            0
        };
        Action::Update(i)
    }
}

/// The actions decided over successive requests, given the running flag
/// reported with each, from the state (`phase`, `next`).
pub open spec fn trace(n: usize, phase: Phase, next: usize, flags: Seq<bool>) -> Seq<Action>
    decreases flags.len(),
{
    if flags.len() == 0 {
        Seq::empty()
    } else {
        let (phase2, next2, action) = step_spec(n, phase, next, flags[0]);
        seq![action] + trace(n, phase2, next2, flags.drop_first())
    }
}

proof fn lemma_trace_from_init(n: usize, j: usize, flags: Seq<bool>)
    requires
        j <= n,
        flags.len() > n - j,
    ensures
        trace(n, Phase::Initializing, j, flags).len() == flags.len(),
        forall|k: int|
            0 <= k < n - j ==> #[trigger] trace(n, Phase::Initializing, j, flags)[k]
                == Action::Init((j + k) as usize),
        trace(n, Phase::Initializing, j, flags)[n - j] == running_step(n, 0, flags[n - j]).2,
    decreases flags.len(),
{
    lemma_trace_len(n, Phase::Initializing, j, flags);
    if j < n {
        let rest = flags.drop_first();
        lemma_trace_from_init(n, (j + 1) as usize, rest);
        let t = trace(n, Phase::Initializing, j, flags);
        assert(t == seq![Action::Init(j)] + trace(n, Phase::Initializing, (j + 1) as usize, rest));
        assert forall|k: int| 0 <= k < n - j implies #[trigger] t[k] == Action::Init(
            (j + k) as usize,
        ) by {
            if k > 0 {
                assert(t[k] == trace(n, Phase::Initializing, (j + 1) as usize, rest)[k - 1]);
            }
        }
        assert(t[n - j] == trace(n, Phase::Initializing, (j + 1) as usize, rest)[n - j - 1]);
    }
}

proof fn lemma_trace_len(n: usize, phase: Phase, next: usize, flags: Seq<bool>)
    ensures
        trace(n, phase, next, flags).len() == flags.len(),
    decreases flags.len(),
{
    if flags.len() > 0 {
        let (phase2, next2, action) = step_spec(n, phase, next, flags[0]);
        lemma_trace_len(n, phase2, next2, flags.drop_first());
    }
}

/// From a new scheduler, the first actions are the `init` of every system in
/// registration order, whatever the running flag says meanwhile; the next is
/// the first system's `update` if the flag is set then, and stopping if not.
pub proof fn lemma_inits_come_first(n: usize, flags: Seq<bool>)
    requires
        flags.len() > n,
    ensures
        forall|k: int|
            0 <= k < n ==> #[trigger] trace(n, Phase::Initializing, 0, flags)[k] == Action::Init(
                k as usize,
            ),
        trace(n, Phase::Initializing, 0, flags)[n as int] == (if !flags[n as int] {
            Action::Stop
        } else if n == 0 {
            Action::Idle
        } else {
            Action::Update(0)
        }),
{
    lemma_trace_from_init(n, 0, flags);
}

/// The running flag is read only at the top of a frame: once a frame has
/// begun, every later system in it still gets its `update`, even after one
/// of them has cleared the flag.
pub proof fn lemma_frame_runs_to_its_end(n: usize, next: usize, running: bool)
    requires
        0 < next < n,
    ensures
        step_spec(n, Phase::Running, next, running).2 == Action::Update(next),
        step_spec(n, Phase::Running, next, running).0 == Phase::Running,
{
}

} // verus!
