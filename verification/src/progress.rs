//! Training progress: the statuses of a run and of its phases, and the phase
//! bookkeeping that moves a run from one phase to the next.

use vstd::prelude::*;

verus! {

broadcast use vstd::string::group_string_axioms;

/// Training status enum.
#[derive(Debug, Clone, Copy, PartialEq, Eq, Structural)]
pub enum TrainingStatus {
    /// Building tokenizer
    Tokenizing,
    /// Training on data
    Training,
    /// Running evaluation
    Evaluating,
    /// Consolidation/pruning pass
    Consolidating,
    /// Training complete, converged
    Converged,
    /// Training failed
    Failed,
}

/// Phase completion status.
#[derive(Debug, Clone, Copy, PartialEq, Eq, Structural)]
pub enum PhaseStatus {
    Pending,
    Active,
    Evaluating,
    Completed,
    Converged,
}

/// What a [`PhaseTracker`] holds: the phases' names and statuses, the index
/// and name of the current phase, and the run's overall status.
pub struct TrackerView {
    pub names: Seq<Seq<char>>,
    pub statuses: Seq<PhaseStatus>,
    pub current_index: nat,
    pub current_name: Seq<char>,
    pub status: TrainingStatus,
}

/// `s` with position `i` set to `st`, where `s` has that position.
pub open spec fn mark(s: Seq<PhaseStatus>, i: nat, st: PhaseStatus) -> Seq<PhaseStatus> {
    if i < s.len() {
        s.update(i as int, st)
    } else {
        s
    }
}

/// The state after the current phase starts: the run is training and the
/// current phase (if any) is active.
pub open spec fn start_spec(v: TrackerView) -> TrackerView {
    TrackerView {
        names: v.names,
        statuses: mark(v.statuses, v.current_index, PhaseStatus::Active),
        current_index: v.current_index,
        current_name: v.current_name,
        status: TrainingStatus::Training,
    }
}

/// The state after the run converges: the run and its current phase (if
/// any) are converged.
pub open spec fn converge_spec(v: TrackerView) -> TrackerView {
    TrackerView {
        names: v.names,
        statuses: mark(v.statuses, v.current_index, PhaseStatus::Converged),
        current_index: v.current_index,
        current_name: v.current_name,
        status: TrainingStatus::Converged,
    }
}

/// The state after moving on: the current phase (if any) is completed, the
/// index moves one on, and where a phase stands there it becomes current
/// and active; past the last phase the current name stays.
pub open spec fn advance_spec(v: TrackerView) -> TrackerView {
    let done = mark(v.statuses, v.current_index, PhaseStatus::Completed);
    let next = v.current_index + 1;
    if next < v.names.len() {
        TrackerView {
            names: v.names,
            statuses: mark(done, next, PhaseStatus::Active),
            current_index: next,
            current_name: v.names[next as int],
            status: v.status,
        }
    } else {
        TrackerView {
            names: v.names,
            statuses: done,
            current_index: next,
            current_name: v.current_name,
            status: v.status,
        }
    }
}

/// The order every tracker keeps: one status per phase, the phases before
/// the current one completed and those after it pending, and the current
/// name that of the current phase (of the last one once the run has moved
/// past it, "unknown" when there are no phases).
pub open spec fn tracker_wf(v: TrackerView) -> bool {
    &&& v.names.len() == v.statuses.len()
    &&& forall|i: int| 0 <= i < v.statuses.len() && i < v.current_index ==> #[trigger] v.statuses[i] == PhaseStatus::Completed
    &&& forall|i: int| v.current_index < i < v.statuses.len() ==> #[trigger] v.statuses[i] == PhaseStatus::Pending
    &&& v.current_name == if v.names.len() == 0 {
        "unknown"@
    } else if v.current_index < v.names.len() {
        v.names[v.current_index as int]
    } else {
        v.names.last()
    }
}

/// The phase bookkeeping of a training run.
pub struct PhaseTracker {
    names: Vec<String>,
    statuses: Vec<PhaseStatus>,
    current_index: usize,
    current_name: String,
    status: TrainingStatus,
}

/// The names' views.
pub open spec fn names_view(v: Seq<String>) -> Seq<Seq<char>> {
    v.map_values(|s: String| s@)
}

impl View for PhaseTracker {
    type V = TrackerView;

    closed spec fn view(&self) -> TrackerView {
        TrackerView {
            names: names_view(self.names@),
            statuses: self.statuses@,
            current_index: self.current_index as nat,
            current_name: self.current_name@,
            status: self.status,
        }
    }
}

impl PhaseTracker {
    /// A tracker for a run with the given phases: all pending, the first one
    /// current, the run building its tokenizer.
    pub fn new(phase_names: &[&str]) -> (t: Self)
        ensures
            t@.names == phase_names@.map_values(|s: &str| s@),
            t@.statuses == Seq::new(phase_names@.len(), |i: int| PhaseStatus::Pending),
            t@.current_index == 0,
            t@.current_name == (if phase_names@.len() == 0 { "unknown"@ } else { phase_names@[0]@ }),
            t@.status == TrainingStatus::Tokenizing,
            tracker_wf(t@),
    {
        let mut names: Vec<String> = Vec::new();
        let mut statuses: Vec<PhaseStatus> = Vec::new();
        let mut i: usize = 0;
        while i < phase_names.len()
            invariant
                0 <= i <= phase_names@.len(),
                names_view(names@) == phase_names@.take(i as int).map_values(|s: &str| s@),
                statuses@ == Seq::new(i as nat, |k: int| PhaseStatus::Pending),
            decreases phase_names@.len() - i,
        {
            let name = phase_names[i].to_string();
            assert(name@ == phase_names@[i as int]@);
            let ghost before = names@;
            names.push(name);
            statuses.push(PhaseStatus::Pending);
            proof {
                assert(names@ =~= before.push(name));
                assert(phase_names@.take(i + 1) =~= phase_names@.take(i as int).push(phase_names@[i as int]));
                assert(names_view(names@) =~= names_view(before).push(name@));
                assert(names_view(names@) =~= phase_names@.take(i + 1).map_values(|s: &str| s@));
                assert(statuses@ =~= Seq::new((i + 1) as nat, |k: int| PhaseStatus::Pending));
            }
            i = i + 1;
        }
        proof {
            assert(phase_names@.take(i as int) =~= phase_names@);
        }
        let current_name = if phase_names.len() == 0 {
            "unknown".to_string()
        } else {
            phase_names[0].to_string()
        };
        PhaseTracker { names, statuses, current_index: 0, current_name, status: TrainingStatus::Tokenizing }
    }

    /// Index of the current phase.
    pub fn current_index(&self) -> (i: usize)
        ensures
            i == self@.current_index,
    {
        self.current_index
    }

    /// Number of phases.
    pub fn total_phases(&self) -> (n: usize)
        ensures
            n == self@.names.len(),
    {
        self.names.len()
    }

    /// Name of the current phase.
    pub fn current_phase(&self) -> (s: &str)
        ensures
            s@ == self@.current_name,
    {
        self.current_name.as_str()
    }

    /// Overall status of the run.
    pub fn status(&self) -> (s: TrainingStatus)
        ensures
            s == self@.status,
    {
        self.status
    }

    /// Status of phase `i`, `None` past the last phase.
    pub fn phase_status(&self, i: usize) -> (s: Option<PhaseStatus>)
        ensures
            s == (if i < self@.statuses.len() { Some(self@.statuses[i as int]) } else { None::<PhaseStatus> }),
    {
        if i < self.statuses.len() {
            Some(self.statuses[i])
        } else {
            None
        }
    }

    /// Sets the status of phase `i`, where there is one.
    fn set_status(&mut self, i: usize, st: PhaseStatus)
        ensures
            final(self)@ == (TrackerView { statuses: mark(old(self)@.statuses, i as nat, st), ..old(self)@ }),
    {
        if i < self.statuses.len() {
            self.statuses.set(i, st);
        }
    }

    /// Mark the current phase as active.
    pub fn start_phase(&mut self)
        ensures
            final(self)@ == start_spec(old(self)@),
    {
        self.status = TrainingStatus::Training;
        let i = self.current_index;
        self.set_status(i, PhaseStatus::Active);
    }

    /// Mark training as converged.
    pub fn mark_converged(&mut self)
        ensures
            final(self)@ == converge_spec(old(self)@),
    {
        self.status = TrainingStatus::Converged;
        let i = self.current_index;
        self.set_status(i, PhaseStatus::Converged);
    }

    /// Advance to the next phase.
    pub fn advance_phase(&mut self)
        requires
            old(self)@.current_index < usize::MAX,
        ensures
            final(self)@ == advance_spec(old(self)@),
    {
        let i = self.current_index;
        self.set_status(i, PhaseStatus::Completed);
        let next = i + 1;
        self.current_index = next;
        if next < self.names.len() {
            self.current_name = self.names[next].clone();
            self.set_status(next, PhaseStatus::Active);
        }
    }
}

/// Starting a phase, converging and moving on all keep the tracker's order:
/// phases before the current one completed, phases after it pending, and
/// the current name that of the current phase.
pub proof fn lemma_tracker_order_kept(v: TrackerView)
    requires
        tracker_wf(v),
    ensures
        tracker_wf(start_spec(v)),
        tracker_wf(converge_spec(v)),
        tracker_wf(advance_spec(v)),
{
}

} // verus!
