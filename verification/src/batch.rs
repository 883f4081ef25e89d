//! Carrying out a plan, one rename at a time. The caller performs each
//! rename and reports whether it succeeded; the first failure ends the batch,
//! and nothing that was done before it is undone.

use crate::plan::{Fault, Plan};
use vstd::prelude::*;

verus! {

/// How far the carrying out of a plan has come.
#[derive(Clone, Copy, Debug, PartialEq, Eq, Structural)]
pub enum Progress {
    /// The renames before this position of the plan have succeeded; the one
    /// at this position is due, if the plan has one there.
    Running(usize),
    /// The renames before this position have succeeded, and the one at this
    /// position has failed.
    Failed(usize),
}

/// What the caller does next.
#[derive(Clone, Copy, Debug, PartialEq, Eq, Structural)]
pub enum Step {
    /// Carry out the rename at this position of the plan, and report how it
    /// went.
    Rename(usize),
    /// Stop: every rename of the plan has succeeded, and the plan has no
    /// fault.
    Done,
    /// Stop: the rename at this position has failed.
    Failed(usize),
    /// Stop: every rename of the plan has succeeded, and the plan ends in
    /// this fault.
    Faulted(Fault),
}

/// The step that follows `progress` in a plan of `total` renames that ends
/// in `fault`.
pub open spec fn step_at(total: nat, fault: Option<Fault>, progress: Progress) -> Step {
    match progress {
        Progress::Failed(at) => Step::Failed(at),
        Progress::Running(next) => if next < total {
            Step::Rename(next)
        } else {
            match fault {
                Some(f) => Step::Faulted(f),
                None => Step::Done,
            }
        },
    }
}

/// The progress after the rename that was due at `progress` has gone well
/// (`ok`) or not. Where no rename was due, nothing changes.
pub open spec fn advanced(total: nat, progress: Progress, ok: bool) -> Progress {
    match progress {
        Progress::Running(next) if next < total => if ok {
            Progress::Running((next + 1) as usize)
        } else {
            Progress::Failed(next)
        },
        _ => progress,
    }
}

/// The progress after the outcomes `outcomes` have been reported in turn,
/// from the start of a plan of `total` renames.
pub open spec fn progress_after(total: nat, outcomes: Seq<bool>) -> Progress
    decreases outcomes.len(),
{
    if outcomes.len() == 0 {
        Progress::Running(0)
    } else {
        advanced(total, progress_after(total, outcomes.drop_last()), outcomes.last())
    }
}

impl Progress {
    /// The progress before anything was attempted.
    pub fn start() -> (r: Progress)
        ensures
            r == Progress::Running(0),
    {
        Progress::Running(0)
    }
}

/// What to do next in carrying out `plan`: the next rename while none has
/// failed and some are left; else how the batch has ended.
pub fn next_step(plan: &Plan, progress: Progress) -> (r: Step)
    ensures
        r == step_at(plan.renames.len() as nat, plan.fault, progress),
{
    match progress {
        Progress::Failed(at) => Step::Failed(at),
        Progress::Running(next) => {
            if next < plan.renames.len() {
                Step::Rename(next)
            } else {
                match plan.fault {
                    Some(f) => Step::Faulted(f),
                    None => Step::Done,
                }
            }
        },
    }
}

/// Takes note of how the rename that was due has gone.
pub fn advance(plan: &Plan, progress: Progress, ok: bool) -> (r: Progress)
    ensures
        r == advanced(plan.renames.len() as nat, progress, ok),
{
    match progress {
        Progress::Running(next) => {
            if next < plan.renames.len() {
                if ok {
                    Progress::Running(next + 1)
                } else {
                    Progress::Failed(next)
                }
            } else {
                progress
            }
        },
        Progress::Failed(_) => progress,
    }
}

/// A batch stops at the first rename that fails. Whatever outcomes are
/// reported, from the start of a plan: while it runs, the renames attempted
/// are the first ones of the plan, each has succeeded, and the next one is
/// due; once one has failed, all before it have succeeded, and from then on
/// every step is the same `Failed`, so that no rename behind the failed one
/// is ever attempted.
pub proof fn lemma_stops_at_first_failure(total: nat, fault: Option<Fault>, outcomes: Seq<bool>)
    requires
        total <= usize::MAX,
    ensures
        match progress_after(total, outcomes) {
            Progress::Running(next) => {
                &&& next == if outcomes.len() <= total {
                    outcomes.len()
                } else {
                    total
                }
                &&& forall|k: int| 0 <= k < next ==> #[trigger] outcomes[k]
            },
            Progress::Failed(at) => {
                &&& at < total
                &&& at < outcomes.len()
                &&& !outcomes[at as int]
                &&& forall|k: int| 0 <= k < at ==> #[trigger] outcomes[k]
                &&& step_at(total, fault, Progress::Failed(at)) == Step::Failed(at)
                &&& forall|ok: bool|
                    #[trigger] advanced(total, Progress::Failed(at), ok) == Progress::Failed(at)
            },
        },
    decreases outcomes.len(),
{
    if outcomes.len() > 0 {
        let front = outcomes.drop_last();
        lemma_stops_at_first_failure(total, fault, front);
        match progress_after(total, outcomes) {
            Progress::Running(next) => {
                assert forall|k: int| 0 <= k < next implies #[trigger] outcomes[k] by {
                    if k < front.len() {
                        assert(outcomes[k] == front[k]);
                    }
                }
            },
            Progress::Failed(at) => {
                assert forall|k: int| 0 <= k < at implies #[trigger] outcomes[k] by {
                    assert(outcomes[k] == front[k]);
                }
                if at < front.len() {
                    assert(outcomes[at as int] == front[at as int]);
                }
            },
        }
    }
}

} // verus!
