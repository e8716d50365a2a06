//! Fail-fast bookkeeping for a task whose commands run all at once.
//!
//! Every command of a `parallel` task runs concurrently. Each time one ends in failure,
//! the others must be killed; once all have ended, the task fails if any of them did,
//! with the number of failures.
use vstd::prelude::*;

use crate::run_error::RunError;
use crate::runner::command_outcome;

verus! {

/// The tally of a parallel group: how many commands it has, how many have ended, and
/// how many of those failed.
pub struct ParallelTally {
    total: usize,
    seen: usize,
    failures: usize,
}

pub struct TallyView {
    pub total: nat,
    pub seen: nat,
    pub failures: nat,
}

impl View for ParallelTally {
    type V = TallyView;

    closed spec fn view(&self) -> TallyView {
        TallyView { total: self.total as nat, seen: self.seen as nat, failures: self.failures as nat }
    }
}

/// The tally after one more command ended, successfully when `ok`.
pub open spec fn tally_step(t: TallyView, ok: bool) -> TallyView {
    TallyView {
        total: t.total,
        seen: t.seen + 1,
        failures: if ok {
            t.failures
        } else {
            t.failures + 1
        },
    }
}

/// The tally after the commands ended with the outcomes `oks`, in order.
pub open spec fn tally_run(t: TallyView, oks: Seq<bool>) -> TallyView
    decreases oks.len(),
{
    if oks.len() == 0 {
        t
    } else {
        tally_step(tally_run(t, oks.drop_last()), oks.last())
    }
}

/// How many of `oks` are failures.
pub open spec fn count_failed(oks: Seq<bool>) -> nat
    decreases oks.len(),
{
    if oks.len() == 0 {
        0
    } else {
        count_failed(oks.drop_last()) + if oks.last() {
            0nat
        } else {
            1nat
        }
    }
}

impl ParallelTally {
    #[verifier::type_invariant]
    spec fn counts_fit(self) -> bool {
        self.failures <= self.seen <= self.total
    }

    /// The tally of a group of `total` commands, none of which has ended.
    pub fn new(total: usize) -> (t: Self)
        ensures
            t@ == (TallyView { total: total as nat, seen: 0, failures: 0 }),
    {
        ParallelTally { total, seen: 0, failures: 0 }
    }

    /// How many commands of the group have not ended yet.
    pub fn pending(&self) -> (n: usize)
        ensures
            n == self@.total - self@.seen,
    {
        proof {
            use_type_invariant(self);
        }
        self.total - self.seen
    }

    /// Records that one more command ended, successfully when `ok`. Returns whether
    /// the other commands must now be killed: they must after every failure.
    pub fn record(&mut self, ok: bool) -> (kill: bool)
        requires
            old(self)@.seen < old(self)@.total,
        ensures
            final(self)@ == tally_step(old(self)@, ok),
            kill == !ok,
    {
        proof {
            use_type_invariant(&*self);
        }
        self.seen = self.seen + 1;
        if !ok {
            self.failures = self.failures + 1;
        }
        !ok
    }

    /// The result of the group once its commands have ended: a
    /// [`RunError::ParallelFailure`] with the number of failures if any failed.
    pub fn finish(&self, task: &str) -> (r: Result<(), RunError>)
        ensures
            self@.failures == 0 ==> r is Ok,
            self@.failures > 0 ==> (r matches Err(RunError::ParallelFailure { task: t, count }) && t@
                == task@ && count == self@.failures),
    {
        if self.failures > 0 {
            Err(RunError::ParallelFailure { task: task.to_owned(), count: self.failures })
        } else {
            Ok(())
        }
    }
}

/// A group of commands fails with exactly as many failures as its commands that
/// failed, and succeeds exactly when none did.
pub proof fn law_parallel_failure_count(total: nat, oks: Seq<bool>)
    ensures
        tally_run(TallyView { total, seen: 0, failures: 0 }, oks).failures == count_failed(oks),
        tally_run(TallyView { total, seen: 0, failures: 0 }, oks).seen == oks.len(),
        count_failed(oks) == 0 <==> forall|i: int| 0 <= i < oks.len() ==> #[trigger] oks[i],
    decreases oks.len(),
{
    if oks.len() > 0 {
        law_parallel_failure_count(total, oks.drop_last());
        assert forall|i: int| 0 <= i < oks.len() - 1 implies #[trigger] oks.drop_last()[i] == oks[i] by {}
        if count_failed(oks) == 0 {
            assert forall|i: int| 0 <= i < oks.len() implies #[trigger] oks[i] by {
                if i < oks.len() - 1 {
                    assert(oks.drop_last()[i]);
                }
            }
        }
        if forall|i: int| 0 <= i < oks.len() ==> #[trigger] oks[i] {
            assert forall|i: int| 0 <= i < oks.len() - 1 implies #[trigger] oks.drop_last()[i] by {
                assert(oks[i]);
            }
            assert(oks[oks.len() - 1]);
        }
    }
}

/// The result of one command of a parallel group that ended by itself: `Ok` on
/// success; otherwise, when the platform reports kills (`signals`) and the command
/// left no exit code, it was killed by a signal; else it failed with its exit code
/// (`-1` when it has none).
pub fn parallel_command_outcome(
    task: &str,
    cmd: &str,
    success: bool,
    code: Option<i32>,
    signals: bool,
) -> (r: Result<(), RunError>)
    ensures
        success ==> r is Ok,
        !success && signals && code is None ==> (r matches Err(
            RunError::CommandKilled { task: t, cmd: c },
        ) && t@ == task@ && c@ == cmd@),
        !success && !(signals && code is None) ==> (r matches Err(
            RunError::CommandFailed { task: t, cmd: c, code: k },
        ) && t@ == task@ && c@ == cmd@ && k == match code {
            Some(v) => v,
            None => -1i32,
        }),
{
    command_outcome(task, cmd, success, code, signals)
}

} // verus!
