//! Carrying out a plan: a poll-driven state machine over its actions.
//!
//! The executor never blocks. Each tick polls the current action once; the
//! caller decides how often to tick.

use crate::action::{Action, ActionStatus};
use crate::plan::{models_of, Plan};
use vstd::prelude::*;

verus! {

/// Where the execution of a plan stands.
#[derive(Clone, Copy, Debug, PartialEq, Eq, Structural)]
pub struct Cursor {
    /// The index of the current action; the number of actions done.
    pub index: usize,
    /// Whether the current action was started.
    pub started: bool,
    /// Whether the current action gave up.
    pub cancelled: bool,
}

/// How the execution of a plan is going.
#[derive(Clone, Copy, Debug, PartialEq, Eq, Structural)]
pub enum PlanStatus {
    /// There is an action to poll.
    Running,
    /// Every action reported `Done`.
    Complete,
    /// The action at this index gave up; the actions after it never ran.
    Cancelled(usize),
}

/// The status of a plan of `len` actions at `cursor`.
pub open spec fn status_at(cursor: Cursor, len: nat) -> PlanStatus {
    if cursor.cancelled {
        PlanStatus::Cancelled(cursor.index)
    } else if cursor.index >= len {
        PlanStatus::Complete
    } else {
        PlanStatus::Running
    }
}

/// Where the execution stands after the current action reported `status`:
/// on the same action if it is not ready, on the next if it is done, and
/// stopped for good if it gave up.
pub open spec fn after_report(cursor: Cursor, status: ActionStatus) -> Cursor {
    match status {
        ActionStatus::NotReady => Cursor { index: cursor.index, started: true, cancelled: false },
        ActionStatus::Done => Cursor {
            index: (cursor.index + 1) as usize,
            started: false,
            cancelled: false,
        },
        ActionStatus::Cancelled => Cursor { index: cursor.index, started: true, cancelled: true },
    }
}

/// The status of a plan of `len` actions at `cursor`.
pub fn status_of(cursor: Cursor, len: usize) -> (status: PlanStatus)
    ensures
        status == status_at(cursor, len as nat),
{
    if cursor.cancelled {
        PlanStatus::Cancelled(cursor.index)
    } else if cursor.index >= len {
        PlanStatus::Complete
    } else {
        PlanStatus::Running
    }
}

/// The executor's decision: where the execution stands after the current
/// action of a running plan reported `status`. A plan that is not running
/// stays where it is.
pub fn advance(cursor: Cursor, len: usize, status: ActionStatus) -> (next: Cursor)
    ensures
        status_at(cursor, len as nat) == PlanStatus::Running ==> next == after_report(
            cursor,
            status,
        ) && next.index <= len,
        status_at(cursor, len as nat) != PlanStatus::Running ==> next == cursor,
{
    if cursor.cancelled || cursor.index >= len {
        return cursor;
    }
    match status {
        ActionStatus::NotReady => Cursor { index: cursor.index, started: true, cancelled: false },
        ActionStatus::Done => Cursor { index: cursor.index + 1, started: false, cancelled: false },
        ActionStatus::Cancelled => Cursor { index: cursor.index, started: true, cancelled: true },
    }
}

/// A running plan stays on its action until that action reports `Done`,
/// which moves it on by one, or `Cancelled`, which stops it there; and the
/// plan is complete exactly when the last action has reported `Done`.
pub proof fn lemma_after_report(cursor: Cursor, len: nat, status: ActionStatus)
    requires
        status_at(cursor, len) == PlanStatus::Running,
        len <= usize::MAX,
    ensures
        status == ActionStatus::NotReady ==> status_at(after_report(cursor, status), len)
            == PlanStatus::Running && after_report(cursor, status).index == cursor.index,
        status == ActionStatus::Cancelled ==> status_at(after_report(cursor, status), len)
            == PlanStatus::Cancelled(cursor.index),
        status == ActionStatus::Done ==> after_report(cursor, status).index == cursor.index + 1
            && !after_report(cursor, status).started,
        status == ActionStatus::Done ==> (status_at(after_report(cursor, status), len)
            == PlanStatus::Complete <==> cursor.index + 1 == len),
        status_at(after_report(cursor, status), len) != PlanStatus::Running ==> status
            != ActionStatus::NotReady,
{
}

/// Where the execution stands after ticking once for each of `reports`, the
/// current action reporting them in turn: ticks on a plan that no longer
/// runs change nothing.
pub open spec fn replay(cursor: Cursor, len: nat, reports: Seq<ActionStatus>) -> Cursor
    decreases reports.len(),
{
    if reports.len() == 0 || status_at(cursor, len) != PlanStatus::Running {
        cursor
    } else {
        replay(after_report(cursor, reports[0]), len, reports.drop_first())
    }
}

/// How many of `reports` are asked for: the number of polls that as many
/// ticks as there are reports make.
pub open spec fn polls(cursor: Cursor, len: nat, reports: Seq<ActionStatus>) -> nat
    decreases reports.len(),
{
    if reports.len() == 0 || status_at(cursor, len) != PlanStatus::Running {
        0
    } else {
        1 + polls(after_report(cursor, reports[0]), len, reports.drop_first())
    }
}

/// An action that is not ready `waits` times and then done or cancelled is
/// polled `waits + 1` times: the plan stays on it while it is not ready,
/// and leaves it with its next report. If it was the last action, or it
/// cancelled, no further poll is made whatever the ticks that follow.
pub proof fn lemma_polled_until_settled(
    cursor: Cursor,
    len: nat,
    reports: Seq<ActionStatus>,
    waits: nat,
)
    requires
        status_at(cursor, len) == PlanStatus::Running,
        len <= usize::MAX,
        waits < reports.len(),
        forall|k: int| 0 <= k < waits ==> reports[k] == ActionStatus::NotReady,
        reports[waits as int] != ActionStatus::NotReady,
    ensures
        forall|k: int|
            0 < k <= waits ==> #[trigger] replay(cursor, len, reports.take(k)) == (Cursor {
                index: cursor.index,
                started: true,
                cancelled: false,
            }),
        replay(cursor, len, reports.take(waits as int + 1)).index == (if reports[waits as int]
            == ActionStatus::Done {
            cursor.index + 1
        } else {
            cursor.index as int
        }),
        replay(cursor, len, reports.take(waits as int + 1)).cancelled == (reports[waits as int]
            == ActionStatus::Cancelled),
        polls(cursor, len, reports.take(waits as int + 1)) == waits + 1,
        reports[waits as int] == ActionStatus::Cancelled || cursor.index + 1 == len ==> polls(
            cursor,
            len,
            reports,
        ) == waits + 1,
    decreases waits,
{
    let first = reports[0];
    let next = after_report(cursor, first);
    let rest = reports.drop_first();
    assert(reports.take(waits as int + 1).drop_first() =~= rest.take(waits as int));
    assert(reports.take(waits as int + 1)[0] == first);
    if waits == 0 {
        assert(rest.take(0) =~= Seq::<ActionStatus>::empty());
        assert(replay(next, len, rest.take(0)) == next);
        assert(polls(next, len, rest.take(0)) == 0);
        if first == ActionStatus::Cancelled || cursor.index + 1 == len {
            assert(status_at(next, len) != PlanStatus::Running);
            assert(polls(next, len, rest) == 0);
        }
    } else {
        assert(first == ActionStatus::NotReady);
        assert forall|k: int| 0 <= k < waits - 1 implies rest[k] == ActionStatus::NotReady by {
            assert(rest[k] == reports[k + 1]);
        }
        assert(rest[waits - 1] == reports[waits as int]);
        lemma_polled_until_settled(next, len, rest, (waits - 1) as nat);
        assert forall|k: int| 0 < k <= waits implies #[trigger] replay(
            cursor,
            len,
            reports.take(k),
        ) == (Cursor { index: cursor.index, started: true, cancelled: false }) by {
            assert(reports.take(k).drop_first() =~= rest.take(k - 1));
            assert(reports.take(k)[0] == first);
            if k == 1 {
                assert(rest.take(0) =~= Seq::<ActionStatus>::empty());
                assert(replay(next, len, rest.take(0)) == next);
            } else {
                assert(replay(next, len, rest.take(k - 1)) == next);
            }
        }
    }
}

/// One more tick on a plan that still runs after `reports` adds the next
/// report to the replay and one to the polls.
pub proof fn lemma_replay_push(
    cursor: Cursor,
    len: nat,
    reports: Seq<ActionStatus>,
    status: ActionStatus,
)
    requires
        polls(cursor, len, reports) == reports.len(),
        status_at(replay(cursor, len, reports), len) == PlanStatus::Running,
    ensures
        replay(cursor, len, reports.push(status)) == after_report(
            replay(cursor, len, reports),
            status,
        ),
        polls(cursor, len, reports.push(status)) == reports.len() + 1,
    decreases reports.len(),
{
    let longer = reports.push(status);
    if reports.len() == 0 {
        assert(longer.drop_first() =~= Seq::<ActionStatus>::empty());
        let next = after_report(cursor, status);
        assert(replay(next, len, longer.drop_first()) == next);
        assert(polls(next, len, longer.drop_first()) == 0);
    } else {
        let next = after_report(cursor, reports[0]);
        assert(longer.drop_first() =~= reports.drop_first().push(status));
        assert(longer[0] == reports[0]);
        lemma_replay_push(next, len, reports.drop_first(), status);
    }
}

/// A plan under execution.
pub struct Executor {
    plan: Plan,
    cursor: Cursor,
}

impl Executor {
    /// The actions of the plan, as they are now.
    pub closed spec fn actions(&self) -> Seq<Action> {
        self.plan.actions@
    }

    /// Where the execution stands.
    pub closed spec fn cursor(&self) -> Cursor {
        self.cursor
    }

    /// How the execution is going.
    pub open spec fn status(&self) -> PlanStatus {
        status_at(self.cursor(), self.actions().len())
    }

    /// An executor at the start of `plan`: nothing started, nothing done.
    pub fn new(plan: Plan) -> (executor: Self)
        ensures
            executor.actions() == plan.actions@,
            executor.cursor() == (Cursor { index: 0, started: false, cancelled: false }),
    {
        Self { plan, cursor: Cursor { index: 0, started: false, cancelled: false } }
    }

    /// Where the execution stands.
    pub fn position(&self) -> (cursor: Cursor)
        ensures
            cursor == self.cursor(),
    {
        self.cursor
    }

    /// How the execution is going.
    pub fn current_status(&self) -> (status: PlanStatus)
        ensures
            status == self.status(),
    {
        status_of(self.cursor, self.plan.actions.len())
    }

    /// The number of actions in the plan.
    pub fn len(&self) -> (n: usize)
        ensures
            n == self.actions().len(),
    {
        self.plan.actions.len()
    }

    /// The plan, with its actions as the execution left them.
    pub fn into_plan(self) -> (plan: Plan)
        ensures
            plan.actions@ == self.actions(),
    {
        self.plan
    }

    /// One step of the execution. A plan that is complete or cancelled is
    /// left alone and nothing is reported. Otherwise the current action is
    /// started if it was not, then polled once; what it reported comes
    /// back, and the cursor moves as `after_report` says. No other action
    /// is touched, and what the planner reads of the actions stays.
    pub fn tick(&mut self) -> (reported: Option<ActionStatus>)
        ensures
            reported is None <==> old(self).status() != PlanStatus::Running,
            reported is None ==> final(self).cursor() == old(self).cursor() && final(self).actions() == old(self).actions(),
            reported matches Some(status) ==> final(self).cursor() == after_report(
                old(self).cursor(),
                status,
            ),
            final(self).actions().len() == old(self).actions().len(),
            models_of(final(self).actions()) == models_of(old(self).actions()),
            forall|k: int|
                0 <= k < old(self).actions().len() && k != old(self).cursor().index ==> final(self).actions()[k] == old(self).actions()[k],
    {
        let len = self.plan.actions.len();
        match status_of(self.cursor, len) {
            PlanStatus::Running => {
                let index = self.cursor.index;
                let ghost before = self.plan.actions@;
                let action = &mut self.plan.actions[index];
                if !self.cursor.started {
                    action.start();
                }
                let status = action.update();
                self.cursor = advance(self.cursor, len, status);
                assert(models_of(self.plan.actions@) =~= models_of(before));
                Some(status)
            },
            _ => None,
        }
    }

    /// Ticks until the plan is no longer running, but at most `budget`
    /// times, and says how the execution is going then. The cursor ends
    /// where the reports of the polls made put it; a plan that still runs
    /// was polled `budget` times. Actions are polled in order; none before
    /// the cursor is touched again.
    pub fn run(&mut self, budget: usize) -> (status: PlanStatus)
        ensures
            status == final(self).status(),
            exists|reports: Seq<ActionStatus>|
                ({
                    &&& reports.len() <= budget
                    &&& polls(old(self).cursor(), old(self).actions().len(), reports)
                        == reports.len()
                    &&& #[trigger] replay(old(self).cursor(), old(self).actions().len(), reports)
                        == final(self).cursor()
                    &&& status == PlanStatus::Running ==> reports.len() == budget
                    &&& reports.len() == 0 ==> final(self).actions() == old(self).actions()
                }),
            final(self).cursor().index >= old(self).cursor().index,
            final(self).actions().len() == old(self).actions().len(),
            models_of(final(self).actions()) == models_of(old(self).actions()),
            forall|k: int|
                0 <= k < old(self).cursor().index && k < old(self).actions().len() ==> final(self).actions()[k] == old(self).actions()[k],
    {
        let mut left = budget;
        let len = self.len();
        let ghost mut reports = Seq::<ActionStatus>::empty();
        while left > 0
            invariant
                left <= budget,
                len == self.actions().len(),
                reports.len() == budget - left,
                polls(old(self).cursor(), len as nat, reports) == reports.len(),
                replay(old(self).cursor(), len as nat, reports) == self.cursor(),
                reports.len() == 0 ==> self.actions() == old(self).actions(),
                self.cursor().index >= old(self).cursor().index,
                self.actions().len() == old(self).actions().len(),
                models_of(self.actions()) == models_of(old(self).actions()),
                forall|k: int|
                    0 <= k < old(self).cursor().index && k < old(self).actions().len()
                        ==> self.actions()[k] == old(self).actions()[k],
            decreases left,
        {
            match self.tick() {
                Some(status) => {
                    proof {
                        lemma_replay_push(old(self).cursor(), len as nat, reports, status);
                        reports = reports.push(status);
                    }
                    left -= 1;
                },
                None => {
                    return self.current_status();
                },
            }
        }
        self.current_status()
    }
}

} // verus!
