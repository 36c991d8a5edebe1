//! The mathematics of planning: what a sequence of actions needs, what it
//! brings about, and when it is sound. A script is a sequence of actions in
//! the order in which they execute; a plan names the actions of a script by
//! their indices in a library.

use crate::action::ActionModel;
use crate::fact::negation;
use vstd::prelude::*;

verus! {

/// The actions a planner may choose from, in registration order.
pub type Library = Seq<ActionModel>;

/// Actions in the order in which they execute.
pub type Script = Seq<ActionModel>;

/// Every index of the plan names an action of the library.
pub open spec fn in_library(lib: Library, plan: Seq<usize>) -> bool {
    forall|k: int| 0 <= k < plan.len() ==> (#[trigger] plan[k] as int) < lib.len()
}

/// A library whose fact sets are finite, whose costs fit in 32 bits, and
/// whose length fits in a machine word.
pub open spec fn library_ok(lib: Library) -> bool {
    &&& lib.len() <= usize::MAX
    &&& forall|a: int|
        0 <= a < lib.len() ==> (#[trigger] lib[a]).pre.finite() && lib[a].eff.finite()
            && lib[a].cost <= u32::MAX
}

/// The actions that a plan names, in the plan's order.
pub open spec fn script_of(lib: Library, plan: Seq<usize>) -> Script {
    plan.map_values(|a: usize| lib[a as int])
}

/// The state after the actions of `script` have run in order from `state`:
/// each adds its effects, and nothing is ever taken away.
pub open spec fn result_state(state: Set<u64>, script: Script) -> Set<u64>
    decreases script.len(),
{
    if script.len() == 0 {
        state
    } else {
        result_state(state.union(script[0].eff), script.drop_first())
    }
}

/// Whether each action of `script` finds its preconditions met when its
/// turn comes, starting from `state`.
pub open spec fn executable(state: Set<u64>, script: Script) -> bool
    decreases script.len(),
{
    script.len() == 0 || (script[0].pre.subset_of(state) && executable(
        state.union(script[0].eff),
        script.drop_first(),
    ))
}

/// Whether running `script` from `state` ends in a state that holds every
/// fact of `goal`.
pub open spec fn achieves(state: Set<u64>, script: Script, goal: Set<u64>) -> bool {
    goal.subset_of(result_state(state, script))
}

/// A sound script: it can be carried out from `state` step by step, and
/// doing so reaches the goal.
pub open spec fn sound(state: Set<u64>, script: Script, goal: Set<u64>) -> bool {
    executable(state, script) && achieves(state, script, goal)
}

/// One step of regression: the facts still missing before `action` runs,
/// when `remaining` are missing after it. What the action supplies is
/// dropped, what it needs is added, and what the world already holds is
/// dropped again.
pub open spec fn regress(remaining: Set<u64>, action: ActionModel, world: Set<u64>) -> Set<u64> {
    remaining.difference(action.eff).union(action.pre).difference(world)
}

/// The facts that are still missing in `world` for `script` to run and
/// reach `goal`: the goal regressed through the script, last action first.
pub open spec fn outstanding(world: Set<u64>, goal: Set<u64>, script: Script) -> Set<u64>
    decreases script.len(),
{
    if script.len() == 0 {
        goal.difference(world)
    } else {
        regress(outstanding(world, goal, script.drop_first()), script[0], world)
    }
}

/// The sum of the costs of the script's actions.
pub open spec fn script_cost(script: Script) -> nat
    decreases script.len(),
{
    if script.len() == 0 {
        0
    } else {
        script[0].cost + script_cost(script.drop_first())
    }
}

/// Whether the action brings about at least one of the facts in `remaining`.
pub open spec fn supplies(action: ActionModel, remaining: Set<u64>) -> bool {
    exists|f: u64| action.eff.contains(f) && remaining.contains(f)
}

/// Whether `a` brings about the negation of a fact that `b` brings about.
pub open spec fn contradicts(a: ActionModel, b: ActionModel) -> bool {
    exists|f: u64| a.eff.contains(f) && b.eff.contains(negation(f))
}

/// Whether action `a` may be put in front of `plan`: it is not in the plan
/// yet (an action is one object, and a plan can own it only once), it
/// supplies a fact that is still missing, and it undoes nothing that the
/// plan's actions bring about.
pub open spec fn applicable(
    lib: Library,
    world: Set<u64>,
    goal: Set<u64>,
    plan: Seq<usize>,
    a: usize,
) -> bool {
    &&& (a as int) < lib.len()
    &&& !plan.contains(a)
    &&& supplies(lib[a as int], outstanding(world, goal, script_of(lib, plan)))
    &&& forall|k: int|
        0 <= k < plan.len() ==> !contradicts(lib[a as int], lib[(#[trigger] plan[k]) as int])
}

/// A plan every action of which was applicable when it was put in front of
/// the actions after it.
pub open spec fn well_chosen(
    lib: Library,
    world: Set<u64>,
    goal: Set<u64>,
    plan: Seq<usize>,
) -> bool
    decreases plan.len(),
{
    plan.len() == 0 || (well_chosen(lib, world, goal, plan.drop_first()) && applicable(
        lib,
        world,
        goal,
        plan.drop_first(),
        plan[0],
    ))
}

/// A script whose fact sets are finite and whose costs fit in 32 bits.
pub open spec fn script_ok(script: Script) -> bool {
    forall|a: int|
        0 <= a < script.len() ==> (#[trigger] script[a]).pre.finite() && script[a].eff.finite()
            && script[a].cost <= u32::MAX
}

/// Putting an action in front of a plan puts it in front of the script.
pub proof fn lemma_script_of_front(lib: Library, plan: Seq<usize>, a: usize)
    ensures
        script_of(lib, seq![a] + plan) == seq![lib[a as int]] + script_of(lib, plan),
        script_of(lib, seq![a] + plan).drop_first() == script_of(lib, plan),
        script_of(lib, seq![a] + plan)[0] == lib[a as int],
        plan.len() > 0 ==> script_of(lib, plan).drop_first() == script_of(lib, plan.drop_first()),
{
    assert(script_of(lib, seq![a] + plan) =~= seq![lib[a as int]] + script_of(lib, plan));
    assert(script_of(lib, seq![a] + plan).drop_first() =~= script_of(lib, plan));
    if plan.len() > 0 {
        assert(script_of(lib, plan).drop_first() =~= script_of(lib, plan.drop_first()));
    }
}

/// What is outstanding is never in the world, and is finite when the goal
/// and the script's fact sets are.
pub proof fn lemma_outstanding_basics(world: Set<u64>, goal: Set<u64>, script: Script)
    ensures
        outstanding(world, goal, script).disjoint(world),
        script_ok(script) && goal.finite() ==> outstanding(world, goal, script).finite(),
    decreases script.len(),
{
    if script.len() > 0 {
        let rest = script.drop_first();
        if script_ok(script) {
            assert(script[0].pre.finite());
            assert forall|a: int| 0 <= a < rest.len() implies (#[trigger] rest[a]).pre.finite()
                && rest[a].eff.finite() && rest[a].cost <= u32::MAX by {
                assert(rest[a] == script[a + 1]);
            }
        }
        lemma_outstanding_basics(world, goal, rest);
    }
}

/// The cost of a fit script is at most 32 bits' worth for each action.
pub proof fn lemma_script_cost_bound(script: Script)
    requires
        script_ok(script),
    ensures
        script_cost(script) <= script.len() * u32::MAX,
    decreases script.len(),
{
    if script.len() > 0 {
        let rest = script.drop_first();
        assert(script[0].cost <= u32::MAX);
        assert forall|a: int| 0 <= a < rest.len() implies (#[trigger] rest[a]).pre.finite()
            && rest[a].eff.finite() && rest[a].cost <= u32::MAX by {
            assert(rest[a] == script[a + 1]);
        }
        lemma_script_cost_bound(rest);
        assert(script.len() * u32::MAX == rest.len() * u32::MAX + u32::MAX) by (nonlinear_arith)
            requires
                script.len() == rest.len() + 1,
        ;
    }
}

/// Whatever is still outstanding holds in the starting state of every
/// script that is carried out and reaches the goal.
pub proof fn lemma_sound_needs_outstanding(
    world: Set<u64>,
    goal: Set<u64>,
    state: Set<u64>,
    script: Script,
)
    requires
        sound(state, script, goal),
    ensures
        outstanding(world, goal, script).subset_of(state),
    decreases script.len(),
{
    if script.len() > 0 {
        lemma_sound_needs_outstanding(
            world,
            goal,
            state.union(script[0].eff),
            script.drop_first(),
        );
    }
}

/// A script can be carried out and reaches the goal from every state that
/// holds the world's facts and what is outstanding.
pub proof fn lemma_outstanding_suffices(
    world: Set<u64>,
    goal: Set<u64>,
    state: Set<u64>,
    script: Script,
)
    requires
        world.subset_of(state),
        outstanding(world, goal, script).subset_of(state),
    ensures
        sound(state, script, goal),
    decreases script.len(),
{
    if script.len() > 0 {
        let action = script[0];
        let rest = script.drop_first();
        let next = state.union(action.eff);
        assert forall|f: u64| outstanding(world, goal, rest).contains(f) implies next.contains(
            f,
        ) by {
            if !action.eff.contains(f) && !world.contains(f) {
                assert(outstanding(world, goal, script).contains(f));
            }
        }
        assert forall|f: u64| action.pre.contains(f) implies state.contains(f) by {
            if !world.contains(f) {
                assert(outstanding(world, goal, script).contains(f));
            }
        }
        lemma_outstanding_suffices(world, goal, next, rest);
    } else {
        assert forall|f: u64| goal.contains(f) implies state.contains(f) by {
            if !world.contains(f) {
                assert(outstanding(world, goal, script).contains(f));
            }
        }
    }
}

/// A script is sound from the world exactly when nothing is outstanding.
pub proof fn lemma_sound_iff_nothing_outstanding(world: Set<u64>, goal: Set<u64>, script: Script)
    ensures
        sound(world, script, goal) <==> outstanding(world, goal, script) == Set::<u64>::empty(),
{
    lemma_outstanding_basics(world, goal, script);
    let missing = outstanding(world, goal, script);
    if sound(world, script, goal) {
        lemma_sound_needs_outstanding(world, goal, world, script);
        assert(missing =~= Set::<u64>::empty());
    }
    if missing == Set::<u64>::empty() {
        lemma_outstanding_suffices(world, goal, world, script);
    }
}

} // verus!
