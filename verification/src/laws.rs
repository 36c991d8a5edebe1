//! What holds of every plan the search returns.

use crate::fact::{lemma_negation_involutive, negation};
use crate::model::{
    applicable, contradicts, executable, in_library,
    lemma_outstanding_suffices, lemma_sound_iff_nothing_outstanding,
    lemma_sound_needs_outstanding, outstanding, result_state, script_cost, script_of, sound,
    supplies, well_chosen, Library, Script,
};
use crate::search::{
    dominated, first_min, frontier_ok, frontier_weight, lemma_search_step,
    lemma_well_chosen_basics, plan_search, priorities, search, successors,
};
use vstd::prelude::*;

verus! {

/// Whatever the search returns was on the frontier or grew out of it: it
/// is well chosen, and nothing is outstanding for it.
pub proof fn lemma_search_result(
    lib: Library,
    world: Set<u64>,
    goal: Set<u64>,
    frontier: Seq<Seq<usize>>,
    visited: Map<Set<u64>, nat>,
)
    requires
        frontier_ok(lib, world, goal, frontier),
    ensures
        search(lib, world, goal, frontier, visited) matches Some(plan) ==> well_chosen(
            lib,
            world,
            goal,
            plan,
        ) && outstanding(world, goal, script_of(lib, plan)) == Set::<u64>::empty(),
    decreases frontier_weight(lib.len(), frontier),
{
    if frontier.len() > 0 {
        lemma_search_step(lib, world, goal, frontier);
        let i = first_min(priorities(lib, world, goal, frontier));
        let plan = frontier[i];
        let rest = frontier.remove(i);
        let remaining = outstanding(world, goal, script_of(lib, plan));
        let cost = script_cost(script_of(lib, plan));
        if remaining == Set::<u64>::empty() {
        } else if dominated(visited, remaining, cost) {
            lemma_search_result(lib, world, goal, rest, visited);
        } else {
            lemma_search_result(
                lib,
                world,
                goal,
                rest + successors(lib, world, goal, plan),
                visited.insert(remaining, cost),
            );
        }
    }
}

/// A returned plan is well chosen and leaves nothing outstanding: it names
/// actions of the library, each at most once.
pub proof fn lemma_plan_is_well_chosen(
    lib: Library,
    world: Set<u64>,
    goal: Set<u64>,
    plan: Seq<usize>,
)
    requires
        lib.len() <= usize::MAX,
        plan_search(lib, world, goal) == Some(plan),
    ensures
        well_chosen(lib, world, goal, plan),
        outstanding(world, goal, script_of(lib, plan)) == Set::<u64>::empty(),
        in_library(lib, plan),
        plan.no_duplicates(),
        plan.len() <= lib.len(),
{
    let start = seq![Seq::<usize>::empty()];
    assert(frontier_ok(lib, world, goal, start));
    lemma_search_result(lib, world, goal, start, Map::<Set<u64>, nat>::empty());
    lemma_well_chosen_basics(lib, world, goal, plan);
}

/// Soundness. The actions of a returned plan can be carried out from the
/// world in order, each finding its preconditions met, and their effects,
/// added to the world one after the other, hold every fact of the goal.
pub proof fn lemma_plan_is_sound(lib: Library, world: Set<u64>, goal: Set<u64>, plan: Seq<usize>)
    requires
        lib.len() <= usize::MAX,
        plan_search(lib, world, goal) == Some(plan),
    ensures
        sound(world, script_of(lib, plan), goal),
        goal.subset_of(result_state(world, script_of(lib, plan))),
{
    lemma_plan_is_well_chosen(lib, world, goal, plan);
    lemma_sound_iff_nothing_outstanding(world, goal, script_of(lib, plan));
}

/// Unreachability. Where the goal asks for a fact that no chain of the
/// library's actions, carried out from the world, ever brings about, the
/// search returns no plan.
pub proof fn lemma_unreachable_fact_has_no_plan(
    lib: Library,
    world: Set<u64>,
    goal: Set<u64>,
    fact: u64,
)
    requires
        lib.len() <= usize::MAX,
        goal.contains(fact),
        forall|chain: Seq<usize>|
            in_library(lib, chain) && executable(world, #[trigger] script_of(lib, chain))
                ==> !result_state(world, script_of(lib, chain)).contains(fact),
    ensures
        plan_search(lib, world, goal) is None,
{
    if plan_search(lib, world, goal) is Some {
        let plan = plan_search(lib, world, goal).unwrap();
        lemma_plan_is_sound(lib, world, goal, plan);
        lemma_plan_is_well_chosen(lib, world, goal, plan);
    }
}

/// Whatever holds after a script held before it or is an effect of one of
/// its actions.
pub proof fn lemma_result_state_origin(state: Set<u64>, script: Script, f: u64)
    requires
        result_state(state, script).contains(f),
    ensures
        state.contains(f) || exists|k: int|
            0 <= k < script.len() && (#[trigger] script[k]).eff.contains(f),
    decreases script.len(),
{
    if script.len() > 0 {
        let rest = script.drop_first();
        lemma_result_state_origin(state.union(script[0].eff), rest, f);
        if !state.contains(f) && !script[0].eff.contains(f) {
            let k = choose|k: int| 0 <= k < rest.len() && (#[trigger] rest[k]).eff.contains(f);
            assert(script[k + 1] == rest[k]);
        }
    }
}

/// Unreachability, the plain case. Where the goal asks for a fact that the
/// world lacks and no action of the library brings about, the search
/// returns no plan.
pub proof fn lemma_unsupplied_fact_has_no_plan(
    lib: Library,
    world: Set<u64>,
    goal: Set<u64>,
    fact: u64,
)
    requires
        lib.len() <= usize::MAX,
        goal.contains(fact),
        !world.contains(fact),
        forall|a: int| 0 <= a < lib.len() ==> !(#[trigger] lib[a]).eff.contains(fact),
    ensures
        plan_search(lib, world, goal) is None,
{
    if plan_search(lib, world, goal) is Some {
        let plan = plan_search(lib, world, goal).unwrap();
        lemma_plan_is_sound(lib, world, goal, plan);
        lemma_plan_is_well_chosen(lib, world, goal, plan);
        let script = script_of(lib, plan);
        lemma_result_state_origin(world, script, fact);
        let k = choose|k: int| 0 <= k < script.len() && (#[trigger] script[k]).eff.contains(fact);
        assert(script[k] == lib[plan[k] as int]);
    }
}

/// Every tail of a well-chosen plan is well chosen, and each action was
/// applicable to the actions after it.
pub proof fn lemma_well_chosen_at(
    lib: Library,
    world: Set<u64>,
    goal: Set<u64>,
    plan: Seq<usize>,
    i: int,
)
    requires
        well_chosen(lib, world, goal, plan),
        0 <= i < plan.len(),
    ensures
        well_chosen(lib, world, goal, plan.skip(i + 1)),
        applicable(lib, world, goal, plan.skip(i + 1), plan[i]),
    decreases i,
{
    if i == 0 {
        assert(plan.skip(1) =~= plan.drop_first());
    } else {
        let rest = plan.drop_first();
        lemma_well_chosen_at(lib, world, goal, rest, i - 1);
        assert(rest.skip(i) =~= plan.skip(i + 1));
        assert(rest[i - 1] == plan[i]);
    }
}

/// Every action of a returned plan supplies a fact that is still missing
/// for the actions after it and the goal.
pub proof fn lemma_every_action_supplies(
    lib: Library,
    world: Set<u64>,
    goal: Set<u64>,
    plan: Seq<usize>,
    i: int,
)
    requires
        lib.len() <= usize::MAX,
        plan_search(lib, world, goal) == Some(plan),
        0 <= i < plan.len(),
    ensures
        supplies(
            script_of(lib, plan)[i],
            outstanding(world, goal, script_of(lib, plan).skip(i + 1)),
        ),
{
    lemma_plan_is_well_chosen(lib, world, goal, plan);
    lemma_well_chosen_at(lib, world, goal, plan, i);
    assert(script_of(lib, plan).skip(i + 1) =~= script_of(lib, plan.skip(i + 1)));
}

/// No action of a returned plan undoes what another brings about: no two
/// of them have effects that negate each other.
pub proof fn lemma_plan_is_consistent(
    lib: Library,
    world: Set<u64>,
    goal: Set<u64>,
    plan: Seq<usize>,
    i: int,
    j: int,
)
    requires
        lib.len() <= usize::MAX,
        plan_search(lib, world, goal) == Some(plan),
        0 <= i < j < plan.len(),
    ensures
        !contradicts(script_of(lib, plan)[i], script_of(lib, plan)[j]),
        !contradicts(script_of(lib, plan)[j], script_of(lib, plan)[i]),
{
    lemma_plan_is_well_chosen(lib, world, goal, plan);
    lemma_well_chosen_at(lib, world, goal, plan, i);
    let tail = plan.skip(i + 1);
    assert(tail[j - i - 1] == plan[j]);
    let a = lib[plan[i] as int];
    let b = lib[plan[j] as int];
    assert(!contradicts(a, b));
    if contradicts(b, a) {
        let f = choose|f: u64| b.eff.contains(f) && a.eff.contains(negation(f));
        lemma_negation_involutive(f);
        assert(a.eff.contains(negation(f)) && b.eff.contains(negation(negation(f))));
    }
}

/// Running a script in two parts is running it whole.
pub proof fn lemma_split(state: Set<u64>, front: Script, back: Script)
    ensures
        result_state(state, front + back) == result_state(result_state(state, front), back),
        executable(state, front + back) <==> executable(state, front) && executable(
            result_state(state, front),
            back,
        ),
        state.subset_of(result_state(state, front)),
    decreases front.len(),
{
    if front.len() == 0 {
        assert(front + back =~= back);
    } else {
        let next = state.union(front[0].eff);
        lemma_split(next, front.drop_first(), back);
        assert((front + back).drop_first() =~= front.drop_first() + back);
        assert((front + back)[0] == front[0]);
    }
}

/// Minimality, exactly. An action of a sound script can be left out, the
/// script staying sound, if and only if every fact that it supplies and
/// that is still missing for what follows already holds when its turn
/// comes.
pub proof fn lemma_removal_criterion(world: Set<u64>, goal: Set<u64>, script: Script, i: int)
    requires
        sound(world, script, goal),
        0 <= i < script.len(),
    ensures
        sound(world, script.remove(i), goal) <==> (forall|f: u64|
            script[i].eff.contains(f) && outstanding(world, goal, script.skip(i + 1)).contains(f)
                ==> result_state(world, script.take(i)).contains(f)),
{
    let front = script.take(i);
    let back = script.skip(i + 1);
    let action = script[i];
    let single = seq![action];
    let before = result_state(world, front);
    let missing = outstanding(world, goal, back);
    let shorter = script.remove(i);
    assert(script =~= front + (single + back));
    assert(shorter =~= front + back);
    assert((single + back).drop_first() =~= back);
    assert((single + back)[0] == action);
    lemma_split(world, front, single + back);
    lemma_split(world, front, back);
    // From the whole script: what follows the action runs from `before`
    // with the action's effects added.
    assert(sound(before.union(action.eff), back, goal));
    lemma_sound_needs_outstanding(world, goal, before.union(action.eff), back);
    let criterion = forall|f: u64|
        action.eff.contains(f) && missing.contains(f) ==> before.contains(f);
    if criterion {
        assert(missing.subset_of(before));
        lemma_outstanding_suffices(world, goal, before, back);
    }
    if sound(world, shorter, goal) {
        lemma_sound_needs_outstanding(world, goal, before, back);
    }
}

/// Minimality. Leaving out an action of a returned plan makes the plan
/// unsound, unless every still-missing fact that the action supplies
/// already holds when its turn comes.
pub proof fn lemma_no_redundant_action(
    lib: Library,
    world: Set<u64>,
    goal: Set<u64>,
    plan: Seq<usize>,
    i: int,
)
    requires
        lib.len() <= usize::MAX,
        plan_search(lib, world, goal) == Some(plan),
        0 <= i < plan.len(),
        exists|f: u64|
            script_of(lib, plan)[i].eff.contains(f) && outstanding(
                world,
                goal,
                script_of(lib, plan).skip(i + 1),
            ).contains(f) && !result_state(world, script_of(lib, plan).take(i)).contains(f),
    ensures
        !sound(world, script_of(lib, plan).remove(i), goal),
{
    lemma_plan_is_sound(lib, world, goal, plan);
    lemma_removal_criterion(world, goal, script_of(lib, plan), i);
}

/// Determinism. The plan depends on nothing but what the planner reads of
/// the actions, in registration order, and on the facts of the world and
/// the goal.
pub proof fn lemma_plan_is_determined(
    lib: Library,
    world: Set<u64>,
    goal: Set<u64>,
    other_lib: Library,
    other_world: Set<u64>,
    other_goal: Set<u64>,
)
    requires
        lib =~= other_lib,
        world =~= other_world,
        goal =~= other_goal,
    ensures
        plan_search(lib, world, goal) == plan_search(other_lib, other_world, other_goal),
{
}

} // verus!
