//! The regression search, as mathematics: which plan the planner returns
//! for a library, a world and a goal.
//!
//! The search keeps a frontier of partial plans. Each is a suffix of a
//! plan in execution order: the search walks back from the goal, so a new
//! action goes in front. The plan with the lowest priority is taken out
//! first, the oldest among equals.

use crate::model::{
    applicable, in_library, outstanding, script_cost, script_of, well_chosen, Library,
};
use vstd::prelude::*;

verus! {

/// The order in which the frontier is served: cost so far plus the number
/// of facts still missing.
pub open spec fn priority(lib: Library, world: Set<u64>, goal: Set<u64>, plan: Seq<usize>) -> nat {
    script_cost(script_of(lib, plan)) + outstanding(world, goal, script_of(lib, plan)).len()
}

/// The priorities of the plans of a frontier, in order.
pub open spec fn priorities(
    lib: Library,
    world: Set<u64>,
    goal: Set<u64>,
    frontier: Seq<Seq<usize>>,
) -> Seq<nat> {
    frontier.map_values(|plan: Seq<usize>| priority(lib, world, goal, plan))
}

/// The position of the least key; of several least keys, the first.
pub open spec fn first_min(keys: Seq<nat>) -> int
    decreases keys.len(),
{
    if keys.len() <= 1 {
        0
    } else {
        let best = first_min(keys.drop_last());
        if keys.last() < keys[best] {
            keys.len() - 1
        } else {
            best
        }
    }
}

/// `first_min` names a least key, and no key before it is as small.
pub proof fn lemma_first_min(keys: Seq<nat>)
    requires
        keys.len() > 0,
    ensures
        0 <= first_min(keys) < keys.len(),
        forall|j: int| 0 <= j < keys.len() ==> keys[first_min(keys)] <= #[trigger] keys[j],
        forall|j: int| 0 <= j < first_min(keys) ==> keys[first_min(keys)] < #[trigger] keys[j],
    decreases keys.len(),
{
    if keys.len() > 1 {
        let front = keys.drop_last();
        lemma_first_min(front);
        assert forall|j: int| 0 <= j < front.len() implies front[j] == keys[j] by {}
    }
}

/// The plans that come of `plan` by putting one more action in front, for
/// the actions below `k`, in registration order.
pub open spec fn successors_upto(
    lib: Library,
    world: Set<u64>,
    goal: Set<u64>,
    plan: Seq<usize>,
    k: usize,
) -> Seq<Seq<usize>>
    decreases k,
{
    if k == 0 {
        Seq::empty()
    } else {
        let a = (k - 1) as usize;
        let before = successors_upto(lib, world, goal, plan, a);
        if applicable(lib, world, goal, plan, a) {
            before.push(seq![a] + plan)
        } else {
            before
        }
    }
}

/// All the plans that come of `plan` by putting one applicable action in
/// front.
pub open spec fn successors(
    lib: Library,
    world: Set<u64>,
    goal: Set<u64>,
    plan: Seq<usize>,
) -> Seq<Seq<usize>> {
    successors_upto(lib, world, goal, plan, lib.len() as usize)
}

/// Whether a set of missing facts was already expanded at no greater cost.
pub open spec fn dominated(visited: Map<Set<u64>, nat>, remaining: Set<u64>, cost: nat) -> bool {
    visited.contains_key(remaining) && visited[remaining] <= cost
}

/// A frontier the search can work on: every plan in it is well chosen.
pub open spec fn frontier_ok(
    lib: Library,
    world: Set<u64>,
    goal: Set<u64>,
    frontier: Seq<Seq<usize>>,
) -> bool {
    &&& lib.len() <= usize::MAX
    &&& forall|i: int| 0 <= i < frontier.len() ==> well_chosen(lib, world, goal, #[trigger] frontier[i])
}

/// The number of plans that can still come of a plan with `depth` more
/// actions to choose, itself included, when each choice is among `n`.
pub open spec fn subtree_size(n: nat, depth: nat) -> nat
    decreases depth,
{
    if depth == 0 {
        1
    } else {
        1 + n * subtree_size(n, (depth - 1) as nat)
    }
}

/// What a plan on the frontier weighs in the search's measure of the work
/// that is left.
pub open spec fn plan_weight(n: nat, plan: Seq<usize>) -> nat {
    if plan.len() <= n {
        subtree_size(n, (n - plan.len()) as nat)
    } else {
        0
    }
}

/// The search's measure of the work that is left: it falls with every step.
pub open spec fn frontier_weight(n: nat, frontier: Seq<Seq<usize>>) -> nat
    decreases frontier.len(),
{
    if frontier.len() == 0 {
        0
    } else {
        frontier_weight(n, frontier.drop_last()) + plan_weight(n, frontier.last())
    }
}

/// The plan the search returns from a given frontier and record of visited
/// sets, if any.
///
/// The plan of lowest priority leaves the frontier, the first among equals.
/// If nothing is outstanding for it, it is the answer. If its outstanding
/// set was expanded before at no greater cost, it is dropped. Otherwise the
/// set is recorded with the plan's cost and the plan's successors join the
/// frontier at its end. An empty frontier means there is no plan.
pub open spec fn search(
    lib: Library,
    world: Set<u64>,
    goal: Set<u64>,
    frontier: Seq<Seq<usize>>,
    visited: Map<Set<u64>, nat>,
) -> Option<Seq<usize>>
    decreases frontier_weight(lib.len(), frontier),
    when frontier_ok(lib, world, goal, frontier)
    via search_decreases
{
    if frontier.len() == 0 {
        None
    } else {
        let i = first_min(priorities(lib, world, goal, frontier));
        let plan = frontier[i];
        let rest = frontier.remove(i);
        let remaining = outstanding(world, goal, script_of(lib, plan));
        if remaining == Set::<u64>::empty() {
            Some(plan)
        } else if dominated(visited, remaining, script_cost(script_of(lib, plan))) {
            search(lib, world, goal, rest, visited)
        } else {
            search(
                lib,
                world,
                goal,
                rest + successors(lib, world, goal, plan),
                visited.insert(remaining, script_cost(script_of(lib, plan))),
            )
        }
    }
}

/// The plan the planner returns: the search from the empty plan, with
/// nothing visited.
pub open spec fn plan_search(lib: Library, world: Set<u64>, goal: Set<u64>) -> Option<Seq<usize>> {
    search(lib, world, goal, seq![Seq::<usize>::empty()], Map::<Set<u64>, nat>::empty())
}

/// Why the search ends: each step lowers the weight of the frontier.
#[via_fn]
proof fn search_decreases(
    lib: Library,
    world: Set<u64>,
    goal: Set<u64>,
    frontier: Seq<Seq<usize>>,
    visited: Map<Set<u64>, nat>,
) {
    if frontier.len() > 0 {
        lemma_search_step(lib, world, goal, frontier);
    }
}

/// Distinct numbers below `n` are at most `n` many.
pub proof fn lemma_distinct_bounded(s: Seq<usize>, n: nat)
    requires
        s.no_duplicates(),
        forall|k: int| 0 <= k < s.len() ==> (#[trigger] s[k] as nat) < n,
    ensures
        s.len() <= n,
    decreases n,
{
    if s.len() == 0 {
    } else if n == 0 {
        assert((s[0] as nat) < n);
    } else {
        let top = (n - 1) as nat;
        if exists|i: int| 0 <= i < s.len() && s[i] as nat == top {
            let i = choose|i: int| 0 <= i < s.len() && s[i] as nat == top;
            let rest = s.remove(i);
            assert forall|k: int| 0 <= k < rest.len() implies (#[trigger] rest[k] as nat) < top by {
                if k < i {
                    assert(rest[k] == s[k]);
                } else {
                    assert(rest[k] == s[k + 1]);
                }
            }
            assert(rest.no_duplicates()) by {
                assert forall|a: int, b: int|
                    0 <= a < rest.len() && 0 <= b < rest.len() && a != b implies rest[a]
                    != rest[b] by {
                    let a2 = if a < i { a } else { a + 1 };
                    let b2 = if b < i { b } else { b + 1 };
                    assert(rest[a] == s[a2] && rest[b] == s[b2]);
                }
            }
            lemma_distinct_bounded(rest, top);
        } else {
            assert forall|k: int| 0 <= k < s.len() implies (#[trigger] s[k] as nat) < top by {}
            lemma_distinct_bounded(s, top);
        }
    }
}

/// A well-chosen plan names actions of the library, each at most once.
pub proof fn lemma_well_chosen_basics(
    lib: Library,
    world: Set<u64>,
    goal: Set<u64>,
    plan: Seq<usize>,
)
    requires
        well_chosen(lib, world, goal, plan),
    ensures
        in_library(lib, plan),
        plan.no_duplicates(),
        plan.len() <= lib.len(),
    decreases plan.len(),
{
    if plan.len() > 0 {
        let rest = plan.drop_first();
        lemma_well_chosen_basics(lib, world, goal, rest);
        assert forall|k: int| 0 <= k < plan.len() implies (#[trigger] plan[k] as int)
            < lib.len() by {
            if k > 0 {
                assert(plan[k] == rest[k - 1]);
            }
        }
        assert forall|a: int, b: int|
            0 <= a < plan.len() && 0 <= b < plan.len() && a != b implies plan[a] != plan[b] by {
            if a > 0 && b > 0 {
                assert(plan[a] == rest[a - 1] && plan[b] == rest[b - 1]);
            } else if a == 0 {
                assert(plan[b] == rest[b - 1]);
            } else {
                assert(plan[a] == rest[a - 1]);
            }
        }
    }
    lemma_distinct_bounded(plan, lib.len());
}

/// The weight of a frontier is the sum of the weights of its parts.
pub proof fn lemma_weight_concat(n: nat, front: Seq<Seq<usize>>, back: Seq<Seq<usize>>)
    ensures
        frontier_weight(n, front + back) == frontier_weight(n, front) + frontier_weight(n, back),
    decreases back.len(),
{
    if back.len() == 0 {
        assert(front + back =~= front);
    } else {
        lemma_weight_concat(n, front, back.drop_last());
        assert((front + back).drop_last() =~= front + back.drop_last());
        assert((front + back).last() == back.last());
    }
}

/// Taking a plan out of a frontier takes its weight off.
pub proof fn lemma_weight_remove(n: nat, frontier: Seq<Seq<usize>>, i: int)
    requires
        0 <= i < frontier.len(),
    ensures
        frontier_weight(n, frontier.remove(i)) + plan_weight(n, frontier[i]) == frontier_weight(
            n,
            frontier,
        ),
{
    let front = frontier.take(i);
    let back = frontier.skip(i + 1);
    let single = seq![frontier[i]];
    assert(frontier =~= front + single + back);
    assert(frontier.remove(i) =~= front + back);
    lemma_weight_concat(n, front, back);
    lemma_weight_concat(n, front + single, back);
    lemma_weight_concat(n, front, single);
    assert(single.drop_last() =~= Seq::<Seq<usize>>::empty());
    assert(frontier_weight(n, single.drop_last()) == 0);
    assert(single.last() == frontier[i]);
    assert(frontier_weight(n, single) == plan_weight(n, frontier[i]));
}

/// The successors of a well-chosen plan are well chosen, one action
/// longer, and weigh less together than the plan.
pub proof fn lemma_successors(
    lib: Library,
    world: Set<u64>,
    goal: Set<u64>,
    plan: Seq<usize>,
    k: usize,
)
    requires
        well_chosen(lib, world, goal, plan),
        k <= lib.len(),
    ensures
        successors_upto(lib, world, goal, plan, k).len() <= k,
        forall|j: int|
            0 <= j < successors_upto(lib, world, goal, plan, k).len() ==> ({
                let child = #[trigger] successors_upto(lib, world, goal, plan, k)[j];
                &&& well_chosen(lib, world, goal, child)
                &&& child.len() == plan.len() + 1
                &&& child.drop_first() == plan
            }),
        plan.len() < lib.len() ==> frontier_weight(
            lib.len(),
            successors_upto(lib, world, goal, plan, k),
        ) <= k * subtree_size(lib.len(), (lib.len() - plan.len() - 1) as nat),
        plan.len() >= lib.len() ==> successors_upto(lib, world, goal, plan, k).len() == 0,
    decreases k,
{
    if k > 0 {
        let a = (k - 1) as usize;
        let before = successors_upto(lib, world, goal, plan, a);
        let all = successors_upto(lib, world, goal, plan, k);
        lemma_successors(lib, world, goal, plan, a);
        lemma_well_chosen_basics(lib, world, goal, plan);
        if applicable(lib, world, goal, plan, a) {
            let child = seq![a] + plan;
            assert(child.drop_first() =~= plan);
            assert(child[0] == a);
            assert(well_chosen(lib, world, goal, child));
            lemma_well_chosen_basics(lib, world, goal, child);
            assert(all == before.push(child));
            assert(all.drop_last() =~= before);
            let unit = subtree_size(lib.len(), (lib.len() - plan.len() - 1) as nat);
            assert(plan_weight(lib.len(), child) == unit);
            assert(k * unit == a * unit + unit) by (nonlinear_arith)
                requires
                    k == a + 1,
            ;
        } else {
            if plan.len() < lib.len() {
                let unit = subtree_size(lib.len(), (lib.len() - plan.len() - 1) as nat);
                assert(a * unit <= k * unit) by (nonlinear_arith)
                    requires
                        a <= k,
                        unit >= 0,
                ;
            }
        }
    }
}

/// One step of the search keeps the frontier well chosen and lowers its
/// weight, whichever way it goes on.
pub proof fn lemma_search_step(
    lib: Library,
    world: Set<u64>,
    goal: Set<u64>,
    frontier: Seq<Seq<usize>>,
)
    requires
        frontier_ok(lib, world, goal, frontier),
        frontier.len() > 0,
    ensures
        ({
            let i = first_min(priorities(lib, world, goal, frontier));
            let rest = frontier.remove(i);
            let grown = rest + successors(lib, world, goal, frontier[i]);
            &&& 0 <= i < frontier.len()
            &&& well_chosen(lib, world, goal, frontier[i])
            &&& frontier_ok(lib, world, goal, rest)
            &&& frontier_ok(lib, world, goal, grown)
            &&& frontier_weight(lib.len(), rest) < frontier_weight(lib.len(), frontier)
            &&& frontier_weight(lib.len(), grown) < frontier_weight(lib.len(), frontier)
        }),
{
    let n = lib.len();
    let keys = priorities(lib, world, goal, frontier);
    lemma_first_min(keys);
    let i = first_min(keys);
    let plan = frontier[i];
    let rest = frontier.remove(i);
    let children = successors(lib, world, goal, plan);
    let grown = rest + children;
    lemma_weight_remove(n, frontier, i);
    lemma_well_chosen_basics(lib, world, goal, plan);
    lemma_successors(lib, world, goal, plan, n as usize);
    lemma_weight_concat(n, rest, children);
    assert forall|j: int| 0 <= j < rest.len() implies well_chosen(
        lib,
        world,
        goal,
        #[trigger] rest[j],
    ) by {
        if j < i {
            assert(rest[j] == frontier[j]);
        } else {
            assert(rest[j] == frontier[j + 1]);
        }
    }
    assert forall|j: int| 0 <= j < grown.len() implies well_chosen(
        lib,
        world,
        goal,
        #[trigger] grown[j],
    ) by {
        if j < rest.len() {
            assert(grown[j] == rest[j]);
        } else {
            assert(grown[j] == children[j - rest.len()]);
        }
    }
    if plan.len() < n {
        let depth = (n - plan.len()) as nat;
        let unit = subtree_size(n, (depth - 1) as nat);
        assert(plan_weight(n, plan) == 1 + n * unit);
    } else {
        assert(children.len() == 0);
        assert(frontier_weight(n, children) == 0);
        assert(plan_weight(n, plan) == 1);
    }
}

} // verus!
