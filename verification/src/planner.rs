//! The planner: it owns the action library and runs the regression search.

use crate::action::{Action, Goal};
use crate::factset::FactSet;
use crate::laws::{lemma_plan_is_sound, lemma_plan_is_well_chosen};
use crate::model::{
    applicable, contradicts, in_library, lemma_outstanding_basics, lemma_script_cost_bound,
    lemma_script_of_front, library_ok, outstanding, script_cost, script_of, sound, well_chosen,
    Library,
};
use crate::plan::{models_of, Plan};
use crate::search::{
    dominated, first_min, frontier_ok, frontier_weight, lemma_search_step,
    lemma_well_chosen_basics, plan_search, priorities, search, successors,
    successors_upto,
};
use crate::state::State;
use vstd::prelude::*;

verus! {

/// The actions that a plan names, in the plan's order.
pub open spec fn chosen(actions: Seq<Action>, plan: Seq<usize>) -> Seq<Action> {
    plan.map_values(|a: usize| actions[a as int])
}

/// No plan costs more than this: a 32-bit cost for each of at most a
/// machine word's worth of actions.
pub const COST_LIMIT: u128 = 0x1_0000_0000_0000_0000_0000_0000;

/// A partial plan on the frontier, with what is outstanding for it and
/// what it costs.
struct SearchNode {
    path: Vec<usize>,
    remaining: FactSet,
    cost: u128,
}

/// A set of outstanding facts that was expanded, with the cost it was
/// reached at.
struct VisitedEntry {
    remaining: FactSet,
    cost: u128,
}

/// The node holds what the search's definition says of its path.
spec fn node_ok(lib: Library, world: Set<u64>, goal: Set<u64>, node: SearchNode) -> bool {
    &&& well_chosen(lib, world, goal, node.path@)
    &&& node.remaining@ == outstanding(world, goal, script_of(lib, node.path@))
    &&& node.cost == script_cost(script_of(lib, node.path@))
}

/// Every node holds what the search's definition says of its path.
spec fn nodes_ok(lib: Library, world: Set<u64>, goal: Set<u64>, nodes: Seq<SearchNode>) -> bool {
    forall|i: int| 0 <= i < nodes.len() ==> node_ok(lib, world, goal, #[trigger] nodes[i])
}

/// The paths of the nodes, in order.
spec fn paths_of(nodes: Seq<SearchNode>) -> Seq<Seq<usize>> {
    nodes.map_values(|node: SearchNode| node.path@)
}

/// The key by which the frontier is served.
spec fn node_key(node: SearchNode) -> nat {
    node.cost as nat + node.remaining@.len()
}

/// The record of visited sets that a list of entries stands for: a later
/// entry for a set replaces an earlier one.
spec fn record_of(entries: Seq<VisitedEntry>) -> Map<Set<u64>, nat>
    decreases entries.len(),
{
    if entries.len() == 0 {
        Map::empty()
    } else {
        record_of(entries.drop_last()).insert(entries.last().remaining@, entries.last().cost as nat)
    }
}

/// The library of actions a sequence of actions stands for is fit.
proof fn lemma_library_ok(actions: Seq<Action>)
    requires
        actions.len() <= usize::MAX,
    ensures
        library_ok(models_of(actions)),
{
    assert forall|a: int| 0 <= a < actions.len() implies (#[trigger] models_of(actions)[a]).pre.finite()
        && models_of(actions)[a].eff.finite() && models_of(actions)[a].cost <= u32::MAX by {
        actions[a].lemma_view();
    }
}

/// A node that is in order costs less than the limit and is well within
/// the library.
proof fn lemma_node_bounds(lib: Library, world: Set<u64>, goal: Set<u64>, node: SearchNode)
    requires
        library_ok(lib),
        node_ok(lib, world, goal, node),
    ensures
        node.cost < COST_LIMIT,
        in_library(lib, node.path@),
        node.path@.no_duplicates(),
        node.path@.len() <= lib.len(),
        node.remaining@.disjoint(world),
{
    lemma_well_chosen_basics(lib, world, goal, node.path@);
    let script = script_of(lib, node.path@);
    lemma_script_cost_bound(script);
    lemma_outstanding_basics(world, goal, script);
    assert(script.len() * u32::MAX <= usize::MAX * u32::MAX) by (nonlinear_arith)
        requires
            script.len() <= usize::MAX,
    ;
    assert(usize::MAX * u32::MAX < COST_LIMIT) by (nonlinear_arith)
        requires
            usize::MAX <= 0xffff_ffff_ffff_ffff,
            u32::MAX == 0xffff_ffff,
            COST_LIMIT == 0x1_0000_0000_0000_0000_0000_0000,
    ;
}

/// Whether `a` brings about the negation of a fact that `b` brings about.
fn actions_contradict(a: &Action, b: &Action) -> (found: bool)
    ensures
        found == contradicts(a@, b@),
{
    let effects = a.effects();
    let n = effects.len();
    let mut i: usize = 0;
    proof {
        effects.lemma_view();
    }
    while i < n
        invariant
            n == effects.facts().len(),
            i <= n,
            effects@ == a@.eff,
            effects@ == effects.facts().to_set(),
            forall|k: int|
                0 <= k < i ==> !b@.eff.contains(crate::fact::negation(#[trigger] effects.facts()[k])),
        decreases n - i,
    {
        let opposite = effects.condition(i).negated_id();
        if b.effects().contains_id(opposite) {
            return true;
        }
        i += 1;
    }
    assert(!contradicts(a@, b@)) by {
        if contradicts(a@, b@) {
            let f = choose|f: u64| a@.eff.contains(f) && b@.eff.contains(crate::fact::negation(f));
            let k = choose|k: int| 0 <= k < effects.facts().len() && effects.facts()[k] == f;
            assert(!b@.eff.contains(crate::fact::negation(effects.facts()[k])));
        }
    }
    false
}

/// Whether action `a` may be put in front of the node's path.
fn is_applicable(
    actions: &Vec<Action>,
    node: &SearchNode,
    a: usize,
    Ghost(world): Ghost<Set<u64>>,
    Ghost(goal): Ghost<Set<u64>>,
) -> (fits: bool)
    requires
        a < actions@.len(),
        library_ok(models_of(actions@)),
        node_ok(models_of(actions@), world, goal, *node),
    ensures
        fits == applicable(models_of(actions@), world, goal, node.path@, a),
{
    let ghost lib = models_of(actions@);
    proof {
        lemma_node_bounds(lib, world, goal, *node);
    }
    let n = node.path.len();
    let mut k: usize = 0;
    while k < n
        invariant
            n == node.path@.len(),
            k <= n,
            a < actions@.len(),
            lib == models_of(actions@),
            in_library(lib, node.path@),
            forall|j: int| 0 <= j < k ==> node.path@[j] != a,
            forall|j: int|
                0 <= j < k ==> !contradicts(lib[a as int], lib[(#[trigger] node.path@[j]) as int]),
        decreases n - k,
    {
        let other = node.path[k];
        if other == a {
            return false;
        }
        assert((node.path@[k as int] as int) < lib.len());
        if actions_contradict(&actions[a], &actions[other]) {
            return false;
        }
        k += 1;
    }
    node.remaining.supplied_by(&actions[a])
}

/// The node that comes of `node` by putting action `a` in front.
fn make_child(
    actions: &Vec<Action>,
    world: &State,
    node: &SearchNode,
    a: usize,
    Ghost(goal): Ghost<Set<u64>>,
) -> (child: SearchNode)
    requires
        library_ok(models_of(actions@)),
        node_ok(models_of(actions@), world@, goal, *node),
        applicable(models_of(actions@), world@, goal, node.path@, a),
    ensures
        child.path@ == seq![a] + node.path@,
        node_ok(models_of(actions@), world@, goal, child),
{
    let ghost lib = models_of(actions@);
    proof {
        lemma_node_bounds(lib, world@, goal, *node);
        lemma_script_of_front(lib, node.path@, a);
    }
    let mut path: Vec<usize> = Vec::new();
    path.push(a);
    let n = node.path.len();
    let mut k: usize = 0;
    while k < n
        invariant
            n == node.path@.len(),
            k <= n,
            path@ == seq![a] + node.path@.take(k as int),
        decreases n - k,
    {
        path.push(node.path[k]);
        assert(path@ =~= seq![a] + node.path@.take(k + 1));
        k += 1;
    }
    assert(node.path@.take(n as int) =~= node.path@);
    let remaining = node.remaining.regress(&actions[a], world);
    let cost = node.cost + actions[a].cost() as u128;
    let child = SearchNode { path, remaining, cost };
    proof {
        assert(child.path@.drop_first() =~= node.path@);
        assert(child.path@[0] == a);
    }
    child
}

/// Appends the successors of `node` to the frontier, in registration
/// order of the actions put in front.
fn expand(
    actions: &Vec<Action>,
    world: &State,
    node: &SearchNode,
    frontier: &mut Vec<SearchNode>,
    Ghost(goal): Ghost<Set<u64>>,
)
    requires
        library_ok(models_of(actions@)),
        node_ok(models_of(actions@), world@, goal, *node),
        nodes_ok(models_of(actions@), world@, goal, old(frontier)@),
    ensures
        nodes_ok(models_of(actions@), world@, goal, final(frontier)@),
        paths_of(final(frontier)@) == paths_of(old(frontier)@) + successors(
            models_of(actions@),
            world@,
            goal,
            node.path@,
        ),
{
    let ghost lib = models_of(actions@);
    let ghost start = paths_of(frontier@);
    let n = actions.len();
    let mut a: usize = 0;
    assert(paths_of(frontier@) =~= start + successors_upto(lib, world@, goal, node.path@, 0));
    while a < n
        invariant
            n == actions@.len(),
            a <= n,
            lib == models_of(actions@),
            library_ok(lib),
            node_ok(lib, world@, goal, *node),
            nodes_ok(lib, world@, goal, frontier@),
            paths_of(frontier@) == start + successors_upto(lib, world@, goal, node.path@, a),
        decreases n - a,
    {
        let ghost before = frontier@;
        if is_applicable(actions, node, a, Ghost(world@), Ghost(goal)) {
            let child = make_child(actions, world, node, a, Ghost(goal));
            frontier.push(child);
            proof {
                assert(paths_of(frontier@) =~= paths_of(before).push(child.path@));
                assert forall|i: int| 0 <= i < frontier@.len() implies node_ok(
                    lib,
                    world@,
                    goal,
                    #[trigger] frontier@[i],
                ) by {
                    if i < before.len() {
                        assert(frontier@[i] == before[i]);
                    }
                }
            }
        }
        assert(paths_of(frontier@) =~= start + successors_upto(
            lib,
            world@,
            goal,
            node.path@,
            (a + 1) as usize,
        ));
        a += 1;
    }
}

/// The position of the node to serve next: the least key, the first of
/// several.
fn best_index(frontier: &Vec<SearchNode>) -> (best: usize)
    requires
        frontier@.len() > 0,
        forall|i: int| 0 <= i < frontier@.len() ==> (#[trigger] frontier@[i]).cost < COST_LIMIT,
    ensures
        best == first_min(frontier@.map_values(|node: SearchNode| node_key(node))),
        best < frontier@.len(),
{
    let ghost keys = frontier@.map_values(|node: SearchNode| node_key(node));
    let n = frontier.len();
    let mut best: usize = 0;
    let mut best_key: u128 = frontier[0].cost + frontier[0].remaining.len() as u128;
    let mut k: usize = 1;
    assert(keys.take(1).len() == 1);
    while k < n
        invariant
            n == frontier@.len(),
            1 <= k <= n,
            best < k,
            keys == frontier@.map_values(|node: SearchNode| node_key(node)),
            forall|i: int| 0 <= i < frontier@.len() ==> (#[trigger] frontier@[i]).cost < COST_LIMIT,
            best == first_min(keys.take(k as int)),
            best_key == keys[best as int],
        decreases n - k,
    {
        let key: u128 = frontier[k].cost + frontier[k].remaining.len() as u128;
        proof {
            let longer = keys.take(k + 1);
            assert(longer.drop_last() =~= keys.take(k as int));
            assert(longer.last() == keys[k as int]);
            assert(longer[best as int] == keys[best as int]);
        }
        if key < best_key {
            best = k;
            best_key = key;
        }
        k += 1;
    }
    assert(keys.take(n as int) =~= keys);
    best
}

/// The record of a list of entries holds a set exactly when an entry is
/// for it, and then with the cost of the last such entry.
proof fn lemma_record_lookup(entries: Seq<VisitedEntry>, key: Set<u64>, from: int)
    requires
        0 <= from <= entries.len(),
        forall|k: int| from <= k < entries.len() ==> (#[trigger] entries[k]).remaining@ != key,
    ensures
        from == 0 ==> !record_of(entries).contains_key(key),
        from > 0 && entries[from - 1].remaining@ == key ==> record_of(entries).contains_key(key)
            && record_of(entries)[key] == entries[from - 1].cost,
    decreases entries.len(),
{
    if entries.len() == 0 {
    } else if from == entries.len() {
        if from > 0 && entries[from - 1].remaining@ == key {
        }
    } else {
        let front = entries.drop_last();
        assert forall|k: int| from <= k < front.len() implies (#[trigger] front[k]).remaining@
            != key by {
            assert(front[k] == entries[k]);
        }
        lemma_record_lookup(front, key, from);
        if from > 0 {
            assert(front[from - 1] == entries[from - 1]);
        }
    }
}

/// Whether the set was expanded before at no greater cost.
fn is_dominated(visited: &Vec<VisitedEntry>, remaining: &FactSet, cost: u128) -> (known: bool)
    ensures
        known == dominated(record_of(visited@), remaining@, cost as nat),
{
    let mut k: usize = visited.len();
    while k > 0
        invariant
            k <= visited@.len(),
            forall|j: int| k <= j < visited@.len() ==> (#[trigger] visited@[j]).remaining@ != remaining@,
        decreases k,
    {
        if visited[k - 1].remaining.same_as(remaining) {
            proof {
                lemma_record_lookup(visited@, remaining@, k as int);
            }
            return visited[k - 1].cost <= cost;
        }
        k -= 1;
    }
    proof {
        lemma_record_lookup(visited@, remaining@, 0);
    }
    false
}

/// Moves the actions that `plan` names out of `actions`, in the plan's
/// order.
fn take_chosen(actions: Vec<Action>, plan: &Vec<usize>) -> (taken: Vec<Action>)
    requires
        plan@.no_duplicates(),
        forall|k: int| 0 <= k < plan@.len() ==> (#[trigger] plan@[k] as int) < actions@.len(),
    ensures
        taken@ == chosen(actions@, plan@),
{
    let ghost all = actions@;
    let mut actions = actions;
    let mut slots: Vec<Option<Action>> = Vec::new();
    let total = actions.len();
    // The actions go into the slots last first.
    while actions.len() > 0
        invariant
            actions@.len() + slots@.len() == total,
            total == all.len(),
            actions@ == all.take(actions@.len() as int),
            forall|s: int|
                0 <= s < slots@.len() ==> #[trigger] slots@[s] == Some(all[total - 1 - s]),
        decreases actions@.len(),
    {
        let ghost before = actions@;
        let action = actions.pop().unwrap();
        slots.push(Some(action));
        assert(actions@ =~= all.take(actions@.len() as int));
    }
    let mut taken: Vec<Action> = Vec::new();
    let n = plan.len();
    let mut k: usize = 0;
    while k < n
        invariant
            n == plan@.len(),
            k <= n,
            total == all.len(),
            slots@.len() == total,
            plan@.no_duplicates(),
            forall|j: int| 0 <= j < plan@.len() ==> (#[trigger] plan@[j] as int) < total,
            forall|s: int|
                0 <= s < total ==> #[trigger] slots@[s] == (if plan@.take(k as int).contains(
                    (total - 1 - s) as usize,
                ) {
                    None
                } else {
                    Some(all[total - 1 - s])
                }),
            taken@ == chosen(all, plan@.take(k as int)),
        decreases n - k,
    {
        let a = plan[k];
        let slot = total - 1 - a;
        let ghost before = slots@;
        proof {
            assert(!plan@.take(k as int).contains(a)) by {
                if plan@.take(k as int).contains(a) {
                    let j = choose|j: int| 0 <= j < k && plan@.take(k as int)[j] == a;
                    assert(plan@[j] == plan@[k as int]);
                }
            }
            assert(before[slot as int] == Some(all[a as int]));
        }
        slots.push(None);
        let action = slots.swap_remove(slot).unwrap();
        taken.push(action);
        proof {
            let seen = plan@.take(k as int);
            let more = plan@.take(k + 1);
            assert(more =~= seen.push(a));
            assert(taken@ =~= chosen(all, more));
            assert forall|s: int| 0 <= s < total implies #[trigger] slots@[s] == (if more.contains(
                (total - 1 - s) as usize,
            ) {
                None
            } else {
                Some(all[total - 1 - s])
            }) by {
                let which = (total - 1 - s) as usize;
                if s == slot {
                    assert(more[k as int] == a);
                } else {
                    assert(slots@[s] == before[s]);
                    if seen.contains(which) {
                        let j = choose|j: int| 0 <= j < seen.len() && seen[j] == which;
                        assert(more[j] == which);
                    }
                    if more.contains(which) {
                        let j = choose|j: int| 0 <= j < more.len() && more[j] == which;
                        if j < k {
                            assert(seen[j] == which);
                        }
                    }
                }
            }
        }
        k += 1;
    }
    assert(plan@.take(n as int) =~= plan@);
    taken
}

/// Owns the action library and plans with it.
pub struct Planner {
    actions: Vec<Action>,
}

impl Planner {
    /// The registered actions, in registration order.
    pub closed spec fn registered(&self) -> Seq<Action> {
        self.actions@
    }

    /// What the search reads of the registered actions.
    pub open spec fn library(&self) -> Library {
        models_of(self.registered())
    }

    /// A planner over `actions`, registered in the given order.
    pub fn new(actions: Vec<Action>) -> (planner: Self)
        ensures
            planner.registered() == actions@,
    {
        Self { actions }
    }

    /// Registers one more action, after those already there, and hands
    /// the planner back so that calls can be chained.
    pub fn push(&mut self, action: Action) -> (planner: &mut Self)
        ensures
            planner.registered() == old(self).registered().push(action),
            *final(self) == *final(planner),
    {
        self.actions.push(action);
        self
    }

    /// The number of registered actions.
    pub fn len(&self) -> (n: usize)
        ensures
            n == self.registered().len(),
    {
        self.actions.len()
    }

    /// Searches for a plan and names its actions by their indices in the
    /// library, in execution order. `None` means that the search found the
    /// goal out of reach.
    pub fn find_plan_indices(&self, world_state: &State, goal: &Goal) -> (found: Option<Vec<usize>>)
        ensures
            found is Some <==> plan_search(self.library(), world_state@, goal.required()) is Some,
            found matches Some(plan) ==> plan_search(
                self.library(),
                world_state@,
                goal.required(),
            ) == Some(plan@),
    {
        let actions = &self.actions;
        let ghost lib = models_of(actions@);
        let ghost world = world_state@;
        let ghost wanted = goal.required();
        let mut frontier: Vec<SearchNode> = Vec::new();
        let mut visited: Vec<VisitedEntry> = Vec::new();
        let root = SearchNode {
            path: Vec::new(),
            remaining: FactSet::missing_from(goal.requirements(), world_state),
            cost: 0,
        };
        frontier.push(root);
        proof {
            assert(actions@.len() == actions.len());
            lemma_library_ok(actions@);
            assert(paths_of(frontier@) =~= seq![Seq::<usize>::empty()]);
            assert(script_of(lib, root.path@) =~= Seq::empty());
        }
        loop
            invariant
                lib == models_of(actions@),
                lib == self.library(),
                world == world_state@,
                wanted == goal.required(),
                library_ok(lib),
                nodes_ok(lib, world, wanted, frontier@),
                search(lib, world, wanted, paths_of(frontier@), record_of(visited@)) == plan_search(
                    lib,
                    world,
                    wanted,
                ),
            decreases frontier_weight(lib.len(), paths_of(frontier@)),
        {
            let ghost paths = paths_of(frontier@);
            let ghost record = record_of(visited@);
            proof {
                assert(frontier_ok(lib, world, wanted, paths));
            }
            if frontier.len() == 0 {
                return None;
            }
            proof {
                lemma_search_step(lib, world, wanted, paths);
                assert forall|i: int| 0 <= i < frontier@.len() implies (#[trigger] frontier@[i]).cost
                    < COST_LIMIT by {
                    lemma_node_bounds(lib, world, wanted, frontier@[i]);
                }
                let keys = frontier@.map_values(|node: SearchNode| node_key(node));
                assert(keys =~= priorities(lib, world, wanted, paths)) by {
                    assert forall|i: int| 0 <= i < keys.len() implies keys[i] == priorities(
                        lib,
                        world,
                        wanted,
                        paths,
                    )[i] by {
                        assert(node_ok(lib, world, wanted, frontier@[i]));
                    }
                }
            }
            let i = best_index(&frontier);
            let node = frontier.remove(i);
            proof {
                assert(node.path@ == paths[i as int]);
                assert(paths_of(frontier@) =~= paths.remove(i as int));
                assert(node_ok(lib, world, wanted, node));
            }
            if node.remaining.len() == 0 {
                return Some(node.path);
            }
            if !is_dominated(&visited, &node.remaining, node.cost) {
                let ghost entries = visited@;
                visited.push(VisitedEntry { remaining: node.remaining.duplicate(), cost: node.cost });
                proof {
                    assert(visited@.drop_last() =~= entries);
                }
                expand(actions, world_state, &node, &mut frontier, Ghost(wanted));
            }
        }
    }

    /// Searches for a plan that turns the world into one that meets the
    /// goal, and hands over the chosen actions in execution order. `None`
    /// means that the search found the goal out of reach; the library is
    /// given up either way.
    pub fn find_plan(self, world_state: &State, goal: &Goal) -> (found: Option<Plan>)
        ensures
            found is Some <==> plan_search(self.library(), world_state@, goal.required()) is Some,
            found matches Some(plan) ==> plan.actions@ == chosen(
                self.registered(),
                plan_search(self.library(), world_state@, goal.required()).unwrap(),
            ),
            found matches Some(plan) ==> sound(world_state@, plan.script(), goal.required()),
    {
        match self.find_plan_indices(world_state, goal) {
            Some(indices) => {
                proof {
                    assert(self.actions@.len() == self.actions.len());
                    lemma_plan_is_well_chosen(
                        self.library(),
                        world_state@,
                        goal.required(),
                        indices@,
                    );
                    lemma_plan_is_sound(self.library(), world_state@, goal.required(), indices@);
                    assert(models_of(chosen(self.registered(), indices@)) =~= script_of(
                        self.library(),
                        indices@,
                    ));
                }
                let taken = take_chosen(self.actions, &indices);
                Some(Plan::new(taken))
            },
            None => None,
        }
    }
}

} // verus!
