use goap_rs::executor::{advance, status_of};
use goap_rs::fact::encode;
use goap_rs::factset::FactSet;
use goap_rs::prelude::{
    Action, ActionStatus, ActionTrait, Cursor, Executor, Goal, Plan, PlanStatus, Planner,
    PropertyId, State,
};
use goap_rs::ConditionId;
use std::cell::Cell;
use std::collections::HashSet;
use std::rc::Rc;

#[derive(Default, Debug)]
pub struct EatAction {
    pub debug_counter: usize,
}

impl ActionTrait for EatAction {
    fn start(&mut self) {}

    fn update(&mut self) -> ActionStatus {
        self.debug_counter += 1;
        if self.debug_counter < 10 {
            ActionStatus::NotReady
        } else {
            ActionStatus::Done
        }
    }
}

/// Reports what its script says, one entry per poll, and counts the calls
/// it gets where the test can see them.
struct Scripted {
    script: Vec<ActionStatus>,
    next: usize,
    starts: Rc<Cell<usize>>,
    updates: Rc<Cell<usize>>,
}

impl Scripted {
    fn boxed(
        script: Vec<ActionStatus>,
        starts: &Rc<Cell<usize>>,
        updates: &Rc<Cell<usize>>,
    ) -> Box<dyn ActionTrait> {
        Box::new(Scripted { script, next: 0, starts: starts.clone(), updates: updates.clone() })
    }
}

impl ActionTrait for Scripted {
    fn start(&mut self) {
        self.starts.set(self.starts.get() + 1);
    }

    fn update(&mut self) -> ActionStatus {
        self.updates.set(self.updates.get() + 1);
        let status = self.script[self.next];
        self.next += 1;
        status
    }
}

fn eat_action() -> Action {
    Action::new(
        State::new().push("has_food", true),
        State::new().push("hungry", false),
        32,
        Box::new(EatAction::default()),
    )
    .with_debug_name("EAT")
}

fn idle(pre: State, effects: State, cost: u32, name: &str) -> Action {
    Action::new(pre, effects, cost, Box::new(EatAction { debug_counter: 9 })).with_debug_name(name)
}

fn names(plan: &Plan) -> Vec<String> {
    plan.actions.iter().map(|action| action.debug_name().to_string()).collect()
}

#[test]
pub fn test_id() {
    let id = PropertyId::new("hello");
    assert_eq!(id.inner(), 0x248BFA47)
}

#[test]
pub fn test_eat() {
    let mut planner = Planner::new(vec![]);

    {
        let eat_pre_conditions = State::new().push("has_food", true);
        let eat_effects = State::new().push("hungry", false);
        let eat_action =
            Action::new(eat_pre_conditions, eat_effects, 32, Box::new(EatAction::default()))
                .with_debug_name("EAT");

        planner.push(eat_action);
    }

    {
        let keep_health_up_state = State::new().push("max_health", true);
        let healthy_goal = Goal::new(keep_health_up_state, 1).with_debug_string("healthy goal");

        let world_state = State::new().push("max_health", false);

        // Nothing in the library brings about max_health=true.
        assert!(planner.find_plan(&world_state, &healthy_goal).is_none());
    }
}

#[test]
pub fn eating_runs_to_completion_in_ten_updates() {
    let mut planner = Planner::new(vec![]);
    planner.push(eat_action());
    let goal = Goal::new(State::new().push("hungry", false), 1);
    let world = State::new().push("has_food", true);

    let mut actions = planner.find_plan(&world, &goal).unwrap();
    assert_eq!(actions.actions.len(), 1);
    let mut updates = 0;
    for action in actions.actions.iter_mut() {
        action.start();
        updates += 1;
        while action.update() == ActionStatus::NotReady {
            updates += 1;
        }
    }
    assert_eq!(updates, 10);
}

#[test]
pub fn missing_food_means_no_plan() {
    let planner = Planner::new(vec![eat_action()]);
    let goal = Goal::new(State::new().push("hungry", false), 1);
    let world = State::new().push("has_food", false);
    assert!(planner.find_plan(&world, &goal).is_none());
}

#[test]
pub fn food_at_hand_means_eat() {
    let planner = Planner::new(vec![eat_action()]);
    let goal = Goal::new(State::new().push("hungry", false), 1);
    let world = State::new().push("has_food", true);
    let plan = planner.find_plan(&world, &goal).unwrap();
    assert_eq!(names(&plan), vec!["EAT"]);
    assert_eq!(plan.actions[0].cost(), 32);
}

#[test]
pub fn goal_already_met_gives_the_empty_plan() {
    let planner = Planner::new(vec![eat_action()]);
    let goal = Goal::new(State::new().push("hungry", false), 1);
    let world = State::new().push("hungry", false).push("has_food", false);
    let plan = planner.find_plan(&world, &goal).unwrap();
    assert!(plan.is_empty());
}

#[test]
pub fn pushing_a_fact_twice_keeps_one() {
    let state = State::new().push("p", true).push("p", true);
    assert_eq!(state.len(), 1);
    assert!(state.contains("p", true));
    assert!(!state.contains("p", false));
    assert_eq!(state.condition(0).debug_str(), "p=true");
}

#[test]
pub fn opposite_facts_are_two_facts() {
    let state = State::new().push("p", true).push("p", false);
    assert_eq!(state.len(), 2);
    assert_eq!(state.condition(0).id() ^ 1, state.condition(1).id());
    assert_eq!(state.condition(0).negated_id(), state.condition(1).id());
}

#[test]
pub fn empty_state() {
    let state = State::new();
    assert!(state.is_empty());
    assert_eq!(state.len(), 0);
    assert!(state.is_satisfied_by(&State::new()));
    assert!(!State::new().push("a", true).is_empty());
}

#[test]
pub fn satisfaction_is_the_subset_test() {
    let need = State::new().push("a", true).push("b", false);
    let have = State::new().push("b", false).push("c", true).push("a", true);
    assert!(need.is_satisfied_by(&have));
    assert!(!have.is_satisfied_by(&need));
    assert!(!need.is_satisfied_by(&State::new().push("a", true).push("b", true)));
    let first = have.condition(0).id();
    assert!(have.contains_id(first));
    assert!(!need.contains_id(have.condition(1).id()));
}

#[test]
pub fn actions_run_in_dependency_order() {
    // COOK needs the stove lit, LIGHT lights it; the goal only names food.
    let cook = idle(
        State::new().push("stove_lit", true),
        State::new().push("has_food", true),
        2,
        "COOK",
    );
    let light = idle(State::new(), State::new().push("stove_lit", true), 1, "LIGHT");
    let planner = Planner::new(vec![cook, eat_action(), light]);
    let goal = Goal::new(State::new().push("hungry", false), 3);
    let world = State::new().push("hungry", true);
    let indices = planner.find_plan_indices(&world, &goal).unwrap();
    assert_eq!(indices, vec![2, 0, 1]);
    let plan = planner.find_plan(&world, &goal).unwrap();
    assert_eq!(names(&plan), vec!["LIGHT", "COOK", "EAT"]);
    let total: u32 = plan.actions.iter().map(|a| a.cost()).sum();
    assert_eq!(total, 35);
}

#[test]
pub fn plans_are_sound_for_the_goal() {
    let cook = idle(
        State::new().push("stove_lit", true),
        State::new().push("has_food", true),
        2,
        "COOK",
    );
    let light = idle(State::new(), State::new().push("stove_lit", true), 1, "LIGHT");
    let planner = Planner::new(vec![cook, eat_action(), light]);
    let goal_facts = State::new().push("hungry", false).push("stove_lit", true);
    let world = State::new().push("hungry", true);
    let goal = Goal::new(State::new().push("hungry", false).push("stove_lit", true), 3);
    let plan = planner.find_plan(&world, &goal).unwrap();
    // Apply the effects in order, checking each precondition on the way.
    let mut facts: Vec<u64> = (0..world.len()).map(|i| world.condition(i).id()).collect();
    for action in plan.actions.iter() {
        let pre = action.pre_conditions();
        for i in 0..pre.len() {
            assert!(facts.contains(&pre.condition(i).id()));
        }
        let effects = action.effects();
        for i in 0..effects.len() {
            facts.push(effects.condition(i).id());
        }
    }
    for i in 0..goal_facts.len() {
        assert!(facts.contains(&goal_facts.condition(i).id()));
    }
}

#[test]
pub fn same_input_same_plan() {
    let build = || {
        let a = idle(State::new(), State::new().push("x", true), 1, "A");
        let b = idle(State::new(), State::new().push("x", true), 1, "B");
        let c = idle(State::new().push("x", true), State::new().push("y", true), 1, "C");
        Planner::new(vec![a, b, c])
    };
    let goal = Goal::new(State::new().push("y", true), 1);
    let world = State::new();
    let first = build().find_plan(&world, &goal).unwrap();
    let second = build().find_plan(&world, &goal).unwrap();
    assert_eq!(names(&first), names(&second));
    // Of two equal suppliers the one registered first is taken.
    assert_eq!(names(&first), vec!["A", "C"]);
}

#[test]
pub fn cheaper_supplier_wins() {
    let dear = idle(State::new(), State::new().push("x", true), 9, "DEAR");
    let cheap = idle(State::new(), State::new().push("x", true), 2, "CHEAP");
    let planner = Planner::new(vec![dear, cheap]);
    let goal = Goal::new(State::new().push("x", true), 1);
    let plan = planner.find_plan(&State::new(), &goal).unwrap();
    assert_eq!(names(&plan), vec!["CHEAP"]);
}

#[test]
pub fn no_action_of_a_plan_is_idle() {
    // BOTH supplies the two goal facts at once; ONE supplies one of them.
    let one = idle(State::new(), State::new().push("x", true), 1, "ONE");
    let both = idle(State::new(), State::new().push("x", true).push("y", true), 1, "BOTH");
    let planner = Planner::new(vec![one, both]);
    let goal = Goal::new(State::new().push("x", true).push("y", true), 1);
    let plan = planner.find_plan(&State::new(), &goal).unwrap();
    assert_eq!(names(&plan), vec!["BOTH"]);
}

#[test]
pub fn unsupplied_precondition_is_out_of_reach() {
    let cook = idle(
        State::new().push("stove_lit", true),
        State::new().push("has_food", true),
        2,
        "COOK",
    );
    let planner = Planner::new(vec![cook, eat_action()]);
    let goal = Goal::new(State::new().push("hungry", false), 3);
    assert!(planner.find_plan_indices(&State::new(), &goal).is_none());
    assert!(planner.find_plan(&State::new(), &goal).is_none());
}

#[test]
pub fn empty_library_reaches_only_what_already_holds() {
    let goal = Goal::new(State::new().push("x", true), 1);
    assert!(Planner::new(vec![]).find_plan(&State::new(), &goal).is_none());
    let plan = Planner::new(vec![]).find_plan(&State::new().push("x", true), &goal).unwrap();
    assert_eq!(plan.len(), 0);
}

#[test]
pub fn an_action_that_undoes_a_chosen_effect_is_passed_over() {
    // OPEN supplies the door but also turns the light off, which LAMP turns
    // on; FORCE supplies the door at a higher cost without that.
    let lamp = idle(State::new().push("door_open", true), State::new().push("light", true), 1, "LAMP");
    let open = idle(
        State::new(),
        State::new().push("door_open", true).push("light", false),
        1,
        "OPEN",
    );
    let force = idle(State::new(), State::new().push("door_open", true), 5, "FORCE");
    let planner = Planner::new(vec![lamp, open, force]);
    let goal = Goal::new(State::new().push("light", true), 1);
    let plan = planner.find_plan(&State::new(), &goal).unwrap();
    assert_eq!(names(&plan), vec!["FORCE", "LAMP"]);
}

#[test]
pub fn an_action_is_used_at_most_once() {
    // The only way round would use A twice.
    let a = idle(State::new().push("q", true), State::new().push("p", true), 1, "A");
    let b = idle(State::new().push("p", true), State::new().push("q", true), 1, "B");
    let planner = Planner::new(vec![a, b]);
    let goal = Goal::new(State::new().push("p", true), 1);
    assert!(planner.find_plan(&State::new(), &goal).is_none());
}

#[test]
pub fn condition_identifiers_follow_the_hash() {
    assert_eq!(ConditionId::new("hello", true).id(), 0x4917F48F);
    assert_eq!(ConditionId::new("hello", false).id(), 0x4917F48E);
    // The top bit of the hash is kept: the identifier needs 33 bits.
    assert_eq!(PropertyId::new("!C").inner(), 0xA0F7B07A);
    assert_eq!(ConditionId::new("!C", false).id(), 0x141EF60F4);
    assert_eq!(ConditionId::new("!C", true).id(), 0x141EF60F5);
    assert_eq!(PropertyId::new("").inner(), 0);
    assert_eq!(PropertyId::new("!").inner(), 0x72661CF4);
    assert_eq!(ConditionId::new("!", true).id(), 0xE4CC39E9);
}

#[test]
pub fn conditions_compare_by_identifier() {
    let a = ConditionId::new("has_food", true);
    let b = ConditionId::new("has_food", true);
    let c = ConditionId::new("has_food", false);
    assert!(a == b);
    assert!(a != c);
    assert!(a.clone() == a);
    assert_eq!(a.debug_str(), "has_food=true");
    assert_eq!(c.debug_str(), "has_food=false");
    assert_eq!(a.negated_id(), c.id());
}

#[test]
pub fn goals_and_actions_keep_what_they_were_given() {
    let goal = Goal::new(State::new().push("a", true), 7).with_debug_string("the goal");
    assert_eq!(goal.priority(), 7);
    assert_eq!(goal.debug_name(), "the goal");
    assert!(goal.requirements().contains("a", true));
    assert_eq!(Goal::new(State::new(), 0).debug_name(), "");
    let action = eat_action();
    assert_eq!(action.cost(), 32);
    assert_eq!(action.debug_name(), "EAT");
    assert!(action.pre_conditions().contains("has_food", true));
    assert!(action.effects().contains("hungry", false));
    assert_eq!(action.effects().len(), 1);
}

#[test]
pub fn plans_and_planners_grow_by_push() {
    let mut plan = Plan::new(vec![]);
    plan.push(eat_action()).push(eat_action().with_debug_name("AGAIN"));
    assert_eq!(names(&plan), vec!["EAT", "AGAIN"]);
    let mut planner = Planner::new(vec![eat_action()]);
    planner.push(eat_action()).push(eat_action());
    assert_eq!(planner.len(), 3);
}

#[test]
pub fn executor_polls_until_done_and_then_stops() {
    let starts = Rc::new(Cell::new(0));
    let updates = Rc::new(Cell::new(0));
    let mut script = vec![ActionStatus::NotReady; 9];
    script.push(ActionStatus::Done);
    let action = Action::new(State::new(), State::new(), 1, Scripted::boxed(script, &starts, &updates));
    let mut executor = Executor::new(Plan::new(vec![action]));
    assert_eq!(executor.current_status(), PlanStatus::Running);
    let mut ticks = 0;
    while let Some(status) = executor.tick() {
        ticks += 1;
        assert_eq!(status == ActionStatus::Done, ticks == 10);
    }
    assert_eq!(ticks, 10);
    assert_eq!(updates.get(), 10);
    assert_eq!(starts.get(), 1);
    assert_eq!(executor.current_status(), PlanStatus::Complete);
    // A finished plan is left alone.
    assert_eq!(executor.tick(), None);
    assert_eq!(executor.run(100), PlanStatus::Complete);
    assert_eq!(updates.get(), 10);
    assert_eq!(executor.position().index, 1);
}

#[test]
pub fn executor_stops_at_the_action_that_cancels() {
    let starts = Rc::new(Cell::new(0));
    let updates = Rc::new(Cell::new(0));
    let first = Action::new(
        State::new(),
        State::new(),
        1,
        Scripted::boxed(vec![ActionStatus::NotReady, ActionStatus::Done], &starts, &updates),
    );
    let second = Action::new(
        State::new(),
        State::new(),
        1,
        Scripted::boxed(vec![ActionStatus::Cancelled], &starts, &updates),
    );
    let third = Action::new(
        State::new(),
        State::new(),
        1,
        Scripted::boxed(vec![ActionStatus::Done], &starts, &updates),
    );
    let mut executor = Executor::new(Plan::new(vec![first, second, third]));
    assert_eq!(executor.len(), 3);
    assert_eq!(executor.run(1), PlanStatus::Running);
    assert_eq!(updates.get(), 1);
    assert_eq!(executor.run(0), PlanStatus::Running);
    assert_eq!(updates.get(), 1);
    assert_eq!(executor.run(50), PlanStatus::Cancelled(1));
    assert_eq!(updates.get(), 3);
    assert_eq!(starts.get(), 2);
    assert_eq!(executor.tick(), None);
    assert_eq!(executor.current_status(), PlanStatus::Cancelled(1));
    assert_eq!(executor.into_plan().len(), 3);
}

#[test]
pub fn executor_decisions() {
    let start = Cursor { index: 0, started: false, cancelled: false };
    assert_eq!(status_of(start, 0), PlanStatus::Complete);
    assert_eq!(status_of(start, 2), PlanStatus::Running);
    let waiting = advance(start, 2, ActionStatus::NotReady);
    assert_eq!(waiting, Cursor { index: 0, started: true, cancelled: false });
    let next = advance(waiting, 2, ActionStatus::Done);
    assert_eq!(next, Cursor { index: 1, started: false, cancelled: false });
    let stopped = advance(next, 2, ActionStatus::Cancelled);
    assert_eq!(stopped, Cursor { index: 1, started: true, cancelled: true });
    assert_eq!(status_of(stopped, 2), PlanStatus::Cancelled(1));
    assert_eq!(status_of(advance(next, 2, ActionStatus::Done), 2), PlanStatus::Complete);
}

#[test]
pub fn fact_sets_are_kept_in_order() {
    let mut set = FactSet::new();
    assert_eq!(set.len(), 0);
    set.insert(7);
    set.insert(3);
    set.insert(7);
    set.insert(5);
    assert_eq!(set.len(), 3);
    assert!(set.contains(3) && set.contains(5) && set.contains(7));
    assert!(!set.contains(4));
    let mut other = FactSet::new();
    other.insert(5);
    other.insert(7);
    assert!(!set.same_as(&other));
    other.insert(3);
    assert!(set.same_as(&other));
    assert!(set.duplicate().same_as(&set));
    let required = State::new().push("a", true).push("b", true);
    let world = State::new().push("b", true);
    let missing = FactSet::missing_from(&required, &world);
    assert_eq!(missing.len(), 1);
    assert!(missing.contains(required.condition(0).id()));
    let maker = idle(State::new().push("c", true), State::new().push("a", true), 1, "MAKE");
    assert!(missing.supplied_by(&maker));
    let before = missing.regress(&maker, &world);
    assert_eq!(before.len(), 1);
    assert!(before.contains(maker.pre_conditions().condition(0).id()));
    assert!(!before.supplied_by(&maker));
}

#[test]
pub fn conditions_hash_by_identifier() {
    let mut set: HashSet<ConditionId> = HashSet::new();
    assert!(set.insert(ConditionId::new("p", true)));
    assert!(!set.insert(ConditionId::new("p", true)));
    assert!(set.insert(ConditionId::new("p", false)));
    assert_eq!(set.len(), 2);
    assert!(set.contains(&ConditionId::new("p", false)));
}

#[test]
pub fn free_actions_are_taken_as_they_come() {
    // With nothing to pay, the search takes the first action that supplies
    // something and never looks back: PAIR ends up in the plan although
    // LEFT and RIGHT, which it needed anyway, bring all that PAIR brings.
    let pair = idle(State::new(), State::new().push("a", true).push("b", true), 0, "PAIR");
    let left = idle(State::new(), State::new().push("a", true).push("c", true), 0, "LEFT");
    let right = idle(State::new(), State::new().push("b", true).push("d", true), 0, "RIGHT");
    let planner = Planner::new(vec![pair, left, right]);
    let wanted = State::new().push("a", true).push("b", true).push("c", true).push("d", true);
    let plan = planner.find_plan(&State::new(), &Goal::new(wanted, 1)).unwrap();
    assert_eq!(names(&plan), vec!["RIGHT", "LEFT", "PAIR"]);
}

#[test]
pub fn paid_actions_are_not_wasted() {
    let pair = idle(State::new(), State::new().push("a", true).push("b", true), 1, "PAIR");
    let left = idle(State::new(), State::new().push("a", true).push("c", true), 1, "LEFT");
    let right = idle(State::new(), State::new().push("b", true).push("d", true), 1, "RIGHT");
    let planner = Planner::new(vec![pair, left, right]);
    let wanted = State::new().push("a", true).push("b", true).push("c", true).push("d", true);
    let plan = planner.find_plan(&State::new(), &Goal::new(wanted, 1)).unwrap();
    assert_eq!(names(&plan), vec!["RIGHT", "LEFT"]);
}

#[test]
pub fn default_state_is_empty() {
    let state = State::default();
    assert!(state.is_empty());
    assert_eq!(format!("{:?}", ActionStatus::NotReady), "NotReady");
}

#[test]
pub fn facts_are_encoded_from_the_hash() {
    assert_eq!(encode(0x248BFA47, true), 0x4917F48F);
    assert_eq!(encode(0x248BFA47, false), 0x4917F48E);
    assert_eq!(encode(0, false), 0);
    assert_eq!(encode(0, true), 1);
    // The top bit of the hash is kept.
    assert_eq!(encode(0x8000_0000, true), 0x1_0000_0001);
    assert_eq!(encode(0xFFFF_FFFF, false), 0x1_FFFF_FFFE);
    assert_eq!(encode(0xFFFF_FFFF, true), 0x1_FFFF_FFFF);
    // Hashes that differ in their top bit alone give different facts.
    assert_ne!(encode(0x20F7B07A, true), encode(0xA0F7B07A, true));
    assert_eq!(encode(0xA0F7B07A, true) >> 1, 0xA0F7B07A);
}

#[test]
pub fn an_empty_goal_needs_no_action() {
    let planner = Planner::new(vec![eat_action()]);
    let plan = planner.find_plan(&State::new(), &Goal::new(State::new(), 0)).unwrap();
    assert!(plan.is_empty());
    let mut executor = Executor::new(plan);
    assert_eq!(executor.current_status(), PlanStatus::Complete);
    assert_eq!(executor.tick(), None);
}

#[test]
pub fn a_found_plan_runs_to_its_end() {
    let cook = idle(
        State::new().push("stove_lit", true),
        State::new().push("has_food", true),
        2,
        "COOK",
    );
    let light = idle(State::new(), State::new().push("stove_lit", true), 1, "LIGHT");
    let planner = Planner::new(vec![cook, eat_action(), light]);
    let goal = Goal::new(State::new().push("hungry", false), 3);
    let plan = planner.find_plan(&State::new(), &goal).unwrap();
    let mut executor = Executor::new(plan);
    // LIGHT and COOK are done at their first poll, EAT at its tenth.
    assert_eq!(executor.run(11), PlanStatus::Running);
    assert_eq!(executor.position(), Cursor { index: 2, started: true, cancelled: false });
    assert_eq!(executor.run(5), PlanStatus::Complete);
    assert_eq!(executor.position().index, 3);
}

#[test]
pub fn advance_leaves_a_stopped_plan_alone() {
    let done = Cursor { index: 2, started: false, cancelled: false };
    assert_eq!(advance(done, 2, ActionStatus::Done), done);
    let cancelled = Cursor { index: 0, started: true, cancelled: true };
    assert_eq!(advance(cancelled, 2, ActionStatus::NotReady), cancelled);
}

#[test]
pub fn regression_drops_what_the_world_holds() {
    let mut set = FactSet::new();
    let required = State::new().push("a", true).push("b", true);
    set.add_missing(&required, &State::new());
    assert_eq!(set.len(), 2);
    let maker = idle(State::new().push("c", true).push("d", true), State::new().push("a", true), 1, "MAKE");
    let world = State::new().push("b", true).push("c", true);
    let before = set.regress(&maker, &world);
    assert_eq!(before.len(), 1);
    assert!(before.contains(maker.pre_conditions().condition(1).id()));
}
