//! Actions and goals: what the planner chooses from, and what it plans for.

use crate::state::State;
use vstd::prelude::*;

verus! {

/// What an action reports each time it is polled.
#[derive(Clone, Copy, Debug, PartialEq, Eq, Structural)]
pub enum ActionStatus {
    /// The action has achieved its effects; it must not be polled again.
    Done,
    /// The action is still at work; it must be polled again.
    NotReady,
    /// The action gave up; the plan it belongs to must stop.
    Cancelled,
}

/// The behaviour behind an action. `start` is called once, before the first
/// `update`; `update` is then called until it reports something other than
/// `NotReady`. What the calls do is the implementor's own affair: the
/// planner and the executor rely on nothing but the status handed back.
pub trait ActionTrait {
    fn start(&mut self);

    fn update(&mut self) -> ActionStatus;
}

/// What the planner reads of an action: the facts it needs, the facts it
/// brings about, and what it costs.
pub struct ActionModel {
    pub pre: Set<u64>,
    pub eff: Set<u64>,
    pub cost: nat,
}

/// A required set of facts with a priority. The planner reads the facts
/// only; the priority serves whoever picks among several goals.
#[derive(Debug)]
pub struct Goal {
    requirements: State,
    priority: u32,
    debug_name: String,
}

impl Goal {
    /// The facts the goal asks for.
    pub closed spec fn required(&self) -> Set<u64> {
        self.requirements@
    }

    /// The urgency of the goal; higher is more urgent.
    pub closed spec fn urgency(&self) -> u32 {
        self.priority
    }

    /// The diagnostic name of the goal.
    pub closed spec fn name(&self) -> Seq<char> {
        self.debug_name@
    }

    /// A goal without a name.
    pub fn new(requirements: State, priority: u32) -> (goal: Self)
        ensures
            goal.required() == requirements@,
            goal.urgency() == priority,
            goal.name() == Seq::<char>::empty(),
    {
        Self { requirements, priority, debug_name: String::new() }
    }

    /// The same goal under the name `s`.
    pub fn with_debug_string(self, s: &str) -> (goal: Self)
        ensures
            goal.required() == self.required(),
            goal.urgency() == self.urgency(),
            goal.name() == s@,
    {
        Self {
            requirements: self.requirements,
            priority: self.priority,
            debug_name: String::from_str(s),
        }
    }

    /// The facts the goal asks for.
    pub fn requirements(&self) -> (state: &State)
        ensures
            state@ == self.required(),
    {
        &self.requirements
    }

    /// The urgency of the goal.
    pub fn priority(&self) -> (priority: u32)
        ensures
            priority == self.urgency(),
    {
        self.priority
    }

    /// The diagnostic name of the goal.
    pub fn debug_name(&self) -> (text: &str)
        ensures
            text@ == self.name(),
    {
        self.debug_name.as_str()
    }
}

/// A unit of work: the facts it needs before it can run, the facts it makes
/// true, a cost, and the behaviour that carries it out.
pub struct Action {
    pre_conditions: State,
    effects: State,
    cost: u32,
    debug_name: String,
    implementation: Box<dyn ActionTrait>,
}

impl View for Action {
    type V = ActionModel;

    closed spec fn view(&self) -> ActionModel {
        ActionModel { pre: self.pre_conditions@, eff: self.effects@, cost: self.cost as nat }
    }
}

impl Action {
    /// The diagnostic name of the action.
    pub closed spec fn name(&self) -> Seq<char> {
        self.debug_name@
    }

    /// Both fact sets of an action are finite, and its cost fits in 32 bits.
    pub proof fn lemma_view(&self)
        ensures
            self@.pre.finite(),
            self@.eff.finite(),
            self@.cost <= u32::MAX,
    {
        self.pre_conditions.lemma_view();
        self.effects.lemma_view();
    }

    /// An action without a name.
    pub fn new(
        pre_conditions: State,
        effects: State,
        cost: u32,
        implementation: Box<dyn ActionTrait>,
    ) -> (action: Self)
        ensures
            action@ == (ActionModel { pre: pre_conditions@, eff: effects@, cost: cost as nat }),
            action.name() == Seq::<char>::empty(),
    {
        Self { pre_conditions, effects, cost, debug_name: String::new(), implementation }
    }

    /// The same action under the name `name`.
    pub fn with_debug_name(self, name: &str) -> (action: Self)
        ensures
            action@ == self@,
            action.name() == name@,
    {
        Self {
            pre_conditions: self.pre_conditions,
            effects: self.effects,
            cost: self.cost,
            debug_name: String::from_str(name),
            implementation: self.implementation,
        }
    }

    /// The facts that must hold before the action runs.
    pub fn pre_conditions(&self) -> (state: &State)
        ensures
            state@ == self@.pre,
    {
        &self.pre_conditions
    }

    /// The facts that hold once the action is done.
    pub fn effects(&self) -> (state: &State)
        ensures
            state@ == self@.eff,
    {
        &self.effects
    }

    /// What it costs to use the action in a plan.
    pub fn cost(&self) -> (cost: u32)
        ensures
            cost == self@.cost,
    {
        self.cost
    }

    /// The diagnostic name of the action.
    pub fn debug_name(&self) -> (text: &str)
        ensures
            text@ == self.name(),
    {
        self.debug_name.as_str()
    }

    /// Hands `start` on to the behaviour. What the planner reads of the
    /// action stays as it was.
    pub fn start(&mut self)
        ensures
            final(self)@ == old(self)@,
            final(self).name() == old(self).name(),
    {
        self.implementation.start()
    }

    /// Polls the behaviour once and hands its status back. What the planner
    /// reads of the action stays as it was.
    pub fn update(&mut self) -> (status: ActionStatus)
        ensures
            final(self)@ == old(self)@,
            final(self).name() == old(self).name(),
    {
        self.implementation.update()
    }
}

} // verus!
