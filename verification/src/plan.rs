//! Plans: the actions a search selected, in the order in which they run.

use crate::action::Action;
use crate::model::Script;
use vstd::prelude::*;

verus! {

/// What the planner reads of each action of a sequence, in order.
pub open spec fn models_of(actions: Seq<Action>) -> Script {
    actions.map_values(|action: Action| action@)
}

/// An ordered sequence of actions.
pub struct Plan {
    pub actions: Vec<Action>,
}

impl Plan {
    /// What the planner reads of the plan's actions, in execution order.
    pub open spec fn script(&self) -> Script {
        models_of(self.actions@)
    }

    /// The plan that runs `actions` in order.
    pub fn new(actions: Vec<Action>) -> (plan: Self)
        ensures
            plan.actions == actions,
    {
        Self { actions }
    }

    /// Appends an action, and hands the plan back so that calls can be
    /// chained.
    pub fn push(&mut self, action: Action) -> (plan: &mut Self)
        ensures
            plan.actions@ == old(self).actions@.push(action),
            *final(self) == *final(plan),
    {
        self.actions.push(action);
        self
    }

    /// The number of actions.
    pub fn len(&self) -> (n: usize)
        ensures
            n == self.actions@.len(),
    {
        self.actions.len()
    }

    /// Whether the plan has no action.
    pub fn is_empty(&self) -> (empty: bool)
        ensures
            empty == (self.actions@.len() == 0),
    {
        self.actions.len() == 0
    }
}

} // verus!
