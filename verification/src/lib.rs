//! Goal-oriented action planning: facts, states, actions, a regression
//! search that orders actions into a plan, and a poll-driven executor.

pub mod action;
pub mod executor;
pub mod fact;
pub mod factset;
pub mod laws;
pub mod model;
pub mod plan;
pub mod planner;
pub mod prelude;
pub mod search;
pub mod state;

pub use crate::action::{Action, ActionStatus, ActionTrait, Goal};
pub use crate::executor::{Cursor, Executor, PlanStatus};
pub use crate::fact::{ConditionId, PropertyId};
pub use crate::plan::Plan;
pub use crate::planner::Planner;
pub use crate::state::State;
