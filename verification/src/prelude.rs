//! The names most callers need, in one import.

pub use crate::action::{Action, ActionStatus, ActionTrait, Goal};
pub use crate::executor::{Cursor, Executor, PlanStatus};
pub use crate::plan::Plan;
pub use crate::planner::Planner;
pub use crate::fact::PropertyId;
pub use crate::state::State;
