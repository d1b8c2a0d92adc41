//! A blocks-world planning domain: a verified world state with its invariant,
//! the four primitive actions, goals with a distance measure, the task
//! decomposition a hierarchical planner expands, a plan validator, and the
//! loading of a parsed problem into a start state and a goal.
pub mod methods;
pub mod operators;
pub mod problem;
