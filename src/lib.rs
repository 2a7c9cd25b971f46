//! An interactive project scheduler: a task DAG, a pool of workers with
//! estimated skill vectors, a daily assignment optimizer and a skill
//! estimator, with the decisions verified.
pub mod anneal;
pub mod estimate;
pub mod graph;
pub mod optimizer;
pub mod priority;
pub mod protocol;
pub mod resource;
pub mod rng;
pub mod scheduler;
pub mod task;
