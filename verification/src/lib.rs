//! A planner for a capacitated pickup-and-delivery problem: trains with a
//! limited capacity carry weighted orders between the stations of a weighted,
//! undirected network, and the planner looks for a schedule that lets the
//! last train come to rest as early as possible.

pub mod input;
pub mod model;
pub mod network;
pub mod output;
pub mod planner;
pub mod solver;

pub use input::Input;
pub use network::{Network, NetworkError};
pub use output::{Move, Output};
pub use planner::{solve, PlanError};
pub use solver::{Solver, SolverResult};
