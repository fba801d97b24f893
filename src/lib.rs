//! Helpers for flag-algebra arguments on graphs of bounded maximum degree:
//! a degree notion on flags, reachability over it, vertex-orbit
//! representatives and the plan of the regularity inequalities.

pub mod degree;
pub mod graph;
pub mod orbits;
pub mod regularity;

pub use degree::Degree;
pub use graph::SimpleGraph;
