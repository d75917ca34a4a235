pub mod edge;
pub mod problem;
