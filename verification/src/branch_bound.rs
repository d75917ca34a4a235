pub mod parallel;
pub mod problem_pool;
pub mod serial;
pub mod solving_status;
pub mod traits;
