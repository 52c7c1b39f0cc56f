//! Running the workflow language: variables, evaluation, and the commands
//! that steps ask for.
pub mod context;
pub mod eval;
pub mod exec;
