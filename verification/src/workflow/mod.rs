//! Running workflows: arguments, shell command lines, and the variables
//! of a run.
pub mod args;
pub mod create;
pub mod runner;
