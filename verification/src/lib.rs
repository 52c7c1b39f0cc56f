//! A workflow manager: a TOML dialect with conditional values, its
//! evaluator, the schemas that decode workflows and configuration from it,
//! and the rules that turn a workflow into shell invocations.
pub mod text;
pub mod ast;
pub mod error;
pub mod parser;
pub mod engine;
pub mod workflow;
pub mod schemas;
pub mod config;
pub mod logger;
pub mod cli;

pub use parser::document::parse;
