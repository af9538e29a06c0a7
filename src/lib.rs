//! A minimal task runner: a line-oriented definition file of named,
//! parameterised shell-command blocks, the rule that picks one of them for a
//! command-line invocation, and the plan for launching it.
pub mod error;
pub mod parser;
pub mod render;
pub mod runner;
pub mod task;
pub mod text;
