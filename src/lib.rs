//! An interactive command interpreter's core: a lexer and parser for
//! command lines with pipes, redirections and background markers, `$NAME`
//! expansion, the variable store, the job registry, and the wiring of
//! pipeline stages to streams.

use vstd::prelude::*;

pub mod builtins;
pub mod command;
pub mod env_vars;
pub mod executor;
pub mod expander;
pub mod job_control;
pub mod lexer;
pub mod parser;

verus! {

} // verus!
