//! A small interpreter for a tape language with eight one-character commands,
//! together with a translator of the same language to C.

pub mod command;
pub mod composition;
pub mod config;
pub mod executor;
pub mod parser;
pub mod transpiler;
