//! kontra: contracts as code. A small language for legal agreements, with a
//! scanner, a single-pass bytecode compiler, a VM that builds the contract
//! model, a runtime engine that evaluates obligations over time, and a
//! semantic diff between contract versions.

pub mod text;
pub mod error;
pub mod token;
pub mod scanner;
pub mod namemap;
pub mod types;
pub mod calendar;
pub mod dates;
pub mod chunk;
pub mod vm;
pub mod grammar;
pub mod compiler;
pub mod diff;
pub mod semantics;
pub mod engine;
pub mod cascade;
pub mod config;
pub mod cli;
