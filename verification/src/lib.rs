//! The decisions and the text processing of crusts, a pipeline that turns a
//! C project into Rust with c2rust, rewrites the result with TXL rules, and
//! measures how much of it stays `unsafe`.
//!
//! The library says what to run and what to write; the program around it
//! runs the commands and touches the files.
use vstd::prelude::*;

pub mod text;
pub mod utils;
pub mod constants;
pub mod cli;
pub mod c2rust;
pub mod crusts;
pub mod crown;
pub mod metrics;
pub mod auto_curs;

verus! {

} // verus!
