//! The command grammar and configuration session of an operator shell for a
//! network daemon: a command tree with abbreviation-aware matching, and a
//! session with operational and configuration modes, nested contexts, a
//! candidate and a running configuration, and all-or-nothing commits.
use vstd::prelude::*;

pub mod text;
pub mod token;
pub mod parser;
pub mod config;
pub mod session;
pub mod cli;
pub mod schema;

verus! {

} // verus!
