//! The commands of the store. `Read` and `Rollback` exist only at the
//! adapter: the log never holds them.

use vstd::prelude::*;

verus! {

#[derive(Debug, Clone, PartialEq, Eq)]
pub enum Command {
    Read { key: String },
    Write { key: String, value: String },
    Commit,
    Rollback,
}

/// Only `Write` and `Commit` may be appended to the log.
pub open spec fn loggable(c: Command) -> bool {
    match c {
        Command::Write { .. } => true,
        Command::Commit => true,
        _ => false,
    }
}

} // verus!
