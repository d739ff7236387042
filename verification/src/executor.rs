//! The arguments of the program to run under the resolved environment.
//! Spawning the process is outside work; the library only carries the
//! argument list.
use vstd::prelude::*;

verus! {

/// The command line to execute.
#[derive(Debug)]
pub struct Executor {
    pub args: Vec<String>,
}

impl Executor {
    /// Keep the argument list as given.
    pub fn new(args: Vec<String>) -> (r: Executor)
        ensures
            r.args@ == args@,
    {
        Executor { args }
    }
}

} // verus!
