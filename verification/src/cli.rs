//! The command-line surface: which subcommand was chosen. Argument
//! parsing itself happens outside the library; these are the plain
//! values it hands over.
use vstd::prelude::*;

verus! {

/// The selected subcommand.
#[derive(Debug)]
pub enum Command {
    Install,
    Exec { args: Vec<String> },
    Lock,
}

/// The parsed invocation.
#[derive(Debug)]
pub struct Cli {
    pub command: Option<Command>,
}

impl Cli {
    /// The chosen subcommand, if any.
    pub fn command(&self) -> (r: Option<&Command>)
        ensures
            match r {
                Some(c) => self.command matches Some(cc) && c == &cc,
                None => self.command is None,
            },
    {
        self.command.as_ref()
    }
}

} // verus!
