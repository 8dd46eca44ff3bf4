//! The version-control command the tool invokes. The library holds
//! which program to run; spawning it happens outside the library.

use vstd::prelude::*;

verus! {

/// The configured version-control program.
pub struct GitCmd {
    git_command: String,
}

impl GitCmd {
    /// The program's name.
    pub closed spec fn command_name(&self) -> Seq<char> {
        self.git_command@
    }

    /// A runner for the given program.
    pub fn new(git_command: String) -> (r: GitCmd)
        ensures
            r.command_name() == git_command@,
    {
        GitCmd { git_command }
    }

    /// The program to invoke.
    pub fn command(&self) -> (r: &String)
        ensures
            r@ == self.command_name(),
    {
        &self.git_command
    }
}

} // verus!
