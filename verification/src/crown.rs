//! The optional rewriting with crown.
use vstd::prelude::*;
use crate::utils::{command_line, CommandLine};

verus! {

/// What to run for crown, given whether it is installed: its driver script
/// where it is, nothing otherwise.
pub fn run(crown_installed: bool) -> (c: Option<CommandLine>)
    ensures
        crown_installed ==> (c matches Some(c) && c.program_text() == "bash"@ && c.args_text()
            == seq!["/home/c00834010/dev/crown/run.sh"@]),
        !crown_installed ==> c is None,
{
    if crown_installed {
        let args: &[&str] = &["/home/c00834010/dev/crown/run.sh"];
        Some(command_line("bash", args))
    } else {
        None
    }
}

} // verus!
