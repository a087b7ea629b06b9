//! The words of the forge commands that produce test traces.
use vstd::prelude::*;

use crate::forge::{debug_args, test_args, CommandArgs};

verus! {

/// Builders of forge command lines.
pub struct Forge {}

impl Forge {
    /// The words of a command that runs the tests named `function_name` in the
    /// files at `test_path`.
    pub fn test(function_name: &str, test_path: &str) -> (r: CommandArgs)
        ensures
            r@ == test_args(function_name@, test_path@),
    {
        let mut cmd = CommandArgs::new();
        cmd.arg("test").arg("--match-test").arg(function_name).arg("--match-path").arg(test_path);
        assert(cmd@ =~= test_args(function_name@, test_path@));
        cmd
    }

    /// The words of a command that runs one test under the debugger and dumps
    /// its trace at `output_path`.
    pub fn debug(function_name: &str, test_path: &str, output_path: &str) -> (r: CommandArgs)
        ensures
            r@ == debug_args(function_name@, test_path@, output_path@),
    {
        let mut cmd = CommandArgs::new();
        cmd.arg("test").arg("--debug").arg("--match-test").arg(function_name).arg(
            "--match-path",
        ).arg(test_path).arg("--dump").arg(output_path).arg("--ast").arg("--optimizer-runs").arg(
            "0",
        ).arg("--optimize").arg("false").arg("-vvvvv");
        assert(cmd@ =~= debug_args(function_name@, test_path@, output_path@));
        cmd
    }
}

} // verus!
