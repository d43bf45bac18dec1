//! The command line: a subcommand and the path of a pipeline.

use vstd::prelude::*;
use vstd::string::StringExecFns;

verus! {

/// The two arguments of the program.
#[derive(Debug, Clone)]
pub struct Opts {
    pub subcommand: String,
    pub path: String,
}

/// What the program is asked to do.
#[derive(Clone, Copy, Debug, PartialEq, Eq, Structural)]
pub enum Subcommand {
    Run,
    Validate,
    Unknown,
}

/// The options in `args`, whose first element is the name of the program:
/// the subcommand and the path that follow it, or `None` where one is missing.
pub fn parse_opts(args: &Vec<String>) -> (r: Option<Opts>)
    ensures
        r is Some <==> args.len() >= 3,
        r matches Some(o) ==> o.subcommand@ == args[1]@ && o.path@ == args[2]@,
{
    if args.len() < 3 {
        None
    } else {
        Some(Opts { subcommand: args[1].clone(), path: args[2].clone() })
    }
}

impl Opts {
    /// The subcommand that the first argument names.
    pub fn command(&self) -> (r: Subcommand)
        ensures
            r == if self.subcommand@ == "run"@ {
                Subcommand::Run
            } else if self.subcommand@ == "validate"@ {
                Subcommand::Validate
            } else {
                Subcommand::Unknown
            },
    {
        if self.subcommand == String::from_str("run") {
            Subcommand::Run
        } else if self.subcommand == String::from_str("validate") {
            Subcommand::Validate
        } else {
            Subcommand::Unknown
        }
    }
}

/// The line that says how the program is called.
pub fn usage() -> (r: String)
    ensures
        r@ == "Usage: rustypipe <run|validate> <pipeline.yaml>"@,
{
    String::from_str("Usage: rustypipe <run|validate> <pipeline.yaml>")
}

/// The line that refuses the subcommand `name`.
pub fn unknown_subcommand(name: &str) -> (r: String)
    ensures
        r@ == "Unknown subcommand: "@ + name@ + " (supported: run, validate)"@,
{
    let mut s = String::from_str("Unknown subcommand: ");
    s.append(name);
    s.append(" (supported: run, validate)");
    s
}

} // verus!
