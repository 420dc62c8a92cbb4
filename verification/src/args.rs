//! Command-line argument handling, the checking half: exactly one argument,
//! the root directory, is accepted. Reading the process arguments and
//! exiting on a bad count is the caller's part.

use vstd::prelude::*;

verus! {

/// The accepted invocation: the one root directory to organize.
#[derive(Debug)]
pub struct Args {
    pub root_dir: String,
}

/// The rejected invocation: how many arguments were given instead of one.
#[derive(Debug)]
pub struct ArgsError {
    pub got: usize,
}

impl Args {
    /// Check the argument list (the program name already stripped): exactly
    /// one argument is accepted and becomes the root directory; any other
    /// count is rejected, the count reported.
    pub fn parse(args: &Vec<String>) -> (r: Result<Args, ArgsError>)
        ensures
            match r {
                Ok(a) => args@.len() == 1 && a.root_dir@ == args@[0]@,
                Err(e) => args@.len() != 1 && e.got == args@.len(),
            },
    {
        if args.len() == 1 {
            Ok(Args { root_dir: args[0].clone() })
        } else {
            Err(ArgsError { got: args.len() })
        }
    }
}

} // verus!
