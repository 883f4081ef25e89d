//! What the command line asks for.

use vstd::prelude::*;

verus! {

/// A command, its optional parameter, and the directory to work on.
#[derive(Clone, Debug, PartialEq, Eq)]
pub struct Config {
    /// The rule to apply: `number`, `space` or `ext`.
    pub cmd: String,
    /// The rule's parameter, if one was given.
    pub params: Option<String>,
    /// The directory whose files are renamed.
    pub dirname: String,
}

/// The text of an optional parameter.
pub open spec fn text_of(params: Option<String>) -> Option<Seq<char>> {
    match params {
        Some(p) => Some(p@),
        None => None,
    }
}

impl Config {
    /// Reads the arguments of a command line, the program's name first. With
    /// two arguments after the name they are the command and the directory;
    /// with three or more, the command, the parameter and the directory.
    /// Fewer are refused.
    pub fn new(args: Vec<String>) -> (r: Result<Config, &'static str>)
        ensures
            match r {
                Ok(config) => {
                    &&& args.len() >= 3
                    &&& config.cmd@ == args[1]@
                    &&& text_of(config.params) == if args.len() == 3 {
                        None
                    } else {
                        Some(args[2]@)
                    }
                    &&& config.dirname@ == if args.len() == 3 {
                        args[2]@
                    } else {
                        args[3]@
                    }
                },
                Err(message) => args.len() < 3 && message@ == "Not enough arguments"@,
            },
    {
        if args.len() < 3 {
            return Err("Not enough arguments");
        }
        let cmd = args[1].clone();
        if args.len() == 3 {
            Ok(Config { cmd, params: None, dirname: args[2].clone() })
        } else {
            Ok(Config { cmd, params: Some(args[2].clone()), dirname: args[3].clone() })
        }
    }
}

} // verus!
