use vstd::prelude::*;

verus! {

/// What the command line asks for.
#[derive(Debug, PartialEq, Eq)]
pub struct Config {
    /// The file to read; `-` where none is named.
    pub target: String,
    /// The flags; empty where none are given.
    pub flags: String,
}

/// The argument at `index`, or `fallback` where the command line is too
/// short to hold one there.
pub open spec fn argument_or(args: Seq<String>, index: int, fallback: Seq<char>) -> Seq<char> {
    if 0 <= index < args.len() {
        args[index]@
    } else {
        fallback
    }
}

/// Reads the command line: behind the program's name the target comes
/// first and the flags second.
pub fn parse_config(args: &[String]) -> (config: Config)
    ensures
        config.target@ == argument_or(args@, 1, "-"@),
        config.flags@ == argument_or(args@, 2, ""@),
{
    let target = if args.len() > 1 {
        args[1].clone()
    } else {
        "-".to_owned()
    };
    let flags = if args.len() > 2 {
        args[2].clone()
    } else {
        "".to_owned()
    };
    Config { target, flags }
}

} // verus!
