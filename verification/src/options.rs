//! What a program that decodes payloads is asked for on its command line.

use vstd::prelude::*;

verus! {

/// The form in which a record is written out.
#[derive(Clone, Copy, Debug, PartialEq, Eq, Structural)]
pub enum OutputFormat {
    Json,
    Yaml,
}

/// The arguments of the command line: the file that holds the payload,
/// where it is not read from standard input, and the form of the output.
#[derive(Clone, Debug)]
pub struct CommandLineArguments {
    pub file: Option<String>,
    pub format: OutputFormat,
}

} // verus!
