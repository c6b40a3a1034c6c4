use vstd::prelude::*;

verus! {

/// Why the command line could not be read.
#[derive(PartialEq, Eq, Debug)]
pub enum ArgParseError {
    /// A flag that takes a value came last.
    MissingArgumentFor(String),
    /// A word that is no known flag.
    UnknownArgument(String),
    /// A flag's value could not be read.
    IllegalArgument(String),
}

} // verus!
