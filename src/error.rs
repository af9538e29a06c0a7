//! The ways an invocation of the task runner fails.
use vstd::prelude::*;

verus! {

#[derive(Debug, PartialEq, Eq)]
pub enum Error {
    /// There is no definition file in the working directory.
    DefinitionFileMissing,
    /// The definition file does not follow the grammar.
    MalformedDefinitionFile,
    /// No task has this name and accepts this many arguments.
    NoMatchingTask { name: String, arity: usize },
    /// The shell to run task bodies with could not be determined.
    ShellResolutionFailed,
    /// The shell ended unsuccessfully: with this exit code, or by a signal.
    SubprocessFailed { code: Option<i32> },
}

} // verus!
