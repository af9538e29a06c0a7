//! What one run of the tool does with its command-line arguments, and what the
//! end of the shell means for it.
use vstd::prelude::*;

use crate::error::Error;
use crate::task::{
    bindings, is_first_match, pair_views, selects, shell_arguments, task_views, Invocation, Task,
};
use crate::text::views;

verus! {

broadcast use vstd::string::group_string_axioms;

/// What a run does.
#[derive(Debug, PartialEq, Eq)]
pub enum Step {
    /// No task was named: show the definition file as it stands.
    ShowDefinitions,
    /// Launch task number `task` of the file as `invocation` says.
    Run { task: usize, invocation: Invocation },
}

/// Which shell runs task bodies.
#[derive(Clone, Copy, Debug, PartialEq, Eq)]
pub enum ShellChoice {
    /// The one that the user's environment names; it must be set.
    Environment,
    /// The system's default shell.
    SystemDefault,
}

/// The system's default shell.
pub open spec fn default_shell() -> Seq<char> {
    seq!['/', 'b', 'i', 'n', '/', 's', 'h']
}

/// The shell to launch, given the value of the environment's shell variable
/// where it is set.
pub fn choose_shell(choice: ShellChoice, from_environment: Option<String>) -> (r: Result<
    String,
    Error,
>)
    ensures
        match choice {
            ShellChoice::Environment => match from_environment {
                Some(s) => r matches Ok(t) && t@ == s@,
                None => r matches Err(Error::ShellResolutionFailed),
            },
            ShellChoice::SystemDefault => r matches Ok(t) && t@ == default_shell(),
        },
{
    match choice {
        ShellChoice::Environment => match from_environment {
            Some(s) => Ok(s),
            None => Err(Error::ShellResolutionFailed),
        },
        ShellChoice::SystemDefault => {
            let s = "/bin/sh".to_string();
            proof {
                reveal_strlit("/bin/sh");
            }
            assert(s@ =~= default_shell());
            Ok(s)
        },
    }
}

/// Decides a run from the definition file's tasks and the command-line
/// arguments (without the program's own name): the first names a task, the
/// rest are its arguments.
pub fn plan(tasks: &Vec<Task>, args: &Vec<String>) -> (r: Result<Step, Error>)
    ensures
        args.len() == 0 ==> (r matches Ok(Step::ShowDefinitions)),
        args.len() > 0 ==> match r {
            Ok(Step::Run { task, invocation }) => {
                &&& is_first_match(
                    task_views(tasks@),
                    args@[0]@,
                    (args.len() - 1) as nat,
                    task as int,
                )
                &&& views(invocation.arguments@) == shell_arguments(
                    tasks@[task as int]@,
                    views(args@).drop_first(),
                )
                &&& pair_views(invocation.environment@) == bindings(
                    tasks@[task as int]@.parameters,
                    views(args@).drop_first(),
                )
            },
            Ok(Step::ShowDefinitions) => false,
            Err(e) => {
                &&& forall|j: int|
                    0 <= j < tasks.len() ==> !selects(
                        #[trigger] task_views(tasks@)[j],
                        args@[0]@,
                        (args.len() - 1) as nat,
                    )
                &&& e matches Error::NoMatchingTask { name, arity } && name@ == args@[0]@ && arity
                    == args.len() - 1
            },
        },
{
    if args.len() == 0 {
        return Ok(Step::ShowDefinitions);
    }
    let mut rest: Vec<String> = Vec::new();
    let mut i: usize = 1;
    while i < args.len()
        invariant
            1 <= i <= args.len(),
            views(rest@) == views(args@).subrange(1, i as int),
        decreases args.len() - i,
    {
        let ghost before = views(rest@);
        rest.push(args[i].clone());
        assert(views(rest@) =~= before.push(args@[i as int]@));
        assert(views(args@).subrange(1, i + 1) =~= views(args@).subrange(1, i as int).push(
            args@[i as int]@,
        ));
        i = i + 1;
    }
    assert(views(args@).subrange(1, i as int) =~= views(args@).drop_first());
    let task = crate::task::resolve(tasks, &args[0], rest.len())?;
    assert(task_views(tasks@)[task as int] == tasks@[task as int]@);
    let invocation = tasks[task].invocation(&rest);
    Ok(Step::Run { task, invocation })
}

/// What the shell's end means for the run: success where it exited with 0;
/// otherwise a failure that keeps its exit code, or `None` where a signal ended it.
pub fn finish(code: Option<i32>) -> (r: Result<(), Error>)
    ensures
        r is Ok <==> code == Some(0i32),
        r is Err ==> (r matches Err(Error::SubprocessFailed { code: c }) && c == code),
{
    match code {
        Some(0) => Ok(()),
        _ => Err(Error::SubprocessFailed { code }),
    }
}

impl Error {
    /// The tool's exit code for this error: the shell's own where it exited
    /// unsuccessfully, 1 otherwise.
    pub fn exit_code(&self) -> (r: i32)
        ensures
            match self {
                Error::SubprocessFailed { code: Some(c) } => r == *c,
                _ => r == 1,
            },
    {
        match self {
            Error::SubprocessFailed { code: Some(c) } => *c,
            _ => 1,
        }
    }
}

} // verus!
