//! A task of the definition file, and the rules that select and launch one.
use vstd::prelude::*;

use crate::error::Error;
use crate::text::{chars_of, views};

verus! {

broadcast use vstd::string::group_string_axioms;

/// What a task is, as plain sequences.
pub struct TaskSpec {
    pub name: Seq<char>,
    pub parameters: Seq<Seq<char>>,
    pub variadic: bool,
    pub body: Seq<Seq<char>>,
}

/// One named, parameterised block of shell commands.
#[derive(Debug, PartialEq, Eq)]
pub struct Task {
    pub name: String,
    /// Bound in order to the leading arguments of an invocation.
    pub parameters: Vec<String>,
    /// The header ended with `...`: extra trailing arguments are accepted.
    pub variadic: bool,
    /// The lines of the body, as written, without trailing blank lines.
    pub body: Vec<String>,
}

impl View for Task {
    type V = TaskSpec;

    open spec fn view(&self) -> TaskSpec {
        TaskSpec {
            name: self.name@,
            parameters: views(self.parameters@),
            variadic: self.variadic,
            body: views(self.body@),
        }
    }
}

/// The models of a list of tasks.
pub open spec fn task_views(v: Seq<Task>) -> Seq<TaskSpec> {
    Seq::new(v.len(), |i: int| v[i]@)
}

/// A task with `t.parameters.len()` parameters accepts `n` arguments: exactly
/// that many, or at least that many where it is variadic.
pub open spec fn accepts(t: TaskSpec, n: nat) -> bool {
    if t.variadic {
        n >= t.parameters.len()
    } else {
        n == t.parameters.len()
    }
}

pub open spec fn selects(t: TaskSpec, name: Seq<char>, n: nat) -> bool {
    t.name == name && accepts(t, n)
}

/// Task `i` is the first of `ts` that matches an invocation of `name` with `n` arguments.
pub open spec fn is_first_match(ts: Seq<TaskSpec>, name: Seq<char>, n: nat, i: int) -> bool {
    &&& 0 <= i < ts.len()
    &&& selects(ts[i], name, n)
    &&& forall|j: int| 0 <= j < i ==> !selects(#[trigger] ts[j], name, n)
}

/// The body as one command string: its lines joined by line breaks.
pub open spec fn join_lines(ls: Seq<Seq<char>>) -> Seq<char>
    decreases ls.len(),
{
    if ls.len() == 0 {
        Seq::empty()
    } else if ls.len() == 1 {
        ls[0]
    } else {
        join_lines(ls.drop_last()) + seq!['\n'] + ls.last()
    }
}

/// The shell flag that makes the next argument the command to run.
pub open spec fn command_flag() -> Seq<char> {
    seq!['-', 'c']
}

/// The shell's arguments for running task `t` with the invocation arguments `args`:
/// the flag, the body, the task's name as `$0`, then the arguments that no
/// parameter takes.
pub open spec fn shell_arguments(t: TaskSpec, args: Seq<Seq<char>>) -> Seq<Seq<char>> {
    seq![command_flag(), join_lines(t.body), t.name] + args.skip(t.parameters.len() as int)
}

/// Each parameter with the argument in its position.
pub open spec fn bindings(parameters: Seq<Seq<char>>, args: Seq<Seq<char>>) -> Seq<
    (Seq<char>, Seq<char>),
> {
    Seq::new(parameters.len(), |i: int| (parameters[i], args[i]))
}

pub open spec fn pair_views(v: Seq<(String, String)>) -> Seq<(Seq<char>, Seq<char>)> {
    Seq::new(v.len(), |i: int| (v[i].0@, v[i].1@))
}

/// Number of spaces that `l` starts with.
pub open spec fn indent_of(l: Seq<char>) -> nat
    decreases l.len(),
{
    if l.len() > 0 && l[0] == ' ' {
        1 + indent_of(l.drop_first())
    } else {
        0
    }
}

/// `d` is the smallest indentation of the lines of `b` that are not blank, or
/// 0 where all are blank.
pub open spec fn is_common_indent(b: Seq<Seq<char>>, d: nat) -> bool {
    &&& forall|i: int|
        0 <= i < b.len() && !crate::text::is_blank(b[i]) ==> d <= #[trigger] indent_of(b[i])
    &&& (exists|i: int|
        0 <= i < b.len() && !crate::text::is_blank(b[i]) && d == #[trigger] indent_of(b[i]))
        || (d == 0 && forall|i: int| 0 <= i < b.len() ==> crate::text::is_blank(#[trigger] b[i]))
}

/// Line `l` with `d` leading characters removed, or all of them where it is shorter.
pub open spec fn dedent(l: Seq<char>, d: nat) -> Seq<char> {
    if d <= l.len() {
        l.skip(d as int)
    } else {
        Seq::empty()
    }
}

/// What a launch of a task consists of, apart from the shell itself.
#[derive(Debug, PartialEq, Eq)]
pub struct Invocation {
    /// The shell's command-line arguments.
    pub arguments: Vec<String>,
    /// Variables set in the shell's environment, name first.
    pub environment: Vec<(String, String)>,
}

pub proof fn lemma_indent_exact(l: Seq<char>, k: int)
    requires
        0 <= k <= l.len(),
        forall|j: int| 0 <= j < k ==> l[j] == ' ',
        k == l.len() || l[k] != ' ',
    ensures
        indent_of(l) == k,
    decreases k,
{
    if k > 0 {
        lemma_indent_exact(l.drop_first(), k - 1);
    }
}

fn indent(l: &String) -> (r: usize)
    ensures
        r == indent_of(l@),
        r <= l@.len(),
{
    let c = chars_of(l.as_str());
    let mut i: usize = 0;
    while i < c.len() && c[i] == ' '
        invariant
            i <= c.len(),
            c@ == l@,
            forall|j: int| 0 <= j < i ==> c@[j] == ' ',
        decreases c.len() - i,
    {
        i = i + 1;
    }
    proof {
        lemma_indent_exact(l@, i as int);
    }
    i
}

fn is_blank_string(l: &String) -> (b: bool)
    ensures
        b == crate::text::is_blank(l@),
{
    let c = chars_of(l.as_str());
    let mut i: usize = 0;
    while i < c.len()
        invariant
            i <= c.len(),
            c@ == l@,
            forall|j: int| 0 <= j < i ==> crate::text::is_space(#[trigger] c@[j]),
        decreases c.len() - i,
    {
        if !crate::text::is_space_char(c[i]) {
            return false;
        }
        i = i + 1;
    }
    true
}

impl Task {
    /// Whether `n` arguments are acceptable here.
    pub fn accepts(&self, n: usize) -> (r: bool)
        ensures
            r == accepts(self@, n as nat),
    {
        if self.variadic {
            n >= self.parameters.len()
        } else {
            n == self.parameters.len()
        }
    }

    /// Whether an invocation of `name` with `n` arguments selects `self`.
    pub fn selects(&self, name: &String, n: usize) -> (r: bool)
        ensures
            r == selects(self@, name@, n as nat),
    {
        self.name.eq(name) && self.accepts(n)
    }

    /// The body as one command string.
    pub fn script(&self) -> (r: String)
        ensures
            r@ == join_lines(self@.body),
    {
        let mut r = String::new();
        let mut i: usize = 0;
        while i < self.body.len()
            invariant
                i <= self.body.len(),
                r@ == join_lines(views(self.body@).take(i as int)),
            decreases self.body.len() - i,
        {
            let ghost b = views(self.body@);
            assert(b.take(i + 1).drop_last() =~= b.take(i as int));
            assert(b.take(i + 1).last() == b[i as int]);
            proof {
                reveal_strlit("\n");
            }
            if i > 0 {
                r.append("\n");
            }
            r.append(self.body[i].as_str());
            assert(r@ =~= join_lines(b.take(i + 1)));
            i = i + 1;
        }
        assert(views(self.body@).take(i as int) =~= views(self.body@));
        r
    }

    /// How to launch `self` with the invocation arguments `args`: the
    /// leading arguments bound to the parameters, the others passed on.
    pub fn invocation(&self, args: &Vec<String>) -> (r: Invocation)
        requires
            self.parameters.len() <= args.len(),
        ensures
            views(r.arguments@) == shell_arguments(self@, views(args@)),
            pair_views(r.environment@) == bindings(self@.parameters, views(args@)),
    {
        let mut arguments: Vec<String> = Vec::new();
        let flag = "-c".to_string();
        proof {
            reveal_strlit("-c");
        }
        assert(flag@ =~= command_flag());
        arguments.push(flag);
        arguments.push(self.script());
        arguments.push(self.name.clone());
        let k = self.parameters.len();
        let mut i: usize = k;
        proof {
            reveal_strlit("-c");
        }
        assert(views(arguments@) =~= seq![command_flag(), join_lines(self@.body), self@.name]
            + views(args@).subrange(k as int, k as int));
        while i < args.len()
            invariant
                k == self.parameters.len() <= i <= args.len(),
                views(arguments@) == seq![command_flag(), join_lines(self@.body), self@.name]
                    + views(args@).subrange(k as int, i as int),
            decreases args.len() - i,
        {
            let ghost before = views(arguments@);
            arguments.push(args[i].clone());
            assert(views(arguments@) =~= before.push(args@[i as int]@));
            assert(views(args@).subrange(k as int, i + 1) =~= views(args@).subrange(
                k as int,
                i as int,
            ).push(args@[i as int]@));
            i = i + 1;
        }
        assert(views(args@).subrange(k as int, i as int) =~= views(args@).skip(k as int));
        let mut environment: Vec<(String, String)> = Vec::new();
        let mut j: usize = 0;
        while j < k
            invariant
                k == self.parameters.len() <= args.len(),
                j <= k,
                pair_views(environment@) == bindings(self@.parameters, views(args@)).take(
                    j as int,
                ),
            decreases k - j,
        {
            let ghost before = pair_views(environment@);
            environment.push((self.parameters[j].clone(), args[j].clone()));
            assert(pair_views(environment@) =~= before.push(
                (self.parameters@[j as int]@, args@[j as int]@),
            ));
            assert(bindings(self@.parameters, views(args@)).take(j + 1) =~= bindings(
                self@.parameters,
                views(args@),
            ).take(j as int).push((self.parameters@[j as int]@, args@[j as int]@)));
            j = j + 1;
        }
        assert(bindings(self@.parameters, views(args@)).take(k as int) =~= bindings(
            self@.parameters,
            views(args@),
        ));
        Invocation { arguments, environment }
    }

    /// The indentation that the body lines have in common.
    pub fn common_indent(&self) -> (r: usize)
        ensures
            is_common_indent(self@.body, r as nat),
    {
        let ghost b = self@.body;
        let mut best: Option<usize> = None;
        let mut i: usize = 0;
        while i < self.body.len()
            invariant
                i <= self.body.len(),
                b == views(self.body@),
                match best {
                    None => forall|j: int| 0 <= j < i ==> crate::text::is_blank(#[trigger] b[j]),
                    Some(d) => {
                        &&& forall|j: int|
                            0 <= j < i && !crate::text::is_blank(b[j]) ==> d <= #[trigger] indent_of(b[j])
                        &&& exists|j: int|
                            0 <= j < i && !crate::text::is_blank(b[j]) && d == #[trigger] indent_of(b[j])
                    },
                },
            decreases self.body.len() - i,
        {
            assert(b[i as int] == self.body@[i as int]@);
            if !is_blank_string(&self.body[i]) {
                let d = indent(&self.body[i]);
                match best {
                    None => {
                        best = Some(d);
                    },
                    Some(e) => {
                        if d < e {
                            best = Some(d);
                        }
                    },
                }
            }
            i = i + 1;
        }
        match best {
            None => 0,
            Some(d) => d,
        }
    }

    /// The body lines as shown before a launch: the common indentation removed
    /// from each, or the whole line where it is shorter.
    pub fn preview(&self) -> (r: Vec<String>)
        ensures
            exists|d: nat|
                is_common_indent(self@.body, d) && views(r@) == Seq::new(
                    self@.body.len(),
                    |i: int| dedent(self@.body[i], d),
                ),
    {
        let d = self.common_indent();
        let mut r: Vec<String> = Vec::new();
        let mut i: usize = 0;
        while i < self.body.len()
            invariant
                i <= self.body.len(),
                views(r@) == Seq::new(i as nat, |j: int| dedent(self@.body[j], d as nat)),
            decreases self.body.len() - i,
        {
            let line = self.body[i].as_str();
            let n = line.unicode_len();
            let from = if d < n {
                d
            } else {
                n
            };
            let piece = line.substring_char(from, n).to_string();
            assert(piece@ =~= dedent(self@.body[i as int], d as nat));
            let ghost before = views(r@);
            r.push(piece);
            assert(views(r@) =~= before.push(piece@));
            assert(views(r@) =~= Seq::new((i + 1) as nat, |j: int| dedent(self@.body[j], d as nat)));
            i = i + 1;
        }
        assert(views(r@) =~= Seq::new(self@.body.len(), |j: int| dedent(self@.body[j], d as nat)));
        r
    }
}

/// The first task of `tasks` that an invocation of `name` with `n` arguments
/// selects, by its position; or `NoMatchingTask` where none does.
pub fn resolve(tasks: &Vec<Task>, name: &String, n: usize) -> (r: Result<usize, Error>)
    ensures
        match r {
            Ok(i) => is_first_match(task_views(tasks@), name@, n as nat, i as int),
            Err(e) => {
                &&& forall|j: int|
                    0 <= j < tasks.len() ==> !selects(#[trigger] task_views(tasks@)[j], name@, n as nat)
                &&& e matches Error::NoMatchingTask { name: m, arity } && m@ == name@ && arity == n
            },
        },
{
    let ghost ts = task_views(tasks@);
    let mut i: usize = 0;
    while i < tasks.len()
        invariant
            i <= tasks.len(),
            ts == task_views(tasks@),
            forall|j: int| 0 <= j < i ==> !selects(#[trigger] ts[j], name@, n as nat),
        decreases tasks.len() - i,
    {
        assert(ts[i as int] == tasks@[i as int]@);
        if tasks[i].selects(name, n) {
            return Ok(i);
        }
        i = i + 1;
    }
    Err(Error::NoMatchingTask { name: name.clone(), arity: n })
}

/// Selection is deterministic: at most one position is the first match of an
/// invocation, so `resolve` always picks the same task for the same inputs.
pub proof fn lemma_first_match_unique(ts: Seq<TaskSpec>, name: Seq<char>, n: nat, i: int, j: int)
    requires
        is_first_match(ts, name, n, i),
        is_first_match(ts, name, n, j),
    ensures
        i == j,
{
    if i < j {
        assert(!selects(ts[i], name, n));
    } else if j < i {
        assert(!selects(ts[j], name, n));
    }
}

/// The arity rule: a variadic task is selected by its name with at least as
/// many arguments as it has parameters; any other task only with exactly that many.
pub proof fn lemma_arity_rule(t: TaskSpec, n: nat)
    ensures
        t.variadic ==> (selects(t, t.name, n) <==> n >= t.parameters.len()),
        !t.variadic ==> (selects(t, t.name, n) <==> n == t.parameters.len()),
{
}

/// Launching a task binds parameter `i` to argument `i` and hands the shell
/// the arguments beyond the parameters, in order, after the task's name.
pub proof fn lemma_parameter_binding(t: TaskSpec, args: Seq<Seq<char>>)
    requires
        t.parameters.len() <= args.len(),
    ensures
        bindings(t.parameters, args).len() == t.parameters.len(),
        forall|i: int|
            0 <= i < t.parameters.len() ==> #[trigger] bindings(t.parameters, args)[i] == (
                t.parameters[i],
                args[i],
            ),
        shell_arguments(t, args).len() == 3 + args.len() - t.parameters.len(),
        shell_arguments(t, args)[2] == t.name,
        shell_arguments(t, args).skip(3) == args.skip(t.parameters.len() as int),
{
    assert(shell_arguments(t, args).skip(3) =~= args.skip(t.parameters.len() as int));
}

} // verus!
