//! Tasks, their visiting states, the commands to run, and the executor that runs them.

use vstd::prelude::*;

use crate::error::JakeError;
use crate::text::{join_with, joined};

verus! {

/// Where a task stands in the depth-first resolution of dependencies.
#[derive(Debug, Clone, Copy, PartialEq, Eq, Structural)]
pub enum NodeState {
    Univisited,
    /// On the current path of the resolution.
    Visiting,
    Visited,
}

/// Runs one command. Implemented by the program (to spawn a shell, or to print the
/// command) and by its users. The library states nothing of what an implementation does;
/// the functions that call it state what they handed over and what came back (see
/// [`handed`]).
pub trait Executor {
    fn execute(&self, main_command: &str, args: Vec<&str>, load_env: bool) -> Result<
        (),
        JakeError,
    >;
}

/// The first occurrence of each element of `s`, in the order of `s`.
pub open spec fn first_occurrences(s: Seq<Seq<char>>) -> Seq<Seq<char>>
    decreases s.len(),
{
    if s.len() == 0 {
        Seq::<Seq<char>>::empty()
    } else {
        let r = first_occurrences(s.drop_last());
        if r.contains(s.last()) {
            r
        } else {
            r.push(s.last())
        }
    }
}

/// `first_occurrences` keeps exactly the elements of `s`, each once.
pub proof fn lemma_first_occurrences(s: Seq<Seq<char>>)
    ensures
        first_occurrences(s).no_duplicates(),
        forall|x: Seq<char>| #[trigger] first_occurrences(s).contains(x) <==> s.contains(x),
    decreases s.len(),
{
    if s.len() > 0 {
        let t = s.drop_last();
        lemma_first_occurrences(t);
        assert forall|x: Seq<char>| #[trigger] first_occurrences(s).contains(x) <==> s.contains(
            x,
        ) by {
            if s.contains(x) && x != s.last() {
                let k = choose|k: int| 0 <= k < s.len() && s[k] == x;
                assert(t[k] == x);
            }
            if t.contains(x) {
                let k = choose|k: int| 0 <= k < t.len() && t[k] == x;
                assert(s[k] == x);
            }
            let r = first_occurrences(t);
            if !r.contains(s.last()) {
                if r.push(s.last()).contains(x) && x != s.last() {
                    let k = choose|k: int| 0 <= k < r.len() + 1 && r.push(s.last())[k] == x;
                    assert(r[k] == x);
                }
                if r.contains(x) {
                    let k = choose|k: int| 0 <= k < r.len() && r[k] == x;
                    assert(r.push(s.last())[k] == x);
                }
                assert(r.push(s.last())[r.len() as int] == s.last());
            }
        }
    }
}

/// A task of the jakefile: its command and the tasks that must run before it.
pub struct TaskNode {
    pub command: String,
    /// Each dependency once, in the order in which the jakefile lists them first.
    pub dependencies: Vec<String>,
}

impl TaskNode {
    /// No dependency is listed twice.
    pub open spec fn wf(&self) -> bool {
        self.dependencies.deep_view().no_duplicates()
    }

    /// A task with the given command and the given dependencies, duplicates dropped.
    pub fn new(command: String, dependencies: Vec<String>) -> (node: TaskNode)
        ensures
            node.command@ == command@,
            node.dependencies.deep_view() == first_occurrences(dependencies.deep_view()),
            node.wf(),
    {
        let mut deps: Vec<String> = Vec::new();
        let mut i: usize = 0;
        assert(dependencies.deep_view().take(0) =~= Seq::<Seq<char>>::empty());
        while i < dependencies.len()
            invariant
                i <= dependencies.len(),
                deps.deep_view() == first_occurrences(dependencies.deep_view().take(i as int)),
            decreases dependencies.len() - i,
        {
            let ghost dv = dependencies.deep_view();
            assert(dv.take(i + 1).drop_last() =~= dv.take(i as int));
            assert(dv.take(i + 1).last() == dependencies[i as int]@);
            if !contains_text(&deps, &dependencies[i]) {
                let ghost before = deps.deep_view();
                deps.push(dependencies[i].clone());
                assert(deps.deep_view() =~= before.push(dependencies[i as int]@));
            }
            i = i + 1;
        }
        assert(dependencies.deep_view().take(dependencies.len() as int)
            =~= dependencies.deep_view());
        proof {
            lemma_first_occurrences(dependencies.deep_view());
        }
        TaskNode { command, dependencies: deps }
    }
}

/// Whether `s` is one of `v`.
pub fn contains_text(v: &Vec<String>, s: &String) -> (b: bool)
    ensures
        b == v.deep_view().contains(s@),
{
    let mut i: usize = 0;
    while i < v.len()
        invariant
            i <= v.len(),
            forall|j: int| 0 <= j < i ==> v.deep_view()[j] != s@,
        decreases v.len() - i,
    {
        if v[i] == *s {
            assert(v.deep_view()[i as int] == s@);
            return true;
        }
        i = i + 1;
    }
    false
}

/// One command to run: the program and its arguments.
pub struct Invocation {
    pub program: String,
    pub args: Vec<String>,
}

/// The shell line for a command: the program and its arguments, separated by spaces.
pub fn command_line(main_command: &str, args: &Vec<&str>) -> (r: String)
    ensures
        r@ == joined(seq![main_command@] + args.deep_view(), " "@),
{
    let mut parts: Vec<String> = Vec::new();
    parts.push(String::from_str(main_command));
    let mut i: usize = 0;
    while i < args.len()
        invariant
            i <= args.len(),
            parts.deep_view() == seq![main_command@] + args.deep_view().take(i as int),
        decreases args.len() - i,
    {
        let ghost before = parts.deep_view();
        parts.push(String::from_str(args[i]));
        assert(parts.deep_view() =~= before.push(args[i as int]@));
        assert(args.deep_view().take(i + 1) =~= args.deep_view().take(i as int).push(
            args[i as int]@,
        ));
        i = i + 1;
    }
    assert(args.deep_view().take(args.len() as int) =~= args.deep_view());
    join_with(&parts, " ")
}

} // verus!
verus! {
/// Whether handing the program `program`, the arguments `args` and `load_env` to
/// `executor` can come back as `outcome`: what a call of `execute` with those values is
/// known to have given.
pub open spec fn handed<E: Executor + ?Sized>(
    executor: &E,
    program: Seq<char>,
    args: Seq<Seq<char>>,
    load_env: bool,
    outcome: Result<(), JakeError>,
) -> bool {
    exists|m: &str, a: Vec<&str>|
        m@ == program && a.deep_view() == args && #[trigger] call_ensures(
            E::execute,
            (executor, m, a, load_env),
            outcome,
        )
}

/// Whether `outcome` is what running the invocations of `plan` in order with `executor`
/// gives: `Ok` once each was handed over and came back `Ok`; otherwise the error of the
/// first one that failed, after all before it came back `Ok`.
pub open spec fn ran_in_order<E: Executor + ?Sized>(
    executor: &E,
    plan: Seq<(Seq<char>, Seq<Seq<char>>)>,
    load_env: bool,
    outcome: Result<(), JakeError>,
) -> bool {
    match outcome {
        Ok(()) => forall|i: int|
            0 <= i < plan.len() ==> handed(
                executor,
                (#[trigger] plan[i]).0,
                plan[i].1,
                load_env,
                Ok(()),
            ),
        Err(e) => exists|k: int|
            0 <= k < plan.len() && (forall|i: int|
                0 <= i < k ==> handed(executor, (#[trigger] plan[i]).0, plan[i].1, load_env, Ok(())))
                && handed(executor, plan[k].0, plan[k].1, load_env, Err(e)),
    }
}

} // verus!
