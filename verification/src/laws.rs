//! What task resolution guarantees: on success every task comes after all of its
//! dependencies and appears once; a reported circular dependency is a real cycle; a task
//! from which a cycle can be reached never resolves, and one whose reachable tasks are all
//! defined and free of cycles always does; a missing task is one the jakefile does not
//! define; every listed task is found; and resolving a resolved task again changes nothing.
//! Also which task runs when none is named, and what a run hands over: the words of each
//! resolved command, with the options after the task's own.

use vstd::prelude::*;

use crate::entries::{key_position, keys_of, lemma_key_position_bounds, lookup};
use crate::error::ErrorView;
use crate::load::{
    command_plan, default_task, runnable,
    commands_of, fresh_states, resolution, keeps_marks, lemma_unvisited_fresh, lemma_unvisited_mark,
    lemma_unvisited_shrinks, resolved_tasks, task_definition, unvisited, visit, visit_each,
};
use crate::models::NodeState;
use crate::text::words;
use crate::toml_data::TomlValue;

verus! {

/// `b` is one of the dependencies that task `a` declares.
pub open spec fn depends_on(tasks: Seq<(String, TomlValue)>, a: Seq<char>, b: Seq<char>) -> bool {
    match task_definition(tasks, a) {
        Ok((_, deps)) => deps.contains(b),
        Err(_) => false,
    }
}

/// Each task of `p` depends on the next one.
pub open spec fn is_dependency_chain(tasks: Seq<(String, TomlValue)>, p: Seq<Seq<char>>) -> bool {
    forall|k: int| 0 <= k < p.len() - 1 ==> #[trigger] depends_on(tasks, p[k], p[k + 1])
}

/// Task `n` depends, directly or through other tasks, on itself.
pub open spec fn on_cycle(tasks: Seq<(String, TomlValue)>, n: Seq<char>) -> bool {
    exists|p: Seq<Seq<char>>|
        p.len() >= 2 && p[0] == n && p.last() == n && #[trigger] is_dependency_chain(tasks, p)
}

/// `names` lists tasks that all have a definition, each once, each after all of its
/// dependencies.
pub open spec fn dependency_ordered(tasks: Seq<(String, TomlValue)>, names: Seq<Seq<char>>) -> bool {
    &&& names.no_duplicates()
    &&& forall|i: int| 0 <= i < names.len() ==> #[trigger] task_definition(tasks, names[i]) is Ok
    &&& forall|i: int, d: Seq<char>|
        0 <= i < names.len() && #[trigger] depends_on(tasks, names[i], d) ==> exists|j: int|
            0 <= j < i && names[j] == d
}

/// Task `n` has a position, and its state there is visited.
pub open spec fn visited_at(
    tasks: Seq<(String, TomlValue)>,
    state: Seq<NodeState>,
    n: Seq<char>,
) -> bool {
    match key_position(tasks, n) {
        Some(p) => 0 <= p < state.len() && state[p] == NodeState::Visited,
        None => false,
    }
}

/// What holds between the visiting states and the tasks resolved so far.
pub open spec fn visit_inv(
    tasks: Seq<(String, TomlValue)>,
    state: Seq<NodeState>,
    done: Seq<Seq<char>>,
) -> bool {
    &&& state.len() == tasks.len()
    &&& dependency_ordered(tasks, done)
    &&& forall|i: int| 0 <= i < done.len() ==> #[trigger] visited_at(tasks, state, done[i])
    &&& forall|p: int|
        0 <= p < state.len() && state[p] == NodeState::Visited ==> exists|i: int|
            0 <= i < done.len() && #[trigger] key_position(tasks, done[i]) == Some(p)
}

/// A task that has a definition has a position, and two names at one position are equal.
proof fn lemma_position(tasks: Seq<(String, TomlValue)>, a: Seq<char>, b: Seq<char>)
    ensures
        task_definition(tasks, a) is Ok ==> key_position(tasks, a) is Some,
        key_position(tasks, a) matches Some(p) ==> 0 <= p < tasks.len(),
        key_position(tasks, a) is Some && key_position(tasks, a) == key_position(tasks, b) ==> a
            == b,
{
    lemma_key_position_bounds(tasks, a);
    lemma_key_position_bounds(tasks, b);
}

/// A successful visit keeps the invariant, extends the resolved tasks, resolves `name`,
/// leaves reached tasks as they were, and marks newly reached tasks visited.
proof fn lemma_visit_ok(
    tasks: Seq<(String, TomlValue)>,
    name: Seq<char>,
    state: Seq<NodeState>,
    done: Seq<Seq<char>>,
    fuel: nat,
)
    requires
        visit_inv(tasks, state, done),
        visit(tasks, name, state, done, fuel) is Ok,
    ensures
        visit(tasks, name, state, done, fuel) matches Ok((s, d)) && {
            &&& visit_inv(tasks, s, d)
            &&& done.len() <= d.len() && d.subrange(0, done.len() as int) == done
            &&& d.contains(name)
            &&& forall|p: int|
                0 <= p < state.len() && state[p] != NodeState::Univisited ==> #[trigger] s[p]
                    == state[p]
            &&& forall|p: int|
                0 <= p < state.len() && state[p] == NodeState::Univisited ==> #[trigger] s[p]
                    != NodeState::Visiting
        },
    decreases fuel, 0int, 0int,
{
    let (command, deps) = task_definition(tasks, name)->Ok_0;
    lemma_position(tasks, name, name);
    let idx = key_position(tasks, name).unwrap();
    if state[idx] == NodeState::Visited {
        let i = choose|i: int| 0 <= i < done.len() && key_position(tasks, done[i]) == Some(idx);
        lemma_position(tasks, done[i], name);
        assert(done[i] == name);
        assert(done.subrange(0, done.len() as int) =~= done);
    } else {
        let marked = state.update(idx, NodeState::Visiting);
        assert(visit_inv(tasks, marked, done)) by {
            assert forall|i: int| 0 <= i < done.len() implies #[trigger] visited_at(tasks, marked, done[i]) by {
                assert(visited_at(tasks, state, done[i]));
                let p = key_position(tasks, done[i]).unwrap();
                assert(state[p] == NodeState::Visited);
            }
        }
        lemma_visit_each_ok(tasks, deps, 0, marked, done, (fuel - 1) as nat);
        let (s1, d1) = visit_each(tasks, deps, 0, marked, done, (fuel - 1) as nat)->Ok_0;
        let s = s1.update(idx, NodeState::Visited);
        let d = d1.push(name);
        assert(s1[idx] == NodeState::Visiting);
        assert(!d1.contains(name)) by {
            if d1.contains(name) {
                let i = choose|i: int| 0 <= i < d1.len() && d1[i] == name;
                assert(visited_at(tasks, s1, d1[i]));
                assert(key_position(tasks, d1[i]) == Some(idx));
            }
        }
        assert(d.no_duplicates());
        assert forall|i: int| 0 <= i < d.len() implies #[trigger] task_definition(
            tasks,
            d[i],
        ) is Ok by {
            if i < d1.len() {
                assert(d[i] == d1[i]);
            }
        }
        assert forall|i: int, x: Seq<char>|
            0 <= i < d.len() && #[trigger] depends_on(tasks, d[i], x) implies exists|j: int|
            0 <= j < i && d[j] == x by {
            if i < d1.len() {
                assert(d[i] == d1[i]);
                let j = choose|j: int| 0 <= j < i && d1[j] == x;
                assert(d[j] == x);
            } else {
                assert(deps.contains(x));
                let k = choose|k: int| 0 <= k < deps.len() && deps[k] == x;
                assert(d1.contains(deps[k]));
                let j = choose|j: int| 0 <= j < d1.len() && d1[j] == x;
                assert(d[j] == x);
            }
        }
        assert forall|i: int| 0 <= i < d.len() implies #[trigger] visited_at(tasks, s, d[i]) by {
            if i < d1.len() {
                assert(d[i] == d1[i]);
                assert(visited_at(tasks, s1, d1[i]));
                let p = key_position(tasks, d1[i]).unwrap();
                assert(s1[p] == NodeState::Visited);
                assert(p != idx);
            }
        }
        assert forall|p: int| 0 <= p < s.len() && s[p] == NodeState::Visited implies exists|i: int|
            0 <= i < d.len() && #[trigger] key_position(tasks, d[i]) == Some(p) by {
            if p == idx {
                assert(key_position(tasks, d[d1.len() as int]) == Some(p));
            } else {
                let i = choose|i: int| 0 <= i < d1.len() && key_position(tasks, d1[i]) == Some(p);
                assert(d[i] == d1[i]);
            }
        }
        assert(d.subrange(0, done.len() as int) =~= d1.subrange(0, done.len() as int));
        assert(d[d1.len() as int] == name);
    }
}

/// A successful pass over `deps[i..]` keeps the invariant, extends the resolved tasks,
/// resolves every one of them, leaves reached tasks as they were, and marks newly reached
/// tasks visited.
proof fn lemma_visit_each_ok(
    tasks: Seq<(String, TomlValue)>,
    deps: Seq<Seq<char>>,
    i: nat,
    state: Seq<NodeState>,
    done: Seq<Seq<char>>,
    fuel: nat,
)
    requires
        visit_inv(tasks, state, done),
        visit_each(tasks, deps, i, state, done, fuel) is Ok,
    ensures
        visit_each(tasks, deps, i, state, done, fuel) matches Ok((s, d)) && {
            &&& visit_inv(tasks, s, d)
            &&& done.len() <= d.len() && d.subrange(0, done.len() as int) == done
            &&& forall|k: int| i <= k < deps.len() ==> d.contains(#[trigger] deps[k])
            &&& forall|p: int|
                0 <= p < state.len() && state[p] != NodeState::Univisited ==> #[trigger] s[p]
                    == state[p]
            &&& forall|p: int|
                0 <= p < state.len() && state[p] == NodeState::Univisited ==> #[trigger] s[p]
                    != NodeState::Visiting
        },
    decreases fuel, 1int, deps.len() - i,
{
    if i >= deps.len() {
        assert(done.subrange(0, done.len() as int) =~= done);
    } else {
        lemma_visit_ok(tasks, deps[i as int], state, done, fuel);
        let (s0, d0) = visit(tasks, deps[i as int], state, done, fuel)->Ok_0;
        lemma_visit_each_ok(tasks, deps, i + 1, s0, d0, fuel);
        let (s, d) = visit_each(tasks, deps, i + 1, s0, d0, fuel)->Ok_0;
        assert(d.subrange(0, done.len() as int) =~= d.subrange(0, d0.len() as int).subrange(
            0,
            done.len() as int,
        ));
        assert forall|k: int| i <= k < deps.len() implies d.contains(#[trigger] deps[k]) by {
            if k == i {
                let j = choose|j: int| 0 <= j < d0.len() && d0[j] == deps[k];
                assert(d.subrange(0, d0.len() as int)[j] == d[j]);
            }
        }
        assert forall|p: int|
            0 <= p < state.len() && state[p] == NodeState::Univisited implies #[trigger] s[p]
            != NodeState::Visiting by {
            if s0[p] != NodeState::Univisited {
                assert(s[p] == s0[p]);
            }
        }
    }
}

/// When task resolution succeeds, the resolved tasks end with the task asked for, each
/// appears once, each has a definition, and each comes after every one of its dependencies.
pub proof fn law_resolution_orders_dependencies(tasks: Seq<(String, TomlValue)>, task: Seq<char>)
    requires
        resolved_tasks(tasks, task) is Ok,
    ensures
        resolved_tasks(tasks, task) matches Ok(names) && {
            &&& names.len() > 0
            &&& names.last() == task
            &&& dependency_ordered(tasks, names)
        },
{
    let fresh = fresh_states(tasks.len());
    let empty = Seq::<Seq<char>>::empty();
    let fuel = (tasks.len() + 1) as nat;
    lemma_visit_ok(tasks, task, fresh, empty, fuel);
    lemma_position(tasks, task, task);
    let idx = key_position(tasks, task).unwrap();
    assert(fresh[idx] == NodeState::Univisited);
}

/// The stack of tasks being resolved: every task in the visiting state is on it, and each
/// depends on the next.
pub open spec fn stack_inv(
    tasks: Seq<(String, TomlValue)>,
    state: Seq<NodeState>,
    stack: Seq<Seq<char>>,
) -> bool {
    &&& forall|p: int|
        0 <= p < state.len() && state[p] == NodeState::Visiting ==> exists|k: int|
            0 <= k < stack.len() && #[trigger] key_position(tasks, stack[k]) == Some(p)
    &&& is_dependency_chain(tasks, stack)
}

/// Entering task `name` (unvisited) keeps the invariants, with `name` pushed on the stack;
/// the top of the new stack depends on each of its dependencies.
proof fn lemma_enter(
    tasks: Seq<(String, TomlValue)>,
    name: Seq<char>,
    state: Seq<NodeState>,
    done: Seq<Seq<char>>,
    stack: Seq<Seq<char>>,
)
    requires
        visit_inv(tasks, state, done),
        stack_inv(tasks, state, stack),
        stack.len() > 0 ==> depends_on(tasks, stack.last(), name),
        task_definition(tasks, name) is Ok,
        key_position(tasks, name) matches Some(idx) && state[idx] == NodeState::Univisited,
    ensures
        ({
            let idx = key_position(tasks, name).unwrap();
            let marked = state.update(idx, NodeState::Visiting);
            let pushed = stack.push(name);
            let deps = task_definition(tasks, name)->Ok_0.1;
            &&& visit_inv(tasks, marked, done)
            &&& stack_inv(tasks, marked, pushed)
            &&& unvisited(marked) + 1 == unvisited(state)
            &&& forall|k: int|
                0 <= k < deps.len() ==> depends_on(tasks, pushed.last(), #[trigger] deps[k])
        }),
{
    let (command, deps) = task_definition(tasks, name)->Ok_0;
    lemma_position(tasks, name, name);
    let idx = key_position(tasks, name).unwrap();
            let marked = state.update(idx, NodeState::Visiting);
            let pushed = stack.push(name);
            lemma_unvisited_mark(state, idx, NodeState::Visiting);
            assert(visit_inv(tasks, marked, done)) by {
                assert forall|i: int| 0 <= i < done.len() implies #[trigger] visited_at(tasks, marked, done[i]) by {
                    assert(visited_at(tasks, state, done[i]));
                    let p = key_position(tasks, done[i]).unwrap();
                    assert(state[p] == NodeState::Visited);
                }
            }
            assert(stack_inv(tasks, marked, pushed)) by {
                assert forall|p: int| 0 <= p < marked.len() && marked[p] == NodeState::Visiting implies exists|k: int|
                    0 <= k < pushed.len() && #[trigger] key_position(tasks, pushed[k]) == Some(p) by {
                    if p == idx {
                        assert(key_position(tasks, pushed[stack.len() as int]) == Some(p));
                    } else {
                        let k = choose|k: int| 0 <= k < stack.len() && key_position(tasks, stack[k]) == Some(p);
                        assert(pushed[k] == stack[k]);
                    }
                }
                assert forall|j: int| 0 <= j < pushed.len() - 1 implies #[trigger] depends_on(
                    tasks,
                    pushed[j],
                    pushed[j + 1],
                ) by {
                    if j < stack.len() - 1 {
                        assert(depends_on(tasks, stack[j], stack[j + 1]));
                    }
                }
            }
            assert forall|k: int| 0 <= k < deps.len() implies depends_on(tasks, pushed.last(), #[trigger] deps[k]) by {
                assert(deps.contains(deps[k]));
            }
}

/// A visit of a dependency of the top of the stack reports a circular dependency only for
/// a task that is on a cycle.
proof fn lemma_visit_circular(
    tasks: Seq<(String, TomlValue)>,
    name: Seq<char>,
    state: Seq<NodeState>,
    done: Seq<Seq<char>>,
    stack: Seq<Seq<char>>,
    fuel: nat,
)
    requires
        visit_inv(tasks, state, done),
        stack_inv(tasks, state, stack),
        stack.len() > 0 ==> depends_on(tasks, stack.last(), name),
        fuel > unvisited(state),
    ensures
        visit(tasks, name, state, done, fuel) matches Err(ErrorView::CircularDependency(n))
            ==> on_cycle(tasks, n),
    decreases fuel, 0int, 0int,
{
    if let Ok((command, deps)) = task_definition(tasks, name) {
        lemma_position(tasks, name, name);
        let idx = key_position(tasks, name).unwrap();
        if state[idx] == NodeState::Visiting {
            let k = choose|k: int| 0 <= k < stack.len() && key_position(tasks, stack[k]) == Some(idx);
            lemma_position(tasks, stack[k], name);
            let p = stack.subrange(k, stack.len() as int).push(name);
            assert(p[0] == name);
            assert forall|j: int| 0 <= j < p.len() - 1 implies #[trigger] depends_on(
                tasks,
                p[j],
                p[j + 1],
            ) by {
                if j < p.len() - 2 {
                    assert(depends_on(tasks, stack[k + j], stack[k + j + 1]));
                } else {
                    assert(p[j] == stack.last());
                }
            }
            assert(is_dependency_chain(tasks, p));
        } else if state[idx] == NodeState::Univisited {
            let marked = state.update(idx, NodeState::Visiting);
            let pushed = stack.push(name);
            lemma_enter(tasks, name, state, done, stack);
            lemma_visit_each_circular(tasks, deps, 0, marked, done, pushed, (fuel - 1) as nat);
        }
    }
}

/// A pass over dependencies of the top of the stack reports a circular dependency only for
/// a task that is on a cycle.
proof fn lemma_visit_each_circular(
    tasks: Seq<(String, TomlValue)>,
    deps: Seq<Seq<char>>,
    i: nat,
    state: Seq<NodeState>,
    done: Seq<Seq<char>>,
    stack: Seq<Seq<char>>,
    fuel: nat,
)
    requires
        visit_inv(tasks, state, done),
        stack_inv(tasks, state, stack),
        stack.len() > 0,
        forall|k: int| 0 <= k < deps.len() ==> depends_on(tasks, stack.last(), #[trigger] deps[k]),
        fuel > unvisited(state),
    ensures
        visit_each(tasks, deps, i, state, done, fuel) matches Err(
            ErrorView::CircularDependency(n),
        ) ==> on_cycle(tasks, n),
    decreases fuel, 1int, deps.len() - i,
{
    if i < deps.len() {
        lemma_visit_circular(tasks, deps[i as int], state, done, stack, fuel);
        if visit(tasks, deps[i as int], state, done, fuel) is Ok {
            lemma_visit_ok(tasks, deps[i as int], state, done, fuel);
            let (s0, d0) = visit(tasks, deps[i as int], state, done, fuel)->Ok_0;
            assert(keeps_marks(state, s0));
            lemma_unvisited_shrinks(state, s0);
            assert(stack_inv(tasks, s0, stack)) by {
                assert forall|p: int| 0 <= p < s0.len() && s0[p] == NodeState::Visiting implies exists|k: int|
                    0 <= k < stack.len() && #[trigger] key_position(tasks, stack[k]) == Some(p) by {
                    assert(state[p] == NodeState::Visiting);
                }
            }
            lemma_visit_each_circular(tasks, deps, i + 1, s0, d0, stack, fuel);
        }
    }
}

/// Resolution reports a circular dependency only for a task that depends, directly or
/// through other tasks, on itself.
pub proof fn law_circular_dependency_is_a_cycle(
    tasks: Seq<(String, TomlValue)>,
    task: Seq<char>,
    n: Seq<char>,
)
    requires
        resolved_tasks(tasks, task) == Err::<Seq<Seq<char>>, ErrorView>(
            ErrorView::CircularDependency(n),
        ),
    ensures
        on_cycle(tasks, n),
{
    let fresh = fresh_states(tasks.len());
    lemma_unvisited_fresh(tasks.len() as nat);
    lemma_visit_circular(
        tasks,
        task,
        fresh,
        Seq::<Seq<char>>::empty(),
        Seq::<Seq<char>>::empty(),
        (tasks.len() + 1) as nat,
    );
}

/// A task that depends, directly or through other tasks, on itself never resolves.
pub proof fn law_cycle_never_resolves(tasks: Seq<(String, TomlValue)>, task: Seq<char>)
    requires
        on_cycle(tasks, task),
    ensures
        resolved_tasks(tasks, task) is Err,
{
    if resolved_tasks(tasks, task) is Ok {
        law_resolution_orders_dependencies(tasks, task);
        let names = resolved_tasks(tasks, task)->Ok_0;
        let p = choose|p: Seq<Seq<char>>|
            p.len() >= 2 && p[0] == task && p.last() == task && #[trigger] is_dependency_chain(
                tasks,
                p,
            );
        lemma_chain_descends(tasks, names, p, p.len() - 1);
        let a = choose|a: int| 0 <= a < names.len() && names[a] == p[0];
        let b = choose|b: int| 0 <= b < names.len() && names[b] == p[p.len() - 1];
        assert(b < a);
        assert(names[a] == names[b]);
    }
}

/// Following a dependency chain back from a resolved task goes strictly earlier in the
/// resolved order.
proof fn lemma_chain_descends(
    tasks: Seq<(String, TomlValue)>,
    names: Seq<Seq<char>>,
    p: Seq<Seq<char>>,
    k: int,
)
    requires
        dependency_ordered(tasks, names),
        is_dependency_chain(tasks, p),
        names.contains(p[0]),
        0 <= k < p.len(),
    ensures
        exists|a: int, b: int|
            0 <= a < names.len() && 0 <= b < names.len() && names[a] == p[0] && names[b] == p[k]
                && (k > 0 ==> b < a),
    decreases k,
{
    if k == 0 {
        let a = choose|a: int| 0 <= a < names.len() && names[a] == p[0];
        assert(names[a] == p[0] && names[a] == p[k]);
    } else {
        lemma_chain_descends(tasks, names, p, k - 1);
        let (a, b) = choose|a: int, b: int|
            0 <= a < names.len() && 0 <= b < names.len() && names[a] == p[0] && names[b] == p[k
                - 1] && (k - 1 > 0 ==> b < a);
        let j = k - 1;
        assert(depends_on(tasks, p[j], p[j + 1]));
        assert(p[j + 1] == p[k]);
        assert(depends_on(tasks, names[b], p[k]));
        let c = choose|c: int| 0 <= c < b && names[c] == p[k];
        assert(0 <= a < names.len() && 0 <= c < names.len() && names[a] == p[0] && names[c]
            == p[k] && c < a);
    }
}

/// A task that depends on nothing resolves to its own command alone.
pub proof fn law_independent_task_runs_alone(
    tasks: Seq<(String, TomlValue)>,
    task: Seq<char>,
    command: Seq<char>,
)
    requires
        task_definition(tasks, task) == Ok::<(Seq<char>, Seq<Seq<char>>), ErrorView>(
            (command, Seq::empty()),
        ),
    ensures
        resolution(tasks, task) == Ok::<Seq<Seq<char>>, ErrorView>(seq![command]),
{
    let fresh = fresh_states(tasks.len());
    lemma_position(tasks, task, task);
    let idx = key_position(tasks, task).unwrap();
    assert(fresh[idx] == NodeState::Univisited);
    let names = seq![task];
    assert(Seq::<Seq<char>>::empty().push(task) == names);
    assert(commands_of(tasks, names) =~= seq![command]);
}

proof fn lemma_visit_missing(
    tasks: Seq<(String, TomlValue)>,
    name: Seq<char>,
    state: Seq<NodeState>,
    done: Seq<Seq<char>>,
    fuel: nat,
)
    ensures
        visit(tasks, name, state, done, fuel) matches Err(ErrorView::TaskNotFound(x)) ==> lookup(
            tasks,
            x,
        ) is None,
    decreases fuel, 0int, 0int,
{
    if fuel > 0 {
        if let Ok((command, deps)) = task_definition(tasks, name) {
            let idx = key_position(tasks, name).unwrap();
            let marked = state.update(idx, NodeState::Visiting);
            lemma_visit_each_missing(tasks, deps, 0, marked, done, (fuel - 1) as nat);
        }
    }
}

proof fn lemma_visit_each_missing(
    tasks: Seq<(String, TomlValue)>,
    deps: Seq<Seq<char>>,
    i: nat,
    state: Seq<NodeState>,
    done: Seq<Seq<char>>,
    fuel: nat,
)
    ensures
        visit_each(tasks, deps, i, state, done, fuel) matches Err(ErrorView::TaskNotFound(x))
            ==> lookup(tasks, x) is None,
    decreases fuel, 1int, deps.len() - i,
{
    if i < deps.len() {
        lemma_visit_missing(tasks, deps[i as int], state, done, fuel);
        if let Ok((s, d)) = visit(tasks, deps[i as int], state, done, fuel) {
            lemma_visit_each_missing(tasks, deps, i + 1, s, d, fuel);
        }
    }
}

/// Resolution reports a missing task only for a name that the jakefile does not define.
pub proof fn law_missing_task_is_undefined(
    tasks: Seq<(String, TomlValue)>,
    task: Seq<char>,
    missing: Seq<char>,
)
    requires
        resolved_tasks(tasks, task) == Err::<Seq<Seq<char>>, ErrorView>(
            ErrorView::TaskNotFound(missing),
        ),
    ensures
        lookup(tasks, missing) is None,
{
    lemma_visit_missing(
        tasks,
        task,
        fresh_states(tasks.len()),
        Seq::<Seq<char>>::empty(),
        (tasks.len() + 1) as nat,
    );
}

/// Every task that the jakefile lists can be looked up by its name, and resolving it never
/// reports it missing.
pub proof fn law_listed_tasks_are_found(tasks: Seq<(String, TomlValue)>, name: Seq<char>)
    requires
        keys_of(tasks).contains(name),
    ensures
        lookup(tasks, name) is Some,
        resolved_tasks(tasks, name) != Err::<Seq<Seq<char>>, ErrorView>(
            ErrorView::TaskNotFound(name),
        ),
{
    let i = choose|i: int| 0 <= i < keys_of(tasks).len() && keys_of(tasks)[i] == name;
    assert(tasks[i].0@ == name);
    assert(key_position(tasks, name) is Some) by {
        reveal(key_position);
    }
    if resolved_tasks(tasks, name) == Err::<Seq<Seq<char>>, ErrorView>(
        ErrorView::TaskNotFound(name),
    ) {
        law_missing_task_is_undefined(tasks, name, name);
    }
}

/// Once a task has been resolved, resolving it again from the states and tasks that the
/// first resolution left changes nothing: the task is already visited.
pub proof fn law_second_resolution_is_noop(
    tasks: Seq<(String, TomlValue)>,
    task: Seq<char>,
    state: Seq<NodeState>,
    done: Seq<Seq<char>>,
    fuel: nat,
    fuel2: nat,
)
    requires
        visit_inv(tasks, state, done),
        visit(tasks, task, state, done, fuel) is Ok,
        fuel2 > 0,
    ensures
        visit(tasks, task, state, done, fuel) matches Ok((s, d)) && visit(tasks, task, s, d, fuel2)
            == Ok::<(Seq<NodeState>, Seq<Seq<char>>), ErrorView>((s, d)),
{
    lemma_visit_ok(tasks, task, state, done, fuel);
    let (s, d) = visit(tasks, task, state, done, fuel)->Ok_0;
    lemma_position(tasks, task, task);
    let idx = key_position(tasks, task).unwrap();
    let k = choose|k: int| 0 <= k < d.len() && d[k] == task;
    assert(visited_at(tasks, s, d[k]));
}

/// Resolution from scratch starts from the invariant that [`law_second_resolution_is_noop`]
/// asks for.
pub proof fn law_fresh_states_hold_invariant(tasks: Seq<(String, TomlValue)>)
    ensures
        visit_inv(tasks, fresh_states(tasks.len()), Seq::<Seq<char>>::empty()),
{
}

/// Task `n` can be reached from task `t` by following dependencies (`t` reaches itself).
pub open spec fn reaches(tasks: Seq<(String, TomlValue)>, t: Seq<char>, n: Seq<char>) -> bool {
    exists|p: Seq<Seq<char>>|
        p.len() >= 1 && p[0] == t && p.last() == n && #[trigger] is_dependency_chain(tasks, p)
}

/// Every task reachable from `t` has a definition and none of them is on a cycle.
pub open spec fn well_formed_from(tasks: Seq<(String, TomlValue)>, t: Seq<char>) -> bool {
    forall|n: Seq<char>|
        #[trigger] reaches(tasks, t, n) ==> task_definition(tasks, n) is Ok && !on_cycle(tasks, n)
}

proof fn lemma_reaches_step(
    tasks: Seq<(String, TomlValue)>,
    t: Seq<char>,
    a: Seq<char>,
    b: Seq<char>,
)
    requires
        reaches(tasks, t, a),
        depends_on(tasks, a, b),
    ensures
        reaches(tasks, t, b),
{
    let p = choose|p: Seq<Seq<char>>|
        p.len() >= 1 && p[0] == t && p.last() == a && #[trigger] is_dependency_chain(tasks, p);
    let q = p.push(b);
    assert forall|k: int| 0 <= k < q.len() - 1 implies #[trigger] depends_on(
        tasks,
        q[k],
        q[k + 1],
    ) by {
        if k < p.len() - 1 {
            assert(depends_on(tasks, p[k], p[k + 1]));
        }
    }
    assert(is_dependency_chain(tasks, q));
}

proof fn lemma_visit_resolves(
    tasks: Seq<(String, TomlValue)>,
    root: Seq<char>,
    name: Seq<char>,
    state: Seq<NodeState>,
    done: Seq<Seq<char>>,
    stack: Seq<Seq<char>>,
    fuel: nat,
)
    requires
        well_formed_from(tasks, root),
        reaches(tasks, root, name),
        visit_inv(tasks, state, done),
        stack_inv(tasks, state, stack),
        stack.len() > 0 ==> depends_on(tasks, stack.last(), name),
        fuel > unvisited(state),
    ensures
        visit(tasks, name, state, done, fuel) is Ok,
    decreases fuel, 0int, 0int,
{
    assert(task_definition(tasks, name) is Ok && !on_cycle(tasks, name));
    let (command, deps) = task_definition(tasks, name)->Ok_0;
    lemma_position(tasks, name, name);
    let idx = key_position(tasks, name).unwrap();
    if state[idx] == NodeState::Visiting {
        lemma_visit_circular(tasks, name, state, done, stack, fuel);
    } else if state[idx] == NodeState::Univisited {
        lemma_enter(tasks, name, state, done, stack);
        let marked = state.update(idx, NodeState::Visiting);
        let pushed = stack.push(name);
        lemma_visit_each_resolves(tasks, root, deps, 0, marked, done, pushed, (fuel - 1) as nat);
    }
}

proof fn lemma_visit_each_resolves(
    tasks: Seq<(String, TomlValue)>,
    root: Seq<char>,
    deps: Seq<Seq<char>>,
    i: nat,
    state: Seq<NodeState>,
    done: Seq<Seq<char>>,
    stack: Seq<Seq<char>>,
    fuel: nat,
)
    requires
        well_formed_from(tasks, root),
        stack.len() > 0,
        reaches(tasks, root, stack.last()),
        visit_inv(tasks, state, done),
        stack_inv(tasks, state, stack),
        forall|k: int| 0 <= k < deps.len() ==> depends_on(tasks, stack.last(), #[trigger] deps[k]),
        fuel > unvisited(state),
    ensures
        visit_each(tasks, deps, i, state, done, fuel) is Ok,
    decreases fuel, 1int, deps.len() - i,
{
    if i < deps.len() {
        let d = deps[i as int];
        assert(depends_on(tasks, stack.last(), d));
        lemma_reaches_step(tasks, root, stack.last(), d);
        lemma_visit_resolves(tasks, root, d, state, done, stack, fuel);
        lemma_visit_ok(tasks, d, state, done, fuel);
        let (s0, d0) = visit(tasks, d, state, done, fuel)->Ok_0;
        assert(keeps_marks(state, s0));
        lemma_unvisited_shrinks(state, s0);
        assert(stack_inv(tasks, s0, stack)) by {
            assert forall|p: int| 0 <= p < s0.len() && s0[p] == NodeState::Visiting implies exists|k: int|
                0 <= k < stack.len() && #[trigger] key_position(tasks, stack[k]) == Some(p) by {
                assert(state[p] == NodeState::Visiting);
            }
        }
        lemma_visit_each_resolves(tasks, root, deps, i + 1, s0, d0, stack, fuel);
    }
}

/// Cycle detection is complete: when every task reachable from `task` has a definition
/// and none of them depends, directly or through others, on itself, resolution succeeds.
pub proof fn law_well_formed_acyclic_resolves(tasks: Seq<(String, TomlValue)>, task: Seq<char>)
    requires
        well_formed_from(tasks, task),
    ensures
        resolved_tasks(tasks, task) is Ok,
{
    let p = seq![task];
    assert(is_dependency_chain(tasks, p));
    assert(reaches(tasks, task, task));
    lemma_unvisited_fresh(tasks.len() as nat);
    let fresh = fresh_states(tasks.len());
    let empty = Seq::<Seq<char>>::empty();
    assert(stack_inv(tasks, fresh, empty));
    lemma_visit_resolves(tasks, task, task, fresh, empty, empty, (tasks.len() + 1) as nat);
}

/// A task from which a cycle can be reached never resolves, whether or not it is on the
/// cycle itself.
pub proof fn law_reachable_cycle_never_resolves(
    tasks: Seq<(String, TomlValue)>,
    task: Seq<char>,
    n: Seq<char>,
)
    requires
        reaches(tasks, task, n),
        on_cycle(tasks, n),
    ensures
        resolved_tasks(tasks, task) is Err,
{
    if resolved_tasks(tasks, task) is Ok {
        law_resolution_orders_dependencies(tasks, task);
        let names = resolved_tasks(tasks, task)->Ok_0;
        assert(names[names.len() - 1] == task);
        let q = choose|q: Seq<Seq<char>>|
            q.len() >= 1 && q[0] == task && q.last() == n && #[trigger] is_dependency_chain(
                tasks,
                q,
            );
        lemma_chain_descends(tasks, names, q, q.len() - 1);
        assert(names.contains(n));
        let p = choose|p: Seq<Seq<char>>|
            p.len() >= 2 && p[0] == n && p.last() == n && #[trigger] is_dependency_chain(tasks, p);
        lemma_chain_descends(tasks, names, p, p.len() - 1);
        let a = choose|a: int| 0 <= a < names.len() && names[a] == p[0];
        let b = choose|b: int| 0 <= b < names.len() && names[b] == p[p.len() - 1];
        assert(b < a);
        assert(names[a] == names[b]);
    }
}

/// The task run when none is named is `default` wherever the jakefile defines it, at any
/// place in the file; only a jakefile without `default` runs its first task, and one
/// without tasks runs none.
pub proof fn law_default_task_is_chosen_first(tasks: Seq<(String, TomlValue)>)
    ensures
        keys_of(tasks).contains("default"@) ==> default_task(tasks) == Some("default"@),
        !keys_of(tasks).contains("default"@) && tasks.len() > 0 ==> default_task(tasks) == Some(
            tasks[0].0@,
        ),
        tasks.len() == 0 ==> default_task(tasks) is None,
{
    lemma_key_position_bounds(tasks, "default"@);
    if keys_of(tasks).contains("default"@) {
        let i = choose|i: int| 0 <= i < keys_of(tasks).len() && keys_of(tasks)[i] == "default"@;
        assert(tasks[i].0@ == "default"@);
        reveal(key_position);
        assert(key_position(tasks, "default"@) is Some);
    } else if let Some(p) = key_position(tasks, "default"@) {
        assert(keys_of(tasks)[p] == "default"@);
    }
}

/// Running a task hands over, for each resolved command in order, its words: the first as
/// the program and the rest as arguments; the task's own command, the last, gets after them
/// every word of the options, in order and with repeats. An empty task name hands over
/// nothing, and a failed resolution is the plan's error.
pub proof fn law_plan_is_the_command_words(
    tasks: Seq<(String, TomlValue)>,
    task: Seq<char>,
    flags: Seq<char>,
)
    requires
        runnable(tasks, task),
    ensures
        task.len() == 0 ==> command_plan(tasks, task, flags) == Ok::<
            Seq<(Seq<char>, Seq<Seq<char>>)>,
            ErrorView,
        >(Seq::empty()),
        task.len() > 0 ==> match resolution(tasks, task) {
            Ok(order) => command_plan(tasks, task, flags) matches Ok(plan) && plan.len()
                == order.len() && forall|i: int|
                0 <= i < order.len() ==> seq![(#[trigger] plan[i]).0] + plan[i].1 == words(order[i])
                    + (if i == order.len() - 1 {
                    words(flags)
                } else {
                    Seq::<Seq<char>>::empty()
                }),
            Err(e) => command_plan(tasks, task, flags) == Err::<
                Seq<(Seq<char>, Seq<Seq<char>>)>,
                ErrorView,
            >(e),
        },
{
    if task.len() > 0 {
        if let Ok(order) = resolution(tasks, task) {
            let plan = command_plan(tasks, task, flags)->Ok_0;
            assert forall|i: int| 0 <= i < order.len() implies seq![(#[trigger] plan[i]).0]
                + plan[i].1 == words(order[i]) + (if i == order.len() - 1 {
                words(flags)
            } else {
                Seq::<Seq<char>>::empty()
            }) by {
                let w = words(order[i]);
                assert(w.len() > 0);
                assert(seq![w[0]] + (w.drop_first() + (if i == order.len() - 1 {
                    words(flags)
                } else {
                    Seq::<Seq<char>>::empty()
                })) =~= w + (if i == order.len() - 1 {
                    words(flags)
                } else {
                    Seq::<Seq<char>>::empty()
                }));
            }
        }
    }
}

} // verus!
