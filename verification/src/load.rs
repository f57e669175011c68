//! Jakefile tasks: reading a task's definition, resolving its dependencies depth-first
//! with detection of circular dependencies, and turning the result into commands to run.

use vstd::prelude::*;

use crate::error::{ErrorView, JakeError};
use crate::models::{first_occurrences, handed, ran_in_order, Executor, Invocation, NodeState, TaskNode};
use crate::text::{split_words, words};
use crate::entries::{entry_keys, find_key, key_position, keys_of, lookup};
use crate::toml_data::{parse_toml, parsed_toml, TomlTable, TomlValue};

verus! {

/// The string items of an array, in order; items of other types are skipped.
pub open spec fn string_items(items: Seq<TomlValue>) -> Seq<Seq<char>>
    decreases items.len(),
{
    if items.len() == 0 {
        Seq::<Seq<char>>::empty()
    } else {
        let r = string_items(items.drop_last());
        match items.last() {
            TomlValue::String(s) => r.push(s@),
            _ => r,
        }
    }
}

/// The dependencies that a task table lists under `depends_on`: the string items of that
/// array, or none where the key is missing or not an array.
pub open spec fn listed_dependencies(table: Seq<(String, TomlValue)>) -> Seq<Seq<char>> {
    match lookup(table, "depends_on"@) {
        Some(TomlValue::Array(items)) => string_items(items@),
        _ => Seq::<Seq<char>>::empty(),
    }
}

/// The definition of task `name` in `tasks`: its command and its dependencies (each once),
/// or why there is none.
pub open spec fn task_definition(tasks: Seq<(String, TomlValue)>, name: Seq<char>) -> Result<
    (Seq<char>, Seq<Seq<char>>),
    ErrorView,
> {
    match lookup(tasks, name) {
        None => Err(ErrorView::TaskNotFound(name)),
        Some(TomlValue::Table(table)) => match lookup(table@, "command"@) {
            None => Err(ErrorView::NoCommandKey),
            Some(TomlValue::String(c)) => Ok((c@, first_occurrences(listed_dependencies(table@)))),
            Some(_) => Err(ErrorView::UnsupportedCommand),
        },
        Some(TomlValue::String(c)) => Ok((c@, Seq::<Seq<char>>::empty())),
        Some(_) => Err(ErrorView::UnsupportedCommand),
    }
}

/// The string items of `items`.
fn collect_string_items(items: &Vec<TomlValue>) -> (r: Vec<String>)
    ensures
        r.deep_view() == string_items(items@),
{
    let mut r: Vec<String> = Vec::new();
    let mut i: usize = 0;
    assert(items@.take(0) =~= Seq::<TomlValue>::empty());
    while i < items.len()
        invariant
            i <= items.len(),
            r.deep_view() == string_items(items@.take(i as int)),
        decreases items.len() - i,
    {
        assert(items@.take(i + 1).drop_last() =~= items@.take(i as int));
        assert(items@.take(i + 1).last() == items@[i as int]);
        match &items[i] {
            TomlValue::String(s) => {
                let ghost before = r.deep_view();
                r.push(s.clone());
                assert(r.deep_view() =~= before.push(s@));
            },
            _ => {},
        }
        i = i + 1;
    }
    assert(items@.take(items.len() as int) =~= items@);
    r
}

/// The dependencies that `table` lists under `depends_on`.
fn dependencies_of(table: &Vec<(String, TomlValue)>) -> (r: Vec<String>)
    ensures
        r.deep_view() == listed_dependencies(table@),
{
    let deps_key = String::from_str("depends_on");
    match find_key(table, &deps_key) {
        Some(d) => match &table[d].1 {
            TomlValue::Array(items) => collect_string_items(items),
            _ => {
                let r: Vec<String> = Vec::new();
                assert(r.deep_view() =~= Seq::<Seq<char>>::empty());
                r
            },
        },
        None => {
            let r: Vec<String> = Vec::new();
            assert(r.deep_view() =~= Seq::<Seq<char>>::empty());
            r
        },
    }
}

/// The task that a table defines: its `command`, which must be a string, and its
/// `depends_on`.
fn table_task_node(table: &Vec<(String, TomlValue)>) -> (r: Result<TaskNode, JakeError>)
    ensures
        match lookup(table@, "command"@) {
            None => r matches Err(x) && x@ == ErrorView::NoCommandKey,
            Some(TomlValue::String(c)) => r matches Ok(node) && node.command@ == c@
                && node.dependencies.deep_view() == first_occurrences(listed_dependencies(table@))
                && node.wf(),
            Some(_) => r matches Err(x) && x@ == ErrorView::UnsupportedCommand,
        },
{
    let command_key = String::from_str("command");
    match find_key(table, &command_key) {
        None => Err(JakeError::NoCommandKey),
        Some(c) => {
            let dependencies = dependencies_of(table);
            match &table[c].1 {
                TomlValue::String(command) => Ok(TaskNode::new(command.clone(), dependencies)),
                _ => Err(JakeError::UnsupportedCommand),
            }
        },
    }
}

/// Reads the definition of `task` out of the jakefile's tasks.
pub fn task_to_task_node(tasks: &TomlTable, task: &str) -> (r: Result<TaskNode, JakeError>)
    ensures
        match task_definition(tasks@, task@) {
            Ok((command, deps)) => r matches Ok(node) && node.command@ == command
                && node.dependencies.deep_view() == deps && node.wf(),
            Err(e) => r matches Err(x) && x@ == e,
        },
{
    let name = String::from_str(task);
    match find_key(tasks, &name) {
        None => Err(JakeError::TaskNotFound(name)),
        Some(p) => match &tasks[p].1 {
            TomlValue::Table(table) => table_task_node(table),
            TomlValue::String(command) => {
                let node = TaskNode::new(command.clone(), Vec::new());
                assert(first_occurrences(Seq::<Seq<char>>::empty()) =~= Seq::<
                    Seq<char>,
                >::empty());
                Ok(node)
            },
            _ => Err(JakeError::UnsupportedCommand),
        },
    }
}

/// How many tasks have not been reached yet.
pub open spec fn unvisited(state: Seq<NodeState>) -> nat
    decreases state.len(),
{
    if state.len() == 0 {
        0
    } else {
        unvisited(state.drop_last()) + if state.last() == NodeState::Univisited {
            1nat
        } else {
            0nat
        }
    }
}

/// `after` keeps every mark of `before`: a task once reached is never unreached again.
pub open spec fn keeps_marks(before: Seq<NodeState>, after: Seq<NodeState>) -> bool {
    &&& after.len() == before.len()
    &&& forall|j: int|
        0 <= j < before.len() && before[j] != NodeState::Univisited ==> after[j]
            != NodeState::Univisited
}

pub proof fn lemma_unvisited_shrinks(before: Seq<NodeState>, after: Seq<NodeState>)
    requires
        keeps_marks(before, after),
    ensures
        unvisited(after) <= unvisited(before),
    decreases before.len(),
{
    if before.len() > 0 {
        let b = before.drop_last();
        let a = after.drop_last();
        assert forall|j: int| 0 <= j < b.len() && b[j] != NodeState::Univisited implies a[j]
            != NodeState::Univisited by {
            assert(before[j] == b[j] && after[j] == a[j]);
        }
        lemma_unvisited_shrinks(b, a);
        assert(before.last() == before[before.len() - 1]);
    }
}

pub proof fn lemma_unvisited_mark(state: Seq<NodeState>, i: int, s: NodeState)
    requires
        0 <= i < state.len(),
        state[i] == NodeState::Univisited,
        s != NodeState::Univisited,
    ensures
        unvisited(state.update(i, s)) + 1 == unvisited(state),
    decreases state.len(),
{
    let u = state.update(i, s);
    if i == state.len() - 1 {
        assert(u.drop_last() =~= state.drop_last());
    } else {
        lemma_unvisited_mark(state.drop_last(), i, s);
        assert(u.drop_last() =~= state.drop_last().update(i, s));
    }
}

/// The command of a task that has a definition.
pub open spec fn command_of(tasks: Seq<(String, TomlValue)>, name: Seq<char>) -> Seq<char> {
    match task_definition(tasks, name) {
        Ok((command, _)) => command,
        Err(_) => Seq::<char>::empty(),
    }
}

/// The commands of the named tasks, in order.
pub open spec fn commands_of(tasks: Seq<(String, TomlValue)>, names: Seq<Seq<char>>) -> Seq<
    Seq<char>,
> {
    names.map_values(|n: Seq<char>| command_of(tasks, n))
}

/// Depth-first resolution of task `name`: on success, the visiting states after it and the
/// tasks to run so far (`done` followed by the newly resolved ones), each task after its
/// dependencies. A task met again while its own dependencies are being resolved is a
/// circular dependency. `fuel` bounds the depth of the search; one more than the number of
/// unvisited tasks is always enough.
pub open spec fn visit(
    tasks: Seq<(String, TomlValue)>,
    name: Seq<char>,
    state: Seq<NodeState>,
    done: Seq<Seq<char>>,
    fuel: nat,
) -> Result<(Seq<NodeState>, Seq<Seq<char>>), ErrorView>
    decreases fuel, 0int, 0int,
{
    if fuel == 0 {
        Err(ErrorView::CircularDependency(name))
    } else {
        match task_definition(tasks, name) {
            Err(e) => Err(e),
            Ok((command, deps)) => {
                let idx = key_position(tasks, name).unwrap();
                if state[idx] == NodeState::Visited {
                    Ok((state, done))
                } else if state[idx] == NodeState::Visiting {
                    Err(ErrorView::CircularDependency(name))
                } else {
                    match visit_each(
                        tasks,
                        deps,
                        0,
                        state.update(idx, NodeState::Visiting),
                        done,
                        (fuel - 1) as nat,
                    ) {
                        Err(e) => Err(e),
                        Ok((s, d)) => Ok((s.update(idx, NodeState::Visited), d.push(name))),
                    }
                }
            },
        }
    }
}

/// Resolves `deps[i..]` in order, each from the states that the previous one left.
pub open spec fn visit_each(
    tasks: Seq<(String, TomlValue)>,
    deps: Seq<Seq<char>>,
    i: nat,
    state: Seq<NodeState>,
    done: Seq<Seq<char>>,
    fuel: nat,
) -> Result<(Seq<NodeState>, Seq<Seq<char>>), ErrorView>
    decreases fuel, 1int, deps.len() - i,
{
    if i >= deps.len() {
        Ok((state, done))
    } else {
        match visit(tasks, deps[i as int], state, done, fuel) {
            Err(e) => Err(e),
            Ok((s, d)) => visit_each(tasks, deps, i + 1, s, d, fuel),
        }
    }
}

/// The tasks resolved by a visit.
pub open spec fn visited_names(
    v: Result<(Seq<NodeState>, Seq<Seq<char>>), ErrorView>,
) -> Seq<Seq<char>> {
    match v {
        Ok((_, d)) => d,
        Err(_) => Seq::<Seq<char>>::empty(),
    }
}

/// The tasks whose commands a visit leaves appended, whether it succeeds or stops at an
/// error: on success those of [`visit`]; on an error, `done` followed by the tasks resolved
/// before the error.
pub open spec fn trail(
    tasks: Seq<(String, TomlValue)>,
    name: Seq<char>,
    state: Seq<NodeState>,
    done: Seq<Seq<char>>,
    fuel: nat,
) -> Seq<Seq<char>>
    decreases fuel, 0int, 0int,
{
    if fuel == 0 {
        done
    } else {
        match task_definition(tasks, name) {
            Err(_) => done,
            Ok((_, deps)) => {
                let idx = key_position(tasks, name).unwrap();
                if state[idx] != NodeState::Univisited {
                    done
                } else {
                    let marked = state.update(idx, NodeState::Visiting);
                    match visit_each(tasks, deps, 0, marked, done, (fuel - 1) as nat) {
                        Ok((_, d)) => d.push(name),
                        Err(_) => trail_each(tasks, deps, 0, marked, done, (fuel - 1) as nat),
                    }
                }
            },
        }
    }
}

/// The tasks whose commands a pass over `deps[i..]` leaves appended, as [`trail`].
pub open spec fn trail_each(
    tasks: Seq<(String, TomlValue)>,
    deps: Seq<Seq<char>>,
    i: nat,
    state: Seq<NodeState>,
    done: Seq<Seq<char>>,
    fuel: nat,
) -> Seq<Seq<char>>
    decreases fuel, 1int, deps.len() - i,
{
    if i >= deps.len() {
        done
    } else {
        match visit(tasks, deps[i as int], state, done, fuel) {
            Err(_) => trail(tasks, deps[i as int], state, done, fuel),
            Ok((s, d)) => trail_each(tasks, deps, i + 1, s, d, fuel),
        }
    }
}

/// Resolves `task` and its dependencies depth-first, appending the commands to run to
/// `execution_order` and recording the visiting states in `state_map` (one per task of
/// `tasks`, by position). `done` names the tasks whose commands `execution_order` holds.
fn resolve_dependencies(
    tasks: &TomlTable,
    task: &str,
    execution_order: &mut Vec<String>,
    state_map: &mut Vec<NodeState>,
    Ghost(done): Ghost<Seq<Seq<char>>>,
    Ghost(fuel): Ghost<nat>,
) -> (r: Result<(), JakeError>)
    requires
        old(state_map).len() == tasks.len(),
        fuel > unvisited(old(state_map)@),
        old(execution_order).deep_view() == commands_of(tasks@, done),
    ensures
        match visit(tasks@, task@, old(state_map)@, done, fuel) {
            Ok((s, d)) => r is Ok && final(state_map)@ == s
                && final(execution_order).deep_view() == commands_of(tasks@, d)
                && keeps_marks(old(state_map)@, s),
            Err(e) => r matches Err(x) && x@ == e && final(execution_order).deep_view()
                == commands_of(tasks@, trail(tasks@, task@, old(state_map)@, done, fuel)),
        },
    decreases fuel,
{
    let task_node = match task_to_task_node(tasks, task) {
        Ok(node) => node,
        Err(e) => return Err(e),
    };
    let name = String::from_str(task);
    let idx = match find_key(tasks, &name) {
        Some(i) => i,
        None => return Err(JakeError::TaskNotFound(name)),
    };
    let ghost state0 = state_map@;
    let ghost deps = task_node.dependencies.deep_view();
    if state_map[idx] == NodeState::Visited {
        return Ok(());
    } else if state_map[idx] == NodeState::Visiting {
        return Err(JakeError::CircularDependency(name));
    }
    state_map.set(idx, NodeState::Visiting);
    proof {
        lemma_unvisited_mark(state0, idx as int, NodeState::Visiting);
    }
    let ghost marked = state_map@;
    let ghost mut names = done;
    let mut i: usize = 0;
    while i < task_node.dependencies.len()
        invariant
            state0 == old(state_map)@,
            tasks.len() == state0.len(),
            idx < tasks.len(),
            0 < fuel,
            unvisited(marked) + 1 == unvisited(state0),
            fuel > unvisited(state0),
            marked == state0.update(idx as int, NodeState::Visiting),
            deps == task_node.dependencies.deep_view(),
            task_definition(tasks@, task@) == Ok::<(Seq<char>, Seq<Seq<char>>), ErrorView>(
                (task_node.command@, deps),
            ),
            key_position(tasks@, task@) == Some(idx as int),
            state0[idx as int] == NodeState::Univisited,
            i <= deps.len(),
            keeps_marks(marked, state_map@),
            execution_order.deep_view() == commands_of(tasks@, names),
            visit_each(tasks@, deps, 0, marked, done, (fuel - 1) as nat) == visit_each(
                tasks@,
                deps,
                i as nat,
                state_map@,
                names,
                (fuel - 1) as nat,
            ),
            trail_each(tasks@, deps, 0, marked, done, (fuel - 1) as nat) == trail_each(
                tasks@,
                deps,
                i as nat,
                state_map@,
                names,
                (fuel - 1) as nat,
            ),
        decreases deps.len() - i,
    {
        proof {
            lemma_unvisited_shrinks(marked, state_map@);
        }
        let ghost before_state = state_map@;
        let dep = &task_node.dependencies[i];
        let step = resolve_dependencies(
            tasks,
            dep.as_str(),
            execution_order,
            state_map,
            Ghost(names),
            Ghost((fuel - 1) as nat),
        );
        match step {
            Ok(()) => {},
            Err(e) => {
                assert(visit_each(tasks@, deps, i as nat, before_state, names, (fuel - 1) as nat)
                    == Err::<(Seq<NodeState>, Seq<Seq<char>>), ErrorView>(e@));
                assert(visit_each(tasks@, deps, 0, marked, done, (fuel - 1) as nat) == Err::<
                    (Seq<NodeState>, Seq<Seq<char>>),
                    ErrorView,
                >(e@));
                assert(visit(tasks@, task@, state0, done, fuel) == Err::<
                    (Seq<NodeState>, Seq<Seq<char>>),
                    ErrorView,
                >(e@));
                return Err(e);
            },
        }
        proof {
            names = visited_names(visit(tasks@, deps[i as int], before_state, names, (fuel - 1) as nat));
        }
        i = i + 1;
    }
    state_map.set(idx, NodeState::Visited);
    let ghost before_push = execution_order.deep_view();
    execution_order.push(task_node.command);
    assert(execution_order.deep_view() =~= before_push.push(task_node.command@));
    assert(commands_of(tasks@, names.push(task@)) =~= commands_of(tasks@, names).push(
        command_of(tasks@, task@),
    ));
    Ok(())
}

/// Every task unvisited, one state per task.
pub open spec fn fresh_states(n: nat) -> Seq<NodeState> {
    Seq::new(n, |i: int| NodeState::Univisited)
}

pub proof fn lemma_unvisited_fresh(n: nat)
    ensures
        unvisited(fresh_states(n)) == n,
    decreases n,
{
    if n > 0 {
        assert(fresh_states(n).drop_last() =~= fresh_states((n - 1) as nat));
        lemma_unvisited_fresh((n - 1) as nat);
    }
}

/// The tasks to run for `name`, dependencies first, each task once; or the first problem
/// met on the way.
pub open spec fn resolved_tasks(tasks: Seq<(String, TomlValue)>, name: Seq<char>) -> Result<
    Seq<Seq<char>>,
    ErrorView,
> {
    match visit(tasks, name, fresh_states(tasks.len()), Seq::empty(), (tasks.len() + 1) as nat) {
        Ok((_, names)) => Ok(names),
        Err(e) => Err(e),
    }
}

/// The commands to run for `name`: those of [`resolved_tasks`], in the same order.
pub open spec fn resolution(tasks: Seq<(String, TomlValue)>, name: Seq<char>) -> Result<
    Seq<Seq<char>>,
    ErrorView,
> {
    match resolved_tasks(tasks, name) {
        Ok(names) => Ok(commands_of(tasks, names)),
        Err(e) => Err(e),
    }
}

/// The commands to run for `task`, dependencies first.
pub fn resolve_execution_order(tasks: &TomlTable, task: &str) -> (r: Result<
    Vec<String>,
    JakeError,
>)
    ensures
        match resolution(tasks@, task@) {
            Ok(order) => r matches Ok(v) && v.deep_view() == order,
            Err(e) => r matches Err(x) && x@ == e,
        },
{
    let mut state_map: Vec<NodeState> = Vec::new();
    let mut i: usize = 0;
    while i < tasks.len()
        invariant
            i <= tasks.len(),
            state_map@ == fresh_states(i as nat),
        decreases tasks.len() - i,
    {
        state_map.push(NodeState::Univisited);
        assert(state_map@ =~= fresh_states((i + 1) as nat));
        i = i + 1;
    }
    let mut execution_order: Vec<String> = Vec::new();
    assert(execution_order.deep_view() =~= commands_of(tasks@, Seq::<Seq<char>>::empty()));
    proof {
        lemma_unvisited_fresh(tasks.len() as nat);
    }
    match resolve_dependencies(
        tasks,
        task,
        &mut execution_order,
        &mut state_map,
        Ghost(Seq::<Seq<char>>::empty()),
        Ghost((tasks.len() + 1) as nat),
    ) {
        Ok(()) => Ok(execution_order),
        Err(e) => Err(e),
    }
}

/// The command to run for one resolved command: its first word is the program, its other
/// words and then `extra` are the arguments.
pub open spec fn invocation(command: Seq<char>, extra: Seq<Seq<char>>) -> (
    Seq<char>,
    Seq<Seq<char>>,
) {
    (words(command)[0], words(command).drop_first() + extra)
}

/// The invocations for the resolved commands; the options go to the last one, the task
/// itself.
pub open spec fn planned(order: Seq<Seq<char>>, options: Seq<Seq<char>>) -> Seq<
    (Seq<char>, Seq<Seq<char>>),
> {
    Seq::new(
        order.len(),
        |i: int|
            invocation(
                order[i],
                if i == order.len() - 1 {
                    options
                } else {
                    Seq::<Seq<char>>::empty()
                },
            ),
    )
}

/// Every command has at least one word.
pub open spec fn all_have_words(order: Seq<Seq<char>>) -> bool {
    forall|i: int| 0 <= i < order.len() ==> #[trigger] words(order[i]).len() > 0
}

/// Running `task` reaches no blank command (running a blank command has no program to
/// start).
pub open spec fn runnable(tasks: Seq<(String, TomlValue)>, task: Seq<char>) -> bool {
    task.len() > 0 ==> (resolution(tasks, task) matches Ok(order) ==> all_have_words(order))
}

/// The invocations by program and arguments.
pub open spec fn invocations_view(v: Seq<Invocation>) -> Seq<(Seq<char>, Seq<Seq<char>>)> {
    v.map_values(|x: Invocation| (x.program@, x.args.deep_view()))
}

/// What running `task` with the options `flags` comes to: nothing for an empty task name,
/// otherwise the invocations for its resolved commands.
pub open spec fn command_plan(
    tasks: Seq<(String, TomlValue)>,
    task: Seq<char>,
    flags: Seq<char>,
) -> Result<Seq<(Seq<char>, Seq<Seq<char>>)>, ErrorView> {
    if task.len() == 0 {
        Ok(Seq::empty())
    } else {
        match resolution(tasks, task) {
            Ok(order) => Ok(planned(order, words(flags))),
            Err(e) => Err(e),
        }
    }
}

/// Whether running `task` reaches no blank command.
pub fn is_runnable(tasks: &TomlTable, task: &str) -> (b: bool)
    ensures
        b == runnable(tasks@, task@),
{
    if task.is_empty() {
        return true;
    }
    match resolve_execution_order(tasks, task) {
        Err(_) => true,
        Ok(order) => {
            let mut i: usize = 0;
            while i < order.len()
                invariant
                    task@.len() > 0,
                    resolution(tasks@, task@) == Ok::<Seq<Seq<char>>, ErrorView>(
                        order.deep_view(),
                    ),
                    i <= order.len(),
                    forall|j: int| 0 <= j < i ==> #[trigger] words(order.deep_view()[j]).len() > 0,
                decreases order.len() - i,
            {
                let ws = split_words(order[i].as_str());
                if ws.len() == 0 {
                    assert(words(order.deep_view()[i as int]).len() == 0);
                    assert(!all_have_words(order.deep_view()));
                    return false;
                }
                i = i + 1;
            }
            true
        },
    }
}

/// Borrows each text of `v`.
fn borrow_all(v: &Vec<String>) -> (r: Vec<&str>)
    ensures
        r.deep_view() == v.deep_view(),
{
    let mut r: Vec<&str> = Vec::new();
    let mut i: usize = 0;
    while i < v.len()
        invariant
            i <= v.len(),
            r.deep_view() == v.deep_view().take(i as int),
        decreases v.len() - i,
    {
        let ghost before = r.deep_view();
        r.push(v[i].as_str());
        assert(r.deep_view() =~= before.push(v[i as int]@));
        assert(v.deep_view().take(i + 1) =~= v.deep_view().take(i as int).push(v[i as int]@));
        i = i + 1;
    }
    assert(v.deep_view().take(v.len() as int) =~= v.deep_view());
    r
}

/// The invocation for one command: its words, then `extra`.
fn invocation_for(command: &String, extra: &Vec<String>) -> (r: Invocation)
    requires
        words(command@).len() > 0,
    ensures
        (r.program@, r.args.deep_view()) == invocation(command@, extra.deep_view()),
{
    let mut parts = split_words(command.as_str());
    let ghost ws = parts.deep_view();
    let program = parts.remove(0);
    assert(parts.deep_view() =~= ws.drop_first());
    let mut i: usize = 0;
    while i < extra.len()
        invariant
            i <= extra.len(),
            parts.deep_view() == ws.drop_first() + extra.deep_view().take(i as int),
        decreases extra.len() - i,
    {
        let ghost before = parts.deep_view();
        parts.push(extra[i].clone());
        assert(parts.deep_view() =~= before.push(extra[i as int]@));
        assert(extra.deep_view().take(i + 1) =~= extra.deep_view().take(i as int).push(
            extra[i as int]@,
        ));
        i = i + 1;
    }
    assert(extra.deep_view().take(extra.len() as int) =~= extra.deep_view());
    Invocation { program, args: parts }
}

/// The invocations that running `task` with the options `flags` comes to.
pub fn plan_command(tasks: &TomlTable, task: &str, flags: &str) -> (r: Result<
    Vec<Invocation>,
    JakeError,
>)
    requires
        runnable(tasks@, task@),
    ensures
        match command_plan(tasks@, task@, flags@) {
            Ok(plan) => r matches Ok(v) && invocations_view(v@) == plan,
            Err(e) => r matches Err(x) && x@ == e,
        },
{
    let mut plan: Vec<Invocation> = Vec::new();
    if task.is_empty() {
        assert(invocations_view(plan@) =~= Seq::<(Seq<char>, Seq<Seq<char>>)>::empty());
        return Ok(plan);
    }
    let cmd_options: Vec<String> = if flags.is_empty() {
        let v: Vec<String> = Vec::new();
        assert(v.deep_view() =~= words(flags@));
        v
    } else {
        split_words(flags)
    };
    let execution_order = match resolve_execution_order(tasks, task) {
        Ok(order) => order,
        Err(e) => return Err(e),
    };
    let no_options: Vec<String> = Vec::new();
    assert(no_options.deep_view() =~= Seq::<Seq<char>>::empty());
    let ghost order = execution_order.deep_view();
    let n = execution_order.len();
    let mut i: usize = 0;
    while i < n
        invariant
            n == execution_order.len(),
            order == execution_order.deep_view(),
            all_have_words(order),
            no_options.deep_view() == Seq::<Seq<char>>::empty(),
            i <= n,
            invocations_view(plan@) == planned(order, cmd_options.deep_view()).take(i as int),
        decreases n - i,
    {
        assert(words(order[i as int]).len() > 0);
        let inv = if i + 1 == n {
            invocation_for(&execution_order[i], &cmd_options)
        } else {
            invocation_for(&execution_order[i], &no_options)
        };
        let ghost before = invocations_view(plan@);
        plan.push(inv);
        assert(invocations_view(plan@) =~= before.push((inv.program@, inv.args.deep_view())));
        assert(planned(order, cmd_options.deep_view()).take(i + 1) =~= planned(
            order,
            cmd_options.deep_view(),
        ).take(i as int).push(planned(order, cmd_options.deep_view())[i as int]));
        i = i + 1;
    }
    assert(planned(order, cmd_options.deep_view()).take(n as int) =~= planned(
        order,
        cmd_options.deep_view(),
    ));
    Ok(plan)
}

/// The invocations for the resolved commands of `task` up to, not including, the first
/// command that has no word: what runs before a blank command is reached. Nothing where
/// the resolution fails.
pub fn invocations_before_blank(tasks: &TomlTable, task: &str) -> (r: Vec<Invocation>)
    ensures
        match resolution(tasks@, task@) {
            Ok(order) => {
                &&& r@.len() <= order.len()
                &&& forall|i: int| 0 <= i < r@.len() ==> #[trigger] words(order[i]).len() > 0
                &&& forall|i: int|
                    #![trigger r@[i]]
                    0 <= i < r@.len() ==> (r@[i].program@, r@[i].args.deep_view()) == invocation(
                        order[i],
                        Seq::<Seq<char>>::empty(),
                    )
                &&& r@.len() < order.len() ==> words(order[r@.len() as int]).len() == 0
            },
            Err(_) => r@.len() == 0,
        },
{
    let mut prefix: Vec<Invocation> = Vec::new();
    let execution_order = match resolve_execution_order(tasks, task) {
        Ok(order) => order,
        Err(_) => return prefix,
    };
    let ghost order = execution_order.deep_view();
    let no_options: Vec<String> = Vec::new();
    assert(no_options.deep_view() =~= Seq::<Seq<char>>::empty());
    let mut i: usize = 0;
    while i < execution_order.len()
        invariant
            order == execution_order.deep_view(),
            resolution(tasks@, task@) == Ok::<Seq<Seq<char>>, ErrorView>(order),
            no_options.deep_view() == Seq::<Seq<char>>::empty(),
            i <= execution_order.len(),
            prefix@.len() == i,
            forall|j: int| 0 <= j < i ==> #[trigger] words(order[j]).len() > 0,
            forall|j: int|
                #![trigger prefix@[j]]
                0 <= j < i ==> (prefix@[j].program@, prefix@[j].args.deep_view()) == invocation(
                    order[j],
                    Seq::<Seq<char>>::empty(),
                ),
        decreases execution_order.len() - i,
    {
        let ws = split_words(execution_order[i].as_str());
        assert(ws.deep_view().len() == ws@.len());
        assert(execution_order[i as int]@ == order[i as int]);
        if ws.len() == 0 {
            assert(words(order[i as int]).len() == 0);
            return prefix;
        }
        assert(words(order[i as int]).len() > 0);
        let inv = invocation_for(&execution_order[i], &no_options);
        let ghost before = prefix@;
        prefix.push(inv);
        assert(prefix@[i as int] == inv);
        assert((inv.program@, inv.args.deep_view()) == invocation(order[i as int], Seq::<Seq<char>>::empty()));
        assert forall|j: int| 0 <= j < i implies prefix@[j] == before[j] by {}
        i = i + 1;
    }
    prefix
}

/// Runs the invocations in order with `executor`, stopping at the first that fails and
/// returning its error.
fn run_plan<E: Executor + ?Sized>(plan: &Vec<Invocation>, executor: &E, load_env: bool) -> (r: Result<
    (),
    JakeError,
>)
    ensures
        ran_in_order(executor, invocations_view(plan@), load_env, r),
{
    let ghost pl = invocations_view(plan@);
    let mut i: usize = 0;
    while i < plan.len()
        invariant
            i <= plan.len(),
            pl == invocations_view(plan@),
            forall|j: int|
                0 <= j < i ==> handed(executor, (#[trigger] pl[j]).0, pl[j].1, load_env, Ok(())),
        decreases plan.len() - i,
    {
        let inv = &plan[i];
        let program = inv.program.as_str();
        let args = borrow_all(&inv.args);
        let ghost handed_args = args;
        let outcome = executor.execute(program, args, load_env);
        assert(call_ensures(E::execute, (executor, program, handed_args, load_env), outcome));
        assert(pl[i as int] == (program@, handed_args.deep_view()));
        match outcome {
            Ok(u) => {
                assert(outcome == Ok::<(), JakeError>(u));
                assert(handed(executor, pl[i as int].0, pl[i as int].1, load_env, Ok(())));
            },
            Err(e) => {
                assert(handed(executor, pl[i as int].0, pl[i as int].1, load_env, Err(e)));
                return Err(e);
            },
        }
        i = i + 1;
    }
    Ok(())
}

/// Runs `task` of the jakefile after its dependencies, each task once, with `executor`;
/// the options in `flags` are passed to the task's own command. The invocations of
/// [`command_plan`] go to the executor in order until one fails, whose error is returned
/// unchanged; `Ok` means that each of them came back `Ok`. Where the resolution fails its
/// error is returned before anything is run; an empty task name runs nothing.
pub fn execute_command<E: Executor + ?Sized>(
    jakefile: &TomlTable,
    task: &str,
    flags: &str,
    executor: &E,
    load_env: bool,
) -> (r: Result<(), JakeError>)
    requires
        runnable(jakefile@, task@),
    ensures
        match command_plan(jakefile@, task@, flags@) {
            Ok(plan) => ran_in_order(executor, plan, load_env, r),
            Err(e) => r matches Err(x) && x@ == e,
        },
        command_plan(jakefile@, task@, flags@) == Ok::<
            Seq<(Seq<char>, Seq<Seq<char>>)>,
            ErrorView,
        >(Seq::empty()) ==> r is Ok,
{
    let plan = match plan_command(jakefile, task, flags) {
        Ok(p) => p,
        Err(e) => return Err(e),
    };
    assert(plan@.len() == invocations_view(plan@).len());
    run_plan(&plan, executor, load_env)
}

/// The task run when none is named: `default` where the jakefile defines it, otherwise the
/// first task of the file.
pub open spec fn default_task(tasks: Seq<(String, TomlValue)>) -> Option<Seq<char>> {
    if lookup(tasks, "default"@) is Some {
        Some("default"@)
    } else if tasks.len() > 0 {
        Some(tasks[0].0@)
    } else {
        None
    }
}

/// The name of the task run when none is named (see [`default_task`]).
pub fn default_task_name(jakefile: &TomlTable) -> (r: Option<String>)
    ensures
        match default_task(jakefile@) {
            Some(t) => r matches Some(n) && n@ == t,
            None => r is None,
        },
{
    let default_key = String::from_str("default");
    if find_key(jakefile, &default_key).is_some() {
        Some(default_key)
    } else if jakefile.len() > 0 {
        Some(jakefile[0].0.clone())
    } else {
        None
    }
}

/// Runs the default task (see [`default_task`]) as [`execute_command`] runs it when it is
/// named; a jakefile without tasks gives `NoTasks`.
pub fn execute_default_command<E: Executor + ?Sized>(
    jakefile: &TomlTable,
    flags: &str,
    executor: &E,
    load_env: bool,
) -> (r: Result<(), JakeError>)
    requires
        default_task(jakefile@) matches Some(t) ==> runnable(jakefile@, t),
    ensures
        default_task(jakefile@) is None ==> (r matches Err(x) && x@ == ErrorView::NoTasks),
        default_task(jakefile@) matches Some(t) ==> match command_plan(jakefile@, t, flags@) {
            Ok(plan) => ran_in_order(executor, plan, load_env, r),
            Err(e) => r matches Err(x) && x@ == e,
        },
{
    match default_task_name(jakefile) {
        Some(task) => execute_command(jakefile, task.as_str(), flags, executor, load_env),
        None => Err(JakeError::NoTasks),
    }
}

/// Parses the text of a jakefile.
pub fn parse_jakefile(content: &str) -> (r: Result<TomlTable, JakeError>)
    ensures
        r is Ok <==> parsed_toml(content@) is Some,
        r matches Ok(t) ==> parsed_toml(content@) == Some(t),
        r matches Ok(t) ==> keys_of(t@).no_duplicates(),
        r matches Err(e) ==> e is Parse,
{
    parse_toml(content)
}

/// The names of the tasks of a jakefile text, in the order of the file.
pub fn list_jakefile_tasks(content: &str) -> (r: Result<Vec<String>, JakeError>)
    ensures
        match parsed_toml(content@) {
            Some(t) => r matches Ok(v) && v.deep_view() == keys_of(t@)
                && v.deep_view().no_duplicates(),
            None => r matches Err(e) && e is Parse,
        },
{
    let parsed = parse_jakefile(content)?;
    Ok(entry_keys(&parsed))
}

} // verus!
