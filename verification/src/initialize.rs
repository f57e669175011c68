//! A boilerplate jakefile: one placeholder task for each comma-separated name.

use vstd::prelude::*;

use crate::text::{split_at_char, split_on};

verus! {

/// The placeholder definition of task `name`: a command that says the task has none yet.
pub open spec fn task_stub(name: Seq<char>) -> Seq<char> {
    name + " = \"echo 'No task yet for "@ + name + "'\"\n"@
}

/// The placeholder definitions of `names`, one line each, in order.
pub open spec fn task_stubs(names: Seq<Seq<char>>) -> Seq<char>
    decreases names.len(),
{
    if names.len() == 0 {
        Seq::<char>::empty()
    } else {
        task_stubs(names.drop_last()) + task_stub(names.last())
    }
}

/// The boilerplate jakefile for the comma-separated task names in `tasks`.
pub fn parse_tasks(tasks: &str) -> (content: String)
    ensures
        content@ == task_stubs(split_on(tasks@, ',')),
{
    let split_off = split_at_char(tasks, ',');
    let ghost names = split_off.deep_view();
    let mut content = String::new();
    let mut i: usize = 0;
    assert(names.take(0) =~= Seq::<Seq<char>>::empty());
    while i < split_off.len()
        invariant
            names == split_off.deep_view(),
            i <= split_off.len(),
            content@ == task_stubs(names.take(i as int)),
        decreases split_off.len() - i,
    {
        let split = split_off[i].as_str();
        assert(names.take(i + 1).drop_last() =~= names.take(i as int));
        assert(names.take(i + 1).last() == split@);
        content.append(split);
        content.append(" = \"echo 'No task yet for ");
        content.append(split);
        content.append("'\"\n");
        i = i + 1;
    }
    assert(names.take(split_off.len() as int) =~= names);
    content
}

/// Where `jake --init` writes when no path is given.
pub open spec fn default_jakefile_path() -> Seq<char> {
    "jakefile.toml"@
}

/// The path and the content of the boilerplate jakefile for `tasks`: the given path, or
/// `jakefile.toml` in the working directory.
pub fn prepare_jakefile(tasks: &str, path: Option<String>) -> (r: (String, String))
    ensures
        r.0@ == match path {
            Some(p) => p@,
            None => default_jakefile_path(),
        },
        r.1@ == task_stubs(split_on(tasks@, ',')),
{
    let jakefile_path = match path {
        None => String::from_str("jakefile.toml"),
        Some(p) => p,
    };
    (jakefile_path, parse_tasks(tasks))
}

/// The boilerplate holds one placeholder line per name, in the order of the names, and
/// nothing else.
pub proof fn law_one_stub_per_name(names: Seq<Seq<char>>)
    ensures
        task_stubs(names) == names.map_values(|n: Seq<char>| task_stub(n)).flatten(),
    decreases names.len(),
{
    let lines = names.map_values(|n: Seq<char>| task_stub(n));
    lines.lemma_flatten_and_flatten_alt_are_equivalent();
    if names.len() > 0 {
        law_one_stub_per_name(names.drop_last());
        let rest = names.drop_last().map_values(|n: Seq<char>| task_stub(n));
        rest.lemma_flatten_and_flatten_alt_are_equivalent();
        assert(lines.drop_last() =~= rest);
        assert(lines.last() == task_stub(names.last()));
    } else {
        assert(lines.len() == 0);
    }
}

} // verus!
