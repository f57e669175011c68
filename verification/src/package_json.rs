//! Scripts of a `package.json`: reading them out of the parsed object, looking one up,
//! and running it.

use vstd::prelude::*;

use crate::entries::{
    find_key, key_position, keys_of, lemma_key_position_bounds, lemma_key_position_is,
    lemma_same_keys_position, lookup,
};
use crate::error::{ErrorView, JakeError};
use crate::json_data::{parse_json_object, parsed_json, JsonObject, JsonValue};
use crate::models::{handed, Executor};

verus! {

/// Script names and their commands.
pub type Scripts = Vec<(String, String)>;

/// Scripts by name and command text.
pub open spec fn scripts_view(s: Seq<(String, String)>) -> Seq<(Seq<char>, Seq<char>)> {
    s.map_values(|e: (String, String)| (e.0@, e.1@))
}

/// Whether every value of `entries` is a string.
pub open spec fn all_strings(entries: Seq<(String, JsonValue)>) -> bool {
    forall|i: int| 0 <= i < entries.len() ==> #[trigger] entries[i].1 is String
}

/// The text of a string value.
pub open spec fn string_text(v: JsonValue) -> Seq<char> {
    match v {
        JsonValue::String(s) => s@,
        _ => Seq::<char>::empty(),
    }
}

/// The scripts that a `package.json` object declares under `scripts`, or why there are none.
pub open spec fn declared_scripts(doc: Seq<(String, JsonValue)>) -> Result<
    Seq<(Seq<char>, Seq<char>)>,
    ErrorView,
> {
    match lookup(doc, "scripts"@) {
        None => Err(ErrorView::NoScripts),
        Some(JsonValue::Object(entries)) => if all_strings(entries@) {
            Ok(entries@.map_values(|e: (String, JsonValue)| (e.0@, string_text(e.1))))
        } else {
            Err(ErrorView::NonStringScript)
        },
        Some(_) => Err(ErrorView::ScriptsNotMap),
    }
}

/// Parses the text of a `package.json`; it must be a JSON object.
pub fn load_package_json(content: &str) -> (r: Result<JsonObject, JakeError>)
    ensures
        r is Ok <==> parsed_json(content@) is Some,
        r matches Ok(o) ==> parsed_json(content@) == Some(o),
        r matches Ok(o) ==> keys_of(o@).no_duplicates(),
        r matches Err(e) ==> e is Parse,
{
    parse_json_object(content)
}

/// The scripts of a `package.json` object: every value under `scripts` must be a string.
pub fn load_scripts(map: &JsonObject) -> (r: Result<Scripts, JakeError>)
    ensures
        match declared_scripts(map@) {
            Ok(s) => r matches Ok(v) && scripts_view(v@) == s,
            Err(e) => r matches Err(x) && x@ == e,
        },
{
    let key = String::from_str("scripts");
    match find_key(map, &key) {
        None => Err(JakeError::NoScripts),
        Some(p) => match &map[p].1 {
            JsonValue::Object(entries) => {
                let mut val_scripts: Scripts = Vec::new();
                let mut i: usize = 0;
                while i < entries.len()
                    invariant
                        lookup(map@, "scripts"@) == Some(JsonValue::Object(*entries)),
                        i <= entries.len(),
                        forall|j: int| 0 <= j < i ==> #[trigger] entries@[j].1 is String,
                        scripts_view(val_scripts@) == entries@.take(i as int).map_values(
                            |e: (String, JsonValue)| (e.0@, string_text(e.1)),
                        ),
                    decreases entries.len() - i,
                {
                    match &entries[i].1 {
                        JsonValue::String(val) => {
                            let ghost before = scripts_view(val_scripts@);
                            val_scripts.push((entries[i].0.clone(), val.clone()));
                            assert(scripts_view(val_scripts@) =~= before.push(
                                (entries@[i as int].0@, val@),
                            ));
                            assert(entries@.take(i + 1) =~= entries@.take(i as int).push(
                                entries@[i as int],
                            ));
                            assert(entries@.take(i + 1).map_values(
                                |e: (String, JsonValue)| (e.0@, string_text(e.1)),
                            ) =~= entries@.take(i as int).map_values(
                                |e: (String, JsonValue)| (e.0@, string_text(e.1)),
                            ).push((entries@[i as int].0@, val@)));
                        },
                        _ => {
                            assert(!all_strings(entries@));
                            return Err(JakeError::NonStringScript);
                        },
                    }
                    i = i + 1;
                }
                assert(entries@.take(entries.len() as int) =~= entries@);
                Ok(val_scripts)
            },
            _ => Err(JakeError::ScriptsNotMap),
        },
    }
}

/// The command of the script named `script_name`.
pub fn get_script_command(scripts: &Scripts, script_name: &String) -> (r: Result<
    String,
    JakeError,
>)
    ensures
        match lookup(scripts@, script_name@) {
            Some(command) => r matches Ok(c) && c@ == command@,
            None => r matches Err(x) && x@ == ErrorView::ScriptNotFound(script_name@),
        },
{
    match find_key(scripts, script_name) {
        Some(p) => Ok(scripts[p].1.clone()),
        None => Err(JakeError::ScriptNotFound(script_name.clone())),
    }
}

/// The command of the script named `script_name` in a `package.json` object, or why there
/// is none.
pub open spec fn script_for(doc: Seq<(String, JsonValue)>, script_name: Seq<char>) -> Result<
    Seq<char>,
    ErrorView,
> {
    match declared_scripts(doc) {
        Err(e) => Err(e),
        Ok(_) => match lookup(doc, "scripts"@) {
            Some(JsonValue::Object(entries)) => match lookup(entries@, script_name) {
                Some(v) => Ok(string_text(v)),
                None => Err(ErrorView::ScriptNotFound(script_name)),
            },
            _ => Err(ErrorView::NoScripts),
        },
    }
}

/// Looking a script up among the scripts read out of an object is looking it up in the
/// object's `scripts`.
proof fn lemma_script_lookup(
    doc: Seq<(String, JsonValue)>,
    scripts: Seq<(String, String)>,
    name: Seq<char>,
)
    requires
        declared_scripts(doc) == Ok::<Seq<(Seq<char>, Seq<char>)>, ErrorView>(
            scripts_view(scripts),
        ),
    ensures
        script_for(doc, name) == match lookup(scripts, name) {
            Some(c) => Ok::<Seq<char>, ErrorView>(c@),
            None => Err(ErrorView::ScriptNotFound(name)),
        },
{
    if let Some(JsonValue::Object(entries)) = lookup(doc, "scripts"@) {
        let listed = entries@.map_values(|e: (String, JsonValue)| (e.0@, string_text(e.1)));
        assert(scripts_view(scripts) == listed);
        assert(scripts.len() == scripts_view(scripts).len());
        assert forall|i: int| 0 <= i < scripts.len() implies #[trigger] scripts[i].0@
            == entries@[i].0@ by {
            assert(scripts_view(scripts)[i] == (scripts[i].0@, scripts[i].1@));
            assert(listed[i] == (entries@[i].0@, string_text(entries@[i].1)));
        }
        lemma_same_keys_position(scripts, entries@, name);
        lemma_key_position_bounds(entries@, name);
        if let Some(k) = key_position(entries@, name) {
            assert(scripts_view(scripts)[k] == (scripts[k].0@, scripts[k].1@));
            assert(listed[k] == (entries@[k].0@, string_text(entries@[k].1)));
        }
    }
}

/// The command of the script named `script_name` in a `package.json` text, or why there is
/// none.
pub fn script_command(package_json: &str, script_name: &String) -> (r: Result<
    String,
    JakeError,
>)
    ensures
        parsed_json(package_json@) is None ==> (r matches Err(e) && e is Parse),
        parsed_json(package_json@) matches Some(doc) ==> match script_for(doc@, script_name@) {
            Ok(c) => r matches Ok(x) && x@ == c,
            Err(e) => r matches Err(x) && x@ == e,
        },
{
    let map = load_package_json(package_json)?;
    let scripts = load_scripts(&map)?;
    proof {
        lemma_script_lookup(map@, scripts@, script_name@);
    }
    get_script_command(&scripts, script_name)
}

/// Runs the script named `script_name` of the `package.json` text with `executor`: the
/// command of [`script_command`], whole and with no further arguments, is handed over once
/// with `load_env`, and what the executor returns is the result. Where the script cannot
/// be had, its error is returned and nothing is run.
pub fn execute_script<E: Executor + ?Sized>(
    package_json: &str,
    script_name: String,
    load_env: bool,
    executor: &E,
) -> (r: Result<(), JakeError>)
    ensures
        parsed_json(package_json@) is None ==> (r matches Err(e) && e is Parse),
        parsed_json(package_json@) matches Some(doc) ==> match script_for(doc@, script_name@) {
            Ok(c) => handed(executor, c, Seq::<Seq<char>>::empty(), load_env, r),
            Err(e) => r matches Err(x) && x@ == e,
        },
{
    let command = script_command(package_json, &script_name)?;
    let program = command.as_str();
    let no_args: Vec<&str> = Vec::new();
    let ghost handed_args = no_args;
    assert(handed_args.deep_view() =~= Seq::<Seq<char>>::empty());
    let r = executor.execute(program, no_args, load_env);
    assert(call_ensures(E::execute, (executor, program, handed_args, load_env), r));
    r
}

/// The scripts are read from the object's `scripts` entry wherever it stands among the
/// object's keys: where that entry is an object of strings, its entries are the scripts, in
/// order; each script name gives the text of its first entry, and a name that no entry has
/// is not found.
pub proof fn law_scripts_are_read_wherever_they_stand(
    doc: Seq<(String, JsonValue)>,
    i: int,
    entries: Vec<(String, JsonValue)>,
    name: Seq<char>,
)
    requires
        0 <= i < doc.len(),
        doc[i].0@ == "scripts"@,
        forall|j: int| 0 <= j < i ==> doc[j].0@ != "scripts"@,
        doc[i].1 == JsonValue::Object(entries),
        forall|k: int| 0 <= k < entries.len() ==> #[trigger] entries@[k].1 is String,
    ensures
        declared_scripts(doc) == Ok::<Seq<(Seq<char>, Seq<char>)>, ErrorView>(
            Seq::new(entries.len() as nat, |k: int| (entries@[k].0@, entries@[k].1->String_0@)),
        ),
        forall|k: int|
            0 <= k < entries.len() && entries@[k].0@ == name && (forall|m: int|
                0 <= m < k ==> entries@[m].0@ != name) ==> script_for(doc, name) == Ok::<
                Seq<char>,
                ErrorView,
            >(#[trigger] entries@[k].1->String_0@),
        (forall|k: int| 0 <= k < entries.len() ==> #[trigger] entries@[k].0@ != name) ==> script_for(
            doc,
            name,
        ) == Err::<Seq<char>, ErrorView>(ErrorView::ScriptNotFound(name)),
{
    lemma_key_position_is(doc, "scripts"@, i);
    assert(lookup(doc, "scripts"@) == Some(JsonValue::Object(entries)));
    assert(all_strings(entries@));
    assert(entries@.map_values(|e: (String, JsonValue)| (e.0@, string_text(e.1))) =~= Seq::new(
        entries.len() as nat,
        |k: int| (entries@[k].0@, entries@[k].1->String_0@),
    ));
    assert forall|k: int|
        0 <= k < entries.len() && entries@[k].0@ == name && (forall|m: int|
            0 <= m < k ==> entries@[m].0@ != name) implies script_for(doc, name) == Ok::<
        Seq<char>,
        ErrorView,
    >(#[trigger] entries@[k].1->String_0@) by {
        lemma_key_position_is(entries@, name, k);
    }
    if forall|k: int| 0 <= k < entries.len() ==> #[trigger] entries@[k].0@ != name {
        lemma_key_position_bounds(entries@, name);
    }
}

/// Why an object has no scripts: it has no `scripts` entry; or its first `scripts` entry,
/// wherever it stands, is not an object; or that object holds a value that is not a string.
pub proof fn law_script_errors(doc: Seq<(String, JsonValue)>, i: int)
    requires
        0 <= i <= doc.len(),
        forall|j: int| 0 <= j < i ==> doc[j].0@ != "scripts"@,
    ensures
        i == doc.len() ==> declared_scripts(doc) == Err::<Seq<(Seq<char>, Seq<char>)>, ErrorView>(
            ErrorView::NoScripts,
        ),
        i < doc.len() && doc[i].0@ == "scripts"@ && !(doc[i].1 is Object) ==> declared_scripts(doc)
            == Err::<Seq<(Seq<char>, Seq<char>)>, ErrorView>(ErrorView::ScriptsNotMap),
        i < doc.len() && doc[i].0@ == "scripts"@ && (doc[i].1 matches JsonValue::Object(entries)
            && exists|k: int| 0 <= k < entries.len() && !(#[trigger] entries@[k].1 is String))
            ==> declared_scripts(doc) == Err::<Seq<(Seq<char>, Seq<char>)>, ErrorView>(
            ErrorView::NonStringScript,
        ),
{
    if i == doc.len() {
        lemma_key_position_bounds(doc, "scripts"@);
    } else if doc[i].0@ == "scripts"@ {
        lemma_key_position_is(doc, "scripts"@, i);
    }
}

} // verus!
