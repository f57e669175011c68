//! The errors of the library, their abstract view and their messages.

use vstd::prelude::*;

verus! {

/// A file that is looked up in the working directory and its ancestors.
#[derive(Debug, Clone, Copy, PartialEq, Eq, Structural)]
pub enum Lookup {
    Dotenv,
    Jakefile,
    PackageJson,
}

/// Everything that can go wrong while locating, reading, resolving or running tasks.
#[derive(Debug)]
pub enum JakeError {
    /// The file was found neither in the working directory nor in an ancestor.
    NotLocated(Lookup),
    /// An explicitly given jakefile path does not exist.
    JakefileMissing,
    /// Reading or writing a file failed; the payload is the system's message.
    Io(String),
    /// The TOML or JSON text did not parse; the payload is the parser's message.
    Parse(String),
    /// The named task has no entry in the jakefile.
    TaskNotFound(String),
    /// A task given as a table has no `command` key.
    NoCommandKey,
    /// A task's command is neither a string nor a table whose `command` is a string.
    UnsupportedCommand,
    /// The named task was reached again while its own dependencies were being resolved.
    CircularDependency(String),
    /// The jakefile defines no task at all.
    NoTasks,
    /// A `package.json` script is not a string.
    NonStringScript,
    /// The `scripts` entry of a `package.json` is not an object.
    ScriptsNotMap,
    /// A `package.json` has no `scripts` entry.
    NoScripts,
    /// The named script is not among the `package.json` scripts.
    ScriptNotFound(String),
    /// Running a command failed; the payload is the executor's message.
    Execution(String),
}

/// The abstract value of a [`JakeError`]: texts are taken by their characters.
pub enum ErrorView {
    NotLocated(Lookup),
    JakefileMissing,
    Io(Seq<char>),
    Parse(Seq<char>),
    TaskNotFound(Seq<char>),
    NoCommandKey,
    UnsupportedCommand,
    CircularDependency(Seq<char>),
    NoTasks,
    NonStringScript,
    ScriptsNotMap,
    NoScripts,
    ScriptNotFound(Seq<char>),
    Execution(Seq<char>),
}

impl View for JakeError {
    type V = ErrorView;

    open spec fn view(&self) -> ErrorView {
        match self {
            JakeError::NotLocated(l) => ErrorView::NotLocated(*l),
            JakeError::JakefileMissing => ErrorView::JakefileMissing,
            JakeError::Io(m) => ErrorView::Io(m@),
            JakeError::Parse(m) => ErrorView::Parse(m@),
            JakeError::TaskNotFound(t) => ErrorView::TaskNotFound(t@),
            JakeError::NoCommandKey => ErrorView::NoCommandKey,
            JakeError::UnsupportedCommand => ErrorView::UnsupportedCommand,
            JakeError::CircularDependency(t) => ErrorView::CircularDependency(t@),
            JakeError::NoTasks => ErrorView::NoTasks,
            JakeError::NonStringScript => ErrorView::NonStringScript,
            JakeError::ScriptsNotMap => ErrorView::ScriptsNotMap,
            JakeError::NoScripts => ErrorView::NoScripts,
            JakeError::ScriptNotFound(s) => ErrorView::ScriptNotFound(s@),
            JakeError::Execution(m) => ErrorView::Execution(m@),
        }
    }
}

/// How a looked-up file is named in messages.
pub open spec fn lookup_name(l: Lookup) -> Seq<char> {
    match l {
        Lookup::Dotenv => "a .env file"@,
        Lookup::Jakefile => "jakefile.toml"@,
        Lookup::PackageJson => "package.json"@,
    }
}

/// The message that an error is reported with.
pub open spec fn message_text(e: ErrorView) -> Seq<char> {
    match e {
        ErrorView::NotLocated(l) => "Could not find "@ + lookup_name(l)
            + " in the current directory or in any of its ancestors"@,
        ErrorView::JakefileMissing => "jakefile.toml does not exist"@,
        ErrorView::Io(m) => m,
        ErrorView::Parse(m) => m,
        ErrorView::TaskNotFound(t) => "Task "@ + t
            + " does not exist. Please define it within you jakefile.toml file"@,
        ErrorView::NoCommandKey => "`command` key not available for the requested task: ensure that there are no typos and the TOML syntax is correct before running again"@,
        ErrorView::UnsupportedCommand => "Unsupported value for the task's command"@,
        ErrorView::CircularDependency(t) => "Circular dependency issue detected with task "@ + t,
        ErrorView::NoTasks => "could not find any task within jakefile"@,
        ErrorView::NonStringScript => "Encountered a non-string value."@,
        ErrorView::ScriptsNotMap => "`scripts` is not a JSON map."@,
        ErrorView::NoScripts => "Cannot find the `scripts` key in package.json"@,
        ErrorView::ScriptNotFound(s) => "Could not find script "@ + s,
        ErrorView::Execution(m) => m,
    }
}

impl JakeError {
    /// The message that this error is reported with.
    pub fn message(&self) -> (r: String)
        ensures
            r@ == message_text(self@),
    {
        match self {
            JakeError::NotLocated(l) => {
                let mut r = String::from_str("Could not find ");
                match l {
                    Lookup::Dotenv => r.append("a .env file"),
                    Lookup::Jakefile => r.append("jakefile.toml"),
                    Lookup::PackageJson => r.append("package.json"),
                }
                r.append(" in the current directory or in any of its ancestors");
                r
            },
            JakeError::JakefileMissing => String::from_str("jakefile.toml does not exist"),
            JakeError::Io(m) => m.clone(),
            JakeError::Parse(m) => m.clone(),
            JakeError::TaskNotFound(t) => {
                let mut r = String::from_str("Task ");
                r.append(t.as_str());
                r.append(" does not exist. Please define it within you jakefile.toml file");
                r
            },
            JakeError::NoCommandKey => String::from_str(
                "`command` key not available for the requested task: ensure that there are no typos and the TOML syntax is correct before running again",
            ),
            JakeError::UnsupportedCommand => String::from_str(
                "Unsupported value for the task's command",
            ),
            JakeError::CircularDependency(t) => {
                let mut r = String::from_str("Circular dependency issue detected with task ");
                r.append(t.as_str());
                r
            },
            JakeError::NoTasks => String::from_str("could not find any task within jakefile"),
            JakeError::NonStringScript => String::from_str("Encountered a non-string value."),
            JakeError::ScriptsNotMap => String::from_str("`scripts` is not a JSON map."),
            JakeError::NoScripts => String::from_str(
                "Cannot find the `scripts` key in package.json",
            ),
            JakeError::ScriptNotFound(s) => {
                let mut r = String::from_str("Could not find script ");
                r.append(s.as_str());
                r
            },
            JakeError::Execution(m) => m.clone(),
        }
    }
}

} // verus!
