use std::cell::RefCell;

use jake::error::JakeError;
use jake::load::{
    execute_command, execute_default_command, invocations_before_blank, is_runnable, list_jakefile_tasks, parse_jakefile,
    plan_command, resolve_execution_order, task_to_task_node,
};
use jake::models::{command_line, Executor};
use jake::toml_data::TomlValue;

const JAKEFILE: &str = r#"say-hello = { command = "echo 'hello'" }
say-hello-back = { command = "echo 'hello back'" }
say-bye = { command = "echo 'bye'", depends_on = ["say-hello", "say-hello-back"] }
list = "ls"
strcmd = "echo ciao"
wrongcommand = { command = 1 }
env_var = "echo $HELLO"
"#;

const WITH_DEFAULT: &str = r#"default = { command = "true" }
error = 42
nocommand = { depends_on = ["default"] }
"#;

const DEPS: &str = r#"circular = { command = "echo circular", depends_on = ["middle"] }
middle = { command = "echo middle", depends_on = ["circular"] }
no-exist = { command = "echo no", depends_on = ["no-deps"] }
wrong = 42
calls-wrong = { command = "echo calls", depends_on = ["wrong"] }
nocmd = { depends_on = [] }
calls-command = { command = "echo x", depends_on = ["nocmd"] }
"#;

/// Records every command line it is asked to run, as the original mock wrote it to a file.
struct MockCommandExecutor {
    log: RefCell<Vec<String>>,
}

impl MockCommandExecutor {
    fn new() -> Self {
        MockCommandExecutor { log: RefCell::new(Vec::new()) }
    }

    fn last(&self) -> String {
        self.log.borrow().last().cloned().unwrap_or_default()
    }
}

impl Executor for MockCommandExecutor {
    fn execute(&self, main_command: &str, args: Vec<&str>, _load_env: bool) -> Result<(), JakeError> {
        let full_command = main_command.to_owned() + " " + &args.join(" ");
        self.log.borrow_mut().push(full_command);
        Ok(())
    }
}

/// Stands in for the program's shell executor: accepts every command.
struct CommandExecutor {
    log: RefCell<Vec<String>>,
}

impl CommandExecutor {
    fn new() -> Self {
        CommandExecutor { log: RefCell::new(Vec::new()) }
    }
}

impl Executor for CommandExecutor {
    fn execute(&self, main_command: &str, args: Vec<&str>, _load_env: bool) -> Result<(), JakeError> {
        self.log.borrow_mut().push(command_line(main_command, &args));
        Ok(())
    }
}

struct FailingExecutor;

impl Executor for FailingExecutor {
    fn execute(&self, main_command: &str, _args: Vec<&str>, _load_env: bool) -> Result<(), JakeError> {
        Err(JakeError::Execution(format!("cannot run {}", main_command)))
    }
}

fn table(text: &str) -> Vec<(String, TomlValue)> {
    parse_jakefile(text).expect("the fixture parses")
}

fn run(text: &str, task: &str, flags: &str, executor: &impl Executor, load_env: bool) -> Result<(), JakeError> {
    let tasks = table(text);
    assert!(is_runnable(&tasks, task));
    execute_command(&tasks, task, flags, executor, load_env)
}

fn err_message(r: Result<(), JakeError>) -> String {
    r.expect_err("an error was expected").message()
}

#[test]
fn test_parse_jakefile() {
    let t = table(JAKEFILE);
    let keys: Vec<&str> = t.iter().map(|(k, _)| k.as_str()).collect();
    for k in ["say-hello", "say-hello-back", "say-bye", "list", "strcmd"] {
        assert!(keys.contains(&k));
    }
    let get = |k: &str| &t.iter().find(|(n, _)| n == k).unwrap().1;
    match get("say-hello") {
        TomlValue::Table(d) => {
            assert!(d.iter().any(|(k, _)| k == "command"));
            assert!(!d.iter().any(|(k, _)| k == "depends_on"));
        }
        _ => panic!("say-hello is not a table"),
    }
    match get("say-bye") {
        TomlValue::Table(d) => {
            assert!(d.iter().any(|(k, _)| k == "command"));
            assert!(d.iter().any(|(k, _)| k == "depends_on"));
        }
        _ => panic!("say-bye is not a table"),
    }
    match get("strcmd") {
        TomlValue::String(s) => assert_eq!(s, "echo ciao"),
        _ => panic!("strcmd is not a string"),
    }
}

#[test]
fn parse_jakefile_rejects_invalid_toml() {
    let r = parse_jakefile("this is = = not toml");
    assert!(matches!(r, Err(JakeError::Parse(_))));
    let r = parse_jakefile("a = 1\na = 2\n");
    assert!(matches!(r, Err(JakeError::Parse(_))));
}

#[test]
fn load_test_mock_command_execution() {
    let mock_executor = MockCommandExecutor::new();
    let result = run(JAKEFILE, "list", "-la /hello/something", &mock_executor, false);
    assert!(result.is_ok());
    assert_eq!(mock_executor.last().trim(), "ls -la /hello/something");
    let result_1 = run(JAKEFILE, "list", "", &mock_executor, false);
    assert!(result_1.is_ok());
    assert_eq!(mock_executor.last().trim(), "ls");
    let result_2 = execute_default_command(&table(JAKEFILE), "", &mock_executor, false);
    assert!(result_2.is_ok());
    assert_eq!(mock_executor.last().trim(), "echo 'hello'");
    let result_3 = execute_default_command(&table(WITH_DEFAULT), "", &mock_executor, false);
    assert!(result_3.is_ok());
    assert_eq!(mock_executor.last().trim(), "true");
    let result_4 = run(JAKEFILE, "strcmd", "", &mock_executor, false);
    assert!(result_4.is_ok());
    assert_eq!(mock_executor.last().trim(), "echo ciao");
}

#[test]
fn load_test_command_execution() {
    let executor = CommandExecutor::new();
    let result = run(JAKEFILE, "say-hello", "", &executor, false);
    assert!(result.is_ok());
}

#[test]
fn test_command_execution_task_not_found() {
    let executor = CommandExecutor::new();
    let result = run(JAKEFILE, "say-ciao", "", &executor, false);
    assert_eq!(
        err_message(result),
        "Task say-ciao does not exist. Please define it within you jakefile.toml file".to_string()
    );
}

#[test]
fn test_command_execution_unexpected_format() {
    let executor = CommandExecutor::new();
    let result = run(WITH_DEFAULT, "error", "", &executor, false);
    assert_eq!(err_message(result), "Unsupported value for the task's command".to_string());
}

#[test]
fn test_command_execution_no_command() {
    let executor = CommandExecutor::new();
    let result = run(WITH_DEFAULT, "nocommand", "", &executor, false);
    assert_eq!(
        err_message(result),
        "`command` key not available for the requested task: ensure that there are no typos and the TOML syntax is correct before running again".to_string()
    );
}

#[test]
fn test_command_execution_wrong_command() {
    let executor = CommandExecutor::new();
    let result = run(JAKEFILE, "wrongcommand", "", &executor, false);
    assert_eq!(err_message(result), "Unsupported value for the task's command".to_string());
}

#[test]
fn test_command_execution_with_deps() {
    let executor = CommandExecutor::new();
    let result = run(JAKEFILE, "say-bye", "", &executor, false);
    assert!(result.is_ok());
    assert_eq!(
        *executor.log.borrow(),
        vec!["echo 'hello'".to_string(), "echo 'hello back'".to_string(), "echo 'bye'".to_string()]
    );
}

#[test]
fn test_command_execution_from_str() {
    let executor = CommandExecutor::new();
    let result = run(JAKEFILE, "strcmd", "", &executor, false);
    assert!(result.is_ok());
}

#[test]
fn test_default_command_with_default() {
    let executor = CommandExecutor::new();
    let result = execute_default_command(&table(WITH_DEFAULT), "", &executor, false);
    assert!(result.is_ok());
}

#[test]
fn test_default_command_first_key() {
    let executor = CommandExecutor::new();
    let result = execute_default_command(&table(JAKEFILE), "", &executor, false);
    assert!(result.is_ok());
    assert_eq!(*executor.log.borrow(), vec!["echo 'hello'".to_string()]);
}

#[test]
fn default_command_without_tasks() {
    let executor = CommandExecutor::new();
    let result = execute_default_command(&table(""), "", &executor, false);
    assert_eq!(err_message(result), "could not find any task within jakefile");
}

#[test]
fn test_circular_deps_detection() {
    let executor = CommandExecutor::new();
    let result = run(DEPS, "circular", "", &executor, false);
    assert_eq!(
        err_message(result),
        "Circular dependency issue detected with task circular".to_string()
    );
    assert!(executor.log.borrow().is_empty());
}

#[test]
fn self_dependency_is_circular() {
    let tasks = table("me = { command = \"true\", depends_on = [\"me\"] }\n");
    let r = resolve_execution_order(&tasks, "me");
    assert!(matches!(r, Err(JakeError::CircularDependency(ref t)) if t == "me"));
}

#[test]
fn test_dependency_not_found() {
    let executor = CommandExecutor::new();
    let result = run(DEPS, "no-exist", "", &executor, false);
    assert_eq!(
        err_message(result),
        "Task no-deps does not exist. Please define it within you jakefile.toml file".to_string()
    );
}

#[test]
fn test_dependency_wrong_type() {
    let executor = CommandExecutor::new();
    let result = run(DEPS, "calls-wrong", "", &executor, false);
    assert_eq!(err_message(result), "Unsupported value for the task's command".to_string());
}

#[test]
fn test_dependency_wrong_command_syntax() {
    let executor = CommandExecutor::new();
    let result = run(DEPS, "calls-command", "", &executor, false);
    assert_eq!(
        err_message(result),
        "`command` key not available for the requested task: ensure that there are no typos and the TOML syntax is correct before running again".to_string()
    );
}

#[test]
fn test_command_load_dotenv_variable() {
    let executor = CommandExecutor::new();
    let result = run(JAKEFILE, "env_var", "", &executor, true);
    assert!(result.is_ok());
}

#[test]
fn test_list_jakefile_tasks() {
    let tasks = list_jakefile_tasks(JAKEFILE).expect("Should be able to list tasks");
    let expected_tasks: Vec<String> = vec![
        "say-hello".to_string(),
        "say-hello-back".to_string(),
        "say-bye".to_string(),
        "list".to_string(),
        "strcmd".to_string(),
        "wrongcommand".to_string(),
        "env_var".to_string(),
    ];
    assert_eq!(tasks.len(), expected_tasks.len());
    for task in &expected_tasks {
        assert!(tasks.contains(task))
    }
    assert_eq!(tasks, expected_tasks);
}

#[test]
fn list_jakefile_tasks_reports_parse_errors() {
    assert!(matches!(list_jakefile_tasks("[unclosed"), Err(JakeError::Parse(_))));
}

#[test]
fn resolution_runs_dependencies_first_and_once() {
    let text = r#"a = { command = "echo a", depends_on = ["b", "c", "b"] }
b = { command = "echo b", depends_on = ["d"] }
c = { command = "echo c", depends_on = ["d", 7] }
d = "echo d"
"#;
    let order = resolve_execution_order(&table(text), "a").unwrap();
    assert_eq!(order, vec!["echo d", "echo b", "echo c", "echo a"]);
}

#[test]
fn dependencies_of_a_task_node() {
    let text = r#"a = { command = "echo a", depends_on = ["b", "c", "b", true] }"#;
    let node = task_to_task_node(&table(text), "a").unwrap();
    assert_eq!(node.command, "echo a");
    assert_eq!(node.dependencies, vec!["b", "c"]);
    let text = r#"a = { command = "echo a", depends_on = "b" }"#;
    let node = task_to_task_node(&table(text), "a").unwrap();
    assert!(node.dependencies.is_empty());
}

#[test]
fn options_go_to_the_last_command_only() {
    let plan = plan_command(&table(JAKEFILE), "say-bye", "  -n   x ").unwrap();
    let lines: Vec<(String, Vec<String>)> = plan.into_iter().map(|i| (i.program, i.args)).collect();
    assert_eq!(
        lines,
        vec![
            ("echo".to_string(), vec!["'hello'".to_string()]),
            ("echo".to_string(), vec!["'hello".to_string(), "back'".to_string()]),
            ("echo".to_string(), vec!["'bye'".to_string(), "-n".to_string(), "x".to_string()]),
        ]
    );
}

#[test]
fn empty_task_runs_nothing() {
    let executor = CommandExecutor::new();
    assert!(run(JAKEFILE, "", "-x", &executor, false).is_ok());
    assert!(executor.log.borrow().is_empty());
}

#[test]
fn blank_command_is_not_runnable() {
    let tasks = table("blank = \"   \"\nok = \"true\"\nuses = { command = \"true\", depends_on = [\"blank\"] }\n");
    assert!(!is_runnable(&tasks, "blank"));
    assert!(!is_runnable(&tasks, "uses"));
    assert!(is_runnable(&tasks, "ok"));
    assert!(is_runnable(&tasks, "missing"));
}

#[test]
fn executor_failure_stops_the_run() {
    let result = run(JAKEFILE, "say-bye", "", &FailingExecutor, false);
    assert_eq!(err_message(result), "cannot run echo");
}

#[test]
fn every_listed_task_is_found() {
    let tasks = table(DEPS);
    for name in list_jakefile_tasks(DEPS).unwrap() {
        match resolve_execution_order(&tasks, &name) {
            Err(JakeError::TaskNotFound(missing)) => assert_ne!(missing, name),
            _ => {}
        }
    }
}

#[test]
fn independent_task_runs_alone() {
    assert_eq!(resolve_execution_order(&table(JAKEFILE), "strcmd").unwrap(), vec!["echo ciao"]);
    assert_eq!(resolve_execution_order(&table(JAKEFILE), "say-hello").unwrap(), vec!["echo 'hello'"]);
}

#[test]
fn commands_before_a_blank_one() {
    let tasks = table(
        "blank = \"   \"\nok = \"echo ok\"\nuses = { command = \"true\", depends_on = [\"ok\", \"blank\"] }\n",
    );
    let prefix = invocations_before_blank(&tasks, "uses");
    let lines: Vec<(String, Vec<String>)> = prefix.into_iter().map(|i| (i.program, i.args)).collect();
    assert_eq!(lines, vec![("echo".to_string(), vec!["ok".to_string()])]);
    assert!(invocations_before_blank(&tasks, "blank").is_empty());
    assert!(invocations_before_blank(&tasks, "missing").is_empty());
}

#[test]
fn cycle_below_the_task_is_reported() {
    let tasks = table(
        "top = { command = \"true\", depends_on = [\"x\"] }\nx = { command = \"echo x\", depends_on = [\"y\"] }\ny = { command = \"echo y\", depends_on = [\"x\"] }\n",
    );
    let r = resolve_execution_order(&tasks, "top");
    assert!(matches!(r, Err(JakeError::CircularDependency(ref t)) if t == "x"));
}

#[test]
fn listed_task_names_are_distinct() {
    let tasks = list_jakefile_tasks(DEPS).unwrap();
    let mut sorted = tasks.clone();
    sorted.sort();
    sorted.dedup();
    assert_eq!(sorted.len(), tasks.len());
}
