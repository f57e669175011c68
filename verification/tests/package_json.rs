use std::cell::RefCell;

use jake::error::JakeError;
use jake::json_data::JsonValue;
use jake::models::{command_line, Executor};
use jake::package_json::{
    execute_script, get_script_command, load_package_json, load_scripts, script_command,
};

const TEST_PACKAGE: &str = r#"{
  "type": "module",
  "scripts": {
    "test": "true",
    "hello": "echo 'hello'"
  }
}"#;

const JSON_ARRAY: &str = r#"[{"scripts": {"test": "true"}}]"#;
const NOT_SCRIPTS: &str = r#"{"name": "x", "version": "1.0.0"}"#;
const NOT_JSON_MAP: &str = r#"{"scripts": ["test", "true"]}"#;
const INVALID_SCRIPT: &str = r#"{"scripts": {"test": "true", "bad": 1}}"#;

struct MockCommandExecutor {
    log: RefCell<Vec<String>>,
}

impl Executor for MockCommandExecutor {
    fn execute(&self, main_command: &str, args: Vec<&str>, _load_env: bool) -> Result<(), JakeError> {
        let full_command = main_command.to_owned() + " " + &args.join(" ");
        self.log.borrow_mut().push(full_command);
        Ok(())
    }
}

/// Stands in for the program's executors: accepts every command.
struct CommandExecutor;

impl Executor for CommandExecutor {
    fn execute(&self, _main_command: &str, _args: Vec<&str>, _load_env: bool) -> Result<(), JakeError> {
        Ok(())
    }
}

/// Renders the command line as the dry-run executor prints it.
struct DryRunExecutor {
    printed: RefCell<Vec<String>>,
}

impl DryRunExecutor {
    fn new() -> Self {
        DryRunExecutor { printed: RefCell::new(Vec::new()) }
    }
}

impl Executor for DryRunExecutor {
    fn execute(&self, main_command: &str, args: Vec<&str>, _load_env: bool) -> Result<(), JakeError> {
        self.printed.borrow_mut().push(command_line(main_command, &args));
        Ok(())
    }
}

fn keys(o: &[(String, JsonValue)]) -> Vec<&str> {
    o.iter().map(|(k, _)| k.as_str()).collect()
}

#[test]
fn test_load_package_json() {
    let map = load_package_json(TEST_PACKAGE).expect("Should be able to load the file");
    assert_eq!(map.len(), 2);
    assert!(keys(&map).contains(&"type"));
    assert!(keys(&map).contains(&"scripts"));
}

#[test]
fn test_load_package_json_array() {
    let result = load_package_json(JSON_ARRAY);
    assert!(result.is_err());
    assert!(matches!(result, Err(JakeError::Parse(_))));
}

#[test]
fn test_load_scripts_success() {
    let map = load_package_json(TEST_PACKAGE).expect("Should be able to load the file");
    let scripts = load_scripts(&map).expect("Should be able to load scripts");
    assert_eq!(scripts.len(), 2);
    assert!(keys_of_scripts(&scripts).contains(&"hello"));
    assert!(keys_of_scripts(&scripts).contains(&"test"));
}

fn keys_of_scripts(s: &[(String, String)]) -> Vec<&str> {
    s.iter().map(|(k, _)| k.as_str()).collect()
}

#[test]
fn test_load_scripts_no_scripts() {
    let map = load_package_json(NOT_SCRIPTS).expect("Should be able to load the file");
    let result = load_scripts(&map);
    assert_eq!(
        result.is_err_and(|e| e.message() == "Cannot find the `scripts` key in package.json".to_string()),
        true
    );
}

#[test]
fn test_load_scripts_not_json_map() {
    let map = load_package_json(NOT_JSON_MAP).expect("Should be able to load the file");
    let result = load_scripts(&map);
    assert_eq!(
        result.is_err_and(|e| e.message() == "`scripts` is not a JSON map.".to_string()),
        true
    );
}

#[test]
fn test_load_scripts_invalid_script() {
    let map = load_package_json(INVALID_SCRIPT).expect("Should be able to load the file");
    let result = load_scripts(&map);
    assert_eq!(
        result.is_err_and(|e| e.message() == "Encountered a non-string value.".to_string()),
        true
    );
}

#[test]
fn test_get_script_command_success() {
    let map = load_package_json(TEST_PACKAGE).expect("Should be able to load the file");
    let scripts = load_scripts(&map).expect("Should be able to load scripts");
    assert_eq!(scripts.len(), 2);
    let command = get_script_command(&scripts, &"test".to_string()).expect("Should be able to load command");
    assert_eq!(command, "true".to_string());
    let command_1 =
        get_script_command(&scripts, &"hello".to_string()).expect("Should be able to load command");
    assert_eq!(command_1, "echo 'hello'".to_string());
}

#[test]
fn test_get_script_command_failure() {
    let map = load_package_json(TEST_PACKAGE).expect("Should be able to load the file");
    let scripts = load_scripts(&map).expect("Should be able to load scripts");
    let result = get_script_command(&scripts, &"bye".to_string());
    assert_eq!(
        result.is_err_and(|e| e.message() == "Could not find script bye".to_string()),
        true
    );
}

#[test]
fn package_json_test_mock_command_execution() {
    let executor = MockCommandExecutor { log: RefCell::new(Vec::new()) };
    let result = execute_script(TEST_PACKAGE, "test".to_string(), false, &executor);
    assert!(result.is_ok());
    assert_eq!(executor.log.borrow().last().unwrap().trim(), "true");
}

#[test]
fn package_json_test_command_execution() {
    let executor = CommandExecutor;
    let result = execute_script(TEST_PACKAGE, "test".to_string(), false, &executor);
    assert!(result.is_ok());
}

#[test]
fn test_dry_run_command_execution() {
    let executor = DryRunExecutor::new();
    let result = execute_script(TEST_PACKAGE, "test".to_string(), false, &executor);
    assert!(result.is_ok());
    assert_eq!(*executor.printed.borrow(), vec!["true".to_string()]);
}

#[test]
fn execute_script_errors() {
    let executor = CommandExecutor;
    let r = execute_script(TEST_PACKAGE, "bye".to_string(), false, &executor);
    assert_eq!(r.unwrap_err().message(), "Could not find script bye");
    let r = execute_script("{ not json", "test".to_string(), false, &executor);
    assert!(matches!(r, Err(JakeError::Parse(_))));
    let r = execute_script(NOT_SCRIPTS, "test".to_string(), false, &executor);
    assert_eq!(r.unwrap_err().message(), "Cannot find the `scripts` key in package.json");
}

#[test]
fn nested_json_values_are_converted() {
    let map = load_package_json(r#"{"a": [1, 2.5, null, true, {"b": "c"}]}"#).unwrap();
    match &map[0].1 {
        JsonValue::Array(items) => {
            assert_eq!(items.len(), 5);
            assert!(matches!(&items[0], JsonValue::Number(n) if n == "1"));
            assert!(matches!(&items[1], JsonValue::Number(n) if n == "2.5"));
            assert!(matches!(&items[2], JsonValue::Null));
            assert!(matches!(&items[3], JsonValue::Bool(true)));
            assert!(matches!(&items[4], JsonValue::Object(o) if o[0].0 == "b"));
        }
        _ => panic!("expected an array"),
    }
}

#[test]
fn script_command_from_text() {
    assert_eq!(script_command(TEST_PACKAGE, &"hello".to_string()).unwrap(), "echo 'hello'");
    assert_eq!(
        script_command(TEST_PACKAGE, &"bye".to_string()).unwrap_err().message(),
        "Could not find script bye"
    );
    assert!(matches!(script_command(JSON_ARRAY, &"test".to_string()), Err(JakeError::Parse(_))));
    assert_eq!(
        script_command(INVALID_SCRIPT, &"test".to_string()).unwrap_err().message(),
        "Encountered a non-string value."
    );
}
