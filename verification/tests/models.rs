use jake::error::{JakeError, Lookup};
use jake::locate::locate_nearest;
use jake::models::{command_line, contains_text, TaskNode};

#[test]
fn task_node_drops_duplicate_dependencies() {
    let node = TaskNode::new(
        "echo 'bye'".to_string(),
        vec!["say-hello".to_string(), "say-hello-back".to_string(), "say-hello".to_string()],
    );
    assert_eq!(node.command, "echo 'bye'");
    assert_eq!(node.dependencies, vec!["say-hello".to_string(), "say-hello-back".to_string()]);
}

#[test]
fn contains_text_finds_equal_strings() {
    let v = vec!["a".to_string(), "bc".to_string()];
    assert!(contains_text(&v, &"bc".to_string()));
    assert!(!contains_text(&v, &"b".to_string()));
}

#[test]
fn command_line_joins_with_spaces() {
    assert_eq!(command_line("ls", &vec!["-la", "/tmp"]), "ls -la /tmp");
    assert_eq!(command_line("true", &vec![]), "true");
}

#[test]
fn locate_nearest_takes_the_first_present() {
    let candidates = vec![
        ("/a/b/jakefile.toml".to_string(), false),
        ("/a/jakefile.toml".to_string(), true),
        ("/jakefile.toml".to_string(), true),
    ];
    assert_eq!(locate_nearest(&candidates, Lookup::Jakefile).unwrap(), "/a/jakefile.toml");
    let none = vec![("/x/.env".to_string(), false)];
    let e = locate_nearest(&none, Lookup::Dotenv).unwrap_err();
    assert_eq!(
        e.message(),
        "Could not find a .env file in the current directory or in any of its ancestors"
    );
}

#[test]
fn error_messages() {
    assert_eq!(
        JakeError::NotLocated(Lookup::Jakefile).message(),
        "Could not find jakefile.toml in the current directory or in any of its ancestors"
    );
    assert_eq!(
        JakeError::NotLocated(Lookup::PackageJson).message(),
        "Could not find package.json in the current directory or in any of its ancestors"
    );
    assert_eq!(JakeError::JakefileMissing.message(), "jakefile.toml does not exist");
    assert_eq!(JakeError::Io("disk".to_string()).message(), "disk");
    assert_eq!(JakeError::NoTasks.message(), "could not find any task within jakefile");
    assert_eq!(
        JakeError::CircularDependency("x".to_string()).message(),
        "Circular dependency issue detected with task x"
    );
}
