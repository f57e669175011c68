use jake::initialize::{parse_tasks, prepare_jakefile};
use jake::text::{join_with, split_at_char, split_words};

#[test]
fn test_parse_tasks() {
    let expected =
        "hello = \"echo 'No task yet for hello'\"\nbye = \"echo 'No task yet for bye'\"\n"
            .to_string();
    let actual = parse_tasks("hello,bye");
    assert_eq!(expected, actual);
}

#[test]
fn test_parse_tasks_no_commas() {
    let expected = "hello:there:ciao = \"echo 'No task yet for hello:there:ciao'\"\n".to_string();
    let actual = parse_tasks("hello:there:ciao");
    assert_eq!(expected, actual);
}

#[test]
fn parse_tasks_keeps_empty_names() {
    assert_eq!(
        parse_tasks("a,,b"),
        "a = \"echo 'No task yet for a'\"\n = \"echo 'No task yet for '\"\nb = \"echo 'No task yet for b'\"\n"
    );
    assert_eq!(parse_tasks(""), " = \"echo 'No task yet for '\"\n");
}

#[test]
fn prepare_jakefile_defaults_to_jakefile_toml() {
    let (path, content) = prepare_jakefile("hello,bye", None);
    assert_eq!(path, "jakefile.toml");
    assert_eq!(
        content,
        "hello = \"echo 'No task yet for hello'\"\nbye = \"echo 'No task yet for bye'\"\n"
    );
    let (path, _) = prepare_jakefile("x", Some("testfiles/temp.toml".to_string()));
    assert_eq!(path, "testfiles/temp.toml");
}

#[test]
fn split_at_char_pieces() {
    assert_eq!(split_at_char("a,b,,c", ','), vec!["a", "b", "", "c"]);
    assert_eq!(split_at_char(",", ','), vec!["", ""]);
    assert_eq!(split_at_char("", ','), vec![""]);
}

#[test]
fn split_words_on_unicode_whitespace() {
    assert_eq!(split_words("  ls   -la\t/tmp\n"), vec!["ls", "-la", "/tmp"]);
    assert_eq!(split_words("a\u{3000}b\u{a0}c"), vec!["a", "b", "c"]);
    assert!(split_words("   ").is_empty());
    assert!(split_words("").is_empty());
}

#[test]
fn join_with_separator() {
    let parts = vec!["ls".to_string(), "-la".to_string(), "/x".to_string()];
    assert_eq!(join_with(&parts, " "), "ls -la /x");
    assert_eq!(join_with(&parts, "\n- "), "ls\n- -la\n- /x");
    assert_eq!(join_with(&Vec::new(), " "), "");
}
