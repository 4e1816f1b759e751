use hyperion::history::History;
use hyperion::session::{classify_line, parse_format, split_words, LineCommand, OutputFormat};

fn chars(text: &str) -> Vec<char> {
    text.chars().collect()
}

fn some(text: &str) -> Option<String> {
    Some(text.to_string())
}

#[test]
fn words_are_runs_without_white_space() {
    let split = |text: &str, from: usize| -> Vec<String> {
        split_words(&chars(text), from).into_iter().map(|w| w.into_iter().collect()).collect()
    };
    assert_eq!(split("", 0), Vec::<String>::new());
    assert_eq!(split("   \t ", 0), Vec::<String>::new());
    assert_eq!(split("one", 0), vec!["one"]);
    assert_eq!(split("  one \t two\u{a0}three  ", 0), vec!["one", "two", "three"]);
    assert_eq!(split(".list users", 1), vec!["list", "users"]);
    assert_eq!(split("ab", 2), Vec::<String>::new());
}

#[test]
fn blank_lines_ask_for_nothing() {
    assert_eq!(classify_line(""), LineCommand::Nothing);
    assert_eq!(classify_line("  \t  "), LineCommand::Nothing);
}

#[test]
fn lines_without_a_dot_are_queries() {
    assert_eq!(
        classify_line("  users.u1.name  "),
        LineCommand::Query("users.u1.name".to_string())
    );
    assert_eq!(classify_line("help"), LineCommand::Query("help".to_string()));
}

#[test]
fn dot_commands_are_told_apart() {
    assert_eq!(classify_line(".help"), LineCommand::Help);
    assert_eq!(classify_line(" .help me"), LineCommand::Help);
    assert_eq!(classify_line(".exit"), LineCommand::Exit);
    assert_eq!(classify_line(".quit"), LineCommand::Exit);
    assert_eq!(classify_line(".connect"), LineCommand::Connect(None));
    assert_eq!(classify_line(".connect /tmp/db  "), LineCommand::Connect(some("/tmp/db")));
    assert_eq!(classify_line(".list"), LineCommand::List(None));
    assert_eq!(classify_line(".list users.u1 more"), LineCommand::List(some("users.u1")));
    assert_eq!(classify_line(".format json"), LineCommand::Format(some("json")));
    assert_eq!(classify_line(".format"), LineCommand::Format(None));
    assert_eq!(classify_line(".history"), LineCommand::History(None));
    assert_eq!(classify_line(".history set"), LineCommand::History(some("set")));
}

#[test]
fn unknown_dot_commands_are_handed_back() {
    assert_eq!(classify_line(".frobnicate now"), LineCommand::Unknown("frobnicate now".to_string()));
    assert_eq!(classify_line("."), LineCommand::Unknown(String::new()));
    assert_eq!(classify_line(". help"), LineCommand::Help);
    assert_eq!(classify_line(".helper"), LineCommand::Unknown("helper".to_string()));
}

#[test]
fn formats_by_name() {
    assert_eq!(parse_format("text"), Some(OutputFormat::Text));
    assert_eq!(parse_format("json"), Some(OutputFormat::Json));
    assert_eq!(parse_format("table"), Some(OutputFormat::Table));
    assert_eq!(parse_format("Text"), None);
    assert_eq!(parse_format(""), None);
    assert_eq!(parse_format("tables"), None);
}

#[test]
fn history_restored_from_lines() {
    let mut history = History::new("h.txt", 3);
    history.add("old");
    let lines = vec![
        "one".to_string(),
        "   ".to_string(),
        " two ".to_string(),
        String::new(),
        "three".to_string(),
        "three".to_string(),
        "four".to_string(),
    ];
    history.restore(lines);
    assert_eq!(history.get_all(), &["three".to_string(), "three".to_string(), "four".to_string()]);

    let mut roomy = History::new("h.txt", 10);
    roomy.restore(vec!["a".to_string(), " ".to_string(), " b ".to_string()]);
    assert_eq!(roomy.get_all(), &["a".to_string(), " b ".to_string()]);

    let mut none = History::new("h.txt", 0);
    none.restore(vec!["a".to_string()]);
    assert!(none.get_all().is_empty());
}
