use hyperion::history::History;

#[test]
fn history_keeps_the_latest_commands() {
    let mut history = History::new("/tmp/history.txt", 3);
    assert_eq!(history.file_path(), "/tmp/history.txt");
    assert_eq!(history.max_size(), 3);
    assert!(history.get_all().is_empty());
    history.add("  get a  ");
    history.add("get a");
    history.add("");
    history.add("   \t\n");
    history.add("set a 1");
    history.add("get a");
    assert_eq!(history.get_all(), ["get a", "set a 1", "get a"]);
    history.add("list");
    assert_eq!(history.get_all(), ["set a 1", "get a", "list"]);
    history.add("list");
    assert_eq!(history.get_all(), ["set a 1", "get a", "list"]);
}

#[test]
fn history_search_finds_texts_inside_commands() {
    let mut history = History::new("h", 10);
    for command in ["get users.u1", "set users.u1 1", "list posts", "get posts.p1"] {
        history.add(command);
    }
    assert_eq!(history.search("get"), vec!["get users.u1", "get posts.p1"]);
    assert_eq!(history.search("users.u1"), vec!["get users.u1", "set users.u1 1"]);
    assert_eq!(history.search("").len(), 4);
    assert!(history.search("delete").is_empty());
    assert_eq!(history.search("list posts"), vec!["list posts"]);
    assert!(history.search("list posts!").is_empty());
}

#[test]
fn history_without_room_stays_empty() {
    let mut history = History::new("h", 0);
    history.add("get a");
    assert!(history.get_all().is_empty());
    let mut spaces = History::new("h", 2);
    spaces.add("\u{a0}\u{2003}x y\u{3000}");
    assert_eq!(spaces.get_all(), ["x y"]);
}
