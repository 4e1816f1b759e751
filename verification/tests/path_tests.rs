use hyperion::path::{Path, PathError, PathSegment};

#[test]
fn test_path_parsing() {
    let path = "users.u-123456.profile.bio".parse::<Path>().unwrap();
    assert_eq!(path.len(), 4);
    assert_eq!(path.segment(0).unwrap().as_str(), "users");
    assert_eq!(path.segment(1).unwrap().as_str(), "u-123456");
    assert_eq!(path.segment(2).unwrap().as_str(), "profile");
    assert_eq!(path.segment(3).unwrap().as_str(), "bio");
}

#[test]
fn test_path_formatting() {
    let mut path = Path::new();
    path.push("users");
    path.push("u-123456");
    path.push("profile");
    path.push("bio");

    assert_eq!(path.to_string(), "users.u-123456.profile.bio");
}

#[test]
fn test_starts_with() {
    let full_path: Path = "users.u-123456.profile.bio".parse().unwrap();
    let prefix: Path = "users.u-123456".parse().unwrap();

    assert!(full_path.starts_with(&prefix));
}

#[test]
fn test_wildcard_parsing() {
    let path = "users.*.profile.bio".parse::<Path>().unwrap();
    assert_eq!(path.len(), 4);
    assert!(path.segment(1).unwrap().is_single_wildcard());

    let path2 = "users.**.bio".parse::<Path>().unwrap();
    assert_eq!(path2.len(), 3);
    assert!(path2.segment(1).unwrap().is_multi_wildcard());
}

#[test]
fn test_path_matching_single_wildcard() {
    let pattern: Path = "users.*.email".parse().unwrap();
    let path1: Path = "users.u-123456.email".parse().unwrap();
    let path2: Path = "users.u-789012.email".parse().unwrap();
    let path3: Path = "users.u-123456.profile".parse().unwrap();

    assert!(path1.matches(&pattern));
    assert!(path2.matches(&pattern));
    assert!(!path3.matches(&pattern));
}

#[test]
fn test_path_matching_multi_wildcard() {
    let pattern: Path = "users.**.bio".parse().unwrap();
    let path1: Path = "users.u-123456.bio".parse().unwrap();
    let path2: Path = "users.u-123456.profile.bio".parse().unwrap();
    let path3: Path = "users.u-123456.profile.social.bio".parse().unwrap();
    let path4: Path = "users.u-123456.profile".parse().unwrap();

    assert!(path1.matches(&pattern));
    assert!(path2.matches(&pattern));
    assert!(path3.matches(&pattern));
    assert!(!path4.matches(&pattern));
}

#[test]
fn test_array_index_parsing() {
    // An index written behind a name is a segment of its own.
    let path = "users.u-123456.tags[0]".parse::<Path>().unwrap();
    assert_eq!(path.len(), 4);

    let segment = path.segment(3).unwrap();
    assert!(segment.is_array_index());
    assert_eq!(segment.as_index(), Some(0));
}

fn p(text: &str) -> Path {
    text.parse::<Path>().unwrap()
}

#[test]
fn empty_text_is_refused() {
    assert_eq!("".parse::<Path>(), Err(PathError::EmptyPath));
    assert_eq!(Path::parse(""), Err(PathError::EmptyPath));
}

#[test]
fn index_behind_name_splits() {
    let path = p("u.tags[0]");
    assert_eq!(path.len(), 3);
    assert_eq!(path.segment(0).unwrap().as_str(), "u");
    assert_eq!(path.segment(1).unwrap().as_str(), "tags");
    assert_eq!(path.segment(2).unwrap().as_index(), Some(0));
    assert_eq!(path.to_string(), "u.tags.[0]");
    assert_eq!(p("u.tags.[0]"), path);
    let nested = p("m[1][22]");
    assert_eq!(nested.len(), 3);
    assert_eq!(nested.segment(1).unwrap().as_index(), Some(1));
    assert_eq!(nested.segment(2).unwrap().as_index(), Some(22));
}

#[test]
fn segment_classification() {
    assert!(PathSegment::new("*").is_single_wildcard());
    assert!(PathSegment::new("**").is_multi_wildcard());
    assert!(PathSegment::new("*").is_wildcard());
    assert!(!PathSegment::new("***").is_wildcard());
    assert_eq!(PathSegment::new("[17]").as_index(), Some(17));
    assert_eq!(PathSegment::new("[+17]").as_index(), Some(17));
    assert_eq!(PathSegment::new("[007]").as_index(), Some(7));
    assert_eq!(PathSegment::new("[]").as_index(), None);
    assert_eq!(PathSegment::new("[+]").as_index(), None);
    assert_eq!(PathSegment::new("[-1]").as_index(), None);
    assert_eq!(PathSegment::new("[1a]").as_index(), None);
    assert_eq!(PathSegment::new("[").as_index(), None);
    assert_eq!(PathSegment::new("[99999999999999999999999999]").as_index(), None);
    assert_eq!(PathSegment::new("[99999999999999999999999999]").as_str(), "[99999999999999999999999999]");
    assert_eq!(PathSegment::new("[18446744073709551615]").as_index(), Some(usize::MAX));
    assert_eq!(PathSegment::new("[12]").as_str(), "[12]");
    assert_eq!(PathSegment::new("[0]").as_str(), "[0]");
    assert_eq!(PathSegment::new("name").as_str(), "name");
    assert_eq!(PathSegment::new("**").as_str(), "**");
    assert_eq!(PathSegment::new("name").as_name().map(|s| s.as_str()), Some("name"));
    assert_eq!(PathSegment::new("*").as_name(), None);
}

#[test]
fn segment_matching_rules() {
    let star = PathSegment::new("*");
    let multi = PathSegment::new("**");
    let a = PathSegment::new("a");
    let b = PathSegment::new("b");
    let i0 = PathSegment::new("[0]");
    let i1 = PathSegment::new("[1]");
    assert!(star.matches(&a));
    assert!(star.matches(&i0));
    assert!(multi.matches(&a));
    assert!(a.matches(&a));
    assert!(!a.matches(&b));
    assert!(!a.matches(&star));
    assert!(!a.matches(&i0));
    assert!(i0.matches(&i0));
    assert!(!i0.matches(&i1));
    assert!(!i0.matches(&a));
    assert!(a.same_as(&a));
    assert!(!star.same_as(&a));
    assert!(!star.same_as(&multi));
}

#[test]
fn matches_terminal_multi_wildcard() {
    assert!(p("a.b.c").matches(&p("a.**")));
    assert!(p("a").matches(&p("a.**")));
    assert!(!p("b.c").matches(&p("a.**")));
}

#[test]
fn matches_inner_multi_wildcard() {
    assert!(p("a.x.y.c").matches(&p("a.**.c")));
    assert!(p("a.c").matches(&p("a.**.c")));
    assert!(!p("a").matches(&p("a.**.c")));
    assert!(!p("posts.p1.bio").matches(&p("users.**.bio")));
    assert!(p("a.b.c.d.e").matches(&p("**.c.**.e")));
    assert!(!p("a.b.c.d").matches(&p("**.c.**.e")));
    assert!(p("x.content.bio").matches(&p("**.content.bio")));
}

#[test]
fn matches_is_reflexive_without_wildcards() {
    for text in ["a", "a.b", "users.u1.tags[3]", "x.[2].y"] {
        assert!(p(text).matches(&p(text)));
    }
}

#[test]
fn empty_pattern_matches_empty_path_only() {
    assert!(Path::new().matches(&Path::new()));
    assert!(!p("a").matches(&Path::new()));
    assert!(!Path::new().matches(&p("a")));
    assert!(Path::new().matches(&p("**")));
}

#[test]
fn starts_with_self_and_empty() {
    for text in ["a", "a.b.c", "a.*.c", "**.x"] {
        assert!(p(text).starts_with(&p(text)));
        assert!(p(text).starts_with(&Path::new()));
    }
    assert!(Path::new().starts_with(&Path::new()));
    assert!(!p("a").starts_with(&p("a.b")));
    assert!(!p("a.b").starts_with(&p("b")));
    assert!(p("a.b").starts_with(&p("*")));
    assert!(p("a.b").starts_with(&p("**.b")));
}

#[test]
fn text_round_trip() {
    for text in ["a", "users.u-1.name", "a.*.b", "a.**", "t.[0].[12].x", "[5]"] {
        let path = p(text);
        assert_eq!(p(&path.to_string()), path);
        assert_eq!(path.to_string(), text);
    }
}

#[test]
fn dots_make_empty_names() {
    let path = p("a..b");
    assert_eq!(path.len(), 3);
    assert_eq!(path.segment(1).unwrap().as_str(), "");
    assert_eq!(p(".").len(), 2);
}

#[test]
fn wildcard_detection() {
    assert!(p("a.*.b").has_wildcards());
    assert!(p("a.**").has_wildcards());
    assert!(!p("a.b").has_wildcards());
    assert!(p("a.**").has_multi_wildcard());
    assert!(!p("a.*").has_multi_wildcard());
    assert!(!Path::new().has_wildcards());
}

#[test]
fn path_accessors() {
    let path = p("a.b.c");
    assert_eq!(path.len(), 3);
    assert!(!path.is_empty());
    assert!(Path::new().is_empty());
    assert_eq!(path.segments().len(), 3);
    assert!(path.segment(3).is_none());
    assert_eq!(path.suffix(1), p("b.c"));
    assert_eq!(path.prefix(2), p("a.b"));
    assert_eq!(path.suffix(3), Path::new());
    assert!(path.same_as(&path.clone()));
    assert!(!path.same_as(&p("a.b")));
    let rebuilt = Path::from_segments(vec![
        PathSegment::new("a"),
        PathSegment::new("b"),
        PathSegment::new("c"),
    ]);
    assert_eq!(rebuilt, path);
    let mut pushed = Path::new();
    pushed.push_segment(PathSegment::new("a"));
    assert_eq!(pushed, p("a"));
}
