use cdm::display::format_path;

#[test]
fn home_abbreviation() {
    let home = Some(String::from("/Users/alice"));
    let result = format_path(&String::from("/Users/alice/projects/foo"), &home, &Vec::new(), 200);
    assert_eq!(result, "~/projects/foo");
}

#[test]
fn no_home_match() {
    let home = Some(String::from("/Users/alice"));
    let result = format_path(&String::from("/opt/data/stuff"), &home, &Vec::new(), 200);
    assert_eq!(result, "/opt/data/stuff");
}

#[test]
fn alias_takes_priority_over_home() {
    let home = Some(String::from("/Users/alice"));
    let aliases = vec![(String::from("/Users/alice/projects"), String::from("proj"))];
    let result = format_path(&String::from("/Users/alice/projects/bar/src"), &home, &aliases, 200);
    assert_eq!(result, "[proj]/bar/src");
}

#[test]
fn truncation_at_max_width() {
    let result = format_path(
        &String::from("/very/long/deeply/nested/path/to/some/dir"),
        &None,
        &Vec::new(),
        20,
    );
    assert!(result.len() <= 20, "got len {}: {}", result.len(), result);
    assert!(result.starts_with('…'));
}

#[test]
fn short_path_unchanged() {
    let result = format_path(&String::from("/a/b"), &None, &Vec::new(), 200);
    assert_eq!(result, "/a/b");
}

#[test]
fn alias_on_exact_prefix_only_at_component_boundary() {
    let aliases = vec![(String::from("/Users/alice/pro"), String::from("p"))];
    let result = format_path(&String::from("/Users/alice/projects"), &None, &aliases, 200);
    assert_eq!(result, "/Users/alice/projects");
}

#[test]
fn alias_of_whole_path() {
    let aliases = vec![(String::from("/Users/alice"), String::from("home"))];
    let result = format_path(&String::from("/Users/alice"), &None, &aliases, 200);
    assert_eq!(result, "[home]/");
}
