use cdm::config::AppConfig;
use cdm::dirwalk::{sort_paths_folded, DirWalk};
use cdm::filter::filter_paths;
use cdm::history::{frequent, history_line, parse_history, recent_unique, tail, trim_str};

fn strs(paths: &[&str]) -> Vec<String> {
    paths.iter().map(|p| p.to_string()).collect()
}

#[test]
fn parse_skips_blank_lines_and_trims() {
    let entries = parse_history("/a\n\n  /b \n\t\n/c");
    assert_eq!(entries, strs(&["/a", "/b", "/c"]));
}

#[test]
fn parse_handles_crlf_and_trailing_newline() {
    let entries = parse_history("/a\r\n/b\r\n");
    assert_eq!(entries, strs(&["/a", "/b"]));
    assert!(parse_history("").is_empty());
    assert!(parse_history("\n\n  \n").is_empty());
}

#[test]
fn trim_removes_surrounding_whitespace_only() {
    assert_eq!(trim_str("  a b \t"), "a b");
    assert_eq!(trim_str(""), "");
    assert_eq!(trim_str("x"), "x");
}

#[test]
fn history_line_appends_newline() {
    assert_eq!(history_line(&String::from("/a/b")), "/a/b\n");
}

#[test]
fn tail_keeps_the_most_recent_entries() {
    let h = strs(&["/a", "/b", "/c", "/d"]);
    assert_eq!(tail(&h, 2), strs(&["/c", "/d"]));
    assert_eq!(tail(&h, 10), h);
    assert!(tail(&h, 0).is_empty());
}

#[test]
fn recent_unique_keeps_latest_visit_first() {
    let h = strs(&["/a", "/b", "/a", "/c"]);
    assert_eq!(recent_unique(&h), strs(&["/c", "/a", "/b"]));
}

#[test]
fn frequent_orders_by_visit_count() {
    let h = strs(&["/a", "/b", "/b", "/c", "/b", "/a"]);
    assert_eq!(frequent(&h), strs(&["/b", "/a", "/c"]));
}

#[test]
fn frequent_breaks_ties_by_first_visit() {
    let h = strs(&["/x", "/y", "/y", "/x"]);
    assert_eq!(frequent(&h), strs(&["/x", "/y"]));
}

#[test]
fn filter_by_pattern() {
    let paths = strs(&["/home/u/src", "/etc", "/home/u/docs"]);
    let kept = filter_paths(paths, &Some(String::from("^/home")), false, &None);
    assert_eq!(kept, strs(&["/home/u/src", "/home/u/docs"]));
}

#[test]
fn invalid_pattern_keeps_everything() {
    let paths = strs(&["/a", "/b"]);
    let kept = filter_paths(paths.clone(), &Some(String::from("(")), false, &None);
    assert_eq!(kept, paths);
}

#[test]
fn prefix_filter_keeps_paths_under_cwd() {
    let paths = strs(&["/home/u/src", "/home/user", "/home/u"]);
    let kept = filter_paths(paths, &None, true, &Some(String::from("/home/u")));
    assert_eq!(kept, strs(&["/home/u/src", "/home/u"]));
}

#[test]
fn sort_folds_ascii_case() {
    let sorted = sort_paths_folded(strs(&["/x/Beta", "/x/alpha", "/x/ALPHA2"]));
    assert_eq!(sorted, strs(&["/x/alpha", "/x/ALPHA2", "/x/Beta"]));
}

#[test]
fn walk_visits_breadth_first_and_respects_depth() {
    let mut w = DirWalk::new(String::from("/r"), 2);
    let (dir, depth) = w.next_dir().expect("root is queued");
    assert_eq!((dir.as_str(), depth), ("/r", 0));
    w.deliver(0, strs(&["/r/b", "/r/A"]));
    let (dir, depth) = w.next_dir().expect("first child");
    assert_eq!((dir.as_str(), depth), ("/r/A", 1));
    w.deliver(1, strs(&["/r/A/z"]));
    let (dir, depth) = w.next_dir().expect("second child");
    assert_eq!((dir.as_str(), depth), ("/r/b", 1));
    w.deliver(1, strs(&[]));
    // the grandchild sits at the depth bound and is not expanded
    assert!(w.next_dir().is_none());
    assert_eq!(w.result, strs(&["/r/A", "/r/b", "/r/A/z"]));
}

#[test]
fn config_defaults() {
    let c = AppConfig::with_home(Some(&String::from("/home/u")));
    assert_eq!(c.history_path, "/home/u/.cd_history");
    assert_eq!(c.coaccess_window, 3);
    assert!(c.path_aliases.is_empty());
    let c2 = AppConfig::with_home(None);
    assert_eq!(c2.history_path, "./.cd_history");
}

#[test]
fn aliases_swap_into_display_order() {
    let c = AppConfig {
        history_path: String::from("/h"),
        coaccess_window: 3,
        path_aliases: vec![(String::from("proj"), String::from("/home/u/projects"))],
    };
    let pairs = c.path_aliases();
    assert_eq!(pairs, vec![(String::from("/home/u/projects"), String::from("proj"))]);
}
