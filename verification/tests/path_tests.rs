use vibe_search::path::{extension, file_name, localize, relative_to, select_visible, visible};

#[test]
fn relative_to_child_of_base() {
    assert_eq!(relative_to("/home/u/docs/a.txt", "/home/u"), Some("./docs/a.txt".to_string()));
}

#[test]
fn relative_to_base_itself_is_dot_slash() {
    assert_eq!(relative_to("/home/u", "/home/u"), Some("./".to_string()));
    assert_eq!(relative_to("/home/u/", "/home/u"), Some("./".to_string()));
}

#[test]
fn relative_to_compares_whole_components() {
    assert_eq!(relative_to("/home/user/a", "/home/u"), None);
    assert_eq!(relative_to("/etc/passwd", "/home/u"), None);
}

#[test]
fn relative_to_rejects_relative_paths() {
    assert_eq!(relative_to("home/u/a", "/home/u"), None);
    assert_eq!(relative_to("", "/home/u"), None);
}

#[test]
fn relative_to_ignores_empty_and_dot_components() {
    assert_eq!(relative_to("/home//u/./x/", "/home/u"), Some("./x".to_string()));
    assert_eq!(relative_to("/home/u/a//b", "/home/u/"), Some("./a//b".to_string()));
}

#[test]
fn relative_to_root_base() {
    assert_eq!(relative_to("/etc/hosts", "/"), Some("./etc/hosts".to_string()));
}

#[test]
fn localize_keeps_order_and_drops_outside_paths() {
    let paths = vec![
        "/w/b.rs".to_string(),
        "/elsewhere/c.rs".to_string(),
        "/w/sub/a.rs".to_string(),
    ];
    assert_eq!(localize(&paths, "/w"), vec!["./b.rs".to_string(), "./sub/a.rs".to_string()]);
}

#[test]
fn file_name_is_last_component() {
    assert_eq!(file_name("/a/b/c.txt"), Some("c.txt".to_string()));
    assert_eq!(file_name("/a/b/"), Some("b".to_string()));
    assert_eq!(file_name("/a/b/."), Some("b".to_string()));
    assert_eq!(file_name("/a/.."), None);
    assert_eq!(file_name("/"), None);
    assert_eq!(file_name(""), None);
}

#[test]
fn extension_follows_last_dot() {
    assert_eq!(extension("a.tar.gz"), Some("gz".to_string()));
    assert_eq!(extension("main.rs"), Some("rs".to_string()));
    assert_eq!(extension(".bashrc"), None);
    assert_eq!(extension("Makefile"), None);
    assert_eq!(extension("trailing."), Some("".to_string()));
}

#[test]
fn visibility_of_results() {
    assert!(visible(true, false, false, false, false));
    assert!(!visible(false, true, false, false, false));
    assert!(visible(false, true, false, true, false));
    assert!(!visible(false, false, true, true, false));
    assert!(visible(false, false, true, false, true));
}

#[test]
fn select_visible_keeps_shown_results_in_order() {
    let paths = vec!["./a".to_string(), "./d".to_string(), "./l".to_string(), "./f".to_string()];
    let kinds = vec![(true, false, false), (false, true, false), (false, false, true), (true, false, true)];
    assert_eq!(select_visible(&paths, &kinds, false, false), vec!["./a".to_string(), "./f".to_string()]);
    assert_eq!(
        select_visible(&paths, &kinds, true, true),
        vec!["./a".to_string(), "./d".to_string(), "./l".to_string(), "./f".to_string()]
    );
}
