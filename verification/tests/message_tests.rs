use vibe_search::message::{Message, TrackArgs};

#[test]
fn track_args_default_recurses_without_following_links() {
    let a = TrackArgs::default();
    assert!(a.recursive);
    assert!(!a.follow_symlinks);
}

#[test]
fn walk_descends_only_into_directories_when_recursive() {
    let a = TrackArgs { recursive: true, follow_symlinks: false };
    assert!(a.descends(true, false));
    assert!(!a.descends(false, false));
    assert!(!a.descends(true, true));
    let b = TrackArgs { recursive: true, follow_symlinks: true };
    assert!(b.descends(true, true));
    let c = TrackArgs { recursive: false, follow_symlinks: true };
    assert!(!c.descends(true, false));
}

#[test]
fn messages_compare_by_content() {
    assert_eq!(Message::Get(3), Message::Get(3));
    assert_ne!(Message::Search("a".to_string()), Message::Search("b".to_string()));
}
