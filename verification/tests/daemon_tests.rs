use vibe_search::daemon::{
    describe_entries, describe_entry, rank_results, removal_filter, should_index, Config, Daemon,
    EntryRead, Task,
};
use vibe_search::message::{Message, TrackArgs};

fn s(v: &[&str]) -> Vec<String> {
    v.iter().map(|x| x.to_string()).collect()
}

#[test]
fn config_tracks_each_path_once() {
    let mut c = Config::new();
    c.track_all(&s(&["/a", "/b", "/a"]));
    c.track_all(&s(&["/b", "/c"]));
    assert_eq!(c.watched(), s(&["/a", "/b", "/c"]));
}

#[test]
fn config_untrack_removes_and_keeps_order() {
    let mut c = Config::new();
    c.track_all(&s(&["/a", "/b", "/c"]));
    c.untrack_all(&s(&["/b", "/zzz"]));
    assert_eq!(c.watched(), s(&["/a", "/c"]));
}

#[test]
fn untrack_undoes_track_of_new_paths() {
    let mut c = Config::new();
    c.track_all(&s(&["/a"]));
    let before = c.watched();
    c.track_all(&s(&["/x", "/y"]));
    c.untrack_all(&s(&["/x", "/y"]));
    assert_eq!(c.watched(), before);
}

#[test]
fn get_returns_first_hits_of_last_search() {
    let mut d = Daemon::new();
    assert_eq!(d.finish_search(Some(s(&["/1", "/2", "/3"]))), Message::Confirmation);
    match d.dispatch(Message::Get(2)) {
        Task::Reply(Message::Paths(p)) => assert_eq!(p, s(&["/1", "/2"])),
        other => panic!("unexpected {:?}", other),
    }
    match d.dispatch(Message::Get(10)) {
        Task::Reply(Message::Paths(p)) => assert_eq!(p, s(&["/3"])),
        other => panic!("unexpected {:?}", other),
    }
}

#[test]
fn gets_continue_where_the_last_stopped() {
    let mut d = Daemon::new();
    d.finish_search(Some(s(&["/1", "/2", "/3", "/4", "/5"])));
    let mut handed = Vec::new();
    for n in [2, 0, 1, 7, 3] {
        match d.dispatch(Message::Get(n)) {
            Task::Reply(Message::Paths(p)) => handed.push(p),
            other => panic!("unexpected {:?}", other),
        }
    }
    assert_eq!(handed, vec![s(&["/1", "/2"]), s(&[]), s(&["/3"]), s(&["/4", "/5"]), s(&[])]);
    // Two requests give what one request for both counts gives.
    let mut once = Daemon::new();
    once.finish_search(Some(s(&["/1", "/2", "/3", "/4", "/5"])));
    match once.dispatch(Message::Get(3)) {
        Task::Reply(Message::Paths(p)) => assert_eq!(p, s(&["/1", "/2", "/3"])),
        other => panic!("unexpected {:?}", other),
    }
}

#[test]
fn a_new_search_starts_from_its_first_hit() {
    let mut d = Daemon::new();
    d.finish_search(Some(s(&["/1", "/2"])));
    d.dispatch(Message::Get(1));
    assert!(matches!(d.dispatch(Message::Search("q".to_string())), Task::Search(_)));
    d.finish_search(Some(s(&["/a", "/b"])));
    match d.dispatch(Message::Get(1)) {
        Task::Reply(Message::Paths(p)) => assert_eq!(p, s(&["/a"])),
        other => panic!("unexpected {:?}", other),
    }
}

#[test]
fn failed_search_leaves_no_hits() {
    let mut d = Daemon::new();
    d.finish_search(Some(s(&["/1"])));
    d.finish_search(None);
    match d.dispatch(Message::Get(5)) {
        Task::Reply(Message::Paths(p)) => assert!(p.is_empty()),
        other => panic!("unexpected {:?}", other),
    }
}

#[test]
fn dispatch_passes_on_search_track_untrack() {
    let mut d = Daemon::new();
    assert!(matches!(d.dispatch(Message::Search("q".to_string())), Task::Search(q) if q == "q"));
    let a = TrackArgs::default();
    assert!(matches!(
        d.dispatch(Message::Track("/p".to_string(), a)),
        Task::Track { path, ack: Message::Confirmation, .. } if path == "/p"
    ));
    assert!(matches!(
        d.dispatch(Message::Untrack("/p".to_string(), a)),
        Task::Untrack { path, ack: Message::Confirmation, .. } if path == "/p"
    ));
}

#[test]
fn entry_text_of_text_file_is_name_and_content() {
    let t = describe_entry("/d/notes.txt", EntryRead::Text(vec![b'h', b'i', 0xe9]));
    assert_eq!(t, Some("notes.txt: hi\u{e9}".to_string()));
}

#[test]
fn entry_text_of_directory_binary_and_unreadable() {
    assert_eq!(describe_entry("/d/sub", EntryRead::Directory), Some("sub: ".to_string()));
    assert_eq!(describe_entry("/d/app.bin", EntryRead::Binary), Some("app.bin".to_string()));
    assert_eq!(describe_entry("/d/locked", EntryRead::Unreadable), Some("locked".to_string()));
    assert_eq!(describe_entry("/d/fifo", EntryRead::Other), Some("fifo".to_string()));
    assert_eq!(describe_entry("/", EntryRead::Directory), None);
    assert_eq!(describe_entry("/", EntryRead::Text(vec![b'x'])), Some(": x".to_string()));
}

#[test]
fn entries_without_text_are_left_out() {
    let paths = s(&["/a.txt", "/", "/b"]);
    let reads = vec![EntryRead::Text(b"x".to_vec()), EntryRead::Other, EntryRead::Directory];
    assert_eq!(describe_entries(&paths, reads), s(&["a.txt: x", "b: "]));
}

#[test]
fn removal_filter_quotes_each_path() {
    assert_eq!(removal_filter(&s(&["/a", "/b c"])), "path in (\"/a\", \"/b c\")");
    assert_eq!(removal_filter(&vec![]), "path in ()");
}

#[test]
fn index_needs_enough_rows() {
    assert!(!should_index(0));
    assert!(!should_index(255));
    assert!(should_index(256));
}

#[test]
fn ranking_is_by_key_and_stable() {
    let keys = vec![30, 10, 20, 10];
    let names = s(&["a", "b", "c", "d"]);
    assert_eq!(rank_results(&keys, &names), s(&["b", "d", "c", "a"]));
}

#[test]
fn ranking_drops_unpaired_entries() {
    assert_eq!(rank_results(&vec![2, 1, 0], &s(&["a", "b"])), s(&["b", "a"]));
    assert_eq!(rank_results(&vec![5], &s(&["a", "b"])), s(&["a"]));
    assert!(rank_results(&vec![], &s(&["a"])).is_empty());
}
