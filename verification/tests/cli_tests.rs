use vibe_search::cli::{get_path_type_char, paths_of, AppCLI, Command, Outcome};
use vibe_search::message::{Message, TrackArgs};

#[test]
fn render_puts_results_on_one_line() {
    let paths = vec!["./a".to_string(), "./b c".to_string()];
    assert_eq!(AppCLI::render(&paths), "./a ./b c \n");
    assert_eq!(AppCLI::render(&vec![]), "\n");
}

#[test]
fn render_list_pads_to_longest_path() {
    let paths = vec!["./a.txt".to_string(), "./d".to_string()];
    let types = vec!['f', 'd'];
    assert_eq!(
        AppCLI::render_list(&paths, &types),
        "PATH    TYPE\n./a.txt f\n./d     d\n"
    );
}

#[test]
fn render_list_is_at_least_as_wide_as_the_header() {
    let paths = vec!["./a".to_string()];
    assert_eq!(AppCLI::render_list(&paths, &vec!['?']), "PATH TYPE\n./a  ?\n");
}

#[test]
fn render_list_width_counts_bytes_padding_counts_chars() {
    let paths = vec!["./é".to_string(), "./ab".to_string()];
    // "./é" is 4 bytes but 3 characters, so the column is 4 wide and "./é" gets one space.
    assert_eq!(
        AppCLI::render_list(&paths, &vec!['f', 'f']),
        "PATH TYPE\n./é  f\n./ab f\n"
    );
}

#[test]
fn path_type_chars() {
    assert_eq!(get_path_type_char(true, false, false), 'd');
    assert_eq!(get_path_type_char(false, true, false), 'f');
    assert_eq!(get_path_type_char(false, false, true), 's');
    assert_eq!(get_path_type_char(false, false, false), '?');
    assert_eq!(get_path_type_char(true, true, true), 'd');
}

#[test]
fn track_command_request_and_replies() {
    let c = Command::Track { path: "/x".to_string(), recurse: true, symlinks: false };
    assert_eq!(c.on_reply(&Message::Confirmation), Outcome::Done);
    assert_eq!(c.on_reply(&Message::Paths(vec![])), Outcome::Unexpected);
    assert_eq!(
        c.request(),
        Message::Track("/x".to_string(), TrackArgs { recursive: true, follow_symlinks: false })
    );
}

#[test]
fn untrack_command_request() {
    let c = Command::Untrack { path: "/x".to_string(), recurse: false, symlinks: true };
    assert_eq!(c.on_reply(&Message::Confirmation), Outcome::Done);
    assert_eq!(
        c.request(),
        Message::Untrack("/x".to_string(), TrackArgs { recursive: false, follow_symlinks: true })
    );
}

#[test]
fn search_command_fetches_or_browses() {
    let inline = Command::Search { query: "q".to_string(), inline: Some(5) };
    assert_eq!(inline.on_reply(&Message::Confirmation), Outcome::Fetch(5));
    assert_eq!(inline.on_reply(&Message::Get(1)), Outcome::Unexpected);
    let browse = Command::Search { query: "q".to_string(), inline: None };
    assert_eq!(browse.on_reply(&Message::Confirmation), Outcome::Browse);
    assert_eq!(browse.request(), Message::Search("q".to_string()));
}

#[test]
fn paths_of_reply() {
    assert_eq!(paths_of(Message::Paths(vec!["/a".to_string()])), Some(vec!["/a".to_string()]));
    assert_eq!(paths_of(Message::Confirmation), None);
}
