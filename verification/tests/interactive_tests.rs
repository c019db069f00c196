use syntect::easy::HighlightLines;
use syntect::highlighting::ThemeSet;
use syntect::parsing::SyntaxSet;
use syntect::util::LinesWithEndings;
use vibe_search::interactive::{
    lines_of, plain_preview, AppEvent, AppInteractive, Key, PreviewSource, StatefulList, StyledText,
};

fn s(v: &[&str]) -> Vec<String> {
    v.iter().map(|x| x.to_string()).collect()
}

fn app_with(items: &[&str]) -> AppInteractive {
    let mut a = AppInteractive::default();
    a.items = StatefulList::with_items(s(items));
    a
}

#[test]
fn down_cycles_through_results() {
    let mut a = app_with(&["a", "b", "c"]);
    assert!(a.handle_key_event(Key::Down));
    assert_eq!(a.items.selected, Some(0));
    a.handle_key_event(Key::Down);
    a.handle_key_event(Key::Down);
    assert_eq!(a.items.selected, Some(2));
    a.handle_key_event(Key::Down);
    assert_eq!(a.items.selected, Some(0));
}

#[test]
fn up_wraps_to_last_result() {
    let mut a = app_with(&["a", "b", "c"]);
    a.handle_key_event(Key::Up);
    assert_eq!(a.items.selected, Some(0));
    a.handle_key_event(Key::Up);
    assert_eq!(a.items.selected, Some(2));
}

#[test]
fn up_undoes_down() {
    let mut a = app_with(&["a", "b", "c"]);
    a.items.selected = Some(1);
    a.handle_key_event(Key::Down);
    a.handle_key_event(Key::Up);
    assert_eq!(a.items.selected, Some(1));
}

#[test]
fn q_quits_enter_saves_other_keys_do_nothing() {
    let mut a = app_with(&["a"]);
    assert!(!a.handle_key_event(Key::Char('x')));
    assert!(!a.handle_key_event(Key::Other));
    assert_eq!(a.status, AppEvent::Run);
    assert!(a.outcome().is_err());
    a.handle_key_event(Key::Char('q'));
    assert_eq!(a.status, AppEvent::Quit);
    assert_eq!(a.outcome(), Ok(Some(String::new())));
    let mut b = app_with(&["a", "b"]);
    b.handle_key_event(Key::Down);
    b.handle_key_event(Key::Down);
    b.handle_key_event(Key::Enter);
    assert_eq!(b.outcome(), Ok(Some("b".to_string())));
}

#[test]
fn saving_without_selection_gives_nothing_and_out_of_range_gives_magic() {
    let mut a = app_with(&["a"]);
    a.save();
    assert_eq!(a.outcome(), Ok(None));
    a.items.selected = Some(7);
    assert_eq!(a.outcome(), Ok(Some("magic".to_string())));
}

#[test]
fn preview_target_is_selected_item() {
    let mut l = StatefulList::with_items(s(&["x", "y"]));
    l.next();
    l.next();
    assert_eq!(l.preview_target(), Some("y".to_string()));
    l.selected = Some(5);
    assert_eq!(l.preview_target(), None);
    l.unselect();
    assert_eq!(l.selected, None);
}

#[test]
fn preview_text_from_sources() {
    let mut l = StatefulList::with_items(s(&["x"]));
    l.selected = Some(0);
    l.update_path_contents(PreviewSource::File(Some("body".to_string())));
    assert_eq!(l.preview, Some("body".to_string()));
    l.update_path_contents(PreviewSource::Directory(Some(s(&["/d/a", "/d/b"]))));
    assert_eq!(l.preview, Some("/d/a\n/d/b".to_string()));
    l.update_path_contents(PreviewSource::Directory(None));
    assert_eq!(l.preview, None);
    l.update_path_contents(PreviewSource::File(None));
    assert_eq!(l.preview, None);
    l.update_path_contents(PreviewSource::Neither);
    assert_eq!(l.preview, None);
}

#[test]
fn lines_keep_their_breaks() {
    assert_eq!(lines_of("a\nb\n"), s(&["a\n", "b\n"]));
    assert_eq!(lines_of("a\nb"), s(&["a\n", "b"]));
    assert!(lines_of("").is_empty());
}

#[test]
fn plain_preview_splits_every_line() {
    let p = plain_preview("a\n\nb\n");
    let texts: Vec<String> = p.iter().map(|l| l[0].text.clone()).collect();
    assert_eq!(texts, s(&["a", "", "b", ""]));
    assert!(p.iter().all(|l| l.len() == 1 && l[0].color.is_none()));
}

#[test]
fn preview_unavailable_without_content() {
    let a = app_with(&["a"]);
    let p = a.get_preview(10, true).unwrap();
    assert_eq!(p, vec![vec![StyledText { text: "Preview unavailable".to_string(), color: None }]]);
}

#[test]
fn preview_of_directory_is_plain() {
    let mut a = app_with(&["./dir"]);
    a.items.selected = Some(0);
    a.items.preview = Some("x\ny".to_string());
    let p = a.get_preview(1, false).unwrap();
    assert_eq!(p.len(), 2);
    assert!(p.iter().all(|l| l[0].color.is_none()));
}

#[test]
fn preview_of_file_without_known_syntax_is_plain() {
    let mut a = app_with(&["./notes.unknownext"]);
    a.items.selected = Some(0);
    a.items.preview = Some("x\ny\nz".to_string());
    let p = a.get_preview(1, true).unwrap();
    assert_eq!(p.len(), 3);
    assert!(p.iter().all(|l| l.len() == 1 && l[0].color.is_none()));
}

#[test]
fn preview_of_rust_file_is_highlighted_and_limited() {
    let mut a = app_with(&["./src/main.rs"]);
    a.items.selected = Some(0);
    a.items.preview = Some("fn main() {\n    let x = 1;\n}\n".to_string());
    let p = a.get_preview(2, true).unwrap();
    assert_eq!(p.len(), 2);
    assert!(p.iter().all(|l| l.iter().all(|t| t.color.is_some())));
    let first: String = p[0].iter().map(|t| t.text.clone()).collect();
    assert_eq!(first, "fn main() {\n");
    // Colours are red, blue, blue of the theme's colour.
    assert!(p.iter().flatten().all(|t| {
        let (_, g, b) = t.color.unwrap();
        g == b
    }));
}

#[test]
fn drawing_settles_the_selection_among_the_results() {
    let mut l = StatefulList::with_items(s(&[]));
    l.selected = Some(0);
    l.settle_selection();
    assert_eq!(l.selected, None);
    let mut l = StatefulList::with_items(s(&["a", "b"]));
    l.selected = Some(5);
    l.settle_selection();
    assert_eq!(l.selected, Some(1));
    l.selected = Some(0);
    l.settle_selection();
    assert_eq!(l.selected, Some(0));
    l.selected = None;
    l.settle_selection();
    assert_eq!(l.selected, None);
}

#[test]
fn down_on_no_results_then_enter_keeps_nothing() {
    let mut a = app_with(&[]);
    a.handle_key_event(Key::Down);
    a.items.settle_selection();
    a.handle_key_event(Key::Down);
    a.items.settle_selection();
    a.handle_key_event(Key::Enter);
    assert_eq!(a.outcome(), Ok(None));
}

#[test]
fn highlighted_preview_is_what_syntect_gives() {
    let content = "fn main() {\n    let x = \"s\";\n}\n// end";
    let mut a = app_with(&["./src/main.rs"]);
    a.items.selected = Some(0);
    a.items.preview = Some(content.to_string());
    let got = a.get_preview(3, true).unwrap();

    let ps = SyntaxSet::load_defaults_newlines();
    let ts = ThemeSet::load_defaults();
    let mut h = HighlightLines::new(ps.find_syntax_by_extension("rs").unwrap(), &ts.themes["base16-ocean.dark"]);
    let want: Vec<Vec<StyledText>> = LinesWithEndings::from(content)
        .take(3)
        .map(|line| {
            h.highlight_line(line, &ps)
                .unwrap()
                .iter()
                .map(|(style, text)| StyledText {
                    text: text.to_string(),
                    color: Some((style.foreground.r, style.foreground.b, style.foreground.b)),
                })
                .collect()
        })
        .collect();
    assert_eq!(got, want);
    assert!(got[1].len() > 1);
}
