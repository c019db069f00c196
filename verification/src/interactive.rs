//! The interactive result browser: the list of results with its selection
//! and preview, the keys that drive it, the preview text and the result of
//! a session.

use vstd::prelude::*;
use crate::message::Message;
use crate::text::{split_on, views, chars_of, split_chars, string_of, split_string, join_strings, concat_all};
use crate::path::{file_name, file_name_of, extension, extension_of, opt_view};
use crate::highlight::{
    span_texts, default_syntax_known, highlighted_line, start_highlighting, DefaultThemes,
};

verus! {

/// Where the browser stands.
#[derive(Clone, Copy, Debug, PartialEq, Eq)]
pub enum AppEvent {
    /// Still browsing.
    Run,
    /// Left without choosing.
    Quit,
    /// Left with the selected result.
    Save,
}

/// A key press, as far as the browser tells keys apart.
#[derive(Clone, Copy, Debug, PartialEq, Eq)]
pub enum Key {
    Char(char),
    Up,
    Down,
    Enter,
    Other,
}

/// What was read for the preview of the selected result.
#[derive(Debug)]
pub enum PreviewSource {
    /// The result is a file: its content, `None` when it could not be read
    /// as text.
    File(Option<String>),
    /// The result is a directory: the paths of its entries that are text
    /// (`None` when the directory could not be listed).
    Directory(Option<Vec<String>>),
    /// The result is neither, or there is no result at the selection.
    Neither,
}

/// A piece of a preview line, with its foreground colour when highlighted.
#[derive(Clone, Debug, PartialEq, Eq)]
pub struct StyledText {
    pub text: String,
    pub color: Option<(u8, u8, u8)>,
}

/// The results, the selected one, and the preview of the selected one.
#[derive(Debug)]
pub struct StatefulList {
    pub selected: Option<usize>,
    pub items: Vec<String>,
    pub preview: Option<String>,
}

/// The browser.
#[derive(Debug)]
pub struct AppInteractive {
    pub items: StatefulList,
    pub status: AppEvent,
}

/// The selection after moving down: the next result, from the last one
/// back to the first; the first when nothing is selected.
pub open spec fn next_selection(selected: Option<usize>, len: nat) -> Option<usize> {
    match selected {
        Some(i) => if i >= len - 1 {
            Some(0usize)
        } else {
            Some((i + 1) as usize)
        },
        None => Some(0usize),
    }
}

/// The selection after moving up: the previous result, from the first one
/// to the last; the first when nothing is selected.
pub open spec fn previous_selection(selected: Option<usize>, len: nat) -> Option<usize> {
    match selected {
        Some(i) => if i == 0 {
            Some((len - 1) as usize)
        } else {
            Some((i - 1) as usize)
        },
        None => Some(0usize),
    }
}

/// The selection as drawing the list leaves it: none when there are no
/// results, the last result when it lay past them, else unchanged.
pub open spec fn drawn_selection(selected: Option<usize>, len: nat) -> Option<usize> {
    if len == 0 {
        None
    } else {
        match selected {
            Some(i) => if i >= len {
                Some((len - 1) as usize)
            } else {
                Some(i)
            },
            None => None,
        }
    }
}

/// The preview text for what was read of the selected result: a file's
/// content, a directory's entries one per line.
pub open spec fn preview_text(source: PreviewSource) -> Option<Seq<char>> {
    match source {
        PreviewSource::File(content) => opt_view(content),
        PreviewSource::Directory(entries) => match entries {
            Some(e) => Some(crate::text::join_with(views(e@), seq!['\n'])),
            None => None,
        },
        PreviewSource::Neither => None,
    }
}

/// The lines of `s` with their line breaks, as `syntect`'s
/// `LinesWithEndings` yields them: every line ends in its `\n`, except a
/// last line without one; an empty text has no lines.
pub open spec fn lines_with_endings(s: Seq<char>) -> Seq<Seq<char>> {
    let p = split_on(s, '\n');
    let ended = Seq::new((p.len() - 1) as nat, |i: int| p[i].push('\n'));
    if p.last().len() == 0 {
        ended
    } else {
        ended.push(p.last())
    }
}

/// A plain preview: the lines of the text, split at every `\n`, each as
/// one uncoloured piece.
pub open spec fn plain_lines(s: Seq<char>) -> Seq<Seq<(Seq<char>, Option<(u8, u8, u8)>)>> {
    split_on(s, '\n').map_values(|l: Seq<char>| seq![(l, None::<(u8, u8, u8)>)])
}

/// The view of preview lines: each piece's text and colour.
pub open spec fn lines_view(lines: Seq<Vec<StyledText>>) -> Seq<Seq<(Seq<char>, Option<(u8, u8, u8)>)>> {
    lines.map_values(
        |l: Vec<StyledText>| l@.map_values(|t: StyledText| (t.text@, t.color)),
    )
}

/// The preview when there is nothing to show.
pub open spec fn unavailable_lines() -> Seq<Seq<(Seq<char>, Option<(u8, u8, u8)>)>> {
    seq![
        seq![
            (
                seq![
                    'P', 'r', 'e', 'v', 'i', 'e', 'w', ' ', 'u', 'n', 'a', 'v', 'a', 'i', 'l', 'a', 'b',
                    'l', 'e',
                ],
                None::<(u8, u8, u8)>,
            ),
        ],
    ]
}

/// The extension of the result at `index`, when it is a file with one.
pub open spec fn selected_extension(items: Seq<Seq<char>>, index: int) -> Option<Seq<char>> {
    if 0 <= index < items.len() {
        match file_name_of(items[index]) {
            Some(n) => extension_of(n),
            None => None,
        }
    } else {
        None
    }
}

/// The extension is known to the syntaxes that come with `syntect`.
pub open spec fn syntax_known(ext: Option<Seq<char>>) -> bool {
    match ext {
        Some(e) => default_syntax_known(e),
        None => false,
    }
}

/// A highlighted piece's colour: present, its green component repeating
/// its blue one.
pub open spec fn green_as_blue(color: Option<(u8, u8, u8)>) -> bool {
    match color {
        Some(c) => c.1 == c.2,
        None => false,
    }
}

/// The text of a preview line: its pieces put together.
pub open spec fn line_text(line: Seq<(Seq<char>, Option<(u8, u8, u8)>)>) -> Seq<char> {
    concat_all(line.map_values(|p: (Seq<char>, Option<(u8, u8, u8)>)| p.0))
}

/// A highlighted preview of `content`: one line per line of the text with
/// its line break, at most `n` of them; the pieces of each line are
/// coloured (the colour's green component repeating its blue one) and put
/// together form a prefix of the line.
pub open spec fn is_highlighted(lines: Seq<Seq<(Seq<char>, Option<(u8, u8, u8)>)>>, content: Seq<char>, n: nat) -> bool {
    let src = lines_with_endings(content);
    &&& lines.len() == if n < src.len() {
        n
    } else {
        src.len()
    }
    &&& forall|i: int|
        0 <= i < lines.len() ==> line_text(#[trigger] lines[i]).is_prefix_of(src[i])
    &&& forall|i: int, j: int|
        0 <= i < lines.len() && 0 <= j < lines[i].len() ==> green_as_blue((#[trigger] lines[i][j]).1)
}

/// The pieces of `lines` highlighted one after the other from the start of
/// a file, for the extension `ext` and the theme named `theme`; `None` when
/// one of them fails.
pub open spec fn highlight_all(ext: Seq<char>, theme: Seq<char>, lines: Seq<Seq<char>>) -> Option<
    Seq<Seq<(Seq<char>, u8, u8, u8)>>,
>
    decreases lines.len(),
{
    if lines.len() == 0 {
        Some(Seq::empty())
    } else {
        match highlight_all(ext, theme, lines.drop_last()) {
            Some(before) => match highlighted_line((ext, theme, lines.drop_last()), lines.last()) {
                Some(pieces) => Some(before.push(pieces)),
                None => None,
            },
            None => None,
        }
    }
}

/// A highlighted line as the preview shows it: each piece with the red,
/// blue and blue components of its colour.
pub open spec fn styled_line(pieces: Seq<(Seq<char>, u8, u8, u8)>) -> Seq<(Seq<char>, Option<(u8, u8, u8)>)> {
    pieces.map_values(|p: (Seq<char>, u8, u8, u8)| (p.0, Some((p.1, p.3, p.3))))
}

/// How many lines of `content` an area `n` lines high shows highlighted.
pub open spec fn shown_count(content: Seq<char>, n: nat) -> nat {
    if n < lines_with_endings(content).len() {
        n
    } else {
        lines_with_endings(content).len()
    }
}

/// The highlighted preview of `content` for the extension `ext`: its first
/// `n` lines with their line breaks, highlighted with the theme
/// `base16-ocean.dark`; `None` when highlighting one of them fails.
pub open spec fn highlighted_lines(ext: Seq<char>, content: Seq<char>, n: nat) -> Option<
    Seq<Seq<(Seq<char>, Option<(u8, u8, u8)>)>>,
> {
    let shown = lines_with_endings(content).take(shown_count(content, n) as int);
    match highlight_all(ext, "base16-ocean.dark"@, shown) {
        Some(ls) => Some(ls.map_values(|l: Seq<(Seq<char>, u8, u8, u8)>| styled_line(l))),
        None => None,
    }
}

/// The view of a preview that may be missing.
pub open spec fn opt_lines_view(r: Option<Vec<Vec<StyledText>>>) -> Option<
    Seq<Seq<(Seq<char>, Option<(u8, u8, u8)>)>>,
> {
    match r {
        Some(lines) => Some(lines_view(lines@)),
        None => None,
    }
}

/// Once highlighting a line has failed, highlighting more lines fails too.
proof fn lemma_highlight_all_stays_failed(ext: Seq<char>, theme: Seq<char>, lines: Seq<Seq<char>>, j: int, k: int)
    requires
        0 <= j <= k <= lines.len(),
        highlight_all(ext, theme, lines.take(j)) is None,
    ensures
        highlight_all(ext, theme, lines.take(k)) is None,
    decreases k - j,
{
    if j < k {
        lemma_highlight_all_stays_failed(ext, theme, lines, j, k - 1);
        assert(lines.take(k).drop_last() =~= lines.take(k - 1));
    }
}

impl StatefulList {
    /// A list of `items` with nothing selected and no preview.
    pub fn with_items(items: Vec<String>) -> (r: StatefulList)
        ensures
            r.selected is None,
            r.items@ == items@,
            r.preview is None,
    {
        StatefulList { selected: None, items, preview: None }
    }

    /// Moves the selection down, from the last result back to the first.
    pub fn next(&mut self)
        requires
            old(self).selected is Some ==> old(self).items.len() > 0,
        ensures
            final(self).selected == next_selection(old(self).selected, old(self).items.len() as nat),
            final(self).items@ == old(self).items@,
            final(self).preview == old(self).preview,
    {
        let i = match self.selected {
            Some(i) => if i >= self.items.len() - 1 {
                0
            } else {
                i + 1
            },
            None => 0,
        };
        self.selected = Some(i);
    }

    /// Moves the selection up, from the first result to the last.
    pub fn previous(&mut self)
        requires
            old(self).selected == Some(0usize) ==> old(self).items.len() > 0,
        ensures
            final(self).selected == previous_selection(old(self).selected, old(self).items.len() as nat),
            final(self).items@ == old(self).items@,
            final(self).preview == old(self).preview,
    {
        let i = match self.selected {
            Some(i) => if i == 0 {
                self.items.len() - 1
            } else {
                i - 1
            },
            None => 0,
        };
        self.selected = Some(i);
    }

    /// Clears the selection.
    pub fn unselect(&mut self)
        ensures
            final(self).selected is None,
            final(self).items@ == old(self).items@,
            final(self).preview == old(self).preview,
    {
        self.selected = None;
    }

    /// Brings the selection back among the results, as the list widget
    /// does each time it is drawn.
    pub fn settle_selection(&mut self)
        ensures
            final(self).selected == drawn_selection(old(self).selected, old(self).items.len() as nat),
            final(self).selected matches Some(i) ==> i < final(self).items.len(),
            final(self).items@ == old(self).items@,
            final(self).preview == old(self).preview,
    {
        let len = self.items.len();
        if len == 0 {
            self.selected = None;
        } else if let Some(i) = self.selected {
            if i >= len {
                self.selected = Some(len - 1);
            }
        }
    }

    /// The selected result, whose content the preview shows; `None` when
    /// the selection lies past the results.
    pub fn preview_target(&self) -> (r: Option<String>)
        requires
            self.selected is Some,
        ensures
            match self.selected {
                Some(i) => if i < self.items.len() {
                    r matches Some(p) && p@ == self.items@[i as int]@
                } else {
                    r is None
                },
                None => false,
            },
    {
        let i = self.selected.unwrap();
        if i < self.items.len() {
            Some(self.items[i].clone())
        } else {
            None
        }
    }

    /// Sets the preview from what was read for the selected result.
    pub fn update_path_contents(&mut self, source: PreviewSource)
        requires
            old(self).selected is Some,
        ensures
            opt_view(final(self).preview) == preview_text(source),
            final(self).selected == old(self).selected,
            final(self).items@ == old(self).items@,
    {
        self.preview = match source {
            PreviewSource::File(content) => content,
            PreviewSource::Directory(entries) => match entries {
                Some(e) => {
                    let joined = join_strings(&e, "\n");
                    proof {
                        reveal_strlit("\n");
                        assert("\n"@ =~= seq!['\n']);
                    }
                    let text = string_of(&joined);
                    assert(text@ == crate::text::join_with(views(e@), seq!['\n']));
                    Some(text)
                },
                None => None,
            },
            PreviewSource::Neither => None,
        };
    }
}

/// The lines of `s` with their line breaks.
pub fn lines_of(s: &str) -> (r: Vec<String>)
    ensures
        views(r@) == lines_with_endings(s@),
{
    let cs = chars_of(s);
    let pieces = split_chars(&cs, '\n');
    let ghost p = pieces@.map_values(|v: Vec<char>| v@);
    proof {
        crate::text::lemma_split_on_nonempty(s@, '\n');
    }
    let ghost ended = Seq::new((p.len() - 1) as nat, |i: int| p[i].push('\n'));
    let mut r: Vec<String> = Vec::new();
    let mut i: usize = 0;
    while i + 1 < pieces.len()
        invariant
            i + 1 <= pieces.len(),
            p == pieces@.map_values(|v: Vec<char>| v@),
            ended == Seq::new((p.len() - 1) as nat, |i: int| p[i].push('\n')),
            views(r@) == ended.take(i as int),
        decreases pieces.len() - i,
    {
        let mut line = pieces[i].clone();
        line.push('\n');
        let ghost before = views(r@);
        r.push(string_of(&line));
        assert(views(r@) =~= before.push(p[i as int].push('\n')));
        assert(ended.take(i + 1) =~= ended.take(i as int).push(ended[i as int]));
        i = i + 1;
    }
    assert(ended.take(i as int) =~= ended);
    let last = &pieces[pieces.len() - 1];
    if last.len() > 0 {
        let ghost before = views(r@);
        r.push(string_of(last));
        assert(views(r@) =~= before.push(p.last()));
    }
    r
}

/// A plain preview of `s`.
pub fn plain_preview(s: &str) -> (r: Vec<Vec<StyledText>>)
    ensures
        lines_view(r@) == plain_lines(s@),
{
    let pieces = split_string(s, '\n');
    let mut r: Vec<Vec<StyledText>> = Vec::new();
    let mut i: usize = 0;
    while i < pieces.len()
        invariant
            i <= pieces.len(),
            views(pieces@) == split_on(s@, '\n'),
            lines_view(r@) == plain_lines(s@).take(i as int),
        decreases pieces.len() - i,
    {
        let mut line: Vec<StyledText> = Vec::new();
        line.push(StyledText { text: pieces[i].clone(), color: None });
        let ghost before = lines_view(r@);
        assert(line@.map_values(|t: StyledText| (t.text@, t.color)) =~= seq![
            (pieces@[i as int]@, None::<(u8, u8, u8)>),
        ]);
        r.push(line);
        assert(lines_view(r@) =~= before.push(seq![(pieces@[i as int]@, None::<(u8, u8, u8)>)]));
        assert(plain_lines(s@).take(i + 1) =~= plain_lines(s@).take(i as int).push(
            seq![(pieces@[i as int]@, None::<(u8, u8, u8)>)],
        ));
        i = i + 1;
    }
    assert(plain_lines(s@).take(pieces.len() as int) =~= plain_lines(s@));
    r
}

/// The first `n` lines of `content` highlighted for the syntax of the
/// file extension `ext`, with the theme `base16-ocean.dark`; each piece
/// coloured with its red, blue and blue components. `Ok(None)` when no
/// syntax is known for the extension; `Err(())` when highlighting a line
/// fails.
fn highlighted_preview(content: &str, ext: &str, n: usize) -> (r: Result<Option<Vec<Vec<StyledText>>>, ()>)
    ensures
        !default_syntax_known(ext@) <==> r == Ok::<Option<Vec<Vec<StyledText>>>, ()>(None),
        r matches Ok(Some(lines)) ==> highlighted_lines(ext@, content@, n as nat) == Some(
            lines_view(lines@),
        ) && is_highlighted(lines_view(lines@), content@, n as nat),
        r is Err ==> highlighted_lines(ext@, content@, n as nat) is None,
{
    let themes = DefaultThemes::load();
    let theme = "base16-ocean.dark";
    let mut h = match start_highlighting(&themes, theme, ext) {
        Some(h) => h,
        None => return Ok(None),
    };
    let src = lines_of(content);
    let ghost lines = lines_with_endings(content@);
    let ghost m = shown_count(content@, n as nat);
    let ghost mut done: Seq<Seq<(Seq<char>, u8, u8, u8)>> = Seq::empty();
    let mut out: Vec<Vec<StyledText>> = Vec::new();
    let mut i: usize = 0;
    assert(lines.take(0) =~= Seq::<Seq<char>>::empty());
    while i < src.len() && i < n
        invariant
            i <= src.len(),
            i <= n,
            views(src@) == lines,
            lines == lines_with_endings(content@),
            m == shown_count(content@, n as nat),
            default_syntax_known(ext@),
            theme@ == "base16-ocean.dark"@,
            h@ == (ext@, theme@, lines.take(i as int)),
            done.len() == i,
            out@.len() == i,
            highlight_all(ext@, theme@, lines.take(i as int)) == Some(done),
            lines_view(out@) == done.map_values(|l: Seq<(Seq<char>, u8, u8, u8)>| styled_line(l)),
            forall|k: int|
                0 <= k < i ==> line_text(#[trigger] lines_view(out@)[k]).is_prefix_of(lines[k]),
            forall|k: int, j: int|
                0 <= k < i && 0 <= j < lines_view(out@)[k].len() ==> green_as_blue((#[trigger] lines_view(out@)[k][j]).1),
        decreases n - i,
    {
        assert(lines.take(i + 1).drop_last() =~= lines.take(i as int));
        let spans = match h.highlight_line(src[i].as_str()) {
            Some(s) => s,
            None => {
                proof {
                    lemma_highlight_all_stays_failed(ext@, theme@, lines, i + 1, m as int);
                }
                return Err(());
            },
        };
        let mut line: Vec<StyledText> = Vec::new();
        let mut j: usize = 0;
        while j < spans.len()
            invariant
                j <= spans.len(),
                line@.len() == j,
                forall|q: int|
                    0 <= q < j ==> (#[trigger] line@[q]).text@ == spans@[q].0@ && line@[q].color
                        == Some((spans@[q].1, spans@[q].3, spans@[q].3)),
            decreases spans.len() - j,
        {
            let (t, red, _green, blue) = &spans[j];
            line.push(StyledText { text: t.clone(), color: Some((*red, *blue, *blue)) });
            j = j + 1;
        }
        let ghost lv = line@.map_values(|t: StyledText| (t.text@, t.color));
        assert(lv =~= styled_line(spans.deep_view()));
        assert(lv.map_values(|p: (Seq<char>, Option<(u8, u8, u8)>)| p.0) =~= span_texts(spans@));
        let ghost before = lines_view(out@);
        out.push(line);
        assert(lines_view(out@) =~= before.push(lv));
        proof {
            done = done.push(spans.deep_view());
        }
        assert(lines_view(out@) =~= done.map_values(
            |l: Seq<(Seq<char>, u8, u8, u8)>| styled_line(l),
        ));
        i = i + 1;
    }
    assert(i == m);
    Ok(Some(out))
}

/// The number of results that the browser asks the daemon for.
pub const BROWSE_RESULTS: usize = 200;

impl AppInteractive {
    /// The request for the results to browse.
    pub fn results_request() -> (r: Message)
        ensures
            r == Message::Get(BROWSE_RESULTS),
    {
        Message::Get(BROWSE_RESULTS)
    }

    /// A browser with no results, still running.
    pub fn new() -> (r: AppInteractive)
        ensures
            r.items.selected is None,
            r.items.items@.len() == 0,
            r.items.preview is None,
            r.status == AppEvent::Run,
    {
        AppInteractive { items: StatefulList::with_items(Vec::new()), status: AppEvent::Run }
    }

    /// Whether the key can be handled: moving down with a selection, or up
    /// from the first result, needs results.
    pub open spec fn key_allowed(self, key: Key) -> bool {
        match key {
            Key::Down => self.items.selected is Some ==> self.items.items.len() > 0,
            Key::Up => self.items.selected == Some(0usize) ==> self.items.items.len() > 0,
            _ => true,
        }
    }

    /// Handles a key press: `q` quits, Enter keeps the selected result, Up
    /// and Down move the selection. The result tells whether the selection
    /// moved, so that the preview is to be read again.
    pub fn handle_key_event(&mut self, key: Key) -> (moved: bool)
        requires
            old(self).key_allowed(key),
        ensures
            final(self).items.items@ == old(self).items.items@,
            final(self).items.preview == old(self).items.preview,
            moved == (key == Key::Up || key == Key::Down),
            match key {
                Key::Char(c) => if c == 'q' {
                    final(self).status == AppEvent::Quit && final(self).items.selected == old(
                        self,
                    ).items.selected
                } else {
                    final(self).status == old(self).status && final(self).items.selected == old(
                        self,
                    ).items.selected
                },
                Key::Up => final(self).status == old(self).status && final(self).items.selected
                    == previous_selection(old(self).items.selected, old(self).items.items.len() as nat),
                Key::Down => final(self).status == old(self).status && final(self).items.selected
                    == next_selection(old(self).items.selected, old(self).items.items.len() as nat),
                Key::Enter => final(self).status == AppEvent::Save && final(self).items.selected == old(
                    self,
                ).items.selected,
                Key::Other => final(self).status == old(self).status && final(self).items.selected
                    == old(self).items.selected,
            },
    {
        match key {
            Key::Char(c) => {
                if c == 'q' {
                    self.exit();
                }
                false
            },
            Key::Up => {
                self.items.previous();
                true
            },
            Key::Down => {
                self.items.next();
                true
            },
            Key::Enter => {
                self.save();
                false
            },
            Key::Other => false,
        }
    }

    /// Leaves with the selected result.
    pub fn save(&mut self)
        ensures
            final(self).status == AppEvent::Save,
            final(self).items.selected == old(self).items.selected,
            final(self).items.items@ == old(self).items.items@,
            final(self).items.preview == old(self).items.preview,
    {
        self.status = AppEvent::Save;
    }

    /// Leaves without choosing.
    pub fn exit(&mut self)
        ensures
            final(self).status == AppEvent::Quit,
            final(self).items.selected == old(self).items.selected,
            final(self).items.items@ == old(self).items.items@,
            final(self).items.preview == old(self).items.preview,
    {
        self.status = AppEvent::Quit;
    }

    /// What the session gives back once it stopped running: after Enter,
    /// the selected result (`magic` when the selection lies past the
    /// results; nothing when nothing is selected); after `q`, an empty
    /// string; while still running, an error.
    pub fn outcome(&self) -> (r: Result<Option<String>, ()>)
        ensures
            match self.status {
                AppEvent::Save => match self.items.selected {
                    Some(i) => r matches Ok(Some(s)) && s@ == if i < self.items.items.len() {
                        self.items.items@[i as int]@
                    } else {
                        seq!['m', 'a', 'g', 'i', 'c']
                    },
                    None => r == Ok::<Option<String>, ()>(None),
                },
                AppEvent::Quit => r matches Ok(Some(s)) && s@.len() == 0,
                AppEvent::Run => r is Err,
            },
    {
        match self.status {
            AppEvent::Save => match self.items.selected {
                Some(i) => if i < self.items.items.len() {
                    Ok(Some(self.items.items[i].clone()))
                } else {
                    let mut m: Vec<char> = Vec::new();
                    m.push('m');
                    m.push('a');
                    m.push('g');
                    m.push('i');
                    m.push('c');
                    assert(m@ =~= seq!['m', 'a', 'g', 'i', 'c']);
                    Ok(Some(string_of(&m)))
                },
                None => Ok(None),
            },
            AppEvent::Quit => Ok(Some(String::new())),
            AppEvent::Run => Err(()),
        }
    }

    /// The preview lines for an area `num_lines` high, given whether the
    /// selected result is a file: `Preview unavailable` without a preview;
    /// for a file whose extension names a known syntax, the first
    /// `num_lines` lines as `syntect` highlights them (`None` when
    /// highlighting a line fails);
    /// otherwise every line of the preview, plain.
    pub fn get_preview(&self, num_lines: usize, selected_is_file: bool) -> (r: Option<Vec<Vec<StyledText>>>)
        requires
            self.items.preview is Some ==> self.items.selected is Some,
        ensures
            match self.items.preview {
                None => r matches Some(lines) && lines_view(lines@) == unavailable_lines(),
                Some(content) => {
                    let index = self.items.selected.unwrap() as int;
                    let ext = selected_extension(views(self.items.items@), index);
                    if selected_is_file && syntax_known(ext) {
                        &&& opt_lines_view(r) == highlighted_lines(ext.unwrap(), content@, num_lines as nat)
                        &&& r matches Some(lines) ==> is_highlighted(lines_view(lines@), content@, num_lines as nat)
                    } else {
                        r matches Some(lines) && lines_view(lines@) == plain_lines(content@)
                    }
                },
            },
    {
        match &self.items.preview {
            None => {
                let mut line: Vec<StyledText> = Vec::new();
                line.push(StyledText { text: String::from_str("Preview unavailable"), color: None });
                proof {
                    reveal_strlit("Preview unavailable");
                    assert("Preview unavailable"@ =~= unavailable_lines()[0][0].0);
                }
                let mut lines: Vec<Vec<StyledText>> = Vec::new();
                assert(line@.map_values(|t: StyledText| (t.text@, t.color)) =~= unavailable_lines()[0]);
                lines.push(line);
                assert(lines_view(lines@) =~= unavailable_lines());
                Some(lines)
            },
            Some(content) => {
                let index = self.items.selected.unwrap();
                if !selected_is_file || index >= self.items.items.len() {
                    return Some(plain_preview(content.as_str()));
                }
                let name = match file_name(self.items.items[index].as_str()) {
                    Some(n) => n,
                    None => return Some(plain_preview(content.as_str())),
                };
                let ext = match extension(name.as_str()) {
                    Some(e) => e,
                    None => return Some(plain_preview(content.as_str())),
                };
                match highlighted_preview(content.as_str(), ext.as_str(), num_lines) {
                    Ok(Some(lines)) => Some(lines),
                    Ok(None) => Some(plain_preview(content.as_str())),
                    Err(()) => None,
                }
            },
        }
    }
}

impl Default for AppInteractive {
    fn default() -> (r: AppInteractive)
        ensures
            r.items.selected is None,
            r.items.items@.len() == 0,
            r.items.preview is None,
            r.status == AppEvent::Run,
    {
        AppInteractive::new()
    }
}

/// Moving down keeps a selection among the results.
pub proof fn lemma_next_in_range(selected: Option<usize>, len: nat)
    requires
        0 < len <= usize::MAX,
        selected matches Some(i) ==> i < len,
    ensures
        next_selection(selected, len) matches Some(j) && j < len,
        previous_selection(selected, len) matches Some(j) && j < len,
{
}

/// Moving up undoes moving down, and moving down undoes moving up, for a
/// selection among the results.
pub proof fn lemma_previous_undoes_next(i: usize, len: nat)
    requires
        i < len <= usize::MAX,
    ensures
        previous_selection(next_selection(Some(i), len), len) == Some(i),
        next_selection(previous_selection(Some(i), len), len) == Some(i),
{
}

/// The lines of a text are the text as written: put back together they
/// give the text, blank lines included; none is empty; a line break only
/// ever ends a line, and every line but the last ends in one.
pub proof fn lemma_lines_rebuild_text(s: Seq<char>)
    ensures
        concat_all(lines_with_endings(s)) == s,
        forall|i: int| 0 <= i < lines_with_endings(s).len() ==> (#[trigger] lines_with_endings(s)[i]).len() > 0,
        forall|i: int, j: int|
            0 <= i < lines_with_endings(s).len() && 0 <= j < lines_with_endings(s)[i].len() - 1
                ==> #[trigger] lines_with_endings(s)[i][j] != '\n',
        forall|i: int|
            0 <= i < lines_with_endings(s).len() - 1 ==> (#[trigger] lines_with_endings(s)[i]).last() == '\n',
{
    let p = split_on(s, '\n');
    crate::text::lemma_split_on_nonempty(s, '\n');
    crate::text::lemma_join_split(s, '\n');
    crate::text::lemma_concat_ended(p, '\n');
    crate::text::lemma_split_pieces_lack_sep(s, '\n');
    let ended = Seq::new((p.len() - 1) as nat, |i: int| p[i].push('\n'));
    let lines = lines_with_endings(s);
    if p.last().len() == 0 {
        assert(lines == ended);
        assert(concat_all(ended) + p.last() =~= concat_all(ended));
    } else {
        assert(lines == ended.push(p.last()));
        assert(lines.drop_last() =~= ended);
    }
    assert forall|i: int, j: int| 0 <= i < lines.len() && 0 <= j < lines[i].len() - 1 implies #[trigger] lines[i][j]
        != '\n' by {
        if i < ended.len() {
            assert(lines[i] == p[i].push('\n'));
            assert(lines[i][j] == p[i][j]);
        } else {
            assert(lines[i] == p.last());
            assert(p.last() == p[p.len() - 1]);
            assert(lines[i][j] == p[p.len() - 1][j]);
        }
    }
    assert forall|i: int| 0 <= i < lines.len() implies (#[trigger] lines[i]).len() > 0 by {
        if i < ended.len() {
            assert(lines[i] == p[i].push('\n'));
        }
    }
    assert forall|i: int| 0 <= i < lines.len() - 1 implies (#[trigger] lines[i]).last() == '\n' by {
        assert(i < ended.len());
        assert(lines[i] == p[i].push('\n'));
    }
}

} // verus!
