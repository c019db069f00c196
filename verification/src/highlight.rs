//! Syntax highlighting of file previews with `syntect`: the outside types
//! and calls, each stated as far as the crate's source shows it.

use vstd::prelude::*;
use syntect::easy::HighlightLines;
use syntect::highlighting::ThemeSet;
use syntect::parsing::SyntaxSet;
use crate::text::concat_all;

verus! {

#[verifier::external_type_specification]
#[verifier::external_body]
pub struct ExSyntaxSet(SyntaxSet);

#[verifier::external_type_specification]
#[verifier::external_body]
pub struct ExThemeSet(ThemeSet);

#[verifier::external_type_specification]
#[verifier::external_body]
pub struct ExHighlightLines<'a>(HighlightLines<'a>);

/// A highlighted piece of a line: its text and the red, green and blue of
/// its foreground colour.
pub open spec fn span_texts(spans: Seq<(String, u8, u8, u8)>) -> Seq<Seq<char>> {
    spans.map_values(|s: (String, u8, u8, u8)| s.0@)
}

/// Whether the syntaxes that come with `syntect` (those of
/// `SyntaxSet::load_defaults_newlines`, which the crate embeds, so the same
/// in every process) hold one that lists the extension.
pub uninterp spec fn default_syntax_known(extension: Seq<char>) -> bool;

/// What `HighlightLines::highlight_line` gives for `line`, with the
/// syntaxes that come with `syntect`, the syntax found for the extension
/// `state.0`, the default theme named `state.1`, after the lines `state.2`
/// were highlighted before it: each piece's text and foreground colour, or
/// `None` when the parser reports an error. The syntaxes and themes are
/// embedded in the crate, so the result depends on these values alone.
pub uninterp spec fn highlighted_line(
    state: (Seq<char>, Seq<char>, Seq<Seq<char>>),
    line: Seq<char>,
) -> Option<Seq<(Seq<char>, u8, u8, u8)>>;

/// The themes that come with `syntect` (`ThemeSet::load_defaults`); the
/// field is private, so no other set stands here.
pub struct DefaultThemes {
    set: ThemeSet,
}

impl DefaultThemes {
    /// `ThemeSet::load_defaults`: the themes embedded in `syntect`. Nothing
    /// is stated of the set, which Verus sees as opaque.
    #[verifier::external_body]
    pub(crate) fn load() -> DefaultThemes {
        DefaultThemes { set: ThemeSet::load_defaults() }
    }
}

/// A highlighter part way through a file, together with the syntax set its
/// syntax was found in: the two are made together and never parted, as
/// `highlight_line` asks. Its view is the extension and theme name it was
/// made for and the lines it has highlighted so far.
pub struct Highlighting<'a> {
    syntaxes: SyntaxSet,
    lines: HighlightLines<'a>,
    extension: Ghost<Seq<char>>,
    theme: Ghost<Seq<char>>,
    earlier: Ghost<Seq<Seq<char>>>,
}

impl<'a> View for Highlighting<'a> {
    type V = (Seq<char>, Seq<char>, Seq<Seq<char>>);

    closed spec fn view(&self) -> (Seq<char>, Seq<char>, Seq<Seq<char>>) {
        (self.extension@, self.theme@, self.earlier@)
    }
}

/// A highlighter at the start of a file: `SyntaxSet::load_defaults_newlines`,
/// then the theme of that name in the default themes (`BTreeMap::get` on
/// the set's `themes`), then `SyntaxSet::find_syntax_by_extension` (the
/// last syntax listing the extension, without regard to ASCII case), then
/// `HighlightLines::new`. `None` when the theme or the syntax is missing;
/// `base16-ocean.dark` is among the default themes, as `syntect`'s
/// documentation of `ThemeSet::load_defaults` lists it.
#[verifier::external_body]
pub(crate) fn start_highlighting<'a>(themes: &'a DefaultThemes, theme: &str, extension: &str) -> (r:
    Option<Highlighting<'a>>)
    ensures
        r is Some ==> default_syntax_known(extension@),
        theme@ == "base16-ocean.dark"@ ==> (r is Some <==> default_syntax_known(extension@)),
        r matches Some(h) ==> h@ == (extension@, theme@, Seq::<Seq<char>>::empty()),
{
    let syntaxes = SyntaxSet::load_defaults_newlines();
    let found = themes.set.themes.get(theme)?;
    let lines = HighlightLines::new(syntaxes.find_syntax_by_extension(extension)?, found);
    Some(
        Highlighting {
            syntaxes,
            lines,
            extension: Ghost(extension@),
            theme: Ghost(theme@),
            earlier: Ghost(Seq::empty()),
        },
    )
}

impl<'a> Highlighting<'a> {
    /// `HighlightLines::highlight_line` with the highlighter's own syntax
    /// set: the next line of the file cut into pieces, each with its
    /// style's foreground colour; `None` when the parser reports an error.
    /// The result is the named one for the highlighter's state. The pieces
    /// are consecutive slices of the line from its start, so their texts
    /// put together are a prefix of the line. After an error the state is
    /// not stated.
    #[verifier::external_body]
    pub(crate) fn highlight_line(&mut self, line: &str) -> (r: Option<Vec<(String, u8, u8, u8)>>)
        ensures
            r.deep_view() == highlighted_line(old(self)@, line@),
            r matches Some(spans) ==> concat_all(span_texts(spans@)).is_prefix_of(line@),
            r is Some ==> final(self)@ == (old(self)@.0, old(self)@.1, old(self)@.2.push(line@)),
    {
        match self.lines.highlight_line(line, &self.syntaxes) {
            Ok(spans) => Some(
                spans.into_iter().map(
                    |(style, text)| (text.to_string(), style.foreground.r, style.foreground.g, style.foreground.b),
                ).collect(),
            ),
            Err(_) => None,
        }
    }
}

} // verus!
