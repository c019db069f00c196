//! The command-line client: what it asks the daemon, how it reads the
//! replies, and the text it prints for a list of results.

use vstd::prelude::*;
use vstd::utf8::encode_utf8;
use crate::message::{Message, TrackArgs};
use crate::text::{views, extend_chars, extend_str, chars_of, string_of};

verus! {

/// A command given on the command line.
#[derive(Clone, Debug, PartialEq, Eq)]
pub enum Command {
    /// Track the (canonical) path.
    Track { path: String, recurse: bool, symlinks: bool },
    /// Stop tracking the (canonical) path.
    Untrack { path: String, recurse: bool, symlinks: bool },
    /// Search; with `inline`, print that many results instead of browsing.
    Search { query: String, inline: Option<usize> },
}

/// What the client does after a reply of the daemon.
#[derive(Clone, Copy, Debug, PartialEq, Eq)]
pub enum Outcome {
    /// The command is complete.
    Done,
    /// Ask for this many results and print them.
    Fetch(usize),
    /// Browse the results interactively.
    Browse,
    /// The daemon answered something that the command does not expect.
    Unexpected,
}

impl Command {
    /// The message that the command sends first.
    pub open spec fn spec_request(self) -> Message {
        match self {
            Command::Track { path, recurse, symlinks } => Message::Track(
                path,
                TrackArgs { recursive: recurse, follow_symlinks: symlinks },
            ),
            Command::Untrack { path, recurse, symlinks } => Message::Untrack(
                path,
                TrackArgs { recursive: recurse, follow_symlinks: symlinks },
            ),
            Command::Search { query, inline } => Message::Search(query),
        }
    }

    /// What follows the daemon's reply to the first message.
    pub open spec fn spec_on_reply(self, reply: Message) -> Outcome {
        if reply != Message::Confirmation {
            Outcome::Unexpected
        } else {
            match self {
                Command::Search { query, inline } => match inline {
                    Some(n) => Outcome::Fetch(n),
                    None => Outcome::Browse,
                },
                _ => Outcome::Done,
            }
        }
    }

    /// The message that the command sends first: the path with the walk
    /// options for tracking and untracking, the query for a search.
    pub fn request(self) -> (r: Message)
        ensures
            r == self.spec_request(),
    {
        match self {
            Command::Track { path, recurse, symlinks } => Message::Track(
                path,
                TrackArgs { recursive: recurse, follow_symlinks: symlinks },
            ),
            Command::Untrack { path, recurse, symlinks } => Message::Untrack(
                path,
                TrackArgs { recursive: recurse, follow_symlinks: symlinks },
            ),
            Command::Search { query, inline } => Message::Search(query),
        }
    }

    /// What follows the daemon's reply: every command expects a
    /// confirmation; a search then fetches results to print, or browses.
    pub fn on_reply(&self, reply: &Message) -> (r: Outcome)
        ensures
            r == self.spec_on_reply(*reply),
    {
        match reply {
            Message::Confirmation => match self {
                Command::Search { query, inline } => match inline {
                    Some(n) => Outcome::Fetch(*n),
                    None => Outcome::Browse,
                },
                _ => Outcome::Done,
            },
            _ => Outcome::Unexpected,
        }
    }
}

/// The paths that a reply carries, if it is a reply with paths.
pub fn paths_of(reply: Message) -> (r: Option<Vec<String>>)
    ensures
        match reply {
            Message::Paths(p) => r == Some(p),
            _ => r is None,
        },
{
    match reply {
        Message::Paths(p) => Some(p),
        _ => None,
    }
}

/// The number of bytes of the UTF-8 encoding of `s`.
pub open spec fn utf8_len(s: Seq<char>) -> nat {
    encode_utf8(s).len()
}

/// The greatest UTF-8 length among `ps` (zero when there is none).
pub open spec fn max_utf8_len(ps: Seq<Seq<char>>) -> nat
    decreases ps.len(),
{
    if ps.len() == 0 {
        0
    } else {
        let m = max_utf8_len(ps.drop_last());
        if utf8_len(ps.last()) > m {
            utf8_len(ps.last())
        } else {
            m
        }
    }
}

/// `s` followed by spaces up to `width` characters.
pub open spec fn pad_right(s: Seq<char>, width: nat) -> Seq<char> {
    if s.len() >= width {
        s
    } else {
        s + Seq::new((width - s.len()) as nat, |i: int| ' ')
    }
}

/// Each path followed by a space, then a line break.
pub open spec fn spaced(ps: Seq<Seq<char>>) -> Seq<char>
    decreases ps.len(),
{
    if ps.len() == 0 {
        Seq::<char>::empty()
    } else {
        spaced(ps.drop_last()) + ps.last() + seq![' ']
    }
}

/// The text of [`AppCLI::render`].
pub open spec fn render_text(ps: Seq<Seq<char>>) -> Seq<char> {
    spaced(ps) + seq!['\n']
}

/// The width of the path column: the longest path in bytes, and at least
/// the header `PATH`.
pub open spec fn column_width(ps: Seq<Seq<char>>) -> nat {
    if max_utf8_len(ps) >= 4 {
        max_utf8_len(ps)
    } else {
        4
    }
}

/// One row of the table: the path padded to the column, a space, the type
/// character, a line break.
pub open spec fn table_row(p: Seq<char>, t: char, width: nat) -> Seq<char> {
    pad_right(p, width) + seq![' ', t, '\n']
}

/// The rows of the table for paths `ps` with type characters `ts`.
pub open spec fn table_rows(ps: Seq<Seq<char>>, ts: Seq<char>, width: nat) -> Seq<char>
    decreases ps.len(),
{
    if ps.len() == 0 || ts.len() == 0 {
        Seq::<char>::empty()
    } else {
        table_rows(ps.drop_last(), ts.drop_last(), width) + table_row(ps.last(), ts.last(), width)
    }
}

/// The text of [`AppCLI::render_list`].
pub open spec fn render_list_text(ps: Seq<Seq<char>>, ts: Seq<char>) -> Seq<char> {
    pad_right(seq!['P', 'A', 'T', 'H'], column_width(ps)) + seq![' ', 'T', 'Y', 'P', 'E', '\n']
        + table_rows(ps, ts, column_width(ps))
}

/// The character that the table shows for the type of a path: `d` for a
/// directory, `f` for a file, `s` for a symbolic link, `?` otherwise.
pub open spec fn spec_path_type_char(is_dir: bool, is_file: bool, is_symlink: bool) -> char {
    if is_dir {
        'd'
    } else if is_file {
        'f'
    } else if is_symlink {
        's'
    } else {
        '?'
    }
}

/// The character that the table shows for a path of the given kind.
pub fn get_path_type_char(is_dir: bool, is_file: bool, is_symlink: bool) -> (c: char)
    ensures
        c == spec_path_type_char(is_dir, is_file, is_symlink),
{
    if is_dir {
        'd'
    } else if is_file {
        'f'
    } else if is_symlink {
        's'
    } else {
        '?'
    }
}

/// The plain output of the command-line client.
#[derive(Debug, Default)]
pub struct AppCLI {}

fn pad_to(out: &mut Vec<char>, s: &Vec<char>, width: usize)
    ensures
        final(out)@ == old(out)@ + pad_right(s@, width as nat),
{
    extend_chars(out, s);
    if s.len() < width {
        let ghost start = out@;
        let mut k: usize = s.len();
        while k < width
            invariant
                s.len() <= k <= width,
                out@ == start + Seq::new((k - s.len()) as nat, |i: int| ' '),
            decreases width - k,
        {
            out.push(' ');
            assert(start + Seq::new((k + 1 - s.len()) as nat, |i: int| ' ') =~= (start + Seq::new(
                (k - s.len()) as nat,
                |i: int| ' ',
            )).push(' '));
            k = k + 1;
        }
        assert(old(out)@ + pad_right(s@, width as nat) =~= start + Seq::new(
            (width - s.len()) as nat,
            |i: int| ' ',
        ));
    }
}

impl AppCLI {
    /// The results on one line, each followed by a space, then a line
    /// break.
    pub fn render(paths: &Vec<String>) -> (r: String)
        ensures
            r@ == render_text(views(paths@)),
    {
        let mut out: Vec<char> = Vec::new();
        let mut i: usize = 0;
        while i < paths.len()
            invariant
                i <= paths.len(),
                out@ == spaced(views(paths@).take(i as int)),
            decreases paths.len() - i,
        {
            extend_str(&mut out, paths[i].as_str());
            out.push(' ');
            assert(views(paths@).take(i + 1).drop_last() =~= views(paths@).take(i as int));
            i = i + 1;
        }
        assert(views(paths@).take(paths.len() as int) =~= views(paths@));
        out.push('\n');
        string_of(&out)
    }

    /// The results as a table: a header row `PATH` / `TYPE`, then one row
    /// per result with its type character, the path column as wide as the
    /// longest path in bytes (at least as wide as the header).
    pub fn render_list(paths: &Vec<String>, types: &Vec<char>) -> (r: String)
        requires
            paths.len() > 0,
            types.len() == paths.len(),
        ensures
            r@ == render_list_text(views(paths@), types@),
    {
        let ghost ps = views(paths@);
        let mut width: usize = 0;
        let mut i: usize = 0;
        while i < paths.len()
            invariant
                i <= paths.len(),
                ps == views(paths@),
                width == max_utf8_len(ps.take(i as int)),
            decreases paths.len() - i,
        {
            let n: usize = paths[i].as_str().as_bytes().len();
            assert(ps.take(i + 1).drop_last() =~= ps.take(i as int));
            assert(n == utf8_len(ps[i as int]));
            if n > width {
                width = n;
            }
            i = i + 1;
        }
        assert(ps.take(paths.len() as int) =~= ps);
        if width < 4 {
            width = 4;
        }
        let mut out: Vec<char> = Vec::new();
        let header = chars_of("PATH");
        pad_to(&mut out, &header, width);
        out.push(' ');
        extend_str(&mut out, "TYPE");
        out.push('\n');
        proof {
            reveal_strlit("PATH");
            reveal_strlit("TYPE");
            let w = column_width(ps);
            assert(out@ =~= pad_right(seq!['P', 'A', 'T', 'H'], w) + seq![' ', 'T', 'Y', 'P', 'E', '\n']);
        }
        let ghost head = out@;
        let mut j: usize = 0;
        while j < paths.len()
            invariant
                j <= paths.len(),
                types.len() == paths.len(),
                ps == views(paths@),
                width == column_width(ps),
                out@ == head + table_rows(ps.take(j as int), types@.take(j as int), width as nat),
            decreases paths.len() - j,
        {
            let pc = chars_of(paths[j].as_str());
            pad_to(&mut out, &pc, width);
            out.push(' ');
            out.push(types[j]);
            out.push('\n');
            assert(ps.take(j + 1).drop_last() =~= ps.take(j as int));
            assert(types@.take(j + 1).drop_last() =~= types@.take(j as int));
            assert(out@ =~= head + table_rows(ps.take(j + 1), types@.take(j + 1), width as nat));
            j = j + 1;
        }
        assert(ps.take(paths.len() as int) =~= ps);
        assert(types@.take(paths.len() as int) =~= types@);
        string_of(&out)
    }
}

/// A text takes at least one byte per character in UTF-8.
pub proof fn lemma_utf8_len_at_least_chars(s: Seq<char>)
    ensures
        utf8_len(s) >= s.len(),
    decreases s.len(),
{
    if s.len() > 0 {
        lemma_utf8_len_at_least_chars(s.drop_first());
        assert(vstd::utf8::encode_scalar(s[0] as u32).len() >= 1);
    }
}

/// The widest path sets the width: every path is at most as long in bytes
/// as the longest one.
pub proof fn lemma_max_utf8_len_bounds(ps: Seq<Seq<char>>)
    ensures
        forall|i: int| 0 <= i < ps.len() ==> utf8_len(#[trigger] ps[i]) <= max_utf8_len(ps),
    decreases ps.len(),
{
    if ps.len() > 0 {
        lemma_max_utf8_len_bounds(ps.drop_last());
        assert forall|i: int| 0 <= i < ps.len() implies utf8_len(#[trigger] ps[i]) <= max_utf8_len(ps) by {
            if i < ps.len() - 1 {
                assert(ps.drop_last()[i] == ps[i]);
            }
        }
    }
}

/// The columns of the table line up: the header and every path are padded
/// to the same number of characters, so each type character stands in the
/// same column.
pub proof fn lemma_table_columns_line_up(ps: Seq<Seq<char>>)
    ensures
        pad_right(seq!['P', 'A', 'T', 'H'], column_width(ps)).len() == column_width(ps),
        forall|i: int| 0 <= i < ps.len() ==> (#[trigger] pad_right(ps[i], column_width(ps))).len()
            == column_width(ps),
{
    lemma_max_utf8_len_bounds(ps);
    assert forall|i: int| 0 <= i < ps.len() implies (#[trigger] pad_right(ps[i], column_width(ps))).len()
        == column_width(ps) by {
        lemma_utf8_len_at_least_chars(ps[i]);
    }
}

/// A command sends what was asked for: tracking and untracking send the
/// path with the walk options set exactly as the flags were given (so the
/// daemon walks into a plain subdirectory exactly when `recurse` was
/// given), and a search sends its query.
pub proof fn lemma_request_carries_flags(
    path: String,
    recurse: bool,
    symlinks: bool,
    query: String,
    inline: Option<usize>,
)
    ensures
        (Command::Track { path, recurse, symlinks }).spec_request() == Message::Track(
            path,
            TrackArgs { recursive: recurse, follow_symlinks: symlinks },
        ),
        (Command::Untrack { path, recurse, symlinks }).spec_request() == Message::Untrack(
            path,
            TrackArgs { recursive: recurse, follow_symlinks: symlinks },
        ),
        (Command::Search { query, inline }).spec_request() == Message::Search(query),
        (Command::Track { path, recurse, symlinks }).spec_request() matches Message::Track(p, a)
            && a.spec_descends(true, false) == recurse && a.spec_descends(true, true) == (recurse
            && symlinks),
{
}

} // verus!
