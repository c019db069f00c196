//! The messages that the client and the daemon exchange.

use vstd::prelude::*;

verus! {

/// How a directory is walked when it is tracked or untracked.
#[derive(Clone, Copy, Debug, PartialEq, Eq)]
pub struct TrackArgs {
    /// Descend into subdirectories.
    pub recursive: bool,
    /// Descend into directories that are reached through a symbolic link.
    pub follow_symlinks: bool,
}

impl Default for TrackArgs {
    fn default() -> (r: Self)
        ensures
            r.recursive,
            !r.follow_symlinks,
    {
        TrackArgs { recursive: true, follow_symlinks: false }
    }
}

impl TrackArgs {
    /// Whether the walk descends into an entry that is a directory when
    /// `is_dir`, and a symbolic link when `is_symlink`.
    pub open spec fn spec_descends(self, is_dir: bool, is_symlink: bool) -> bool {
        is_dir && self.recursive && (!is_symlink || self.follow_symlinks)
    }

    /// Whether the walk descends into an entry of the given kind: only into
    /// directories, only when recursive, and into a symbolic link only when
    /// links are followed.
    pub fn descends(&self, is_dir: bool, is_symlink: bool) -> (r: bool)
        ensures
            r == self.spec_descends(is_dir, is_symlink),
    {
        is_dir && self.recursive && (!is_symlink || self.follow_symlinks)
    }
}

/// A message between the client and the daemon. Paths are carried as text.
#[derive(Clone, Debug, PartialEq, Eq)]
pub enum Message {
    /// Set the search term.
    Search(String),
    /// Ask for the next `n` results of the current search, after those
    /// handed out since it was set.
    Get(usize),
    /// Track a directory or file.
    Track(String, TrackArgs),
    /// Stop tracking a directory or file.
    Untrack(String, TrackArgs),
    /// A reply that carries paths.
    Paths(Vec<String>),
    /// A reply that carries nothing.
    Confirmation,
}

impl Message {
    /// Whether the message is one that the client sends to the daemon.
    pub open spec fn is_request(self) -> bool {
        match self {
            Message::Search(_) | Message::Get(_) | Message::Track(_, _) | Message::Untrack(_, _) => true,
            _ => false,
        }
    }
}

/// How the walk options decide descents: a walk never descends into what
/// is not a directory, nor into anything when it is not recursive; a
/// recursive walk descends into every directory that is not a symbolic
/// link, whatever `follow_symlinks` says; into a linked directory exactly
/// when links are followed. So following links only adds descents.
pub proof fn lemma_descends_by_options(args: TrackArgs, is_dir: bool, is_symlink: bool)
    ensures
        !is_dir ==> !args.spec_descends(is_dir, is_symlink),
        !args.recursive ==> !args.spec_descends(is_dir, is_symlink),
        args.recursive && is_dir && !is_symlink ==> args.spec_descends(is_dir, is_symlink),
        args.recursive && is_dir && is_symlink ==> (args.spec_descends(is_dir, is_symlink)
            <==> args.follow_symlinks),
        args.spec_descends(is_dir, is_symlink) ==> (TrackArgs {
            recursive: args.recursive,
            follow_symlinks: true,
        }).spec_descends(is_dir, is_symlink),
{
}

} // verus!
