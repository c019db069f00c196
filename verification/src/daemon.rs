//! The search daemon: the set of watched paths, the handling of requests,
//! the text that is embedded for an entry, the ranking of search hits and
//! the filter that removes paths from the index.

use vstd::prelude::*;
use crate::message::{Message, TrackArgs};
use crate::text::{views, extend_str, extend_chars, chars_of, string_of, join_with};
use crate::path::{file_name, file_name_of, opt_view};

verus! {

/// The paths that the daemon tracks; each path is held once.
pub struct Config {
    watched: Vec<String>,
}

/// The paths of `added` that are neither in `seen` nor earlier in `added`,
/// in their order.
pub open spec fn fresh(added: Seq<Seq<char>>, seen: Seq<Seq<char>>) -> Seq<Seq<char>>
    decreases added.len(),
{
    if added.len() == 0 {
        Seq::<Seq<char>>::empty()
    } else {
        let f = fresh(added.drop_last(), seen);
        if seen.contains(added.last()) || f.contains(added.last()) {
            f
        } else {
            f.push(added.last())
        }
    }
}

proof fn lemma_contains_concat(a: Seq<Seq<char>>, b: Seq<Seq<char>>, x: Seq<char>)
    ensures
        (a + b).contains(x) <==> (a.contains(x) || b.contains(x)),
{
    if (a + b).contains(x) {
        let i = choose|i: int| 0 <= i < (a + b).len() && (a + b)[i] == x;
        if i >= a.len() {
            assert(b[i - a.len()] == x);
        }
    }
    if a.contains(x) {
        let i = choose|i: int| 0 <= i < a.len() && a[i] == x;
        assert((a + b)[i] == x);
    }
    if b.contains(x) {
        let i = choose|i: int| 0 <= i < b.len() && b[i] == x;
        assert((a + b)[a.len() + i] == x);
    }
}

impl Config {
    #[verifier::type_invariant]
    closed spec fn inv(self) -> bool {
        views(self.watched@).no_duplicates()
    }

    /// The watched paths, in the order in which they were first watched.
    pub closed spec fn entries(self) -> Seq<Seq<char>> {
        views(self.watched@)
    }

    /// The set of watched paths.
    pub open spec fn paths(self) -> Set<Seq<char>> {
        self.entries().to_set()
    }

    /// A configuration that tracks nothing.
    pub fn new() -> (r: Config)
        ensures
            r.paths() == Set::<Seq<char>>::empty(),
            r.entries().len() == 0,
    {
        let r = Config { watched: Vec::new() };
        assert(r.entries() =~= Seq::<Seq<char>>::empty());
        r
    }

    /// The watched paths, each once.
    pub fn watched(&self) -> (r: Vec<String>)
        ensures
            views(r@) == self.entries(),
            views(r@).no_duplicates(),
            views(r@).to_set() == self.paths(),
    {
        proof {
            use_type_invariant(self);
        }
        let mut r: Vec<String> = Vec::new();
        let mut i: usize = 0;
        while i < self.watched.len()
            invariant
                i <= self.watched.len(),
                views(r@) == self.entries().take(i as int),
            decreases self.watched.len() - i,
        {
            let item = self.watched[i].clone();
            assert(item@ == self.watched@[i as int]@);
            let ghost before = views(r@);
            r.push(item);
            assert(views(r@) =~= before.push(item@));
            assert(self.entries().take(i + 1) =~= self.entries().take(i as int).push(item@));
            i = i + 1;
        }
        assert(self.entries().take(self.watched.len() as int) =~= self.entries());
        r
    }

    /// Tracks every path of `paths` that is not watched yet, after the
    /// paths watched before, in the order of `paths`.
    pub fn track_all(&mut self, paths: &Vec<String>)
        ensures
            final(self).paths() == old(self).paths() + views(paths@).to_set(),
            final(self).entries() == old(self).entries() + fresh(views(paths@), old(self).entries()),
    {
        proof {
            use_type_invariant(&*self);
        }
        let mut next: Vec<String> = Vec::new();
        let mut i: usize = 0;
        while i < self.watched.len()
            invariant
                i <= self.watched.len(),
                views(next@) == views(self.watched@).take(i as int),
            decreases self.watched.len() - i,
        {
            let item = self.watched[i].clone();
            assert(item@ == self.watched@[i as int]@);
            let ghost before = views(next@);
            next.push(item);
            assert(views(next@) =~= before.push(item@));
            assert(views(self.watched@).take(i + 1) =~= views(self.watched@).take(i as int).push(item@));
            i = i + 1;
        }
        assert(views(self.watched@).take(self.watched.len() as int) =~= views(self.watched@));
        let ghost start = views(self.watched@);
        let mut j: usize = 0;
        while j < paths.len()
            invariant
                j <= paths.len(),
                start.no_duplicates(),
                views(next@).no_duplicates(),
                views(next@) == start + fresh(views(paths@).take(j as int), start),
                views(next@).to_set() == start.to_set() + views(paths@).take(j as int).to_set(),
            decreases paths.len() - j,
        {
            let ghost before = views(next@);
            let mut found = false;
            let mut k: usize = 0;
            while k < next.len()
                invariant
                    k <= next.len(),
                    j < paths.len(),
                    !found ==> forall|q: int| 0 <= q < k ==> next@[q]@ != paths@[j as int]@,
                    found ==> views(next@).contains(paths@[j as int]@),
                decreases next.len() - k,
            {
                if next[k] == paths[j] {
                    assert(views(next@)[k as int] == paths@[j as int]@);
                    found = true;
                }
                k = k + 1;
            }
            proof {
                views(paths@).take(j as int).lemma_push_to_set_commute(paths@[j as int]@);
                before.lemma_push_to_set_commute(paths@[j as int]@);
                lemma_contains_concat(start, fresh(views(paths@).take(j as int), start), paths@[j as int]@);
                assert(views(paths@).take(j + 1).drop_last() =~= views(paths@).take(j as int));
                assert(views(paths@).take(j + 1).last() == paths@[j as int]@);
            }
            if !found {
                assert(!views(next@).contains(paths@[j as int]@));
                next.push(paths[j].clone());
                assert(views(next@) =~= before.push(paths@[j as int]@));
                assert(views(next@) =~= start + fresh(views(paths@).take(j + 1), start));
            }
            assert(views(paths@).take(j + 1) =~= views(paths@).take(j as int).push(paths@[j as int]@));
            assert(views(next@).to_set() =~= start.to_set() + views(paths@).take(j + 1).to_set());
            j = j + 1;
        }
        assert(views(paths@).take(paths.len() as int) =~= views(paths@));
        self.watched = next;
    }

    /// Stops tracking every path of `paths`; the other paths keep their
    /// order.
    pub fn untrack_all(&mut self, paths: &Vec<String>)
        ensures
            final(self).paths() == old(self).paths() - views(paths@).to_set(),
            final(self).entries() == old(self).entries().filter(
                |e: Seq<char>| !views(paths@).contains(e),
            ),
    {
        proof {
            use_type_invariant(&*self);
        }
        let ghost start = views(self.watched@);
        let ghost gone = views(paths@).to_set();
        let mut next: Vec<String> = Vec::new();
        let mut i: usize = 0;
        while i < self.watched.len()
            invariant
                i <= self.watched.len(),
                start == views(self.watched@),
                start.no_duplicates(),
                gone == views(paths@).to_set(),
                views(next@).no_duplicates(),
                views(next@) == start.take(i as int).filter(|e: Seq<char>| !views(paths@).contains(e)),
                views(next@).to_set() == start.take(i as int).to_set() - gone,
                forall|q: int| 0 <= q < next.len() ==> start.take(i as int).contains(#[trigger] next@[q]@),
            decreases self.watched.len() - i,
        {
            let mut drop = false;
            let mut k: usize = 0;
            while k < paths.len()
                invariant
                    k <= paths.len(),
                    i < self.watched.len(),
                    !drop ==> forall|q: int| 0 <= q < k ==> paths@[q]@ != self.watched@[i as int]@,
                    drop ==> views(paths@).contains(self.watched@[i as int]@),
                decreases paths.len() - k,
            {
                if paths[k] == self.watched[i] {
                    assert(views(paths@)[k as int] == self.watched@[i as int]@);
                    drop = true;
                }
                k = k + 1;
            }
            let ghost before = views(next@);
            assert(start.take(i + 1) =~= start.take(i as int).push(start[i as int]));
            proof {
                reveal(Seq::filter);
                assert(start.take(i + 1).drop_last() =~= start.take(i as int));
                start.take(i as int).lemma_push_to_set_commute(start[i as int]);
                before.lemma_push_to_set_commute(start[i as int]);
            }
            if !drop {
                assert(!views(paths@).contains(start[i as int]));
                assert(!start.take(i as int).contains(start[i as int])) by {
                    if start.take(i as int).contains(start[i as int]) {
                        let q = choose|q: int| 0 <= q < i && start.take(i as int)[q] == start[i as int];
                        assert(start[q] == start[i as int]);
                    }
                }
                next.push(self.watched[i].clone());
                assert(views(next@) =~= before.push(start[i as int]));
                assert(!before.contains(start[i as int])) by {
                    if before.contains(start[i as int]) {
                        let q = choose|q: int| 0 <= q < before.len() && before[q] == start[i as int];
                        assert(next@[q]@ == before[q]);
                    }
                }
            }
            assert(views(next@).to_set() =~= start.take(i + 1).to_set() - gone);
            assert forall|q: int| 0 <= q < next.len() implies start.take(i + 1).contains(#[trigger] next@[q]@) by {
                if q < before.len() {
                    assert(next@[q]@ == before[q]);
                    assert(start.take(i as int).contains(before[q]));
                    let w = choose|w: int| 0 <= w < i && start.take(i as int)[w] == before[q];
                    assert(start.take(i + 1)[w] == before[q]);
                } else {
                    assert(start.take(i + 1)[i as int] == start[i as int]);
                }
            }
            i = i + 1;
        }
        assert(start.take(self.watched.len() as int) =~= start);
        self.watched = next;
    }
}

/// Stopping to watch paths that were not watched before undoes watching
/// them: after `track_all` and then `untrack_all` of the same paths, the
/// configuration watches what it watched before.
pub proof fn lemma_untrack_undoes_track(
    before: Config,
    watching: Config,
    after: Config,
    paths: Seq<Seq<char>>,
)
    requires
        before.paths().disjoint(paths.to_set()),
        watching.paths() == before.paths() + paths.to_set(),
        after.paths() == watching.paths() - paths.to_set(),
    ensures
        after.paths() == before.paths(),
{
    assert(after.paths() =~= before.paths());
}

/// Watching the same paths twice watches what watching them once does:
/// a second `track_all` of the same paths leaves the watched set as it is.
pub proof fn lemma_track_idempotent(before: Config, once: Config, twice: Config, paths: Seq<Seq<char>>)
    requires
        once.paths() == before.paths() + paths.to_set(),
        twice.paths() == once.paths() + paths.to_set(),
    ensures
        twice.paths() == once.paths(),
{
    assert(twice.paths() =~= once.paths());
}

/// What the daemon does with a request.
#[derive(Debug)]
pub enum Task {
    /// Embed the query, look it up in the index, then call
    /// [`Daemon::finish_search`] and send its reply.
    Search(String),
    /// Send this reply; nothing else is to be done.
    Reply(Message),
    /// Send `ack` at once, then walk the path and index and watch what the
    /// walk finds.
    Track { path: String, args: TrackArgs, ack: Message },
    /// Send `ack` at once, then walk the path and remove what the walk finds
    /// from the index and from the watched paths.
    Untrack { path: String, args: TrackArgs, ack: Message },
}

/// The daemon's state between requests: the hits of the last search, and
/// how many of them requests for results have handed out so far.
pub struct Daemon {
    got: Vec<String>,
    next: usize,
}

/// The first `n` of `hits`, all of them when there are fewer.
pub open spec fn first_hits(hits: Seq<Seq<char>>, n: nat) -> Seq<Seq<char>> {
    if n < hits.len() {
        hits.take(n as int)
    } else {
        hits
    }
}

/// Where handing out `n` more hits from `pos` stops: `n` further on, or at
/// the end of the hits.
pub open spec fn advanced(hits: Seq<Seq<char>>, pos: nat, n: nat) -> nat {
    if pos + n < hits.len() {
        pos + n
    } else {
        hits.len()
    }
}

/// The next `n` of `hits` from position `pos`: those that are left when
/// there are fewer.
pub open spec fn next_hits(hits: Seq<Seq<char>>, pos: nat, n: nat) -> Seq<Seq<char>> {
    hits.subrange(pos as int, advanced(hits, pos, n) as int)
}

impl Daemon {
    #[verifier::type_invariant]
    closed spec fn inv(self) -> bool {
        self.next <= self.got.len()
    }

    /// The hits of the last search, best first.
    pub closed spec fn hits(self) -> Seq<Seq<char>> {
        views(self.got@)
    }

    /// How many of the hits have been handed out since the last search.
    pub closed spec fn position(self) -> nat {
        self.next as nat
    }

    /// A daemon that has not searched yet.
    pub fn new() -> (r: Daemon)
        ensures
            r.hits().len() == 0,
            r.position() == 0,
    {
        Daemon { got: Vec::new(), next: 0 }
    }

    /// The task for a request: a search is looked up; a request for `n`
    /// results is answered with the next `n` hits of the last search, after
    /// those handed out before; tracking and untracking are confirmed at
    /// once and then carried out.
    pub fn dispatch(&mut self, request: Message) -> (r: Task)
        requires
            request.is_request(),
        ensures
            old(self).position() <= old(self).hits().len(),
            final(self).hits() == old(self).hits(),
            match request {
                Message::Search(q) => r == Task::Search(q) && final(self).position() == old(
                    self,
                ).position(),
                Message::Get(n) => {
                    &&& r matches Task::Reply(Message::Paths(p)) && views(p@) == next_hits(
                        old(self).hits(),
                        old(self).position(),
                        n as nat,
                    )
                    &&& final(self).position() == advanced(
                        old(self).hits(),
                        old(self).position(),
                        n as nat,
                    )
                },
                Message::Track(p, a) => r == Task::Track {
                    path: p,
                    args: a,
                    ack: Message::Confirmation,
                } && final(self).position() == old(self).position(),
                Message::Untrack(p, a) => r == Task::Untrack {
                    path: p,
                    args: a,
                    ack: Message::Confirmation,
                } && final(self).position() == old(self).position(),
                _ => false,
            },
    {
        proof {
            use_type_invariant(&*self);
        }
        match request {
            Message::Search(q) => Task::Search(q),
            Message::Get(n) => {
                let start = self.next;
                let end = if n < self.got.len() - start {
                    start + n
                } else {
                    self.got.len()
                };
                let ghost hits = self.hits();
                let mut out: Vec<String> = Vec::new();
                let mut i: usize = start;
                while i < end
                    invariant
                        start <= i <= end <= self.got.len(),
                        hits == views(self.got@),
                        views(out@) == hits.subrange(start as int, i as int),
                    decreases end - i,
                {
                    let item = self.got[i].clone();
                    assert(item@ == self.got@[i as int]@);
                    let ghost before = views(out@);
                    out.push(item);
                    assert(views(out@) =~= before.push(item@));
                    assert(hits.subrange(start as int, i + 1) =~= hits.subrange(
                        start as int,
                        i as int,
                    ).push(item@));
                    i = i + 1;
                }
                self.next = end;
                Task::Reply(Message::Paths(out))
            },
            Message::Track(p, a) => Task::Track { path: p, args: a, ack: Message::Confirmation },
            Message::Untrack(p, a) => Task::Untrack { path: p, args: a, ack: Message::Confirmation },
            Message::Paths(_) | Message::Confirmation => {
                // Replies are never requests.
                proof {
                    assert(false);
                }
                Task::Reply(Message::Confirmation)
            },
        }
    }

    /// Records the hits of a search (none when the lookup failed), starts
    /// handing them out from the first, and gives the reply: a
    /// confirmation.
    pub fn finish_search(&mut self, found: Option<Vec<String>>) -> (r: Message)
        ensures
            r == Message::Confirmation,
            final(self).hits() == match found {
                Some(v) => views(v@),
                None => Seq::<Seq<char>>::empty(),
            },
            final(self).position() == 0,
    {
        let got = match found {
            Some(v) => v,
            None => Vec::new(),
        };
        *self = Daemon { got, next: 0 };
        proof {
            if found is None {
                assert(self.hits() =~= Seq::<Seq<char>>::empty());
            }
        }
        Message::Confirmation
    }
}

/// What the first request for results after a search gives: the first `n`
/// hits that the search recorded.
pub proof fn lemma_get_returns_search_hits(d: Daemon, found: Seq<Seq<char>>, n: nat)
    requires
        d.hits() == found,
        d.position() == 0,
    ensures
        next_hits(d.hits(), d.position(), n) == first_hits(found, n),
        next_hits(d.hits(), d.position(), n).len() == if n < found.len() {
            n
        } else {
            found.len()
        },
        forall|i: int| 0 <= i < next_hits(d.hits(), d.position(), n).len() ==> next_hits(d.hits(), d.position(), n)[i] == found[i],
{
    assert(next_hits(d.hits(), d.position(), n) =~= first_hits(found, n));
}

/// Requests for results carry on where the one before stopped: asking for
/// `a` hits and then for `b` more gives, put together, what asking for
/// `a + b` at once gives, and leaves the same position.
pub proof fn lemma_consecutive_gets(hits: Seq<Seq<char>>, pos: nat, a: nat, b: nat)
    requires
        pos <= hits.len(),
    ensures
        next_hits(hits, pos, a) + next_hits(hits, advanced(hits, pos, a), b) == next_hits(
            hits,
            pos,
            a + b,
        ),
        advanced(hits, advanced(hits, pos, a), b) == advanced(hits, pos, a + b),
{
    assert(next_hits(hits, pos, a) + next_hits(hits, advanced(hits, pos, a), b) =~= next_hits(
        hits,
        pos,
        a + b,
    ));
}

/// What the daemon could read of an entry before it embeds it.
#[derive(Debug)]
pub enum EntryRead {
    /// A file whose content looks binary.
    Binary,
    /// A file and the first bytes of its content (at most [`CONTENT_LIMIT`]).
    Text(Vec<u8>),
    /// A file that could not be opened or read.
    Unreadable,
    /// A directory.
    Directory,
    /// Anything else.
    Other,
}

/// The number of leading bytes of a file that go into its embedding.
pub const CONTENT_LIMIT: u64 = 100000;

/// Each byte read as the character with that code (Latin-1).
pub open spec fn latin1(bytes: Seq<u8>) -> Seq<char> {
    Seq::new(bytes.len(), |i: int| bytes[i] as char)
}

/// The text that is embedded for an entry: for a readable text file its
/// name (empty when it has none), `: ` and its content; for a directory its
/// name and `: `; otherwise its name alone. `None` when the entry has no
/// name to show and is not a readable text file.
pub open spec fn entry_text(path: Seq<char>, read: EntryRead) -> Option<Seq<char>> {
    let name = file_name_of(path);
    match read {
        EntryRead::Text(bytes) => Some(
            match name {
                Some(n) => n,
                None => Seq::<char>::empty(),
            } + seq![':', ' '] + latin1(bytes@),
        ),
        EntryRead::Directory => match name {
            Some(n) => Some(n + seq![':', ' ']),
            None => None,
        },
        _ => name,
    }
}

/// The bytes as Latin-1 characters.
pub fn latin1_chars(bytes: &Vec<u8>) -> (r: Vec<char>)
    ensures
        r@ == latin1(bytes@),
{
    let mut r: Vec<char> = Vec::new();
    let mut i: usize = 0;
    while i < bytes.len()
        invariant
            i <= bytes.len(),
            r@ == latin1(bytes@.take(i as int)),
        decreases bytes.len() - i,
    {
        r.push(bytes[i] as char);
        assert(r@ =~= latin1(bytes@.take(i + 1)));
        i = i + 1;
    }
    assert(bytes@.take(bytes.len() as int) =~= bytes@);
    r
}

/// The text that is embedded for the entry at `path`.
pub fn describe_entry(path: &str, read: EntryRead) -> (r: Option<String>)
    ensures
        opt_view(r) == entry_text(path@, read),
{
    let name = file_name(path);
    match read {
        EntryRead::Text(bytes) => {
            let mut out: Vec<char> = Vec::new();
            match &name {
                Some(n) => extend_str(&mut out, n.as_str()),
                None => {},
            }
            out.push(':');
            out.push(' ');
            let content = latin1_chars(&bytes);
            extend_chars(&mut out, &content);
            Some(string_of(&out))
        },
        EntryRead::Directory => match name {
            Some(n) => {
                let mut out = chars_of(n.as_str());
                out.push(':');
                out.push(' ');
                Some(string_of(&out))
            },
            None => None,
        },
        _ => name,
    }
}

/// The texts that are embedded for a batch of entries, in order; entries
/// without a text are left out.
pub fn describe_entries(paths: &Vec<String>, reads: Vec<EntryRead>) -> (r: Vec<String>)
    requires
        reads.len() == paths.len(),
    ensures
        views(r@) == Seq::new(paths.len() as nat, |i: int| i).filter_map(
            |i: int| entry_text(paths@[i]@, reads@[i]),
        ),
{
    let ghost all = Seq::new(paths.len() as nat, |i: int| i);
    let ghost f = |i: int| entry_text(paths@[i]@, reads@[i]);
    let ghost original = reads@;
    let mut reads = reads;
    let mut r: Vec<String> = Vec::new();
    let mut i: usize = 0;
    while i < paths.len()
        invariant
            i <= paths.len(),
            original.len() == paths.len(),
            reads@ == original.skip(i as int),
            views(r@) == all.take(i as int).filter_map(f),
            all == Seq::new(paths.len() as nat, |i: int| i),
            f == (|i: int| entry_text(paths@[i]@, original[i])),
        decreases paths.len() - i,
    {
        assert(reads@.len() > 0);
        let read = reads.remove(0);
        assert(read == original[i as int]);
        assert(reads@ =~= original.skip(i + 1));
        assert(all.take(i + 1).drop_last() =~= all.take(i as int));
        let ghost before = views(r@);
        match describe_entry(paths[i].as_str(), read) {
            Some(t) => {
                r.push(t);
                assert(views(r@) =~= before + seq![f(i as int)->0]);
            },
            None => {},
        }
        i = i + 1;
    }
    assert(all.take(paths.len() as int) =~= all);
    r
}

/// The filter that selects the given paths in the index, as the index's
/// query language writes it: `path in ("a", "b")`. The paths are quoted as
/// they are, without escaping.
pub open spec fn removal_filter_text(paths: Seq<Seq<char>>) -> Seq<char> {
    seq!['p', 'a', 't', 'h', ' ', 'i', 'n', ' ', '('] + join_with(
        paths.map_values(|p: Seq<char>| seq!['"'] + p + seq!['"']),
        seq![',', ' '],
    ) + seq![')']
}

/// The filter that removes `paths` from the index.
pub fn removal_filter(paths: &Vec<String>) -> (r: String)
    ensures
        r@ == removal_filter_text(views(paths@)),
{
    let ghost q = views(paths@).map_values(|p: Seq<char>| seq!['"'] + p + seq!['"']);
    let mut out: Vec<char> = Vec::new();
    extend_str(&mut out, "path in (");
    proof {
        reveal_strlit("path in (");
    }
    let ghost head = out@;
    let mut i: usize = 0;
    while i < paths.len()
        invariant
            i <= paths.len(),
            q == views(paths@).map_values(|p: Seq<char>| seq!['"'] + p + seq!['"']),
            out@ == head + join_with(q.take(i as int), seq![',', ' ']),
        decreases paths.len() - i,
    {
        let ghost before = q.take(i as int);
        if i > 0 {
            out.push(',');
            out.push(' ');
        }
        out.push('"');
        extend_str(&mut out, paths[i].as_str());
        out.push('"');
        let ghost after = q.take(i + 1);
        assert(after.drop_last() =~= before);
        assert(after.last() == seq!['"'] + paths@[i as int]@ + seq!['"']);
        if i == 0 {
            assert(after =~= seq![after.last()]);
        }
        assert(out@ =~= head + join_with(after, seq![',', ' ']));
        i = i + 1;
    }
    assert(q.take(paths.len() as int) =~= q);
    out.push(')');
    assert(head == seq!['p', 'a', 't', 'h', ' ', 'i', 'n', ' ', '(']);
    string_of(&out)
}

/// The number of rows the index needs before a vector index is built.
pub const INDEX_MIN_ROWS: usize = 256;

/// Whether the vector index is (re)built for a table of `rows` rows: only
/// once it has at least [`INDEX_MIN_ROWS`] rows.
pub fn should_index(rows: usize) -> (r: bool)
    ensures
        r == (rows >= INDEX_MIN_ROWS),
{
    rows >= INDEX_MIN_ROWS
}

/// `order` lists the positions `0..m` by ascending key; positions with equal
/// keys keep their original order.
pub open spec fn is_ranking(keys: Seq<u32>, m: nat, order: Seq<int>) -> bool {
    &&& order.len() == m
    &&& forall|a: int| 0 <= a < m ==> 0 <= #[trigger] order[a] < m
    &&& forall|a: int, b: int|
        0 <= a < b < m ==> #[trigger] keys[order[a]] < #[trigger] keys[order[b]] || (keys[order[a]]
            == keys[order[b]] && order[a] < order[b])
}

/// The positions as integers.
pub open spec fn positions(v: Seq<usize>) -> Seq<int> {
    v.map_values(|x: usize| x as int)
}

/// The positions `0..m` ordered by ascending `keys`, ties in position
/// order (a stable sort).
pub fn rank_order(keys: &Vec<u32>, m: usize) -> (order: Vec<usize>)
    requires
        m <= keys.len(),
    ensures
        is_ranking(keys@, m as nat, positions(order@)),
{
    let mut order: Vec<usize> = Vec::new();
    let mut i: usize = 0;
    while i < m
        invariant
            i <= m,
            m <= keys.len(),
            is_ranking(keys@, i as nat, positions(order@)),
        decreases m - i,
    {
        let key = keys[i];
        let mut pos: usize = order.len();
        assert forall|a: int| 0 <= a < order.len() implies (#[trigger] order@[a]) < i by {
            assert(positions(order@)[a] == order@[a] as int);
        }
        while pos > 0 && keys[order[pos - 1]] > key
            invariant
                pos <= order.len(),
                order.len() == i,
                i < m,
                m <= keys.len(),
                key == keys@[i as int],
                is_ranking(keys@, i as nat, positions(order@)),
                forall|a: int| pos <= a < order.len() ==> keys@[#[trigger] order@[a] as int] > key,
                forall|a: int| 0 <= a < order.len() ==> (#[trigger] order@[a]) < i,
            decreases pos,
        {
            assert(positions(order@)[pos - 1] == order@[pos - 1] as int);
            pos = pos - 1;
        }
        let ghost old_order = positions(order@);
        proof {
            if pos > 0 {
                assert(old_order[pos - 1] == order@[pos - 1] as int);
                assert forall|a: int| 0 <= a < pos implies keys@[#[trigger] old_order[a]] <= key by {
                    if a < pos - 1 {
                        assert(keys@[old_order[a]] < keys@[old_order[pos - 1]] || keys@[old_order[a]]
                            == keys@[old_order[pos - 1]]);
                    }
                }
            }
        }
        order.insert(pos, i);
        let ghost new_order = positions(order@);
        assert(new_order =~= old_order.insert(pos as int, i as int));
        assert forall|a: int| 0 <= a < i + 1 implies 0 <= #[trigger] new_order[a] < i + 1 by {
            if a < pos {
                assert(new_order[a] == old_order[a]);
            } else if a > pos {
                assert(new_order[a] == old_order[a - 1]);
            }
        }
        assert forall|a: int, b: int|
            0 <= a < b < i + 1 implies #[trigger] keys@[new_order[a]] < #[trigger] keys@[new_order[b]]
            || (keys@[new_order[a]] == keys@[new_order[b]] && new_order[a] < new_order[b]) by {
            if b < pos {
                assert(new_order[a] == old_order[a] && new_order[b] == old_order[b]);
            } else if b == pos {
                assert(new_order[a] == old_order[a]);
                assert(keys@[old_order[a]] <= key);
            } else if a < pos {
                assert(new_order[a] == old_order[a] && new_order[b] == old_order[b - 1]);
            } else if a == pos {
                assert(new_order[b] == old_order[b - 1]);
                assert(keys@[order@[b] as int] > key);
            } else {
                assert(new_order[a] == old_order[a - 1] && new_order[b] == old_order[b - 1]);
            }
        }
        i = i + 1;
    }
    order
}

/// The names of the search hits, nearest first: `keys[i]` orders hit `i`
/// (a smaller key is nearer), hits with equal keys keep their order, and
/// hits beyond the shorter of the two lists are dropped.
pub fn rank_results(keys: &Vec<u32>, names: &Vec<String>) -> (r: Vec<String>)
    ensures
        exists|order: Seq<int>|
            #![trigger is_ranking(keys@, r@.len(), order)]
            {
                &&& r@.len() == if keys.len() < names.len() {
                    keys.len()
                } else {
                    names.len()
                }
                &&& is_ranking(keys@, r@.len(), order)
                &&& forall|a: int| 0 <= a < r@.len() ==> #[trigger] r@[a]@ == names@[order[a]]@
            },
{
    let m: usize = if keys.len() < names.len() {
        keys.len()
    } else {
        names.len()
    };
    let order = rank_order(keys, m);
    let mut r: Vec<String> = Vec::new();
    let mut a: usize = 0;
    while a < m
        invariant
            a <= m,
            m <= names.len(),
            m <= keys.len(),
            is_ranking(keys@, m as nat, positions(order@)),
            r@.len() == a,
            forall|q: int| 0 <= q < a ==> #[trigger] r@[q]@ == names@[order@[q] as int]@,
        decreases m - a,
    {
        assert(positions(order@)[a as int] == order@[a as int] as int);
        let item = names[order[a]].clone();
        r.push(item);
        a = a + 1;
    }
    assert(is_ranking(keys@, r@.len(), positions(order@)));
    assert forall|q: int| 0 <= q < r@.len() implies #[trigger] r@[q]@ == names@[positions(order@)[q]]@ by {
        assert(positions(order@)[q] == order@[q] as int);
    }
    r
}

/// A ranking lists every position `0..m` once.
pub proof fn lemma_ranking_covers(keys: Seq<u32>, m: nat, order: Seq<int>)
    requires
        is_ranking(keys, m, order),
        m <= keys.len(),
    ensures
        order.no_duplicates(),
        forall|v: int| 0 <= v < m ==> order.contains(v),
{
    assert(order.no_duplicates()) by {
        assert forall|a: int, b: int| 0 <= a < order.len() && 0 <= b < order.len() && a != b implies order[a]
            != order[b] by {
            if a < b {
                assert(keys[order[a]] < keys[order[b]] || (keys[order[a]] == keys[order[b]] && order[a]
                    < order[b]));
            } else {
                assert(keys[order[b]] < keys[order[a]] || (keys[order[b]] == keys[order[a]] && order[b]
                    < order[a]));
            }
        }
    }
    order.unique_seq_to_set();
    vstd::set_lib::lemma_int_range(0, m as int);
    let range = vstd::set_lib::set_int_range(0, m as int);
    assert(order.to_set().subset_of(range)) by {
        assert forall|v: int| order.to_set().contains(v) implies range.contains(v) by {
            let a = choose|a: int| 0 <= a < order.len() && order[a] == v;
            assert(0 <= order[a] < m);
        }
    }
    vstd::seq_lib::seq_to_set_is_finite(order);
    vstd::set_lib::lemma_subset_equality(order.to_set(), range);
    assert forall|v: int| 0 <= v < m implies order.contains(v) by {
        assert(range.contains(v));
        assert(order.to_set().contains(v));
    }
}

proof fn lemma_ranking_agree_from(keys: Seq<u32>, m: nat, o1: Seq<int>, o2: Seq<int>, a: int)
    requires
        is_ranking(keys, m, o1),
        is_ranking(keys, m, o2),
        m <= keys.len(),
        o1.no_duplicates(),
        o2.no_duplicates(),
        forall|v: int| 0 <= v < m ==> o1.contains(v),
        forall|v: int| 0 <= v < m ==> o2.contains(v),
        0 <= a <= m,
        forall|k: int| 0 <= k < a ==> o1[k] == o2[k],
    ensures
        forall|k: int| 0 <= k < m ==> o1[k] == o2[k],
    decreases m - a,
{
    if a < m {
        let x = o1[a];
        let y = o2[a];
        assert(0 <= x < m && 0 <= y < m);
        assert(o2.contains(x));
        let b = choose|b: int| 0 <= b < o2.len() && o2[b] == x;
        assert(o1.contains(y));
        let c = choose|c: int| 0 <= c < o1.len() && o1[c] == y;
        if x != y {
            if b < a {
                assert(o1[b] == o2[b]);
                assert(o1[b] == o1[a]);
            }
            if c < a {
                assert(o1[c] == o2[c]);
                assert(o2[c] == o2[a]);
            }
            assert(b > a && c > a);
            assert(keys[o2[a]] < keys[o2[b]] || (keys[o2[a]] == keys[o2[b]] && o2[a] < o2[b]));
            assert(keys[o1[a]] < keys[o1[c]] || (keys[o1[a]] == keys[o1[c]] && o1[a] < o1[c]));
            assert(false);
        }
        lemma_ranking_agree_from(keys, m, o1, o2, a + 1);
    }
}

/// The keys determine the ranking: two rankings of the same positions by
/// the same keys are the same, so the order of the hits that
/// [`rank_results`] returns is fixed by the keys.
pub proof fn lemma_ranking_unique(keys: Seq<u32>, m: nat, o1: Seq<int>, o2: Seq<int>)
    requires
        is_ranking(keys, m, o1),
        is_ranking(keys, m, o2),
        m <= keys.len(),
    ensures
        o1 == o2,
{
    lemma_ranking_covers(keys, m, o1);
    lemma_ranking_covers(keys, m, o2);
    lemma_ranking_agree_from(keys, m, o1, o2, 0);
    assert(o1 =~= o2);
}

/// The text embedded for a readable text file ends with `: ` and the whole
/// content read, one Latin-1 character per byte; what comes before is the
/// file's name (empty when it has none).
pub proof fn lemma_text_entry_keeps_content(path: Seq<char>, bytes: Vec<u8>)
    ensures
        entry_text(path, EntryRead::Text(bytes)) matches Some(t) && {
            let k = t.len() - bytes@.len() - 2;
            &&& t.len() >= bytes@.len() + 2
            &&& t.subrange(k, t.len() as int) == seq![':', ' '] + latin1(bytes@)
            &&& t.subrange(0, k) == match file_name_of(path) {
                Some(n) => n,
                None => Seq::<char>::empty(),
            }
        },
        latin1(bytes@).len() == bytes@.len(),
        forall|i: int| 0 <= i < bytes@.len() ==> (#[trigger] latin1(bytes@)[i]) as u32 == bytes@[i] as u32,
{
    let t = entry_text(path, EntryRead::Text(bytes)).unwrap();
    let n = match file_name_of(path) {
        Some(n) => n,
        None => Seq::<char>::empty(),
    };
    assert(t =~= n + (seq![':', ' '] + latin1(bytes@)));
    assert(t.subrange(n.len() as int, t.len() as int) =~= seq![':', ' '] + latin1(bytes@));
    assert(t.subrange(0, n.len() as int) =~= n);
}

} // verus!
