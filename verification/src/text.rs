//! Character-level text helpers: converting between `String` and character
//! vectors, splitting on a separator, joining with a separator.

use vstd::prelude::*;

verus! {

/// `s` split at every occurrence of `sep`, the way `str::split` with a
/// single-character pattern splits: `n` separators give `n + 1` pieces, and
/// empty pieces are kept.
pub open spec fn split_on(s: Seq<char>, sep: char) -> Seq<Seq<char>>
    decreases s.len(),
{
    if s.len() == 0 {
        seq![Seq::<char>::empty()]
    } else {
        let r = split_on(s.drop_last(), sep);
        if s.last() == sep {
            r.push(Seq::<char>::empty())
        } else {
            r.update(r.len() - 1, r.last().push(s.last()))
        }
    }
}

/// The pieces of `parts` written one after another, with `sep` between
/// neighbours.
pub open spec fn join_with(parts: Seq<Seq<char>>, sep: Seq<char>) -> Seq<char>
    decreases parts.len(),
{
    if parts.len() == 0 {
        Seq::<char>::empty()
    } else if parts.len() == 1 {
        parts[0]
    } else {
        join_with(parts.drop_last(), sep) + sep + parts.last()
    }
}

/// The pieces of `parts` written one after another.
pub open spec fn concat_all(parts: Seq<Seq<char>>) -> Seq<char>
    decreases parts.len(),
{
    if parts.len() == 0 {
        Seq::<char>::empty()
    } else {
        concat_all(parts.drop_last()) + parts.last()
    }
}

/// The character views of a vector of strings.
pub open spec fn views(v: Seq<String>) -> Seq<Seq<char>> {
    v.map_values(|s: String| s@)
}

pub proof fn lemma_split_on_nonempty(s: Seq<char>, sep: char)
    ensures
        split_on(s, sep).len() >= 1,
    decreases s.len(),
{
    if s.len() > 0 {
        lemma_split_on_nonempty(s.drop_last(), sep);
    }
}

/// Appends one character to a string (`String::push`).
#[verifier::external_body]
pub(crate) fn push_char(s: &mut String, c: char)
    ensures
        final(s)@ == old(s)@.push(c),
{
    s.push(c);
}

/// The characters of `s`, in order.
pub fn chars_of(s: &str) -> (r: Vec<char>)
    ensures
        r@ == s@,
{
    let mut r: Vec<char> = Vec::new();
    for c in it: s.chars()
        invariant
            r@ == it.seq().take(it.index() as int),
    {
        r.push(c);
    }
    r
}

/// A string holding the characters of `v`, in order.
pub fn string_of(v: &Vec<char>) -> (r: String)
    ensures
        r@ == v@,
{
    let mut r = String::new();
    let mut i: usize = 0;
    while i < v.len()
        invariant
            i <= v.len(),
            r@ == v@.take(i as int),
        decreases v.len() - i,
    {
        push_char(&mut r, v[i]);
        assert(v@.take(i + 1) =~= v@.take(i as int).push(v@[i as int]));
        i = i + 1;
    }
    assert(v@.take(v.len() as int) =~= v@);
    r
}

/// Appends all characters of `src` to `dst`.
pub fn extend_chars(dst: &mut Vec<char>, src: &Vec<char>)
    ensures
        final(dst)@ == old(dst)@ + src@,
{
    let ghost start = dst@;
    let mut i: usize = 0;
    while i < src.len()
        invariant
            i <= src.len(),
            dst@ == start + src@.take(i as int),
        decreases src.len() - i,
    {
        dst.push(src[i]);
        assert(src@.take(i + 1) =~= src@.take(i as int).push(src@[i as int]));
        i = i + 1;
    }
    assert(src@.take(src.len() as int) =~= src@);
}

/// Appends all characters of `src` to `dst`.
pub fn extend_str(dst: &mut Vec<char>, src: &str)
    ensures
        final(dst)@ == old(dst)@ + src@,
{
    let cs = chars_of(src);
    extend_chars(dst, &cs);
}

/// Whether two character vectors hold the same characters.
pub fn chars_eq(a: &Vec<char>, b: &Vec<char>) -> (r: bool)
    ensures
        r == (a@ == b@),
{
    if a.len() != b.len() {
        return false;
    }
    let mut i: usize = 0;
    while i < a.len()
        invariant
            i <= a.len(),
            a.len() == b.len(),
            forall|k: int| 0 <= k < i ==> a@[k] == b@[k],
        decreases a.len() - i,
    {
        if a[i] != b[i] {
            return false;
        }
        i = i + 1;
    }
    assert(a@ =~= b@);
    true
}

/// `s` split at every `sep`, as `str::split` with a character pattern does.
pub fn split_chars(s: &Vec<char>, sep: char) -> (r: Vec<Vec<char>>)
    ensures
        r@.map_values(|p: Vec<char>| p@) == split_on(s@, sep),
{
    let mut r: Vec<Vec<char>> = Vec::new();
    r.push(Vec::new());
    let mut i: usize = 0;
    while i < s.len()
        invariant
            i <= s.len(),
            r@.len() >= 1,
            r@.map_values(|p: Vec<char>| p@) == split_on(s@.take(i as int), sep),
        decreases s.len() - i,
    {
        let c = s[i];
        let ghost prev = r@.map_values(|p: Vec<char>| p@);
        assert(s@.take(i + 1).drop_last() =~= s@.take(i as int));
        if c == sep {
            r.push(Vec::new());
            assert(r@.map_values(|p: Vec<char>| p@) =~= prev.push(Seq::<char>::empty()));
        } else {
            let mut piece = r.pop().unwrap();
            piece.push(c);
            r.push(piece);
            assert(r@.map_values(|p: Vec<char>| p@) =~= prev.update(
                prev.len() - 1,
                prev.last().push(c),
            ));
        }
        i = i + 1;
    }
    assert(s@.take(s.len() as int) =~= s@);
    r
}

/// `s` split at every `sep`, each piece as a string.
pub fn split_string(s: &str, sep: char) -> (r: Vec<String>)
    ensures
        views(r@) == split_on(s@, sep),
{
    let cs = chars_of(s);
    let pieces = split_chars(&cs, sep);
    let mut r: Vec<String> = Vec::new();
    let mut i: usize = 0;
    while i < pieces.len()
        invariant
            i <= pieces.len(),
            r@.len() == i,
            forall|k: int| 0 <= k < i ==> #[trigger] r@[k]@ == pieces@[k]@,
        decreases pieces.len() - i,
    {
        r.push(string_of(&pieces[i]));
        i = i + 1;
    }
    assert(views(r@) =~= pieces@.map_values(|p: Vec<char>| p@));
    r
}

/// The characters of `parts` joined with `sep` between neighbours.
pub fn join_strings(parts: &Vec<String>, sep: &str) -> (r: Vec<char>)
    ensures
        r@ == join_with(views(parts@), sep@),
{
    let mut r: Vec<char> = Vec::new();
    let sep_chars = chars_of(sep);
    let mut i: usize = 0;
    while i < parts.len()
        invariant
            i <= parts.len(),
            sep_chars@ == sep@,
            r@ == join_with(views(parts@).take(i as int), sep@),
        decreases parts.len() - i,
    {
        let ghost before = views(parts@).take(i as int);
        if i > 0 {
            extend_chars(&mut r, &sep_chars);
        }
        let piece = chars_of(parts[i].as_str());
        extend_chars(&mut r, &piece);
        let ghost after = views(parts@).take(i + 1);
        assert(after.drop_last() =~= before);
        assert(after.last() == parts@[i as int]@);
        if i == 0 {
            assert(after =~= seq![parts@[0]@]);
        }
        i = i + 1;
    }
    assert(views(parts@).take(parts.len() as int) =~= views(parts@));
    r
}

/// Splitting a text made of two texts and a separator between them gives
/// the pieces of the first, then the pieces of the second.
pub proof fn lemma_split_on_concat(a: Seq<char>, b: Seq<char>, sep: char)
    ensures
        split_on(a + seq![sep] + b, sep) == split_on(a, sep) + split_on(b, sep),
    decreases b.len(),
{
    lemma_split_on_nonempty(a, sep);
    if b.len() == 0 {
        assert(a + seq![sep] + b =~= a.push(sep));
        assert((a.push(sep)).drop_last() =~= a);
        assert(split_on(a, sep) + split_on(b, sep) =~= split_on(a, sep).push(Seq::<char>::empty()));
    } else {
        let b1 = b.drop_last();
        let c = b.last();
        lemma_split_on_concat(a, b1, sep);
        lemma_split_on_nonempty(b1, sep);
        let whole = a + seq![sep] + b;
        assert(whole.drop_last() =~= a + seq![sep] + b1);
        assert(whole.last() == c);
        let l = split_on(a, sep);
        let r = split_on(b1, sep);
        if c == sep {
            assert((l + r).push(Seq::<char>::empty()) =~= l + r.push(Seq::<char>::empty()));
        } else {
            assert((l + r).update((l + r).len() - 1, (l + r).last().push(c)) =~= l + r.update(
                r.len() - 1,
                r.last().push(c),
            ));
        }
    }
}

/// Joining the pieces of a split with the separator gives the text back.
pub proof fn lemma_join_split(s: Seq<char>, sep: char)
    ensures
        join_with(split_on(s, sep), seq![sep]) == s,
    decreases s.len(),
{
    if s.len() > 0 {
        let r = split_on(s.drop_last(), sep);
        lemma_split_on_nonempty(s.drop_last(), sep);
        lemma_join_split(s.drop_last(), sep);
        let c = s.last();
        if c == sep {
            let r2 = r.push(Seq::<char>::empty());
            assert(r2.drop_last() =~= r);
            assert(join_with(r2, seq![sep]) =~= s.drop_last() + seq![sep]);
        } else {
            let r2 = r.update(r.len() - 1, r.last().push(c));
            if r.len() == 1 {
                assert(join_with(r, seq![sep]) == r[0]);
                assert(join_with(r2, seq![sep]) =~= s);
            } else {
                assert(r2.drop_last() =~= r.drop_last());
                assert(join_with(r2, seq![sep]) =~= join_with(r, seq![sep]).push(c));
            }
        }
        assert(s.drop_last().push(c) =~= s);
    }
}

/// A text without the separator is a single piece.
pub proof fn lemma_split_on_no_sep(s: Seq<char>, sep: char)
    requires
        !s.contains(sep),
    ensures
        split_on(s, sep) == seq![s],
    decreases s.len(),
{
    if s.len() > 0 {
        assert(!s.drop_last().contains(sep)) by {
            if s.drop_last().contains(sep) {
                let i = choose|i: int| 0 <= i < s.drop_last().len() && s.drop_last()[i] == sep;
                assert(s[i] == sep);
            }
        }
        lemma_split_on_no_sep(s.drop_last(), sep);
        assert(s.last() != sep) by {
            assert(s[s.len() - 1] == s.last());
        }
        assert(s.drop_last().push(s.last()) =~= s);
        assert(seq![s.drop_last()].update(0, s.drop_last().push(s.last())) =~= seq![s]);
    } else {
        assert(s =~= Seq::<char>::empty());
    }
}

/// No piece of a split holds the separator.
pub proof fn lemma_split_pieces_lack_sep(s: Seq<char>, sep: char)
    ensures
        forall|i: int, j: int|
            0 <= i < split_on(s, sep).len() && 0 <= j < split_on(s, sep)[i].len() ==> #[trigger] split_on(
                s,
                sep,
            )[i][j] != sep,
    decreases s.len(),
{
    if s.len() > 0 {
        lemma_split_pieces_lack_sep(s.drop_last(), sep);
        lemma_split_on_nonempty(s.drop_last(), sep);
        let r = split_on(s.drop_last(), sep);
        let c = s.last();
        if c != sep {
            let r2 = r.update(r.len() - 1, r.last().push(c));
            assert forall|i: int, j: int| 0 <= i < r2.len() && 0 <= j < r2[i].len() implies #[trigger] r2[i][j]
                != sep by {
                if i == r.len() - 1 && j == r.last().len() {
                } else {
                    assert(r2[i][j] == r[i][j]);
                }
            }
        } else {
            let r2 = r.push(Seq::<char>::empty());
            assert forall|i: int, j: int| 0 <= i < r2.len() && 0 <= j < r2[i].len() implies #[trigger] r2[i][j]
                != sep by {
                assert(r2[i][j] == r[i][j]);
            }
        }
    }
}

/// Each piece but the last followed by the separator, then the last piece,
/// written one after another, is the pieces joined with the separator.
pub proof fn lemma_concat_ended(parts: Seq<Seq<char>>, sep: char)
    requires
        parts.len() >= 1,
    ensures
        concat_all(Seq::new((parts.len() - 1) as nat, |i: int| parts[i].push(sep))) + parts.last()
            == join_with(parts, seq![sep]),
    decreases parts.len(),
{
    let e = Seq::new((parts.len() - 1) as nat, |i: int| parts[i].push(sep));
    if parts.len() == 1 {
        assert(concat_all(e) + parts.last() =~= parts[0]);
    } else {
        let q = parts.drop_last();
        lemma_concat_ended(q, sep);
        let eq = Seq::new((q.len() - 1) as nat, |i: int| q[i].push(sep));
        assert(e.drop_last() =~= eq);
        assert(e.last() == q.last().push(sep));
        assert(concat_all(e) + parts.last() =~= (concat_all(eq) + q.last()) + seq![sep]
            + parts.last());
    }
}

} // verus!
