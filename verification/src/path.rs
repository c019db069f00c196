//! Paths as text, compared component by component in the manner of
//! `std::path::Path` on Unix: a path is split at `/`; empty pieces and `.`
//! pieces inside the path are no components.

use vstd::prelude::*;
use crate::text::{split_on, join_with, lemma_split_on_concat, lemma_join_split, lemma_split_on_nonempty, lemma_split_on_no_sep, views, chars_of, string_of, split_chars, chars_eq, extend_chars};

verus! {

/// The path starts at the root.
pub open spec fn is_absolute(s: Seq<char>) -> bool {
    s.len() > 0 && s[0] == '/'
}

/// A piece between separators that is a component: not empty and not `.`.
pub open spec fn significant(seg: Seq<char>) -> bool {
    seg.len() > 0 && seg != seq!['.']
}

/// Matches the components of `b` against the leading components of `p`,
/// both given as the pieces between separators. When every component of
/// `b` matches, the result is the pieces of `p` that follow the last
/// matched component.
pub open spec fn strip_segments(b: Seq<Seq<char>>, p: Seq<Seq<char>>) -> Option<Seq<Seq<char>>>
    decreases b.len() + p.len(),
{
    if b.len() == 0 {
        Some(p)
    } else if !significant(b[0]) {
        strip_segments(b.drop_first(), p)
    } else if p.len() == 0 {
        None
    } else if !significant(p[0]) {
        strip_segments(b, p.drop_first())
    } else if b[0] == p[0] {
        strip_segments(b.drop_first(), p.drop_first())
    } else {
        None
    }
}

/// `p` without its leading pieces that are no components.
pub open spec fn trim_front(p: Seq<Seq<char>>) -> Seq<Seq<char>>
    decreases p.len(),
{
    if p.len() > 0 && !significant(p[0]) {
        trim_front(p.drop_first())
    } else {
        p
    }
}

/// `p` without its trailing pieces that are no components.
pub open spec fn trim_back(p: Seq<Seq<char>>) -> Seq<Seq<char>>
    decreases p.len(),
{
    if p.len() > 0 && !significant(p.last()) {
        trim_back(p.drop_last())
    } else {
        p
    }
}

/// `path` written relative to the directory `base`, as `./` followed by
/// the part of `path` after the components of `base`, when `path` lies
/// under `base`; `None` when it does not.
pub open spec fn relative_path(path: Seq<char>, base: Seq<char>) -> Option<Seq<char>> {
    if !is_absolute(path) {
        None
    } else {
        match strip_segments(split_on(base, '/').drop_first(), split_on(path, '/').drop_first()) {
            Some(rest) => Some(seq!['.', '/'] + join_with(trim_back(trim_front(rest)), seq!['/'])),
            None => None,
        }
    }
}

/// The last component of the pieces `segs`, if there is one.
pub open spec fn last_component(segs: Seq<Seq<char>>) -> Option<Seq<char>>
    decreases segs.len(),
{
    if segs.len() == 0 {
        None
    } else if significant(segs.last()) {
        Some(segs.last())
    } else {
        last_component(segs.drop_last())
    }
}

/// The final component of `path`, unless it is `..` or the path has no
/// component after the root.
pub open spec fn file_name_of(path: Seq<char>) -> Option<Seq<char>> {
    match last_component(split_on(path, '/')) {
        Some(c) => if c == seq!['.', '.'] {
            None
        } else {
            Some(c)
        },
        None => None,
    }
}

/// The index of the last `.` in `name`, if there is one.
pub open spec fn last_dot(name: Seq<char>) -> Option<int>
    decreases name.len(),
{
    if name.len() == 0 {
        None
    } else if name.last() == '.' {
        Some(name.len() - 1)
    } else {
        last_dot(name.drop_last())
    }
}

/// The extension of a file name: what follows its last `.`, when that `.`
/// is not the name's first character.
pub open spec fn extension_of(name: Seq<char>) -> Option<Seq<char>> {
    match last_dot(name) {
        Some(i) => if i == 0 {
            None
        } else {
            Some(name.skip(i + 1))
        },
        None => None,
    }
}

/// Whether a search result is shown: files always, directories when asked
/// for, symbolic links when asked for.
pub open spec fn spec_visible(is_file: bool, is_dir: bool, is_symlink: bool, directories: bool, symlinks: bool) -> bool {
    is_file || directories && is_dir || symlinks && is_symlink
}

/// Whether a search result of the given kind is shown.
pub fn visible(is_file: bool, is_dir: bool, is_symlink: bool, directories: bool, symlinks: bool) -> (r: bool)
    ensures
        r == spec_visible(is_file, is_dir, is_symlink, directories, symlinks),
{
    is_file || directories && is_dir || symlinks && is_symlink
}

fn is_significant(seg: &Vec<char>) -> (r: bool)
    ensures
        r == significant(seg@),
{
    if seg.len() == 0 {
        false
    } else if seg.len() == 1 && seg[0] == '.' {
        assert(seg@ =~= seq!['.']);
        false
    } else {
        assert(seg.len() != 1 ==> seg@ != seq!['.']);
        true
    }
}

/// The results shown for a search, given for each result whether it is a
/// file, a directory and a symbolic link: those that [`visible`] keeps, in
/// their order.
pub fn select_visible(paths: &Vec<String>, kinds: &Vec<(bool, bool, bool)>, directories: bool, symlinks: bool) -> (r: Vec<String>)
    requires
        kinds.len() == paths.len(),
    ensures
        views(r@) == Seq::new(paths.len() as nat, |i: int| i).filter_map(
            |i: int| if spec_visible(kinds@[i].0, kinds@[i].1, kinds@[i].2, directories, symlinks) {
                Some(paths@[i]@)
            } else {
                None
            },
        ),
{
    let ghost all = Seq::new(paths.len() as nat, |i: int| i);
    let ghost f = |i: int| if spec_visible(kinds@[i].0, kinds@[i].1, kinds@[i].2, directories, symlinks) {
        Some(paths@[i]@)
    } else {
        None
    };
    let mut r: Vec<String> = Vec::new();
    let mut i: usize = 0;
    while i < paths.len()
        invariant
            i <= paths.len(),
            kinds.len() == paths.len(),
            all == Seq::new(paths.len() as nat, |i: int| i),
            f == (|i: int| if spec_visible(kinds@[i].0, kinds@[i].1, kinds@[i].2, directories, symlinks) {
                Some(paths@[i]@)
            } else {
                None
            }),
            views(r@) == all.take(i as int).filter_map(f),
        decreases paths.len() - i,
    {
        assert(all.take(i + 1).drop_last() =~= all.take(i as int));
        let (is_file, is_dir, is_symlink) = kinds[i];
        let ghost before = views(r@);
        if visible(is_file, is_dir, is_symlink, directories, symlinks) {
            let item = paths[i].clone();
            r.push(item);
            assert(views(r@) =~= before.push(paths@[i as int]@));
        }
        i = i + 1;
    }
    assert(all.take(paths.len() as int) =~= all);
    r
}

/// `path` relative to the absolute directory `base`: `./` followed by what
/// comes after the components of `base`, or `None` when `path` does not
/// lie under `base`.
pub fn relative_to(path: &str, base: &str) -> (r: Option<String>)
    requires
        is_absolute(base@),
    ensures
        match r {
            Some(s) => relative_path(path@, base@) == Some(s@),
            None => relative_path(path@, base@) is None,
        },
{
    let pc = chars_of(path);
    if pc.len() == 0 || pc[0] != '/' {
        return None;
    }
    let bc = chars_of(base);
    let bs = split_chars(&bc, '/');
    let ps = split_chars(&pc, '/');
    let ghost bv = bs@.map_values(|v: Vec<char>| v@);
    let ghost pv = ps@.map_values(|v: Vec<char>| v@);
    proof {
        crate::text::lemma_split_on_nonempty(base@, '/');
        crate::text::lemma_split_on_nonempty(path@, '/');
        assert(bv.skip(1) =~= bv.drop_first());
        assert(pv.skip(1) =~= pv.drop_first());
    }
    let ghost target = strip_segments(bv.drop_first(), pv.drop_first());
    let mut i: usize = 1;
    let mut j: usize = 1;
    while i < bs.len()
        invariant
            1 <= i <= bs.len(),
            1 <= j <= ps.len(),
            bv == bs@.map_values(|v: Vec<char>| v@),
            pv == ps@.map_values(|v: Vec<char>| v@),
            strip_segments(bv.skip(i as int), pv.skip(j as int)) == target,
            bv == split_on(base@, '/'),
            pv == split_on(path@, '/'),
            is_absolute(path@),
            target == strip_segments(bv.drop_first(), pv.drop_first()),
        decreases (bs.len() - i) + (ps.len() - j),
    {
        assert(bv.skip(i as int)[0] == bs@[i as int]@);
        assert(bv.skip(i as int).drop_first() =~= bv.skip(i + 1));
        if !is_significant(&bs[i]) {
            i = i + 1;
        } else if j == ps.len() {
            assert(pv.skip(j as int).len() == 0);
            return None;
        } else {
            assert(pv.skip(j as int)[0] == ps@[j as int]@);
            assert(pv.skip(j as int).drop_first() =~= pv.skip(j + 1));
            if !is_significant(&ps[j]) {
                j = j + 1;
            } else if chars_eq(&bs[i], &ps[j]) {
                i = i + 1;
                j = j + 1;
            } else {
                return None;
            }
        }
    }
    assert(bv.skip(i as int).len() == 0);
    let ghost rest = pv.skip(j as int);
    assert(target == Some(rest));
    // Drop the leading pieces that are no components.
    let mut f: usize = j;
    while f < ps.len() && !is_significant(&ps[f])
        invariant
            j <= f <= ps.len(),
            pv == ps@.map_values(|v: Vec<char>| v@),
            trim_front(rest) == trim_front(pv.skip(f as int)),
        decreases ps.len() - f,
    {
        assert(pv.skip(f as int).drop_first() =~= pv.skip(f + 1));
        f = f + 1;
    }
    assert(trim_front(rest) == pv.skip(f as int));
    assert(pv.skip(f as int) =~= pv.subrange(f as int, ps.len() as int));
    // Drop the trailing pieces that are no components.
    let mut e: usize = ps.len();
    while e > f && !is_significant(&ps[e - 1])
        invariant
            f <= e <= ps.len(),
            pv == ps@.map_values(|v: Vec<char>| v@),
            trim_back(trim_front(rest)) == trim_back(pv.subrange(f as int, e as int)),
        decreases e - f,
    {
        assert(pv.subrange(f as int, e as int).drop_last() =~= pv.subrange(f as int, e - 1));
        e = e - 1;
    }
    let ghost kept = pv.subrange(f as int, e as int);
    assert(trim_back(trim_front(rest)) == kept);
    let mut out: Vec<char> = Vec::new();
    out.push('.');
    out.push('/');
    let mut sep: Vec<char> = Vec::new();
    sep.push('/');
    let mut k: usize = f;
    while k < e
        invariant
            f <= k <= e,
            e <= ps.len(),
            sep@ == seq!['/'],
            pv == ps@.map_values(|v: Vec<char>| v@),
            out@ == seq!['.', '/'] + join_with(pv.subrange(f as int, k as int), seq!['/']),
        decreases e - k,
    {
        let ghost before = pv.subrange(f as int, k as int);
        if k > f {
            extend_chars(&mut out, &sep);
        }
        extend_chars(&mut out, &ps[k]);
        let ghost after = pv.subrange(f as int, k + 1);
        assert(after.drop_last() =~= before);
        assert(after.last() == ps@[k as int]@);
        if k == f {
            assert(after =~= seq![ps@[k as int]@]);
        }
        k = k + 1;
    }
    Some(string_of(&out))
}

/// The search results that lie under the working directory `base`,
/// written relative to it, in their order.
pub fn localize(paths: &Vec<String>, base: &str) -> (r: Vec<String>)
    requires
        is_absolute(base@),
    ensures
        views(r@) == views(paths@).filter_map(|p: Seq<char>| relative_path(p, base@)),
{
    let mut r: Vec<String> = Vec::new();
    let mut i: usize = 0;
    while i < paths.len()
        invariant
            i <= paths.len(),
            is_absolute(base@),
            views(r@) == views(paths@).take(i as int).filter_map(
                |p: Seq<char>| relative_path(p, base@),
            ),
        decreases paths.len() - i,
    {
        let ghost before = views(r@);
        assert(views(paths@).take(i + 1).drop_last() =~= views(paths@).take(i as int));
        match relative_to(paths[i].as_str(), base) {
            Some(s) => {
                r.push(s);
                assert(views(r@) =~= before.push(r@.last()@));
            },
            None => {},
        }
        i = i + 1;
    }
    assert(views(paths@).take(paths.len() as int) =~= views(paths@));
    r
}

/// The character view of an optional string.
pub open spec fn opt_view(o: Option<String>) -> Option<Seq<char>> {
    match o {
        Some(s) => Some(s@),
        None => None,
    }
}

/// The final component of `path`, as `Path::file_name` gives it.
pub fn file_name(path: &str) -> (r: Option<String>)
    ensures
        opt_view(r) == file_name_of(path@),
{
    let pc = chars_of(path);
    let segs = split_chars(&pc, '/');
    let ghost sv = segs@.map_values(|v: Vec<char>| v@);
    let mut k: usize = segs.len();
    assert(sv.take(k as int) =~= sv);
    while k > 0 && !is_significant(&segs[k - 1])
        invariant
            k <= segs.len(),
            sv == segs@.map_values(|v: Vec<char>| v@),
            last_component(sv) == last_component(sv.take(k as int)),
        decreases k,
    {
        assert(sv.take(k as int).drop_last() =~= sv.take(k - 1));
        k = k - 1;
    }
    if k == 0 {
        assert(sv.take(0).len() == 0);
        return None;
    }
    assert(sv.take(k as int).last() == segs@[k - 1]@);
    let last = &segs[k - 1];
    if last.len() == 2 && last[0] == '.' && last[1] == '.' {
        assert(last@ =~= seq!['.', '.']);
        None
    } else {
        assert(!(last.len() == 2 && last@[0] == '.' && last@[1] == '.') ==> last@ != seq!['.', '.']);
        Some(string_of(last))
    }
}

/// The extension of the file name `name`, as `Path::extension` gives it.
pub fn extension(name: &str) -> (r: Option<String>)
    ensures
        opt_view(r) == extension_of(name@),
{
    let nc = chars_of(name);
    let mut k: usize = nc.len();
    assert(nc@.take(k as int) =~= nc@);
    while k > 0 && nc[k - 1] != '.'
        invariant
            k <= nc.len(),
            last_dot(nc@) == last_dot(nc@.take(k as int)),
        decreases k,
    {
        assert(nc@.take(k as int).drop_last() =~= nc@.take(k - 1));
        k = k - 1;
    }
    if k <= 1 {
        assert(k == 0 ==> nc@.take(0).len() == 0);
        assert(k == 1 ==> nc@.take(1).last() == '.' || last_dot(nc@.take(1)) is None);
        return None;
    }
    assert(nc@.take(k as int).last() == '.');
    let mut out: Vec<char> = Vec::new();
    let mut i: usize = k;
    while i < nc.len()
        invariant
            k <= i <= nc.len(),
            out@ == nc@.subrange(k as int, i as int),
        decreases nc.len() - i,
    {
        out.push(nc[i]);
        assert(nc@.subrange(k as int, i + 1) =~= nc@.subrange(k as int, i as int).push(nc@[i as int]));
        i = i + 1;
    }
    assert(nc@.skip(k as int) =~= nc@.subrange(k as int, nc.len() as int));
    Some(string_of(&out))
}

/// No piece of `s` is a component.
pub open spec fn all_insignificant(s: Seq<Seq<char>>) -> bool {
    forall|i: int| 0 <= i < s.len() ==> !significant(#[trigger] s[i])
}

/// Every piece of `s` is a component.
pub open spec fn all_significant(s: Seq<Seq<char>>) -> bool {
    forall|i: int| 0 <= i < s.len() ==> significant(#[trigger] s[i])
}

proof fn lemma_strip_self_prefix(u: Seq<Seq<char>>, v: Seq<Seq<char>>, x: Seq<Seq<char>>, y: Seq<Seq<char>>)
    requires
        all_insignificant(u),
        all_insignificant(v),
    ensures
        exists|w: Seq<Seq<char>>| all_insignificant(w) && strip_segments(u + x, v + x + y) == Some(w + y),
    decreases 2 * u.len() + 2 * x.len() + v.len(),
{
    let b = u + x;
    let p = v + x + y;
    if u.len() > 0 {
        assert(b[0] == u[0]);
        assert(b.drop_first() =~= u.drop_first() + x);
        lemma_strip_self_prefix(u.drop_first(), v, x, y);
    } else if x.len() == 0 {
        assert(b.len() == 0);
        assert(p =~= v + y);
        assert(strip_segments(b, p) == Some(v + y));
    } else {
        assert(b =~= x);
        if !significant(x[0]) {
            assert(b.drop_first() =~= Seq::<Seq<char>>::empty() + x.drop_first());
            let v2 = v.push(x[0]);
            assert(p =~= v2 + x.drop_first() + y);
            lemma_strip_self_prefix(Seq::empty(), v2, x.drop_first(), y);
            assert(Seq::<Seq<char>>::empty() + x.drop_first() =~= x.drop_first());
        } else if v.len() > 0 {
            assert(p[0] == v[0]);
            assert(p.drop_first() =~= v.drop_first() + x + y);
            assert(u + x =~= x);
            lemma_strip_self_prefix(u, v.drop_first(), x, y);
        } else {
            assert(p[0] == x[0]);
            assert(p.drop_first() =~= Seq::<Seq<char>>::empty() + x.drop_first() + y);
            assert(b.drop_first() =~= Seq::<Seq<char>>::empty() + x.drop_first());
            lemma_strip_self_prefix(Seq::empty(), Seq::empty(), x.drop_first(), y);
        }
    }
}

proof fn lemma_trim_front_insignificant(w: Seq<Seq<char>>, y: Seq<Seq<char>>)
    requires
        all_insignificant(w),
    ensures
        trim_front(w + y) == trim_front(y),
    decreases w.len(),
{
    if w.len() > 0 {
        assert((w + y)[0] == w[0]);
        assert((w + y).drop_first() =~= w.drop_first() + y);
        lemma_trim_front_insignificant(w.drop_first(), y);
    } else {
        assert(w + y =~= y);
    }
}

/// The working directory itself is shown as `./`.
pub proof fn lemma_relative_to_itself(base: Seq<char>)
    requires
        is_absolute(base),
    ensures
        relative_path(base, base) == Some(seq!['.', '/']),
{
    let b = split_on(base, '/').drop_first();
    lemma_strip_self_prefix(Seq::empty(), Seq::empty(), b, Seq::empty());
    assert(Seq::<Seq<char>>::empty() + b =~= b);
    assert(Seq::<Seq<char>>::empty() + b + Seq::<Seq<char>>::empty() =~= b);
    let w = choose|w: Seq<Seq<char>>| all_insignificant(w) && strip_segments(b, b) == Some(w + Seq::<Seq<char>>::empty());
    lemma_trim_front_insignificant(w, Seq::empty());
    assert(w + Seq::<Seq<char>>::empty() =~= w);
    assert(trim_front(Seq::<Seq<char>>::empty()) == Seq::<Seq<char>>::empty());
    assert(seq!['.', '/'] + join_with(Seq::<Seq<char>>::empty(), seq!['/']) =~= seq!['.', '/']);
}

/// A path below the working directory is shown as `./` followed by its
/// part below the working directory, when that part is written plainly
/// (no empty or `.` pieces).
pub proof fn lemma_relative_below(base: Seq<char>, rel: Seq<char>)
    requires
        is_absolute(base),
        all_significant(split_on(rel, '/')),
    ensures
        relative_path(base + seq!['/'] + rel, base) == Some(seq!['.', '/'] + rel),
{
    let path = base + seq!['/'] + rel;
    lemma_split_on_concat(base, rel, '/');
    lemma_split_on_nonempty(base, '/');
    lemma_split_on_nonempty(rel, '/');
    let sb = split_on(base, '/');
    let r = split_on(rel, '/');
    let b = sb.drop_first();
    assert(split_on(path, '/').drop_first() =~= b + r);
    assert(path[0] == base[0]);
    lemma_strip_self_prefix(Seq::empty(), Seq::empty(), b, r);
    assert(Seq::<Seq<char>>::empty() + b =~= b);
    assert(Seq::<Seq<char>>::empty() + b + r =~= b + r);
    let w = choose|w: Seq<Seq<char>>| all_insignificant(w) && strip_segments(b, b + r) == Some(w + r);
    lemma_trim_front_insignificant(w, r);
    assert(significant(r[0]));
    assert(trim_front(r) == r);
    assert(significant(r.last()));
    assert(trim_back(r) == r);
    lemma_join_split(rel, '/');
}

/// The file name of an entry of a directory is the entry's name.
pub proof fn lemma_file_name_of_child(dir: Seq<char>, name: Seq<char>)
    requires
        significant(name),
        name != seq!['.', '.'],
        !name.contains('/'),
    ensures
        file_name_of(dir + seq!['/'] + name) == Some(name),
{
    lemma_split_on_concat(dir, name, '/');
    lemma_split_on_no_sep(name, '/');
    let segs = split_on(dir, '/') + seq![name];
    assert(segs.last() == name);
}

/// Which results are shown: a file always, whatever the flags; a
/// directory with `directories`; a symbolic link with `symlinks`; nothing
/// else. Setting either flag never hides a result that was shown.
pub proof fn lemma_visible_by_kind(
    is_file: bool,
    is_dir: bool,
    is_symlink: bool,
    directories: bool,
    symlinks: bool,
)
    ensures
        is_file ==> spec_visible(is_file, is_dir, is_symlink, directories, symlinks),
        directories && is_dir ==> spec_visible(is_file, is_dir, is_symlink, directories, symlinks),
        symlinks && is_symlink ==> spec_visible(is_file, is_dir, is_symlink, directories, symlinks),
        spec_visible(is_file, is_dir, is_symlink, directories, symlinks) ==> is_file || directories
            && is_dir || symlinks && is_symlink,
        spec_visible(is_file, is_dir, is_symlink, directories, symlinks) ==> spec_visible(
            is_file,
            is_dir,
            is_symlink,
            true,
            symlinks,
        ) && spec_visible(is_file, is_dir, is_symlink, directories, true),
{
}

} // verus!
