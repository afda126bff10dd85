//! The tree that an archive unpacks to: each entry name split into path
//! components, with empty and `.` components dropped and `..` stepping up.

use vstd::prelude::*;
use crate::payload::views;

verus! {

/// The pieces of `s` between `/` separators; there is always at least one.
pub open spec fn split_slash(s: Seq<char>) -> Seq<Seq<char>>
    decreases s.len(),
{
    if s.len() == 0 {
        seq![Seq::empty()]
    } else {
        let init = split_slash(s.drop_last());
        if s.last() == '/' {
            init.push(Seq::empty())
        } else {
            init.update(init.len() - 1, init.last().push(s.last()))
        }
    }
}

/// The component `.`.
pub open spec fn dot() -> Seq<char> {
    seq!['.']
}

/// The component `..`.
pub open spec fn dot_dot() -> Seq<char> {
    seq!['.', '.']
}

/// One step of path resolution: an empty or `.` piece changes nothing, `..`
/// drops the last component (if any), any other piece is appended.
pub open spec fn resolve_step(r: Seq<Seq<char>>, c: Seq<char>) -> Seq<Seq<char>> {
    if c.len() == 0 || c == dot() {
        r
    } else if c == dot_dot() {
        if r.len() > 0 {
            r.drop_last()
        } else {
            r
        }
    } else {
        r.push(c)
    }
}

/// The components that a sequence of pieces resolves to.
pub open spec fn resolve(p: Seq<Seq<char>>) -> Seq<Seq<char>>
    decreases p.len(),
{
    if p.len() == 0 {
        Seq::empty()
    } else {
        resolve_step(resolve(p.drop_last()), p.last())
    }
}

/// Whether resolving the pieces `p` ever steps up from the top: a `..` piece
/// meets no component to drop.
pub open spec fn climbs_out(p: Seq<Seq<char>>) -> bool
    decreases p.len(),
{
    if p.len() == 0 {
        false
    } else {
        climbs_out(p.drop_last()) || (p.last() == dot_dot() && resolve(p.drop_last()).len() == 0)
    }
}

/// Whether an entry name stays inside the directory it is unpacked to: it
/// holds no NUL character, does not start with `/`, and its `..` pieces never
/// climb above the top.
pub open spec fn is_enclosed_name(name: Seq<char>) -> bool {
    &&& forall|k: int| 0 <= k < name.len() ==> name[k] != '\0'
    &&& !(name.len() > 0 && name[0] == '/')
    &&& !climbs_out(split_slash(name))
}

/// The path components of an entry name.
pub open spec fn spec_components(name: Seq<char>) -> Seq<Seq<char>> {
    resolve(split_slash(name))
}

/// Whether an entry name denotes a directory: it ends with `/`.
pub open spec fn spec_names_dir(name: Seq<char>) -> bool {
    name.len() > 0 && name.last() == '/'
}

/// Whether `c` holds no `/`.
pub open spec fn slash_free(c: Seq<char>) -> bool {
    forall|k: int| 0 <= k < c.len() ==> c[k] != '/'
}

/// Whether every component of `p` is non-empty and holds no `/`.
pub open spec fn well_formed_path(p: Seq<Seq<char>>) -> bool {
    forall|i: int| 0 <= i < p.len() ==> (#[trigger] p[i]).len() > 0 && slash_free(p[i])
}

/// The pieces between separators hold no separator.
pub proof fn lemma_split_slash_free(s: Seq<char>)
    ensures
        split_slash(s).len() >= 1,
        forall|i: int| 0 <= i < split_slash(s).len() ==> slash_free(#[trigger] split_slash(s)[i]),
    decreases s.len(),
{
    if s.len() > 0 {
        lemma_split_slash_free(s.drop_last());
        let init = split_slash(s.drop_last());
        if s.last() == '/' {
            assert forall|i: int| 0 <= i < split_slash(s).len() implies slash_free(#[trigger] split_slash(s)[i]) by {
                if i < init.len() {
                    assert(split_slash(s)[i] == init[i]);
                } else {
                    assert(split_slash(s)[i] == Seq::<char>::empty());
                }
            }
        } else {
            assert forall|i: int| 0 <= i < split_slash(s).len() implies slash_free(#[trigger] split_slash(s)[i]) by {
                if i == init.len() - 1 {
                    let c = init.last().push(s.last());
                    assert(split_slash(s)[i] == c);
                    assert forall|k: int| 0 <= k < c.len() implies c[k] != '/' by {
                        if k < init.last().len() {
                            assert(c[k] == init.last()[k]);
                        }
                    }
                } else {
                    assert(split_slash(s)[i] == init[i]);
                }
            }
        }
    }
}

/// Resolving pieces without separators gives a well-formed path.
pub proof fn lemma_resolve_well_formed(p: Seq<Seq<char>>)
    requires
        forall|i: int| 0 <= i < p.len() ==> slash_free(#[trigger] p[i]),
    ensures
        well_formed_path(resolve(p)),
    decreases p.len(),
{
    if p.len() > 0 {
        assert forall|i: int| 0 <= i < p.drop_last().len() implies slash_free(#[trigger] p.drop_last()[i]) by {
            assert(p.drop_last()[i] == p[i]);
        }
        lemma_resolve_well_formed(p.drop_last());
        let r = resolve(p.drop_last());
        let c = p.last();
        assert(slash_free(p[p.len() - 1]));
        if c.len() == 0 || c == dot() {
        } else if c == dot_dot() {
            if r.len() > 0 {
                assert forall|i: int| 0 <= i < r.drop_last().len() implies (#[trigger] r.drop_last()[i]).len() > 0
                    && slash_free(r.drop_last()[i]) by {
                    assert(r.drop_last()[i] == r[i]);
                }
            }
        } else {
            assert forall|i: int| 0 <= i < r.push(c).len() implies (#[trigger] r.push(c)[i]).len() > 0 && slash_free(
                r.push(c)[i],
            ) by {
                if i < r.len() {
                    assert(r.push(c)[i] == r[i]);
                }
            }
        }
    }
}

/// The components of an entry name are non-empty and hold no separator.
pub proof fn lemma_components_well_formed(name: Seq<char>)
    ensures
        well_formed_path(spec_components(name)),
{
    lemma_split_slash_free(name);
    lemma_resolve_well_formed(split_slash(name));
}

fn is_dot(piece: &str) -> (r: bool)
    ensures
        r == (piece@ == dot()),
{
    if piece.unicode_len() == 1 && piece.get_char(0) == '.' {
        assert(piece@ =~= dot());
        true
    } else {
        false
    }
}

fn is_dot_dot(piece: &str) -> (r: bool)
    ensures
        r == (piece@ == dot_dot()),
{
    if piece.unicode_len() == 2 && piece.get_char(0) == '.' && piece.get_char(1) == '.' {
        assert(piece@ =~= dot_dot());
        true
    } else {
        false
    }
}

fn push_component(comps: &mut Vec<String>, piece: &str) -> (climbed: bool)
    ensures
        views(final(comps)@) == resolve_step(views(old(comps)@), piece@),
        climbed == (piece@ == dot_dot() && old(comps)@.len() == 0),
{
    if piece.unicode_len() == 0 || is_dot(piece) {
        false
    } else if is_dot_dot(piece) {
        if comps.len() == 0 {
            true
        } else {
            comps.pop();
            assert(views(comps@) =~= views(old(comps)@).drop_last());
            false
        }
    } else {
        comps.push(piece.to_string());
        assert(views(comps@) =~= views(old(comps)@).push(piece@));
        false
    }
}

/// Splits an entry name into its resolved path components.
pub fn path_components(name: &str) -> (r: Vec<String>)
    ensures
        views(r@) == spec_components(name@),
{
    resolve_entry_name(name).0
}

/// Splits an entry name into its resolved path components, and tells whether
/// resolving it climbs above the top.
pub fn resolve_entry_name(name: &str) -> (r: (Vec<String>, bool))
    ensures
        views(r.0@) == spec_components(name@),
        r.1 == climbs_out(split_slash(name@)),
{
    let n = name.unicode_len();
    let mut comps: Vec<String> = Vec::new();
    let mut start: usize = 0;
    let mut i: usize = 0;
    let mut climbed = false;
    assert(name@.subrange(0, 0) =~= Seq::<char>::empty());
    assert(views(comps@) =~= Seq::<Seq<char>>::empty());
    while i < n
        invariant
            start <= i <= n,
            n == name@.len(),
            split_slash(name@.subrange(0, i as int)).len() >= 1,
            split_slash(name@.subrange(0, i as int)).last() == name@.subrange(start as int, i as int),
            views(comps@) == resolve(split_slash(name@.subrange(0, i as int)).drop_last()),
            climbed == climbs_out(split_slash(name@.subrange(0, i as int)).drop_last()),
        decreases n - i,
    {
        let ghost pre = name@.subrange(0, i as int);
        let ghost post = name@.subrange(0, i + 1);
        assert(post.drop_last() =~= pre);
        let ghost sp = split_slash(pre);
        if name.get_char(i) == '/' {
            let piece = name.substring_char(start, i);
            let c = push_component(&mut comps, piece);
            climbed = climbed || c;
            assert(split_slash(post) == sp.push(Seq::empty()));
            assert(split_slash(post).drop_last() =~= sp);
            assert(sp.drop_last().push(sp.last()) =~= sp);
            start = i + 1;
            assert(name@.subrange(start as int, i + 1) =~= Seq::<char>::empty());
        } else {
            assert(split_slash(post) == sp.update(sp.len() - 1, sp.last().push(name@[i as int])));
            assert(split_slash(post).drop_last() =~= sp.drop_last());
            assert(name@.subrange(start as int, i + 1) =~= name@.subrange(start as int, i as int).push(
                name@[i as int],
            ));
        }
        i = i + 1;
    }
    let ghost sp = split_slash(name@.subrange(0, n as int));
    assert(name@.subrange(0, n as int) =~= name@);
    let piece = name.substring_char(start, n);
    let c = push_component(&mut comps, piece);
    climbed = climbed || c;
    assert(sp.drop_last().push(sp.last()) =~= sp);
    (comps, climbed)
}

/// Tells whether an entry name stays inside the directory it is unpacked to.
pub fn entry_name_is_enclosed(name: &str) -> (r: bool)
    ensures
        r == is_enclosed_name(name@),
{
    let n = name.unicode_len();
    if n > 0 && name.get_char(0) == '/' {
        return false;
    }
    let mut i: usize = 0;
    while i < n
        invariant
            n == name@.len(),
            i <= n,
            forall|k: int| 0 <= k < i ==> name@[k] != '\0',
        decreases n - i,
    {
        if name.get_char(i) == '\0' {
            return false;
        }
        i = i + 1;
    }
    !resolve_entry_name(name).1
}

} // verus!
