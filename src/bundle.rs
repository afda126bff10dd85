//! Bundle discovery: among the unpacked entries, the directories within three
//! levels of the root whose name ends with `.app` and that directly hold an
//! `Info.plist`; the one with the smallest path in lexicographic order wins.

use vstd::prelude::*;
use crate::payload::{ends_with_str, has_extension, join_slash, views, zip_name_from_relative_path};
use crate::tree::{slash_free, well_formed_path};

verus! {

/// One node of an unpacked archive: its resolved path components, whether it
/// is a directory, and (for a file) its contents.
pub struct TreeEntry {
    pub components: Vec<String>,
    pub is_dir: bool,
    pub data: Vec<u8>,
}

/// The path of a node as a sequence of components.
pub open spec fn node_path(e: TreeEntry) -> Seq<Seq<char>> {
    views(e.components@)
}

/// The name of the marker file that a bundle holds.
pub open spec fn marker() -> Seq<char> {
    seq!['I', 'n', 'f', 'o', '.', 'p', 'l', 'i', 's', 't']
}

/// The extension of a bundle directory.
pub open spec fn app_ext() -> Seq<char> {
    seq!['.', 'a', 'p', 'p']
}

/// Whether a node path is the marker file of a bundle within reach: the
/// bundle lies one to three levels below the root and its name has the
/// bundle extension.
pub open spec fn is_marker_path(p: Seq<Seq<char>>) -> bool {
    2 <= p.len() <= 4 && p.last() == marker() && has_extension(p[p.len() - 2], app_ext())
}

/// Whether `b` is a bundle directory of the unpacked tree `nodes`.
pub open spec fn is_bundle_at(nodes: Seq<TreeEntry>, b: Seq<Seq<char>>) -> bool {
    exists|i: int|
        0 <= i < nodes.len() && is_marker_path(#[trigger] node_path(nodes[i])) && node_path(
            nodes[i],
        ).drop_last() == b
}

/// Lexicographic order on strings, by character code; a prefix comes first.
pub open spec fn chars_le(a: Seq<char>, b: Seq<char>) -> bool
    decreases a.len(),
{
    if a.len() == 0 {
        true
    } else if b.len() == 0 {
        false
    } else if a[0] != b[0] {
        (a[0] as int) < (b[0] as int)
    } else {
        chars_le(a.drop_first(), b.drop_first())
    }
}

/// The bundle that discovery selects: a bundle whose path, written with `/`,
/// comes first in lexicographic order among all bundles of the tree.
pub open spec fn is_selected_bundle(nodes: Seq<TreeEntry>, b: Seq<Seq<char>>) -> bool {
    is_bundle_at(nodes, b) && forall|c: Seq<Seq<char>>|
        is_bundle_at(nodes, c) ==> chars_le(join_slash(b), #[trigger] join_slash(c))
}

/// Lexicographic order is total.
pub proof fn lemma_chars_le_total(a: Seq<char>, b: Seq<char>)
    ensures
        chars_le(a, b) || chars_le(b, a),
    decreases a.len(),
{
    if a.len() > 0 && b.len() > 0 {
        if a[0] == b[0] {
            lemma_chars_le_total(a.drop_first(), b.drop_first());
        } else {
            assert((a[0] as int) != (b[0] as int));
        }
    }
}

/// Lexicographic order is reflexive.
pub proof fn lemma_chars_le_refl(a: Seq<char>)
    ensures
        chars_le(a, a),
    decreases a.len(),
{
    if a.len() > 0 {
        lemma_chars_le_refl(a.drop_first());
    }
}

/// Lexicographic order is transitive.
pub proof fn lemma_chars_le_trans(a: Seq<char>, b: Seq<char>, c: Seq<char>)
    requires
        chars_le(a, b),
        chars_le(b, c),
    ensures
        chars_le(a, c),
    decreases a.len(),
{
    if a.len() > 0 && b.len() > 0 && c.len() > 0 && a[0] == b[0] && b[0] == c[0] {
        lemma_chars_le_trans(a.drop_first(), b.drop_first(), c.drop_first());
    }
}

/// Lexicographic order is antisymmetric.
pub proof fn lemma_chars_le_antisym(a: Seq<char>, b: Seq<char>)
    requires
        chars_le(a, b),
        chars_le(b, a),
    ensures
        a == b,
    decreases a.len(),
{
    if a.len() > 0 && b.len() > 0 {
        lemma_chars_le_antisym(a.drop_first(), b.drop_first());
        assert(a =~= seq![a[0]] + a.drop_first());
        assert(b =~= seq![b[0]] + b.drop_first());
    }
}

/// A joined path of two or more components has a `/` just before its last
/// component, which holds none.
proof fn lemma_join_last_slash(c: Seq<Seq<char>>)
    requires
        c.len() >= 2,
        well_formed_path(c),
    ensures
        join_slash(c) == join_slash(c.drop_last()) + seq!['/'] + c.last(),
        join_slash(c)[join_slash(c).len() - c.last().len() - 1] == '/',
        slash_free(c.last()),
{
    let a = join_slash(c.drop_last());
    let s = join_slash(c);
    assert(s[a.len() as int] == '/');
    assert(slash_free(c[c.len() - 1]));
}

/// A joined path of one component holds no `/`.
proof fn lemma_join_single(c: Seq<Seq<char>>)
    requires
        c.len() == 1,
        well_formed_path(c),
    ensures
        join_slash(c) == c[0],
        slash_free(join_slash(c)),
{
    assert(slash_free(c[0]));
}

/// Joining well-formed paths with `/` loses nothing: equal joins come from
/// equal paths.
pub proof fn lemma_join_injective(c1: Seq<Seq<char>>, c2: Seq<Seq<char>>)
    requires
        c1.len() >= 1,
        c2.len() >= 1,
        well_formed_path(c1),
        well_formed_path(c2),
        join_slash(c1) == join_slash(c2),
    ensures
        c1 == c2,
    decreases c1.len(),
{
    let s = join_slash(c1);
    if c1.len() == 1 && c2.len() == 1 {
        lemma_join_single(c1);
        lemma_join_single(c2);
        assert(c1 =~= c2);
    } else if c1.len() == 1 {
        lemma_join_single(c1);
        lemma_join_last_slash(c2);
        assert(s[s.len() - c2.last().len() - 1] == '/');
    } else if c2.len() == 1 {
        lemma_join_single(c2);
        lemma_join_last_slash(c1);
        assert(s[s.len() - c1.last().len() - 1] == '/');
    } else {
        lemma_join_last_slash(c1);
        lemma_join_last_slash(c2);
        let l1 = c1.last().len();
        let l2 = c2.last().len();
        if l1 < l2 {
            let p = s.len() - l1 - 1;
            assert(c2.last()[p - (s.len() - l2)] == s[p]);
        } else if l2 < l1 {
            let p = s.len() - l2 - 1;
            assert(c1.last()[p - (s.len() - l1)] == s[p]);
        } else {
            let a1 = join_slash(c1.drop_last());
            let a2 = join_slash(c2.drop_last());
            assert(c1.last() =~= s.subrange(s.len() - l1, s.len() as int));
            assert(c2.last() =~= s.subrange(s.len() - l2, s.len() as int));
            assert(a1 =~= s.subrange(0, a1.len() as int));
            assert(a2 =~= s.subrange(0, a2.len() as int));
            assert forall|i: int| 0 <= i < c1.drop_last().len() implies (#[trigger] c1.drop_last()[i]).len() > 0
                && slash_free(c1.drop_last()[i]) by {
                assert(c1.drop_last()[i] == c1[i]);
            }
            assert forall|i: int| 0 <= i < c2.drop_last().len() implies (#[trigger] c2.drop_last()[i]).len() > 0
                && slash_free(c2.drop_last()[i]) by {
                assert(c2.drop_last()[i] == c2[i]);
            }
            lemma_join_injective(c1.drop_last(), c2.drop_last());
            assert(c1 =~= c1.drop_last().push(c1.last()));
            assert(c2 =~= c2.drop_last().push(c2.last()));
        }
    }
}

/// Discovery's choice is unique: a tree whose node paths are well formed has
/// at most one selected bundle.
pub proof fn lemma_selected_bundle_unique(nodes: Seq<TreeEntry>, b1: Seq<Seq<char>>, b2: Seq<Seq<char>>)
    requires
        forall|i: int| 0 <= i < nodes.len() ==> well_formed_path(#[trigger] node_path(nodes[i])),
        is_selected_bundle(nodes, b1),
        is_selected_bundle(nodes, b2),
    ensures
        b1 == b2,
{
    assert(chars_le(join_slash(b1), join_slash(b2)));
    assert(chars_le(join_slash(b2), join_slash(b1)));
    lemma_chars_le_antisym(join_slash(b1), join_slash(b2));
    let i1 = choose|i: int|
        0 <= i < nodes.len() && is_marker_path(#[trigger] node_path(nodes[i])) && node_path(nodes[i]).drop_last() == b1;
    let i2 = choose|i: int|
        0 <= i < nodes.len() && is_marker_path(#[trigger] node_path(nodes[i])) && node_path(nodes[i]).drop_last() == b2;
    let p1 = node_path(nodes[i1]);
    let p2 = node_path(nodes[i2]);
    assert forall|i: int| 0 <= i < b1.len() implies (#[trigger] b1[i]).len() > 0 && slash_free(b1[i]) by {
        assert(b1[i] == p1[i]);
    }
    assert forall|i: int| 0 <= i < b2.len() implies (#[trigger] b2[i]).len() > 0 && slash_free(b2[i]) by {
        assert(b2[i] == p2[i]);
    }
    lemma_join_injective(b1, b2);
}

/// Compares two strings in lexicographic order.
pub fn str_le(a: &str, b: &str) -> (r: bool)
    ensures
        r == chars_le(a@, b@),
{
    let n = a.unicode_len();
    let m = b.unicode_len();
    let mut i: usize = 0;
    assert(a@.subrange(0, n as int) =~= a@);
    assert(b@.subrange(0, m as int) =~= b@);
    while i < n && i < m
        invariant
            n == a@.len(),
            m == b@.len(),
            i <= n,
            i <= m,
            chars_le(a@, b@) == chars_le(a@.subrange(i as int, n as int), b@.subrange(i as int, m as int)),
        decreases n - i,
    {
        let x = a.get_char(i);
        let y = b.get_char(i);
        let ghost sa = a@.subrange(i as int, n as int);
        let ghost sb = b@.subrange(i as int, m as int);
        assert(sa[0] == x && sb[0] == y);
        if x != y {
            return (x as u32) < (y as u32);
        }
        assert(sa.drop_first() =~= a@.subrange(i + 1, n as int));
        assert(sb.drop_first() =~= b@.subrange(i + 1, m as int));
        i = i + 1;
    }
    i == n
}

/// Tells whether two strings are equal.
pub fn str_eq(a: &str, b: &str) -> (r: bool)
    ensures
        r == (a@ == b@),
{
    if a.unicode_len() != b.unicode_len() {
        return false;
    }
    let r = ends_with_str(a, b);
    assert(a@.subrange(0, a@.len() as int) =~= a@);
    r
}

fn is_marker_node(c: &Vec<String>) -> (r: bool)
    ensures
        r == is_marker_path(views(c@)),
{
    let len = c.len();
    if len < 2 || len > 4 {
        return false;
    }
    let plist = "Info.plist";
    let ext = ".app";
    proof {
        reveal_strlit("Info.plist");
        reveal_strlit(".app");
        assert(plist@ =~= marker());
        assert(ext@ =~= app_ext());
    }
    let dir = c[len - 2].as_str();
    str_eq(c[len - 1].as_str(), plist) && dir.unicode_len() > 4 && ends_with_str(dir, ext)
}

fn prefix_clone(c: &Vec<String>, k: usize) -> (r: Vec<String>)
    requires
        k <= c.len(),
    ensures
        views(r@) == views(c@).subrange(0, k as int),
{
    let mut r: Vec<String> = Vec::new();
    let mut i: usize = 0;
    while i < k
        invariant
            i <= k,
            k <= c.len(),
            r@.len() == i,
            views(r@) == views(c@).subrange(0, i as int),
        decreases k - i,
    {
        let s = c[i].clone();
        r.push(s);
        assert(views(r@) =~= views(c@).subrange(0, i + 1)) by {
            assert(r@[i as int] == c@[i as int]);
        }
        i = i + 1;
    }
    r
}

/// Finds the bundle directory of an unpacked tree: `None` when there is none,
/// else the bundle whose `/`-joined path is smallest in lexicographic order.
pub fn locate_bundle(nodes: &Vec<TreeEntry>) -> (r: Option<Vec<String>>)
    ensures
        r is None <==> forall|b: Seq<Seq<char>>| !is_bundle_at(nodes@, b),
        r matches Some(b) ==> is_selected_bundle(nodes@, views(b@)),
{
    let mut best: Option<(Vec<String>, String)> = None;
    let mut i: usize = 0;
    while i < nodes.len()
        invariant
            i <= nodes.len(),
            best is None ==> forall|j: int|
                0 <= j < i ==> !is_marker_path(#[trigger] node_path(nodes@[j])),
            best matches Some(bk) ==> {
                &&& bk.1@ == join_slash(views(bk.0@))
                &&& is_bundle_at(nodes@, views(bk.0@))
                &&& forall|j: int|
                    0 <= j < i && is_marker_path(#[trigger] node_path(nodes@[j])) ==> chars_le(
                        bk.1@,
                        join_slash(node_path(nodes@[j]).drop_last()),
                    )
            },
        decreases nodes.len() - i,
    {
        let c = &nodes[i].components;
        if is_marker_node(c) {
            assert(is_marker_path(node_path(nodes@[i as int])));
            let p = prefix_clone(c, c.len() - 1);
            let key = zip_name_from_relative_path(&p, false);
            let ghost pv = views(p@);
            assert(pv =~= node_path(nodes@[i as int]).drop_last());
            assert(is_bundle_at(nodes@, pv));
            let replace = match &best {
                None => true,
                Some(bk) => !str_le(bk.1.as_str(), key.as_str()),
            };
            if replace {
                proof {
                    lemma_chars_le_refl(key@);
                    if let Some(bk) = best {
                        lemma_chars_le_total(bk.1@, key@);
                        assert forall|j: int|
                            0 <= j < i && is_marker_path(#[trigger] node_path(nodes@[j])) implies chars_le(
                            key@,
                            join_slash(node_path(nodes@[j]).drop_last()),
                        ) by {
                            lemma_chars_le_trans(key@, bk.1@, join_slash(node_path(nodes@[j]).drop_last()));
                        }
                    }
                }
                best = Some((p, key));
            }
        }
        i = i + 1;
    }
    match best {
        None => {
            assert forall|b: Seq<Seq<char>>| !is_bundle_at(nodes@, b) by {
                if is_bundle_at(nodes@, b) {
                    let j = choose|j: int|
                        0 <= j < nodes@.len() && is_marker_path(#[trigger] node_path(nodes@[j]))
                            && node_path(nodes@[j]).drop_last() == b;
                }
            }
            None
        },
        Some(bk) => {
            assert forall|c: Seq<Seq<char>>| is_bundle_at(nodes@, c) implies chars_le(
                join_slash(views(bk.0@)),
                #[trigger] join_slash(c),
            ) by {
                let j = choose|j: int|
                    0 <= j < nodes@.len() && is_marker_path(#[trigger] node_path(nodes@[j]))
                        && node_path(nodes@[j]).drop_last() == c;
            }
            Some(bk.0)
        },
    }
}

} // verus!
