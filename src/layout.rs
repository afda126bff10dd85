//! Payload assembly: the nodes of the selected bundle, copied under a
//! top-level `Payload` directory, with every directory of the copy listed
//! once and every file once (where an archive repeats a file, the last copy).

use vstd::prelude::*;
use crate::bundle::{node_path, str_eq, TreeEntry};
use crate::payload::views;

verus! {

/// One node of the assembled payload: its path below the archive root,
/// whether it is a directory, and (for a file) its contents.
pub struct PayloadEntry {
    pub components: Vec<String>,
    pub is_dir: bool,
    pub data: Vec<u8>,
}

/// The path of a payload node as a sequence of components.
pub open spec fn entry_path(e: PayloadEntry) -> Seq<Seq<char>> {
    views(e.components@)
}

/// The name of the top-level container directory.
pub open spec fn payload_dir() -> Seq<char> {
    seq!['P', 'a', 'y', 'l', 'o', 'a', 'd']
}

/// The path of the copied bundle: `Payload/<bundle name>`.
pub open spec fn payload_root(bundle: Seq<Seq<char>>) -> Seq<Seq<char>> {
    seq![payload_dir(), bundle.last()]
}

/// Whether `p` lies strictly below `b`.
pub open spec fn is_below(p: Seq<Seq<char>>, b: Seq<Seq<char>>) -> bool {
    p.len() > b.len() && p.subrange(0, b.len() as int) == b
}

/// The part of the path of node `i` below the bundle `b`.
pub open spec fn rest_of(nodes: Seq<TreeEntry>, b: Seq<Seq<char>>, i: int) -> Seq<Seq<char>> {
    node_path(nodes[i]).subrange(b.len() as int, node_path(nodes[i]).len() as int)
}

/// Whether the first `k` components below the bundle of node `i` name a
/// directory of the bundle: a node below the bundle implies its ancestors,
/// and a directory node is one itself.
pub open spec fn dir_from(nodes: Seq<TreeEntry>, b: Seq<Seq<char>>, i: int, k: int) -> bool {
    &&& 0 <= i < nodes.len()
    &&& is_below(node_path(nodes[i]), b)
    &&& 1 <= k
    &&& if nodes[i].is_dir {
        k <= rest_of(nodes, b, i).len()
    } else {
        k < rest_of(nodes, b, i).len()
    }
}

/// Whether node `i` is a file of the bundle that no later node of the same
/// path replaces.
pub open spec fn file_from(nodes: Seq<TreeEntry>, b: Seq<Seq<char>>, i: int) -> bool {
    &&& 0 <= i < nodes.len()
    &&& is_below(node_path(nodes[i]), b)
    &&& !nodes[i].is_dir
    &&& forall|j: int| i < j < nodes.len() ==> node_path(#[trigger] nodes[j]) != node_path(nodes[i])
}

/// Whether `out` lists, after its first two entries, a directory at `p`.
pub open spec fn has_dir_entry(out: Seq<PayloadEntry>, p: Seq<Seq<char>>) -> bool {
    exists|k: int| 2 <= k < out.len() && out[k].is_dir && #[trigger] entry_path(out[k]) == p
}

/// Whether `out` lists, after its first two entries, a file at `p` holding `d`.
pub open spec fn has_file_entry(out: Seq<PayloadEntry>, p: Seq<Seq<char>>, d: Seq<u8>) -> bool {
    exists|k: int|
        2 <= k < out.len() && !out[k].is_dir && #[trigger] entry_path(out[k]) == p && out[k].data@ == d
}

/// What the assembled payload of bundle `b` holds: `Payload/` and the bundle's
/// own directory first; then each directory of the bundle and each file, under
/// `Payload/<bundle name>/`, and nothing else; no path listed twice.
pub open spec fn is_payload_of(nodes: Seq<TreeEntry>, b: Seq<Seq<char>>, out: Seq<PayloadEntry>) -> bool {
    let root = payload_root(b);
    &&& out.len() >= 2
    &&& out[0].is_dir && entry_path(out[0]) == seq![payload_dir()] && out[0].data@.len() == 0
    &&& out[1].is_dir && entry_path(out[1]) == root && out[1].data@.len() == 0
    &&& forall|k: int|
        2 <= k < out.len() && out[k].is_dir ==> out[k].data@.len() == 0 && exists|i: int, j: int|
            dir_from(nodes, b, i, j) && entry_path(#[trigger] out[k]) == root + rest_of(nodes, b, i).subrange(0, j)
    &&& forall|k: int|
        2 <= k < out.len() && !out[k].is_dir ==> exists|i: int|
            file_from(nodes, b, i) && entry_path(#[trigger] out[k]) == root + rest_of(nodes, b, i)
                && out[k].data@ == nodes[i].data@
    &&& forall|i: int, j: int|
        #[trigger] dir_from(nodes, b, i, j) ==> has_dir_entry(out, root + rest_of(nodes, b, i).subrange(0, j))
    &&& forall|i: int|
        #[trigger] file_from(nodes, b, i) ==> has_file_entry(out, root + rest_of(nodes, b, i), nodes[i].data@)
    &&& forall|k1: int, k2: int|
        0 <= k1 < k2 < out.len() && out[k1].is_dir == out[k2].is_dir ==> entry_path(#[trigger] out[k1])
            != entry_path(#[trigger] out[k2])
}

/// Tells whether two lists of strings are equal.
pub fn strings_eq(a: &Vec<String>, b: &Vec<String>) -> (r: bool)
    ensures
        r == (views(a@) == views(b@)),
{
    if a.len() != b.len() {
        assert(views(a@).len() != views(b@).len());
        return false;
    }
    let mut i: usize = 0;
    while i < a.len()
        invariant
            a.len() == b.len(),
            i <= a.len(),
            forall|k: int| 0 <= k < i ==> a@[k]@ == b@[k]@,
        decreases a.len() - i,
    {
        if !str_eq(a[i].as_str(), b[i].as_str()) {
            assert(views(a@)[i as int] != views(b@)[i as int]);
            return false;
        }
        i = i + 1;
    }
    assert(views(a@) =~= views(b@));
    true
}

/// Paths below `b` with the same part below `b` are the same path.
proof fn lemma_rest_determines_path(nodes: Seq<TreeEntry>, b: Seq<Seq<char>>, i1: int, i2: int)
    requires
        0 <= i1 < nodes.len(),
        0 <= i2 < nodes.len(),
        is_below(node_path(nodes[i1]), b),
        is_below(node_path(nodes[i2]), b),
        rest_of(nodes, b, i1) == rest_of(nodes, b, i2),
    ensures
        node_path(nodes[i1]) == node_path(nodes[i2]),
{
    let p1 = node_path(nodes[i1]);
    let p2 = node_path(nodes[i2]);
    assert(p1 =~= p1.subrange(0, b.len() as int) + rest_of(nodes, b, i1));
    assert(p2 =~= p2.subrange(0, b.len() as int) + rest_of(nodes, b, i2));
}

/// Paths under the same root are equal only where the parts below it are.
proof fn lemma_root_cancel(root: Seq<Seq<char>>, x: Seq<Seq<char>>, y: Seq<Seq<char>>)
    requires
        root + x == root + y,
    ensures
        x == y,
{
    assert(x =~= (root + x).subrange(root.len() as int, (root + x).len() as int));
    assert(y =~= (root + y).subrange(root.len() as int, (root + y).len() as int));
}

/// Appending an entry keeps every directory and file already listed.
proof fn lemma_push_keeps(out: Seq<PayloadEntry>, e: PayloadEntry)
    ensures
        forall|p: Seq<Seq<char>>| has_dir_entry(out, p) ==> has_dir_entry(out.push(e), p),
        forall|p: Seq<Seq<char>>, d: Seq<u8>| has_file_entry(out, p, d) ==> has_file_entry(out.push(e), p, d),
{
    assert forall|p: Seq<Seq<char>>| has_dir_entry(out, p) implies has_dir_entry(out.push(e), p) by {
        let k = choose|k: int| 2 <= k < out.len() && out[k].is_dir && #[trigger] entry_path(out[k]) == p;
        assert(out.push(e)[k] == out[k]);
    }
    assert forall|p: Seq<Seq<char>>, d: Seq<u8>| has_file_entry(out, p, d) implies has_file_entry(
        out.push(e),
        p,
        d,
    ) by {
        let k = choose|k: int|
            2 <= k < out.len() && !out[k].is_dir && #[trigger] entry_path(out[k]) == p && out[k].data@ == d;
        assert(out.push(e)[k] == out[k]);
    }
}

fn below_bundle(path: &Vec<String>, b: &Vec<String>) -> (r: bool)
    ensures
        r == is_below(views(path@), views(b@)),
{
    if path.len() <= b.len() {
        return false;
    }
    let mut i: usize = 0;
    while i < b.len()
        invariant
            b.len() < path.len(),
            i <= b.len(),
            forall|k: int| 0 <= k < i ==> path@[k]@ == b@[k]@,
        decreases b.len() - i,
    {
        if !str_eq(path[i].as_str(), b[i].as_str()) {
            assert(views(path@).subrange(0, b.len() as int)[i as int] != views(b@)[i as int]);
            return false;
        }
        i = i + 1;
    }
    assert(views(path@).subrange(0, b.len() as int) =~= views(b@));
    true
}

fn has_later_same(nodes: &Vec<TreeEntry>, i: usize) -> (r: bool)
    requires
        i < nodes.len(),
    ensures
        r == exists|j: int| i < j < nodes.len() && node_path(#[trigger] nodes@[j]) == node_path(nodes@[i as int]),
{
    let mut j: usize = i + 1;
    while j < nodes.len()
        invariant
            i < j <= nodes.len(),
            forall|t: int| i < t < j ==> node_path(#[trigger] nodes@[t]) != node_path(nodes@[i as int]),
        decreases nodes.len() - j,
    {
        if strings_eq(&nodes[j].components, &nodes[i].components) {
            return true;
        }
        j = j + 1;
    }
    false
}

fn find_dir(out: &Vec<PayloadEntry>, p: &Vec<String>) -> (r: bool)
    ensures
        r == has_dir_entry(out@, views(p@)),
{
    let mut k: usize = 2;
    while k < out.len()
        invariant
            2 <= k,
            forall|t: int| 2 <= t < k && t < out.len() ==> !(out@[t].is_dir && #[trigger] entry_path(out@[t]) == views(p@)),
        decreases out.len() - k,
    {
        if out[k].is_dir && strings_eq(&out[k].components, p) {
            assert(entry_path(out@[k as int]) == views(p@));
            return true;
        }
        k = k + 1;
    }
    false
}

fn rooted(bundle: &Vec<String>, path: &Vec<String>, from: usize, to: usize) -> (r: Vec<String>)
    requires
        bundle@.len() >= 1,
        from <= to <= path@.len(),
    ensures
        views(r@) == payload_root(views(bundle@)) + views(path@).subrange(from as int, to as int),
{
    let dir = "Payload";
    proof {
        reveal_strlit("Payload");
        assert(dir@ =~= payload_dir());
    }
    let mut r: Vec<String> = Vec::new();
    r.push(dir.to_string());
    let last = bundle[bundle.len() - 1].clone();
    r.push(last);
    assert(r@[0]@ == payload_dir());
    assert(r@[1]@ == views(bundle@).last());
    let ghost root = payload_root(views(bundle@));
    assert(views(r@) =~= root + views(path@).subrange(from as int, from as int));
    let mut i: usize = from;
    while i < to
        invariant
            from <= i <= to,
            to <= path@.len(),
            r@.len() == 2 + i - from,
            views(r@) == root + views(path@).subrange(from as int, i as int),
        decreases to - i,
    {
        let c = path[i].clone();
        let ghost before = views(r@);
        r.push(c);
        assert(views(r@) =~= before.push(views(path@)[i as int]));
        assert(views(path@).subrange(from as int, i + 1) =~= views(path@).subrange(from as int, i as int).push(
            views(path@)[i as int],
        ));
        assert(views(r@) =~= root + views(path@).subrange(from as int, i + 1));
        i = i + 1;
    }
    r
}

/// The invariant of payload assembly after the first `i` nodes: the listed
/// entries are as `is_payload_of` says, each file coming from the node `src[k]`,
/// and the directories and files of those nodes are all listed.
spec fn assembled_upto(
    nodes: Seq<TreeEntry>,
    b: Seq<Seq<char>>,
    out: Seq<PayloadEntry>,
    src: Seq<int>,
    i: int,
    kk: int,
) -> bool {
    let root = payload_root(b);
    &&& out.len() >= 2
    &&& src.len() == out.len()
    &&& out[0].is_dir && entry_path(out[0]) == seq![payload_dir()] && out[0].data@.len() == 0
    &&& out[1].is_dir && entry_path(out[1]) == root && out[1].data@.len() == 0
    &&& forall|k: int|
        2 <= k < out.len() && out[k].is_dir ==> out[k].data@.len() == 0 && entry_path(#[trigger] out[k]).len()
            >= 3 && exists|i2: int, j: int|
            dir_from(nodes, b, i2, j) && entry_path(out[k]) == root + rest_of(nodes, b, i2).subrange(0, j)
    &&& forall|k: int|
        2 <= k < out.len() && !out[k].is_dir ==> 0 <= src[k] < i && file_from(nodes, b, src[k]) && entry_path(
            #[trigger] out[k],
        ) == root + rest_of(nodes, b, src[k]) && out[k].data@ == nodes[src[k]].data@
    &&& forall|i2: int, j: int|
        (i2 < i || (i2 == i && j < kk)) && #[trigger] dir_from(nodes, b, i2, j) ==> has_dir_entry(
            out,
            root + rest_of(nodes, b, i2).subrange(0, j),
        )
    &&& forall|i2: int| i2 < i && #[trigger] file_from(nodes, b, i2) ==> has_file_entry(out, root + rest_of(nodes, b, i2), nodes[i2].data@)
    &&& forall|k1: int, k2: int|
        0 <= k1 < k2 < out.len() && out[k1].is_dir == out[k2].is_dir ==> entry_path(#[trigger] out[k1])
            != entry_path(#[trigger] out[k2])
}

/// Assembles the payload of the bundle at `bundle` from the unpacked nodes:
/// `Payload/`, `Payload/<bundle name>/`, then every directory and file of the
/// bundle under `Payload/<bundle name>/`, each once.
pub fn assemble_payload(nodes: &Vec<TreeEntry>, bundle: &Vec<String>) -> (out: Vec<PayloadEntry>)
    requires
        bundle@.len() >= 1,
    ensures
        is_payload_of(nodes@, views(bundle@), out@),
{
    let ghost b = views(bundle@);
    let ghost root = payload_root(b);
    let dir = "Payload";
    proof {
        reveal_strlit("Payload");
        assert(dir@ =~= payload_dir());
    }
    let mut top: Vec<String> = Vec::new();
    top.push(dir.to_string());
    assert(views(top@) =~= seq![payload_dir()]);
    let empty: Vec<String> = Vec::new();
    let bundle_path = rooted(bundle, &empty, 0, 0);
    assert(views(bundle_path@) =~= root);
    let mut out: Vec<PayloadEntry> = Vec::new();
    out.push(PayloadEntry { components: top, is_dir: true, data: Vec::new() });
    out.push(PayloadEntry { components: bundle_path, is_dir: true, data: Vec::new() });
    let ghost mut src: Seq<int> = seq![0, 0];
    let mut i: usize = 0;
    while i < nodes.len()
        invariant
            bundle@.len() >= 1,
            b == views(bundle@),
            root == payload_root(b),
            i <= nodes.len(),
            assembled_upto(nodes@, b, out@, src, i as int, 0),
        decreases nodes.len() - i,
    {
        let path = &nodes[i].components;
        if below_bundle(path, bundle) {
            let blen = bundle.len();
            let plen = path.len();
            let lim: usize = if nodes[i].is_dir {
                plen - blen
            } else {
                plen - blen - 1
            };
            let mut kk: usize = 1;
            while kk <= lim
                invariant
                    bundle@.len() >= 1,
                    b == views(bundle@),
                    root == payload_root(b),
                    i < nodes.len(),
                    path == &nodes@[i as int].components,
                    blen == b.len(),
                    plen == node_path(nodes@[i as int]).len(),
                    is_below(node_path(nodes@[i as int]), b),
                    lim == if nodes@[i as int].is_dir { plen - blen } else { plen - blen - 1 },
                    1 <= kk <= lim + 1,
                    assembled_upto(nodes@, b, out@, src, i as int, kk as int),
                decreases lim + 1 - kk,
            {
                let p = rooted(bundle, path, blen, blen + kk);
                assert(views(path@).subrange(blen as int, (blen + kk) as int) =~= rest_of(nodes@, b, i as int).subrange(
                    0,
                    kk as int,
                ));
                assert(dir_from(nodes@, b, i as int, kk as int));
                if !find_dir(&out, &p) {
                    let e = PayloadEntry { components: p, is_dir: true, data: Vec::new() };
                    let ghost before = out@;
                    proof {
                        lemma_push_keeps(before, e);
                    }
                    out.push(e);
                    proof {
                        src = src.push(0);
                        let n = before.len() as int;
                        assert(out@[n] == e);
                        let q = root + rest_of(nodes@, b, i as int).subrange(0, kk as int);
                        assert(entry_path(out@[n]) == q);
                        assert(has_dir_entry(out@, q));
                        assert(entry_path(out@[n]).len() >= 3);
                        assert forall|k1: int, k2: int|
                            0 <= k1 < k2 < out@.len() && out@[k1].is_dir == out@[k2].is_dir implies entry_path(
                            #[trigger] out@[k1],
                        ) != entry_path(#[trigger] out@[k2]) by {
                            if k2 == n && k1 >= 2 {
                                assert(!(before[k1].is_dir && entry_path(before[k1]) == q));
                            }
                            if k2 < n {
                                assert(before[k1] == out@[k1] && before[k2] == out@[k2]);
                            }
                        }
                    }
                }
                kk = kk + 1;
            }
            if !nodes[i].is_dir && !has_later_same(nodes, i) {
                let p = rooted(bundle, path, blen, plen);
                assert(views(path@).subrange(blen as int, plen as int) =~= rest_of(nodes@, b, i as int));
                let data = vstd::slice::slice_to_vec(nodes[i].data.as_slice());
                let e = PayloadEntry { components: p, is_dir: false, data };
                assert(file_from(nodes@, b, i as int));
                let ghost before = out@;
                proof {
                    lemma_push_keeps(before, e);
                }
                out.push(e);
                proof {
                    src = src.push(i as int);
                    let n = before.len() as int;
                    assert(out@[n] == e);
                    assert forall|k1: int, k2: int|
                        0 <= k1 < k2 < out@.len() && out@[k1].is_dir == out@[k2].is_dir implies entry_path(
                        #[trigger] out@[k1],
                    ) != entry_path(#[trigger] out@[k2]) by {
                        if k2 == n && k1 >= 2 {
                            let s1 = src[k1];
                            if entry_path(out@[k1]) == entry_path(out@[k2]) {
                                lemma_root_cancel(root, rest_of(nodes@, b, s1), rest_of(nodes@, b, i as int));
                                lemma_rest_determines_path(nodes@, b, s1, i as int);
                                assert(node_path(nodes@[i as int]) != node_path(nodes@[s1]));
                            }
                        }
                        if k2 < n {
                            assert(before[k1] == out@[k1] && before[k2] == out@[k2]);
                        }
                    }
                    assert(has_file_entry(out@, root + rest_of(nodes@, b, i as int), nodes@[i as int].data@)) by {
                        assert(entry_path(out@[n]) == root + rest_of(nodes@, b, i as int));
                    }
                }
            }
        }
        i = i + 1;
    }
    proof {
        assert forall|k: int| 2 <= k < out@.len() && !out@[k].is_dir implies exists|i2: int|
            file_from(nodes@, b, i2) && entry_path(#[trigger] out@[k]) == root + rest_of(nodes@, b, i2)
                && out@[k].data@ == nodes@[i2].data@ by {
            let s1 = src[k];
            assert(file_from(nodes@, b, s1));
        }
    }
    out
}

} // verus!
