//! Template tree snapshots: the directory structure under a template root,
//! rendered as a nested, by-name-sorted description. Produced fresh on every
//! call, never cached.

use vstd::prelude::*;
use vstd::multiset::Multiset;
use vstd::seq_lib::lemma_multiset_commutative;

use crate::errors::ScaffoldError;
use crate::text::{lex_le, lemma_lex_le_total, str_le};

verus! {

broadcast use vstd::seq_lib::group_to_multiset_ensures;

/// One entry in a template tree snapshot. `children` is present exactly for
/// directories; `path` is the slash-separated path relative to the template
/// root.
#[derive(Debug)]
pub struct FileNode {
    pub name: String,
    pub path: String,
    pub is_directory: bool,
    pub children: Option<Vec<FileNode>>,
}

/// A well-formed entry name: nonempty, and free of the path separator. A
/// directory walk reports leaf names, which are always of this shape.
pub open spec fn name_wf(n: Seq<char>) -> bool {
    n.len() > 0 && forall|k: int| 0 <= k < n.len() ==> n[k] != '/'
}

/// Sibling nodes are ordered by name, ascending.
pub open spec fn nodes_sorted(s: Seq<FileNode>) -> bool {
    forall|i: int| 0 <= i < s.len() - 1 ==> lex_le(#[trigger] s[i].name@, s[i + 1].name@)
}

/// Sibling nodes carry pairwise-distinct names.
pub open spec fn nodes_names_distinct(s: Seq<FileNode>) -> bool {
    forall|i: int, j: int|
        0 <= i < j < s.len() ==> (#[trigger] s[i].name@) != (#[trigger] s[j].name@)
}

/// Every sibling's name is a well-formed entry name.
pub open spec fn nodes_names_wf(s: Seq<FileNode>) -> bool {
    forall|i: int| 0 <= i < s.len() ==> name_wf(#[trigger] s[i].name@)
}

/// Well-formedness of one snapshot node under a path prefix: its path is the
/// prefix followed by its name, directories carry children and files do not,
/// and its children are sorted, distinctly and well named, and again
/// well-formed, recursively.
pub open spec fn node_wf(n: FileNode, prefix: Seq<char>) -> bool
    decreases n, 0int,
{
    &&& n.path@ == prefix + n.name@
    &&& (n.is_directory <==> n.children is Some)
    &&& match n.children {
        Option::Some(cs) => nodes_sorted(cs@) && nodes_names_distinct(cs@) && nodes_names_wf(
            cs@,
        ) && children_wf_from(cs, 0, n.path@ + seq!['/']),
        Option::None => true,
    }
}

/// Well-formedness of the children `cs[i..]`, each under `prefix`.
pub open spec fn children_wf_from(cs: Vec<FileNode>, i: int, prefix: Seq<char>) -> bool
    decreases cs, cs@.len() - i,
{
    if i < 0 || i >= cs@.len() {
        true
    } else {
        node_wf(cs@[i], prefix) && children_wf_from(cs, i + 1, prefix)
    }
}

/// `children_wf_from` says exactly that every child from `i` on is
/// well-formed.
pub proof fn lemma_children_wf_iff(cs: Vec<FileNode>, i: int, prefix: Seq<char>)
    requires
        0 <= i <= cs@.len(),
    ensures
        children_wf_from(cs, i, prefix) <==> (forall|k: int|
            i <= k < cs@.len() ==> #[trigger] node_wf(cs@[k], prefix)),
    decreases cs@.len() - i,
{
    if i < cs@.len() {
        lemma_children_wf_iff(cs, i + 1, prefix);
        if children_wf_from(cs, i, prefix) {
            assert forall|k: int| i <= k < cs@.len() implies #[trigger] node_wf(
                cs@[k],
                prefix,
            ) by {
                if k == i {
                    assert(node_wf(cs@[i], prefix));
                }
            }
        }
        if forall|k: int| i <= k < cs@.len() ==> #[trigger] node_wf(cs@[k], prefix) {
            assert(node_wf(cs@[i], prefix));
            assert(children_wf_from(cs, i + 1, prefix));
        }
    }
}

/// Well-formedness of one snapshot level under a path prefix.
pub open spec fn forest_wf(s: Seq<FileNode>, prefix: Seq<char>) -> bool {
    &&& nodes_sorted(s)
    &&& nodes_names_distinct(s)
    &&& nodes_names_wf(s)
    &&& forall|i: int| 0 <= i < s.len() ==> #[trigger] node_wf(s[i], prefix)
}

/// Within one well-formed level, the derived paths are pairwise distinct.
pub proof fn lemma_level_paths_distinct(s: Seq<FileNode>, prefix: Seq<char>)
    requires
        forest_wf(s, prefix),
    ensures
        forall|i: int, j: int|
            0 <= i < j < s.len() ==> (#[trigger] s[i].path@) != (#[trigger] s[j].path@),
{
    assert forall|i: int, j: int| 0 <= i < j < s.len() implies (#[trigger] s[i].path@) != (
    #[trigger] s[j].path@) by {
        assert(node_wf(s[i], prefix));
        assert(node_wf(s[j], prefix));
        if s[i].path@ == s[j].path@ {
            assert(prefix + s[i].name@ == prefix + s[j].name@);
            assert((prefix + s[i].name@).len() == prefix.len() + s[i].name@.len());
            assert((prefix + s[j].name@).len() == prefix.len() + s[j].name@.len());
            assert(s[i].name@.len() == s[j].name@.len());
            assert forall|k: int| 0 <= k < s[i].name@.len() implies s[i].name@[k]
                == s[j].name@[k] by {
                assert((prefix + s[i].name@)[prefix.len() + k] == s[i].name@[k]);
                assert((prefix + s[j].name@)[prefix.len() + k] == s[j].name@[k]);
            }
            assert(s[i].name@ =~= s[j].name@);
        }
    }
}

/// Every path of the subtree rooted at `n`, the node's own first.
pub open spec fn subtree_paths(n: FileNode) -> Seq<Seq<char>>
    decreases n, 0int,
{
    match n.children {
        Option::Some(cs) => seq![n.path@] + children_paths_from(cs, 0),
        Option::None => seq![n.path@],
    }
}

/// The paths of the subtrees of `cs[i..]`.
pub open spec fn children_paths_from(cs: Vec<FileNode>, i: int) -> Seq<Seq<char>>
    decreases cs, cs@.len() - i,
{
    if i < 0 || i >= cs@.len() {
        Seq::<Seq<char>>::empty()
    } else {
        subtree_paths(cs@[i]) + children_paths_from(cs, i + 1)
    }
}

/// Every path of a well-formed subtree starts with the root node's own
/// path and continues, if at all, with a separator.
pub proof fn lemma_subtree_paths_extend(n: FileNode, prefix: Seq<char>)
    requires
        node_wf(n, prefix),
    ensures
        forall|k: int|
            0 <= k < subtree_paths(n).len() ==> (#[trigger] subtree_paths(n)[k]).len()
                >= n.path@.len(),
        forall|k: int|
            0 <= k < subtree_paths(n).len() ==> (#[trigger] subtree_paths(n)[k]).take(
                n.path@.len() as int,
            ) == n.path@,
        forall|k: int|
            0 <= k < subtree_paths(n).len() && (#[trigger] subtree_paths(n)[k]).len()
                > n.path@.len() ==> subtree_paths(n)[k][n.path@.len() as int] == '/',
    decreases n, 0int,
{
    let ps = subtree_paths(n);
    let pl = n.path@.len() as int;
    assert(ps[0] == n.path@);
    assert(n.path@.take(pl) =~= n.path@);
    match n.children {
        Option::Some(cs) => {
            let cp = n.path@ + seq!['/'];
            lemma_children_paths_extend(cs, 0, cp);
            let qs = children_paths_from(cs, 0);
            assert forall|k: int| 1 <= k < ps.len() implies (#[trigger] ps[k]).len() > pl
                && ps[k].take(pl) == n.path@ && ps[k][pl] == '/' by {
                let q = qs[k - 1];
                assert(ps[k] == q);
                assert(q.len() >= cp.len());
                assert(q.take(cp.len() as int) == cp);
                assert(q.take(pl) =~= q.take(cp.len() as int).take(pl));
                assert(cp.take(pl) =~= n.path@);
                assert(q[pl] == q.take(cp.len() as int)[pl]);
                assert(cp[pl] == '/');
            }
        },
        Option::None => {},
    }
}

/// Every path under the children `cs[i..]` starts with their shared
/// prefix.
pub proof fn lemma_children_paths_extend(cs: Vec<FileNode>, i: int, cp: Seq<char>)
    requires
        0 <= i <= cs@.len(),
        children_wf_from(cs, i, cp),
    ensures
        forall|k: int|
            0 <= k < children_paths_from(cs, i).len() ==> (#[trigger] children_paths_from(
                cs,
                i,
            )[k]).len() >= cp.len(),
        forall|k: int|
            0 <= k < children_paths_from(cs, i).len() ==> (#[trigger] children_paths_from(
                cs,
                i,
            )[k]).take(cp.len() as int) == cp,
    decreases cs, cs@.len() - i,
{
    if i < cs@.len() {
        let c = cs@[i];
        assert(node_wf(c, cp));
        lemma_subtree_paths_extend(c, cp);
        lemma_children_paths_extend(cs, i + 1, cp);
        let here = subtree_paths(c);
        let rest = children_paths_from(cs, i + 1);
        let all = children_paths_from(cs, i);
        assert(all == here + rest);
        assert(c.path@.len() >= cp.len());
        assert(c.path@.take(cp.len() as int) =~= cp);
        assert forall|k: int| 0 <= k < all.len() implies (#[trigger] all[k]).len() >= cp.len()
            && all[k].take(cp.len() as int) == cp by {
            if k < here.len() {
                let q = here[k];
                assert(all[k] == q);
                assert(q.take(c.path@.len() as int) == c.path@);
                assert(q.take(cp.len() as int) =~= q.take(c.path@.len() as int).take(
                    cp.len() as int,
                ));
            } else {
                assert(all[k] == rest[k - here.len()]);
            }
        }
    }
}

/// Two well-formed sibling subtrees with distinct, well-formed names share
/// no path: each subtree's paths extend its own root path, and the roots'
/// names force those extensions apart.
pub proof fn lemma_sibling_subtrees_disjoint(n1: FileNode, n2: FileNode, prefix: Seq<char>)
    requires
        node_wf(n1, prefix),
        node_wf(n2, prefix),
        n1.name@ != n2.name@,
        name_wf(n1.name@),
        name_wf(n2.name@),
    ensures
        forall|a: int, b: int|
            0 <= a < subtree_paths(n1).len() && 0 <= b < subtree_paths(n2).len()
                ==> (#[trigger] subtree_paths(n1)[a]) != (#[trigger] subtree_paths(n2)[b]),
{
    lemma_subtree_paths_extend(n1, prefix);
    lemma_subtree_paths_extend(n2, prefix);
    let l1 = n1.path@.len() as int;
    let l2 = n2.path@.len() as int;
    assert forall|a: int, b: int|
        0 <= a < subtree_paths(n1).len() && 0 <= b < subtree_paths(n2).len() implies (
    #[trigger] subtree_paths(n1)[a]) != (#[trigger] subtree_paths(n2)[b]) by {
        let p = subtree_paths(n1)[a];
        let q = subtree_paths(n2)[b];
        if p == q {
            if l1 == l2 {
                assert(p.take(l1) == n1.path@);
                assert(q.take(l2) == n2.path@);
                assert(n1.path@ == n2.path@);
                assert(prefix + n1.name@ == prefix + n2.name@);
                assert(n1.name@.len() == n2.name@.len()) by {
                    assert((prefix + n1.name@).len() == prefix.len() + n1.name@.len());
                    assert((prefix + n2.name@).len() == prefix.len() + n2.name@.len());
                }
                assert forall|k: int| 0 <= k < n1.name@.len() implies n1.name@[k]
                    == n2.name@[k] by {
                    assert((prefix + n1.name@)[prefix.len() + k] == n1.name@[k]);
                    assert((prefix + n2.name@)[prefix.len() + k] == n2.name@[k]);
                }
                assert(n1.name@ =~= n2.name@);
            } else if l1 < l2 {
                assert(q.len() >= l2);
                assert(p.len() >= l2);
                assert(p.len() > l1);
                assert(p[l1] == '/');
                assert(q.take(l2) == n2.path@);
                assert(q[l1] == n2.path@[l1]);
                assert(n2.path@ == prefix + n2.name@);
                assert(l1 >= prefix.len()) by {
                    assert((prefix + n1.name@).len() == prefix.len() + n1.name@.len());
                }
                assert(n2.path@[l1] == n2.name@[l1 - prefix.len()]);
                assert(l1 - prefix.len() < n2.name@.len()) by {
                    assert((prefix + n2.name@).len() == prefix.len() + n2.name@.len());
                }
                assert(n2.name@[l1 - prefix.len()] != '/');
            } else {
                assert(p.len() >= l1);
                assert(q.len() > l2);
                assert(q[l2] == '/');
                assert(p.take(l1) == n1.path@);
                assert(p[l2] == n1.path@[l2]);
                assert(n1.path@ == prefix + n1.name@);
                assert(l2 >= prefix.len()) by {
                    assert((prefix + n2.name@).len() == prefix.len() + n2.name@.len());
                }
                assert(n1.path@[l2] == n1.name@[l2 - prefix.len()]);
                assert(l2 - prefix.len() < n1.name@.len()) by {
                    assert((prefix + n1.name@).len() == prefix.len() + n1.name@.len());
                }
                assert(n1.name@[l2 - prefix.len()] != '/');
            }
        }
    }
}

/// No path of the subtree at `cs[j]` occurs among the paths of the
/// subtrees at `cs[m..]`, for `j` before `m`.
pub proof fn lemma_head_vs_rest_disjoint(cs: Vec<FileNode>, j: int, m: int, cp: Seq<char>)
    requires
        0 <= j < m <= cs@.len(),
        forall|k: int| 0 <= k < cs@.len() ==> #[trigger] node_wf(cs@[k], cp),
        nodes_names_distinct(cs@),
        nodes_names_wf(cs@),
    ensures
        forall|a: int, b: int|
            0 <= a < subtree_paths(cs@[j]).len() && 0 <= b < children_paths_from(cs, m).len()
                ==> (#[trigger] subtree_paths(cs@[j])[a]) != (#[trigger] children_paths_from(
                cs,
                m,
            )[b]),
    decreases cs@.len() - m,
{
    if m < cs@.len() {
        lemma_sibling_subtrees_disjoint(cs@[j], cs@[m], cp);
        lemma_head_vs_rest_disjoint(cs, j, m + 1, cp);
        let here = subtree_paths(cs@[m]);
        let rest = children_paths_from(cs, m + 1);
        assert(children_paths_from(cs, m) == here + rest);
        assert forall|a: int, b: int|
            0 <= a < subtree_paths(cs@[j]).len() && 0 <= b < children_paths_from(
                cs,
                m,
            ).len() implies (#[trigger] subtree_paths(cs@[j])[a]) != (
        #[trigger] children_paths_from(cs, m)[b]) by {
            if b < here.len() {
                assert(children_paths_from(cs, m)[b] == here[b]);
            } else {
                assert(children_paths_from(cs, m)[b] == rest[b - here.len()]);
            }
        }
    }
}

/// All paths of the subtrees at `cs[i..]` are pairwise distinct.
pub proof fn lemma_children_paths_distinct(cs: Vec<FileNode>, i: int, cp: Seq<char>)
    requires
        0 <= i <= cs@.len(),
        forall|k: int| 0 <= k < cs@.len() ==> #[trigger] node_wf(cs@[k], cp),
        nodes_names_distinct(cs@),
        nodes_names_wf(cs@),
    ensures
        forall|a: int, b: int|
            0 <= a < b < children_paths_from(cs, i).len() ==> (#[trigger] children_paths_from(
                cs,
                i,
            )[a]) != (#[trigger] children_paths_from(cs, i)[b]),
    decreases cs, cs@.len() - i, 1int,
{
    if i < cs@.len() {
        lemma_subtree_paths_distinct(cs@[i], cp);
        lemma_children_paths_distinct(cs, i + 1, cp);
        lemma_head_vs_rest_disjoint(cs, i, i + 1, cp);
        let here = subtree_paths(cs@[i]);
        let rest = children_paths_from(cs, i + 1);
        let all = children_paths_from(cs, i);
        assert(all == here + rest);
        assert forall|a: int, b: int| 0 <= a < b < all.len() implies (#[trigger] all[a]) != (
        #[trigger] all[b]) by {
            if b < here.len() {
                assert(all[a] == here[a] && all[b] == here[b]);
            } else if a >= here.len() {
                assert(all[a] == rest[a - here.len()] && all[b] == rest[b - here.len()]);
            } else {
                assert(all[a] == here[a] && all[b] == rest[b - here.len()]);
            }
        }
    }
}

/// All paths of one well-formed subtree are pairwise distinct.
pub proof fn lemma_subtree_paths_distinct(n: FileNode, prefix: Seq<char>)
    requires
        node_wf(n, prefix),
    ensures
        forall|a: int, b: int|
            0 <= a < b < subtree_paths(n).len() ==> (#[trigger] subtree_paths(n)[a]) != (
            #[trigger] subtree_paths(n)[b]),
    decreases n, 0int, 0int,
{
    match n.children {
        Option::Some(cs) => {
            let cp = n.path@ + seq!['/'];
            lemma_children_wf_iff(cs, 0, cp);
            lemma_children_paths_extend(cs, 0, cp);
            lemma_children_paths_distinct(cs, 0, cp);
            let ps = subtree_paths(n);
            let qs = children_paths_from(cs, 0);
            assert(ps == seq![n.path@] + qs);
            assert forall|a: int, b: int| 0 <= a < b < ps.len() implies (#[trigger] ps[a]) != (
            #[trigger] ps[b]) by {
                if a == 0 {
                    let q = qs[b - 1];
                    assert(ps[b] == q);
                    assert(q.len() >= cp.len());
                    assert((n.path@ + seq!['/']).len() == n.path@.len() + 1);
                } else {
                    assert(ps[a] == qs[a - 1] && ps[b] == qs[b - 1]);
                }
            }
        },
        Option::None => {},
    }
}

/// Path uniqueness for a whole snapshot: within one well-formed snapshot
/// every path — at every depth — occurs exactly once.
pub proof fn lemma_snapshot_paths_distinct(ns: Vec<FileNode>, prefix: Seq<char>)
    requires
        forest_wf(ns@, prefix),
    ensures
        forall|a: int, b: int|
            0 <= a < b < children_paths_from(ns, 0).len() ==> (#[trigger] children_paths_from(
                ns,
                0,
            )[a]) != (#[trigger] children_paths_from(ns, 0)[b]),
{
    lemma_children_paths_distinct(ns, 0, prefix);
}

/// A raw directory entry as a walk reports it: leaf name and kind.
pub type RawEntry = (String, bool);

/// Raw entries ordered by name, ascending.
pub open spec fn entries_sorted(s: Seq<RawEntry>) -> bool {
    forall|i: int| 0 <= i < s.len() - 1 ==> lex_le(#[trigger] s[i].0@, s[i + 1].0@)
}

/// Raw entries with pairwise-distinct names.
pub open spec fn entry_names_distinct(s: Seq<RawEntry>) -> bool {
    forall|i: int, j: int|
        0 <= i < j < s.len() ==> (#[trigger] s[i].0@) != (#[trigger] s[j].0@)
}

/// Raw entries whose names are all well-formed.
pub open spec fn entry_names_wf(s: Seq<RawEntry>) -> bool {
    forall|i: int| 0 <= i < s.len() ==> name_wf(#[trigger] s[i].0@)
}

/// The mathematical image of raw entries: (name, is-directory) pairs.
pub open spec fn entry_views(s: Seq<RawEntry>) -> Seq<(Seq<char>, bool)> {
    s.map_values(|e: RawEntry| (e.0@, e.1))
}

/// The (name, is-directory) pairs a snapshot level exposes.
pub open spec fn level_views(s: Seq<FileNode>) -> Seq<(Seq<char>, bool)> {
    s.map_values(|n: FileNode| (n.name@, n.is_directory))
}

/// Relies on `walkdir::WalkDir` (min and max depth 1) and
/// `DirEntry::file_name`: lists the immediate children of `dir` as
/// (file name, is-directory) pairs, in unspecified order; fails when `dir`
/// does not exist or cannot be read, or when an entry's name is not valid
/// UTF-8 — a lossy conversion could merge two distinct names into one.
/// Two promises hold of every listing that comes back: the names are
/// pairwise distinct, because `file_name` is the entry's final path
/// component, unique within its directory and converted exactly; and each
/// name is nonempty and free of the separator. Beyond that the result
/// depends on the disk, so nothing more is promised.
#[verifier::external_body]
fn list_dir(dir: &str) -> (r: Result<Vec<RawEntry>, ()>)
    ensures
        r matches Ok(es) ==> entry_names_distinct(es@) && entry_names_wf(es@),
{
    let mut out: Vec<RawEntry> = Vec::new();
    for entry in walkdir::WalkDir::new(dir).min_depth(1).max_depth(1) {
        let entry = entry.map_err(|_| ())?;
        let name = entry.file_name().to_str().ok_or(())?.to_owned();
        out.push((name, entry.file_type().is_dir()));
    }
    Ok(out)
}

/// The position where `x` belongs in the by-name-sorted `r`: everything
/// before it is at most `x`'s name, everything from it on at least.
fn insertion_point(r: &Vec<RawEntry>, x: &RawEntry) -> (j: usize)
    ensures
        j <= r@.len(),
        j > 0 ==> lex_le(r@[j - 1].0@, x.0@),
        forall|k: int| j <= k < r@.len() ==> lex_le(x.0@, #[trigger] r@[k].0@),
{
    let mut j: usize = r.len();
    while j > 0
        invariant
            j <= r@.len(),
            forall|k: int| j <= k < r@.len() ==> lex_le(x.0@, #[trigger] r@[k].0@),
        decreases j,
    {
        if str_le(&r[j - 1].0, &x.0) {
            return j;
        }
        proof {
            lemma_lex_le_total(r@[j - 1].0@, x.0@);
        }
        j = j - 1;
    }
    j
}

/// Inserting an entry anywhere adds exactly its image to the multiset of
/// images.
proof fn lemma_insert_view_multiset(s: Seq<RawEntry>, j: int, x: RawEntry)
    requires
        0 <= j <= s.len(),
    ensures
        entry_views(s.insert(j, x)).to_multiset() == entry_views(s).to_multiset().insert(
            (x.0@, x.1),
        ),
{
    let vs = entry_views(s);
    let xv = (x.0@, x.1);
    assert(entry_views(s.insert(j, x)) =~= vs.insert(j, xv));
    assert(vs.insert(j, xv) =~= vs.take(j) + seq![xv] + vs.skip(j));
    lemma_multiset_commutative(vs.take(j) + seq![xv], vs.skip(j));
    lemma_multiset_commutative(vs.take(j), seq![xv]);
    assert(seq![xv].to_multiset() =~= Multiset::<(Seq<char>, bool)>::empty().insert(xv)) by {
        assert(seq![xv] =~= Seq::<(Seq<char>, bool)>::empty().push(xv));
    }
    lemma_multiset_commutative(vs.take(j), vs.skip(j));
    assert(vs.take(j) + vs.skip(j) =~= vs);
    assert(entry_views(s.insert(j, x)).to_multiset() =~= vs.to_multiset().insert(xv));
}

/// Sorts raw directory entries by name (insertion sort); the result holds
/// exactly the images of the input, as a multiset.
pub fn sort_entries(v: Vec<RawEntry>) -> (r: Vec<RawEntry>)
    ensures
        entries_sorted(r@),
        entry_views(r@).to_multiset() == entry_views(v@).to_multiset(),
        r@.len() == v@.len(),
{
    let mut r: Vec<RawEntry> = Vec::new();
    let mut i: usize = 0;
    proof {
        assert(entry_views(v@.take(0)) =~= Seq::<(Seq<char>, bool)>::empty());
        assert(entry_views(r@) =~= Seq::<(Seq<char>, bool)>::empty());
    }
    while i < v.len()
        invariant
            i <= v.len(),
            entries_sorted(r@),
            r@.len() == i,
            entry_views(r@).to_multiset() == entry_views(v@.take(i as int)).to_multiset(),
        decreases v.len() - i,
    {
        let x = (v[i].0.clone(), v[i].1);
        let ghost rold = r@;
        let j = insertion_point(&r, &x);
        r.insert(j, x);
        proof {
            let rnew = r@;
            assert(rnew == rold.insert(j as int, x));
            assert forall|a: int| 0 <= a < rnew.len() - 1 implies lex_le(
                #[trigger] rnew[a].0@,
                rnew[a + 1].0@,
            ) by {
                if a < j - 1 {
                    assert(rnew[a] == rold[a] && rnew[a + 1] == rold[a + 1]);
                } else if a == j - 1 {
                    assert(rnew[a] == rold[a] && rnew[a + 1] == x);
                } else if a == j {
                    assert(rnew[a] == x && rnew[a + 1] == rold[a]);
                } else {
                    assert(rnew[a] == rold[a - 1] && rnew[a + 1] == rold[a]);
                }
            }
            lemma_insert_view_multiset(rold, j as int, x);
            assert((x.0@, x.1) == (v@[i as int].0@, v@[i as int].1));
            assert(entry_views(v@.take(i as int + 1)) =~= entry_views(v@.take(i as int)).push(
                (v@[i as int].0@, v@[i as int].1),
            ));
            assert(entry_views(rnew).to_multiset() =~= entry_views(
                v@.take(i as int + 1),
            ).to_multiset());
        }
        i = i + 1;
    }
    proof {
        assert(v@.take(v@.len() as int) =~= v@);
    }
    r
}

/// A sequence with two equal members counts that value at least twice.
proof fn lemma_dup_count(s: Seq<(Seq<char>, bool)>, i: int, j: int)
    requires
        0 <= i < j < s.len(),
        s[i] == s[j],
    ensures
        s.to_multiset().count(s[i]) >= 2,
{
    let t = s.remove(i);
    assert(t.to_multiset() =~= s.to_multiset().remove(s[i]));
    assert(t[j - 1] == s[j]);
    assert(t.contains(s[i]));
    assert(t.to_multiset().count(s[i]) > 0);
}

/// Whatever holds of an entry list's names — pairwise distinct, every name
/// well-formed — holds of any rearrangement of it.
proof fn lemma_perm_preserves_name_facts(a: Seq<RawEntry>, b: Seq<RawEntry>)
    requires
        entry_views(a).to_multiset() == entry_views(b).to_multiset(),
        entry_names_distinct(a),
        entry_names_wf(a),
    ensures
        entry_names_distinct(b),
        entry_names_wf(b),
{
    let va = entry_views(a);
    let vb = entry_views(b);
    assert forall|i: int| 0 <= i < b.len() implies name_wf(#[trigger] b[i].0@) by {
        assert(vb[i] == (b[i].0@, b[i].1));
        assert(vb.contains(vb[i]));
        assert(va.to_multiset().count(vb[i]) > 0);
        assert(va.contains(vb[i]));
        let m = choose|m: int| 0 <= m < va.len() && va[m] == vb[i];
        assert(va[m] == (a[m].0@, a[m].1));
        assert(a[m].0@ == b[i].0@);
    }
    assert forall|i: int, j: int| 0 <= i < j < b.len() implies (#[trigger] b[i].0@) != (
    #[trigger] b[j].0@) by {
        if b[i].0@ == b[j].0@ {
            assert(vb[i] == (b[i].0@, b[i].1));
            assert(vb[j] == (b[j].0@, b[j].1));
            if vb[i] == vb[j] {
                lemma_dup_count(vb, i, j);
                assert(va.to_multiset().count(vb[i]) >= 2);
                let m1 = choose|m: int| 0 <= m < va.len() && va[m] == vb[i];
                let t = va.remove(m1);
                assert(t.to_multiset() =~= va.to_multiset().remove(va[m1]));
                assert(t.to_multiset().count(vb[i]) > 0);
                assert(t.contains(vb[i]));
                let m2 = choose|m: int| 0 <= m < t.len() && t[m] == vb[i];
                let m2o: int = if m2 < m1 {
                    m2
                } else {
                    m2 + 1
                };
                assert(va[m2o] == vb[i]);
                assert(m1 != m2o);
                assert(a[m1].0@ == b[i].0@ && a[m2o].0@ == b[i].0@);
            } else {
                assert(vb.contains(vb[i]));
                assert(va.to_multiset().count(vb[i]) > 0);
                assert(va.contains(vb[i]));
                assert(vb.contains(vb[j]));
                assert(va.to_multiset().count(vb[j]) > 0);
                assert(va.contains(vb[j]));
                let m1 = choose|m: int| 0 <= m < va.len() && va[m] == vb[i];
                let m2 = choose|m: int| 0 <= m < va.len() && va[m] == vb[j];
                assert(m1 != m2);
                assert(a[m1].0@ == b[i].0@ && a[m2].0@ == b[j].0@);
            }
        }
    }
}

/// A listing without directory entries stays without them under any
/// rearrangement.
proof fn lemma_perm_preserves_all_files(a: Seq<RawEntry>, b: Seq<RawEntry>)
    requires
        entry_views(a).to_multiset() == entry_views(b).to_multiset(),
        forall|k: int| 0 <= k < a.len() ==> !(#[trigger] a[k].1),
    ensures
        forall|k: int| 0 <= k < b.len() ==> !(#[trigger] b[k].1),
{
    let va = entry_views(a);
    let vb = entry_views(b);
    assert forall|k: int| 0 <= k < b.len() implies !(#[trigger] b[k].1) by {
        assert(vb[k] == (b[k].0@, b[k].1));
        assert(vb.contains(vb[k]));
        assert(va.to_multiset().count(vb[k]) > 0);
        assert(va.contains(vb[k]));
        let m = choose|m: int| 0 <= m < va.len() && va[m] == vb[k];
        assert(va[m] == (a[m].0@, a[m].1));
        assert(a[m].1 == b[k].1);
    }
}

/// Builds one snapshot level from a directory listing: sorts the entries by
/// name and produces exactly one node per entry — same names, same kinds,
/// nothing added and nothing left out — recursing into each directory entry.
/// `fuel` bounds the recursion depth.
pub fn build_from_listing(
    entries: Vec<RawEntry>,
    dir: &String,
    prefix: &String,
    fuel: usize,
) -> (r: Result<Vec<FileNode>, ScaffoldError>)
    requires
        entry_names_distinct(entries@),
        entry_names_wf(entries@),
    ensures
        r matches Ok(ns) ==> forest_wf(ns@, prefix@) && ns@.len() == entries@.len()
            && level_views(ns@).to_multiset() == entry_views(entries@).to_multiset(),
        r matches Err(e) ==> e == ScaffoldError::TemplateNotFound,
        (forall|k: int| 0 <= k < entries@.len() ==> !(#[trigger] entries@[k].1)) ==> r is Ok,
    decreases fuel, 0int,
{
    let sorted = sort_entries(entries);
    proof {
        lemma_perm_preserves_name_facts(entries@, sorted@);
    }
    let mut nodes: Vec<FileNode> = Vec::new();
    let mut i: usize = 0;
    while i < sorted.len()
        invariant
            i <= sorted.len(),
            entries_sorted(sorted@),
            entry_names_distinct(sorted@),
            entry_names_wf(sorted@),
            nodes@.len() == i,
            entry_views(sorted@).to_multiset() == entry_views(entries@).to_multiset(),
            forall|k: int| 0 <= k < i ==> (#[trigger] nodes@[k].name@) == sorted@[k].0@,
            forall|k: int| 0 <= k < i ==> (#[trigger] nodes@[k].is_directory) == sorted@[k].1,
            forall|k: int| 0 <= k < i ==> #[trigger] node_wf(nodes@[k], prefix@),
        decreases sorted.len() - i,
    {
        let name = sorted[i].0.clone();
        let is_directory = sorted[i].1;
        let mut path = prefix.clone();
        path.append(name.as_str());
        if is_directory {
            proof {
                assert(sorted@[i as int].1);
                if forall|k: int| 0 <= k < entries@.len() ==> !(#[trigger] entries@[k].1) {
                    lemma_perm_preserves_all_files(entries@, sorted@);
                    assert(!sorted@[i as int].1);
                }
            }
            if fuel == 0 {
                return Err(ScaffoldError::TemplateNotFound);
            }
            let mut sub = dir.clone();
            sub.append("/");
            sub.append(name.as_str());
            let mut child_prefix = path.clone();
            child_prefix.append("/");
            let children = match build_level(&sub, &child_prefix, fuel - 1) {
                Ok(cs) => cs,
                Err(e) => {
                    return Err(e);
                },
            };
            proof {
                reveal_strlit("/");
                assert(("/")@ =~= seq!['/']);
                assert(child_prefix@ == path@ + seq!['/']);
                lemma_children_wf_iff(children, 0, child_prefix@);
                assert(children_wf_from(children, 0, child_prefix@));
            }
            let node = FileNode { name, path, is_directory: true, children: Some(children) };
            proof {
                assert(node_wf(node, prefix@));
            }
            nodes.push(node);
        } else {
            let node = FileNode { name, path, is_directory: false, children: None };
            proof {
                assert(node_wf(node, prefix@));
            }
            nodes.push(node);
        }
        i = i + 1;
    }
    proof {
        assert forall|a: int| 0 <= a < nodes@.len() - 1 implies lex_le(
            #[trigger] nodes@[a].name@,
            nodes@[a + 1].name@,
        ) by {
            assert(nodes@[a].name@ == sorted@[a].0@);
            assert(nodes@[a + 1].name@ == sorted@[a + 1].0@);
        }
        assert(level_views(nodes@) =~= entry_views(sorted@));
    }
    Ok(nodes)
}

/// Builds the snapshot of one directory level: obtains the directory's
/// listing and hands it to `build_from_listing`, which is verified to
/// mirror it exactly. What the listing holds depends on the disk, so this
/// contract can state only the shape of the result.
fn build_level(dir: &String, prefix: &String, fuel: usize) -> (r: Result<
    Vec<FileNode>,
    ScaffoldError,
>)
    ensures
        r matches Ok(ns) ==> forest_wf(ns@, prefix@),
        r matches Err(e) ==> e == ScaffoldError::TemplateNotFound,
    decreases fuel, 1int,
{
    let entries = match list_dir(dir.as_str()) {
        Ok(e) => e,
        Err(_) => {
            return Err(ScaffoldError::TemplateNotFound);
        },
    };
    build_from_listing(entries, dir, prefix, fuel)
}

/// The recursion budget for a snapshot: forced by termination checking, and
/// set far beyond any depth a real filesystem can hold, so only a cyclic
/// directory structure can exhaust it.
pub const MAX_TEMPLATE_DEPTH: usize = 65536;

/// Snapshots the directory structure under a template root as a nested
/// tree: at every level, exactly one node per listed entry, sibling entries
/// sorted by name with distinct names, and every node's path derived from
/// its place in the tree (see `build_from_listing` for the per-level
/// contract against the listing). Fails with `TemplateNotFound` when the
/// root cannot be walked.
pub fn generate_file_tree(template_path: &str) -> (r: Result<Vec<FileNode>, ScaffoldError>)
    ensures
        r matches Ok(ns) ==> forest_wf(ns@, Seq::<char>::empty()),
        r matches Err(e) ==> e == ScaffoldError::TemplateNotFound,
{
    let root = String::from_str(template_path);
    let empty_prefix = String::new();
    build_level(&root, &empty_prefix, MAX_TEMPLATE_DEPTH)
}

} // verus!
