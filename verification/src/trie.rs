//! A compressed prefix tree (radix tree) over sequences of characters, with
//! the branch-split walk that aligns a query against the tree and emits a
//! boundary at every branch point.
//!
//! Shared prefixes are compressed into per-node path fragments: the tree is a
//! true radix tree, not one node per character. A tree is built fresh per
//! segmentation query from a small candidate set and discarded afterwards.

use vstd::prelude::*;

use crate::errors::SegmentError;
use crate::offsets::spans_tile;

verus! {

/// One node: a non-empty path fragment, a terminal marker, and the ordered
/// child nodes.
pub struct TrieNode {
    pub path: Vec<char>,
    pub terminal: bool,
    pub children: Vec<TrieNode>,
}

/// A compressed prefix tree. The (conceptual) root has an empty path; its
/// terminal marker is split out so that every stored node has a non-empty
/// path fragment.
pub struct CompressedTrie {
    pub children: Vec<TrieNode>,
    pub empty_terminal: bool,
}

/// Well-formedness of a node: its path fragment is non-empty, its children's
/// path fragments start with pairwise distinct characters, and its children
/// are themselves well formed.
pub open spec fn node_wf(n: TrieNode) -> bool
    decreases n,
{
    &&& n.path@.len() > 0
    &&& distinct_first_chars(n.children@)
    &&& forall|i: int| 0 <= i < n.children@.len() ==> node_wf(#[trigger] n.children@[i])
}

/// The children of one node never share a first character, so at most one
/// child can continue any given query.
pub open spec fn distinct_first_chars(cs: Seq<TrieNode>) -> bool {
    forall|i: int, j: int|
        0 <= i < j < cs.len() ==> (#[trigger] cs[i].path@)[0] != (#[trigger] cs[j].path@)[0]
}

/// Whether the subtree rooted at `n` accepts `s`: `n`'s path fragment is a
/// prefix of `s` and the rest of `s` continues through the children, ending
/// exactly at a node boundary. With `need_terminal` the final node must also
/// carry a terminal marker, so the sequence is a stored entry; without it,
/// `s` merely exists as a path of the tree.
pub open spec fn node_accepts(n: TrieNode, s: Seq<char>, need_terminal: bool) -> bool
    decreases n,
{
    &&& n.path@.is_prefix_of(s)
    &&& if s.len() == n.path@.len() {
        !need_terminal || n.terminal
    } else {
        exists|i: int|
            0 <= i < n.children@.len() && node_accepts(
                #[trigger] n.children@[i],
                s.skip(n.path@.len() as int),
                need_terminal,
            )
    }
}

/// Whether some tree of the forest `cs` accepts `s`.
pub open spec fn forest_accepts(cs: Seq<TrieNode>, s: Seq<char>, need_terminal: bool) -> bool {
    exists|i: int| 0 <= i < cs.len() && node_accepts(#[trigger] cs[i], s, need_terminal)
}

impl CompressedTrie {
    /// All stored nodes are well formed and the top-level trees never share a
    /// first character.
    pub open spec fn wf(self) -> bool {
        &&& distinct_first_chars(self.children@)
        &&& forall|i: int| 0 <= i < self.children@.len() ==> node_wf(#[trigger] self.children@[i])
    }

    /// `s` is a stored entry of the tree.
    pub open spec fn contains(self, s: Seq<char>) -> bool {
        if s.len() == 0 {
            self.empty_terminal
        } else {
            forest_accepts(self.children@, s, true)
        }
    }

    /// `s` exists as a path of the tree, ending at a node boundary (whether
    /// or not that node is terminal).
    pub open spec fn has_path(self, s: Seq<char>) -> bool {
        if s.len() == 0 {
            true
        } else {
            forest_accepts(self.children@, s, false)
        }
    }

    /// An empty tree: no entry is stored in it.
    pub fn new() -> (r: CompressedTrie)
        ensures
            r.wf(),
            forall|s: Seq<char>| !(#[trigger] r.contains(s)),
            forall|s: Seq<char>| #[trigger] r.has_path(s) <==> s.len() == 0,
    {
        CompressedTrie { children: Vec::new(), empty_terminal: false }
    }
}

/// Characters of `v` from position `a` on, as a fresh vector.
fn vec_suffix(v: &Vec<char>, a: usize) -> (r: Vec<char>)
    requires
        a <= v@.len(),
    ensures
        r@ == v@.skip(a as int),
{
    let mut r: Vec<char> = Vec::new();
    let n = v.len();
    let mut i = a;
    while i < n
        invariant
            a <= i <= n,
            n == v@.len(),
            r@ == v@.subrange(a as int, i as int),
        decreases n - i,
    {
        r.push(v[i]);
        proof {
            assert(v@.subrange(a as int, i + 1) =~= v@.subrange(a as int, i as int).push(
                v@[i as int],
            ));
        }
        i += 1;
    }
    proof {
        assert(v@.subrange(a as int, n as int) =~= v@.skip(a as int));
    }
    r
}

/// The first `b` characters of `v`, as a fresh vector.
fn vec_prefix(v: &Vec<char>, b: usize) -> (r: Vec<char>)
    requires
        b <= v@.len(),
    ensures
        r@ == v@.take(b as int),
{
    let mut r: Vec<char> = Vec::new();
    let mut i: usize = 0;
    while i < b
        invariant
            0 <= i <= b <= v@.len(),
            r@ == v@.subrange(0, i as int),
        decreases b - i,
    {
        r.push(v[i]);
        proof {
            assert(v@.subrange(0, i + 1) =~= v@.subrange(0, i as int).push(v@[i as int]));
        }
        i += 1;
    }
    r
}

/// A sequence accepted by a well-formed node starts with the node's first
/// path character (and in particular is non-empty).
proof fn lemma_accepts_first_char(n: TrieNode, s: Seq<char>, nt: bool)
    requires
        node_wf(n),
        node_accepts(n, s, nt),
    ensures
        s.len() > 0,
        s[0] == n.path@[0],
{
}

/// In a forest whose trees never share a first character, at most one tree
/// can accept a sequence, and a tree whose first character matches is the
/// only candidate.
proof fn lemma_accepts_unique(cs: Seq<TrieNode>, s: Seq<char>, nt: bool, idx: int)
    requires
        distinct_first_chars(cs),
        forall|i: int| 0 <= i < cs.len() ==> node_wf(#[trigger] cs[i]),
        forest_accepts(cs, s, nt),
        0 <= idx < cs.len(),
        s.len() > 0,
        cs[idx].path@[0] == s[0],
    ensures
        node_accepts(cs[idx], s, nt),
{
    let i = choose|i: int| 0 <= i < cs.len() && node_accepts(#[trigger] cs[i], s, nt);
    lemma_accepts_first_char(cs[i], s, nt);
    if i != idx {
        assert(cs[i].path@[0] != cs[idx].path@[0]);
    }
}

/// A stored entry in particular exists as a path: acceptance with a terminal
/// requirement implies acceptance without it.
pub proof fn lemma_accepts_weaken(n: TrieNode, s: Seq<char>)
    requires
        node_accepts(n, s, true),
    ensures
        node_accepts(n, s, false),
    decreases n,
{
    if s.len() != n.path@.len() {
        let i = choose|i: int|
            0 <= i < n.children@.len() && node_accepts(
                #[trigger] n.children@[i],
                s.skip(n.path@.len() as int),
                true,
            );
        lemma_accepts_weaken(n.children@[i], s.skip(n.path@.len() as int));
    }
}

/// A branch point: a node with more than one child, or with both a child and
/// a terminal marker — the path to it is itself a complete entry distinct
/// from continuing deeper.
pub open spec fn node_is_branch(n: TrieNode) -> bool {
    n.children@.len() > 1 || (n.children@.len() == 1 && n.terminal)
}

/// The query `s` aligns against the subtree at `n` and passes a branch point
/// exactly `m` characters in: the node boundaries of the tree decompose a
/// prefix of `s` up to `m`, and the node reached there is a branch point.
pub open spec fn node_branch_at(n: TrieNode, s: Seq<char>, m: int) -> bool
    decreases n,
{
    &&& n.path@.is_prefix_of(s)
    &&& if m == n.path@.len() {
        node_is_branch(n)
    } else {
        m > n.path@.len() && exists|i: int|
            0 <= i < n.children@.len() && node_branch_at(
                #[trigger] n.children@[i],
                s.skip(n.path@.len() as int),
                m - n.path@.len(),
            )
    }
}

/// The query `s` passes a branch point of some tree of `cs` at depth `m`.
pub open spec fn forest_branch_at(cs: Seq<TrieNode>, s: Seq<char>, m: int) -> bool {
    exists|i: int| 0 <= i < cs.len() && node_branch_at(#[trigger] cs[i], s, m)
}

/// The interior cuts of the span list `v` fall exactly on the branch points
/// that the query `s` passes in the forest `cs`: every cut is a branch point,
/// and every branch point is cut.
pub open spec fn cuts_are_branch_points(cs: Seq<TrieNode>, s: Seq<char>, v: Seq<
    (usize, usize),
>) -> bool {
    &&& forall|k: int|
        0 <= k < v.len() - 1 ==> forest_branch_at(cs, s, (#[trigger] v[k]).1 as int)
    &&& forall|m: int|
        0 < m <= s.len() && #[trigger] forest_branch_at(cs, s, m) ==> exists|k: int|
            0 <= k < v.len() - 1 && (#[trigger] v[k]).1 == m
}

/// A query passing a branch point of a well-formed node starts with the
/// node's first path character, and the branch depth lies inside the query.
proof fn lemma_branch_bounds(n: TrieNode, s: Seq<char>, m: int)
    requires
        node_wf(n),
        node_branch_at(n, s, m),
    ensures
        s.len() > 0,
        s[0] == n.path@[0],
        0 < m <= s.len(),
    decreases n,
{
    let plen = n.path@.len() as int;
    if m != plen {
        let i = choose|i: int|
            0 <= i < n.children@.len() && node_branch_at(
                #[trigger] n.children@[i],
                s.skip(plen),
                m - plen,
            );
        lemma_branch_bounds(n.children@[i], s.skip(plen), m - plen);
    }
}

/// In a well-formed forest, only the tree sharing the query's first
/// character can carry a branch point for it.
proof fn lemma_branch_unique(cs: Seq<TrieNode>, s: Seq<char>, m: int, idx: int)
    requires
        distinct_first_chars(cs),
        forall|i: int| 0 <= i < cs.len() ==> node_wf(#[trigger] cs[i]),
        forest_branch_at(cs, s, m),
        0 <= idx < cs.len(),
        s.len() > 0,
        cs[idx].path@[0] == s[0],
    ensures
        node_branch_at(cs[idx], s, m),
{
    let i = choose|i: int| 0 <= i < cs.len() && node_branch_at(#[trigger] cs[i], s, m);
    lemma_branch_bounds(cs[i], s, m);
    if i != idx {
        assert(cs[i].path@[0] != cs[idx].path@[0]);
    }
}

/// Some tree of `cs` other than the one at `idx` accepts `s`.
pub open spec fn forest_accepts_except(cs: Seq<TrieNode>, idx: int, s: Seq<char>, nt: bool) -> bool {
    exists|i: int| 0 <= i < cs.len() && i != idx && node_accepts(#[trigger] cs[i], s, nt)
}

/// Acceptance by a forest splits into acceptance by the tree at `idx` and
/// acceptance by the others.
proof fn lemma_forest_accepts_split(cs: Seq<TrieNode>, idx: int, s: Seq<char>, nt: bool)
    requires
        0 <= idx < cs.len(),
    ensures
        forest_accepts(cs, s, nt) <==> (forest_accepts_except(cs, idx, s, nt) || node_accepts(
            cs[idx],
            s,
            nt,
        )),
{
}

/// Replacing the tree at `idx` only exchanges that tree's contribution.
proof fn lemma_forest_accepts_update(cs: Seq<TrieNode>, idx: int, n: TrieNode, s: Seq<char>, nt: bool)
    requires
        0 <= idx < cs.len(),
    ensures
        forest_accepts(cs.update(idx, n), s, nt) <==> (forest_accepts_except(cs, idx, s, nt)
            || node_accepts(n, s, nt)),
        forest_accepts_except(cs.update(idx, n), idx, s, nt) == forest_accepts_except(
            cs,
            idx,
            s,
            nt,
        ),
{
    let cs2 = cs.update(idx, n);
    assert forall|i: int| 0 <= i < cs.len() && i != idx implies cs2[i] == cs[i] by {}
    lemma_forest_accepts_split(cs2, idx, s, nt);
}

/// Appending a tree only adds that tree's contribution.
proof fn lemma_forest_accepts_push(cs: Seq<TrieNode>, n: TrieNode, s: Seq<char>, nt: bool)
    ensures
        forest_accepts(cs.push(n), s, nt) <==> (forest_accepts(cs, s, nt) || node_accepts(
            n,
            s,
            nt,
        )),
{
    let cs2 = cs.push(n);
    if forest_accepts(cs, s, nt) {
        let i = choose|i: int| 0 <= i < cs.len() && node_accepts(#[trigger] cs[i], s, nt);
        assert(cs2[i] == cs[i]);
    }
    if node_accepts(n, s, nt) {
        assert(cs2[cs.len() as int] == n);
    }
    if forest_accepts(cs2, s, nt) {
        let i = choose|i: int| 0 <= i < cs2.len() && node_accepts(#[trigger] cs2[i], s, nt);
        if i < cs.len() {
            assert(cs[i] == cs2[i]);
        }
    }
}

/// In a well-formed forest, a sequence whose first character no tree starts
/// with is accepted by no tree.
proof fn lemma_forest_rejects_char(cs: Seq<TrieNode>, s: Seq<char>, nt: bool)
    requires
        forall|i: int| 0 <= i < cs.len() ==> node_wf(#[trigger] cs[i]),
        forall|i: int| 0 <= i < cs.len() ==> s.len() == 0 || (#[trigger] cs[i].path@)[0] != s[0],
    ensures
        !forest_accepts(cs, s, nt),
{
    assert forall|i: int| 0 <= i < cs.len() implies !node_accepts(#[trigger] cs[i], s, nt) by {
        if node_accepts(cs[i], s, nt) {
            lemma_accepts_first_char(cs[i], s, nt);
        }
    }
}

/// Two sequences sharing a prefix and agreeing after it are equal.
proof fn lemma_eq_by_prefix_skip(a: Seq<char>, t: Seq<char>, u: Seq<char>)
    requires
        a.is_prefix_of(t),
        a.is_prefix_of(u),
        t.skip(a.len() as int) == u.skip(a.len() as int),
    ensures
        t == u,
{
    let al = a.len() as int;
    assert(t.len() == al + t.skip(al).len());
    assert(u.len() == al + u.skip(al).len());
    assert(t =~= u) by {
        assert forall|m: int| 0 <= m < t.len() implies t[m] == u[m] by {
            if m < al {
                assert(t.subrange(0, al)[m] == a[m]);
                assert(u.subrange(0, al)[m] == a[m]);
            } else {
                assert(t.skip(al)[m - al] == u.skip(al)[m - al]);
            }
        }
    }
}

/// Changing only the terminal marker of a node changes only whether the
/// node's own path fragment is a stored entry.
proof fn lemma_node_set_terminal(old_n: TrieNode, new_n: TrieNode, t: Seq<char>)
    requires
        new_n.path@ == old_n.path@,
        new_n.children@ == old_n.children@,
    ensures
        t == old_n.path@ ==> (node_accepts(new_n, t, true) <==> new_n.terminal),
        t != old_n.path@ ==> (node_accepts(new_n, t, true) <==> node_accepts(old_n, t, true)),
        node_accepts(new_n, t, false) <==> node_accepts(old_n, t, false),
{
    if t == old_n.path@ {
        assert(old_n.path@.is_prefix_of(t));
    }
    if t.len() == old_n.path@.len() && old_n.path@.is_prefix_of(t) {
        assert(t =~= old_n.path@);
    }
}

/// Acceptance through a node whose path fragment splits as `head + tail` is
/// acceptance of the remainder through a node holding only `tail`.
proof fn lemma_node_accepts_split(child: TrieNode, tail_child: TrieNode, p: int, t: Seq<char>, nt: bool)
    requires
        0 < p < child.path@.len(),
        tail_child.path@ == child.path@.skip(p),
        tail_child.terminal == child.terminal,
        tail_child.children@ == child.children@,
    ensures
        node_accepts(child, t, nt) <==> (child.path@.take(p).is_prefix_of(t) && t.len() > p
            && node_accepts(tail_child, t.skip(p), nt)),
{
    let path = child.path@;
    let plen = path.len() as int;
    if node_accepts(child, t, nt) {
        assert(path =~= t.take(plen));
        assert(path.take(p) =~= t.take(p));
        assert(tail_child.path@ =~= t.skip(p).take(plen - p));
        assert(t.skip(p).skip(plen - p) =~= t.skip(plen));
        assert(node_accepts(tail_child, t.skip(p), nt));
    }
    if path.take(p).is_prefix_of(t) && t.len() > p && node_accepts(tail_child, t.skip(p), nt) {
        assert(tail_child.path@ =~= t.skip(p).take(plen - p));
        assert(path =~= t.take(plen)) by {
            assert forall|m: int| 0 <= m < plen implies path[m] == t[m] by {
                if m < p {
                    assert(path.take(p)[m] == t.subrange(0, p)[m]);
                } else {
                    assert(tail_child.path@[m - p] == t.skip(p).take(plen - p)[m - p]);
                }
            }
        }
        assert(t.skip(p).skip(plen - p) =~= t.skip(plen));
        assert(node_accepts(child, t, nt));
    }
}

/// What a trie contains, it has as a path.
pub proof fn lemma_contains_has_path(t: CompressedTrie, s: Seq<char>)
    requires
        t.contains(s),
    ensures
        t.has_path(s),
{
    if s.len() > 0 {
        let i = choose|i: int|
            0 <= i < t.children@.len() && node_accepts(#[trigger] t.children@[i], s, true);
        lemma_accepts_weaken(t.children@[i], s);
    }
}

/// Insertion into a forest of well-formed trees: the suffix of `s` from
/// position `from` becomes a stored entry (or stops being one, when `marker`
/// is false), and nothing else changes. Shared prefixes are compressed: an
/// existing node is split where the new entry diverges inside its path
/// fragment.
#[verifier::loop_isolation(false)]
fn insert_into_forest(cs: Vec<TrieNode>, s: &Vec<char>, from: usize, marker: bool) -> (r: Vec<
    TrieNode,
>)
    requires
        distinct_first_chars(cs@),
        forall|i: int| 0 <= i < cs@.len() ==> node_wf(#[trigger] cs@[i]),
        from < s@.len(),
    ensures
        distinct_first_chars(r@),
        forall|i: int| 0 <= i < r@.len() ==> node_wf(#[trigger] r@[i]),
        forest_accepts(r@, s@.skip(from as int), true) == marker,
        forest_accepts(r@, s@.skip(from as int), false),
        forall|t: Seq<char>|
            #![trigger forest_accepts(r@, t, true)]
            #![trigger forest_accepts(cs@, t, true)]
            t != s@.skip(from as int) ==> (forest_accepts(r@, t, true) <==> forest_accepts(
                cs@,
                t,
                true,
            )),
        forall|t: Seq<char>|
            #![trigger forest_accepts(r@, t, false)]
            #![trigger forest_accepts(cs@, t, false)]
            forest_accepts(cs@, t, false) ==> forest_accepts(r@, t, false),
        forall|i: int|
            0 <= i < r@.len() ==> (#[trigger] r@[i].path@)[0] == s@[from as int] || exists|j: int|
                0 <= j < cs@.len() && r@[i].path@[0] == (#[trigger] cs@[j].path@)[0],
    decreases s@.len() - from,
{
    let ghost cs0 = cs@;
    let ghost sfx = s@.skip(from as int);
    let mut cs = cs;
    let c0 = s[from];
    proof {
        assert(sfx[0] == s@[from as int]);
        assert(sfx.len() > 0);
    }

    // Find the unique tree whose path fragment starts with the same
    // character as the suffix, if there is one.
    let n = cs.len();
    let mut idx = n;
    let mut i: usize = 0;
    while i < n
        invariant
            0 <= i <= n,
            idx == n || (idx < i && cs@[idx as int].path@[0] == c0),
            idx == n ==> forall|m: int| 0 <= m < i ==> (#[trigger] cs@[m].path@)[0] != c0,
        decreases n - i,
    {
        if idx == n {
            proof {
                assert(node_wf(cs@[i as int]));
            }
            let ci = &cs[i];
            if ci.path[0] == c0 {
                idx = i;
            }
        }
        i += 1;
    }

    if idx == n {
        // No tree continues the suffix: add a leaf holding all of it.
        let leaf = TrieNode { path: vec_suffix(s, from), terminal: marker, children: Vec::new() };
        proof {
            assert(leaf.path@ == sfx);
            assert(node_wf(leaf));
            assert forall|t: Seq<char>, nt: bool| #[trigger]
                node_accepts(leaf, t, nt) implies t == sfx by {
                if t.len() == sfx.len() {
                    assert(t =~= sfx);
                }
            }
            assert(node_accepts(leaf, sfx, false) && (marker ==> node_accepts(leaf, sfx, true)))
                by {
                assert(sfx.is_prefix_of(sfx)) by {
                    assert(sfx =~= sfx.take(sfx.len() as int));
                }
            }
            lemma_forest_rejects_char(cs0, sfx, true);
            lemma_forest_rejects_char(cs0, sfx, false);
        }
        cs.push(leaf);
        proof {
            assert forall|t: Seq<char>, nt: bool| true implies (forest_accepts(cs@, t, nt) <==> (
            forest_accepts(cs0, t, nt) || node_accepts(leaf, t, nt))) by {
                lemma_forest_accepts_push(cs0, leaf, t, nt);
            }
        }
        return cs;
    }

    // One tree shares the suffix's first character; find how much of its
    // path fragment the suffix shares.
    let ghost child0 = cs@[idx as int];
    let mut child = cs.remove(idx);
    proof {
        assert(cs@ == cs0.remove(idx as int));
    }
    let plen = child.path.len();
    let slen = s.len();
    let mut p: usize = 0;
    while p < plen && from + p < slen && child.path[p] == s[from + p]
        invariant
            0 <= p <= plen,
            from + p <= slen,
            forall|m: int| 0 <= m < p ==> child.path@[m] == s@[from + m],
        decreases plen - p,
    {
        p += 1;
    }
    proof {
        assert(node_wf(child0));
        if p == 0 {
            assert(child.path@[0] == s@[from as int]);
            assert(false);
        }
    }

    let new_node: TrieNode;
    if p == plen {
        if from + p == slen {
            // The suffix ends exactly at this node: set its marker.
            proof {
                assert(child0.path@ =~= sfx);
            }
            child.terminal = marker;
            new_node = child;
            proof {
                assert forall|t: Seq<char>| true implies {
                    &&& (t == sfx ==> (node_accepts(new_node, t, true) <==> marker))
                    &&& (t != sfx ==> (node_accepts(new_node, t, true) <==> node_accepts(
                        child0,
                        t,
                        true,
                    )))
                    &&& (node_accepts(new_node, t, false) <==> node_accepts(child0, t, false))
                } by {
                    lemma_node_set_terminal(child0, new_node, t);
                }
                assert(node_accepts(new_node, sfx, false)) by {
                    lemma_node_set_terminal(child0, new_node, sfx);
                    assert(sfx.is_prefix_of(sfx)) by {
                        assert(sfx =~= sfx.take(sfx.len() as int));
                    }
                    assert(node_accepts(new_node, sfx, false));
                }
            }
        } else {
            // The suffix continues below this node: recurse.
            proof {
                assert(child0.path@.is_prefix_of(sfx)) by {
                    assert(child0.path@ =~= sfx.take(plen as int));
                }
                assert(s@.skip((from + p) as int) =~= sfx.skip(plen as int));
            }
            let TrieNode { path, terminal, children } = child;
            let new_children = insert_into_forest(children, s, from + p, marker);
            new_node = TrieNode { path, terminal, children: new_children };
            proof {
                let ghost sfx2 = s@.skip((from + p) as int);
                assert(node_wf(new_node));
                assert(node_accepts(new_node, sfx, false));
                assert(node_accepts(new_node, sfx, true) == marker);
                assert forall|t: Seq<char>| t != sfx implies (node_accepts(new_node, t, true)
                    <==> node_accepts(child0, t, true)) by {
                    if t.len() > plen && child0.path@.is_prefix_of(t) {
                        assert(t.skip(plen as int) != sfx2) by {
                            if t.skip(plen as int) == sfx2 {
                                lemma_eq_by_prefix_skip(child0.path@, t, sfx);
                            }
                        }
                        assert(node_accepts(new_node, t, true) <==> forest_accepts(
                            new_node.children@,
                            t.skip(plen as int),
                            true,
                        ));
                        assert(node_accepts(child0, t, true) <==> forest_accepts(
                            child0.children@,
                            t.skip(plen as int),
                            true,
                        ));
                        assert(forest_accepts(new_node.children@, t.skip(plen as int), true)
                            <==> forest_accepts(child0.children@, t.skip(plen as int), true));
                    }
                }
                assert forall|t: Seq<char>| node_accepts(child0, t, false) implies node_accepts(
                    new_node,
                    t,
                    false,
                ) by {
                    if t.len() != plen {
                        assert(forest_accepts(child0.children@, t.skip(plen as int), false));
                        assert(forest_accepts(new_node.children@, t.skip(plen as int), false));
                    }
                }
            }
        }
    } else {
        // The suffix diverges inside this node's path fragment: split the
        // fragment at the shared prefix.
        let head = vec_prefix(&child.path, p);
        let tail = vec_suffix(&child.path, p);
        let TrieNode { path, terminal, children } = child;
        let tail_child = TrieNode { path: tail, terminal, children };
        proof {
            assert(tail_child.path@ == child0.path@.skip(p as int));
            assert(node_wf(tail_child));
            assert(head@ == child0.path@.take(p as int));
            assert(head@.is_prefix_of(sfx)) by {
                assert(head@ =~= sfx.take(p as int));
            }
        }
        if from + p == slen {
            // The suffix ends at the split point: the shared prefix itself
            // becomes the (possibly terminal) node.
            let mut mid_children: Vec<TrieNode> = Vec::new();
            mid_children.push(tail_child);
            new_node = TrieNode { path: head, terminal: marker, children: mid_children };
            proof {
                assert(new_node.path@ =~= sfx);
                assert(node_wf(new_node));
                assert(node_accepts(new_node, sfx, false) && (node_accepts(new_node, sfx, true)
                    <==> marker)) by {
                    assert(sfx.is_prefix_of(sfx)) by {
                        assert(sfx =~= sfx.take(sfx.len() as int));
                    }
                }
                assert(!node_accepts(child0, sfx, true));
                assert forall|t: Seq<char>| t != sfx implies (node_accepts(new_node, t, true)
                    <==> node_accepts(child0, t, true)) by {
                    lemma_node_accepts_split(child0, tail_child, p as int, t, true);
                    if t.len() > p && new_node.path@.is_prefix_of(t) {
                        lemma_forest_accepts_split(new_node.children@, 0, t.skip(p as int), true);
                    }
                    if t.len() == p && new_node.path@.is_prefix_of(t) {
                        assert(t =~= new_node.path@);
                        assert(t == sfx);
                    }
                }
                assert forall|t: Seq<char>| node_accepts(child0, t, false) implies node_accepts(
                    new_node,
                    t,
                    false,
                ) by {
                    lemma_node_accepts_split(child0, tail_child, p as int, t, false);
                    lemma_forest_accepts_split(new_node.children@, 0, t.skip(p as int), false);
                }
            }
        } else {
            // The suffix diverges strictly inside the fragment: the shared
            // prefix gets two children, the old remainder and the new one.
            let leaf = TrieNode {
                path: vec_suffix(s, from + p),
                terminal: marker,
                children: Vec::new(),
            };
            let mut mid_children: Vec<TrieNode> = Vec::new();
            mid_children.push(tail_child);
            mid_children.push(leaf);
            new_node = TrieNode { path: head, terminal: false, children: mid_children };
            proof {
                let ghost sfx2 = s@.skip((from + p) as int);
                assert(leaf.path@ == sfx2) by {
                    assert(s@.skip((from + p) as int) =~= sfx.skip(p as int));
                }
                assert(tail_child.path@[0] != leaf.path@[0]) by {
                    assert(child0.path@[p as int] != s@[from + p]);
                }
                assert(node_wf(leaf));
                assert(new_node.children@.len() == 2 && new_node.children@[0] == tail_child
                    && new_node.children@[1] == leaf);
                assert(distinct_first_chars(new_node.children@));
                assert(node_wf(new_node));
                assert forall|t: Seq<char>, nt: bool| #[trigger]
                    node_accepts(leaf, t, nt) implies t == sfx2 by {
                    if t.len() == sfx2.len() {
                        assert(t =~= sfx2);
                    }
                }
                assert(node_accepts(leaf, sfx2, false) && (marker ==> node_accepts(
                    leaf,
                    sfx2,
                    true,
                ))) by {
                    assert(sfx2.is_prefix_of(sfx2)) by {
                        assert(sfx2 =~= sfx2.take(sfx2.len() as int));
                    }
                }
                assert(sfx =~= head@ + sfx2) by {
                    assert(sfx.take(p as int) =~= head@);
                }
                assert(sfx.skip(p as int) =~= sfx2);
                assert(node_accepts(new_node, sfx, false) && (node_accepts(new_node, sfx, true)
                    <==> marker)) by {
                    assert(head@.is_prefix_of(sfx));
                    assert(sfx.len() > p);
                    lemma_forest_accepts_split(new_node.children@, 1, sfx2, false);
                    lemma_forest_accepts_split(new_node.children@, 1, sfx2, true);
                    if !marker {
                        assert(!node_accepts(tail_child, sfx2, true)) by {
                            if node_accepts(tail_child, sfx2, true) {
                                lemma_accepts_first_char(tail_child, sfx2, true);
                            }
                        }
                        assert forall|i: int|
                            0 <= i < new_node.children@.len() implies !node_accepts(
                            #[trigger] new_node.children@[i],
                            sfx,
                            true,
                        ) || true by {}
                    }
                }
                assert(!node_accepts(child0, sfx, true)) by {
                    if node_accepts(child0, sfx, true) {
                        assert(child0.path@ =~= sfx.take(plen as int));
                        assert(child0.path@[p as int] == sfx[p as int]);
                    }
                }
                assert forall|t: Seq<char>| t != sfx implies (node_accepts(new_node, t, true)
                    <==> node_accepts(child0, t, true)) by {
                    lemma_node_accepts_split(child0, tail_child, p as int, t, true);
                    if t.len() > p && new_node.path@.is_prefix_of(t) {
                        lemma_forest_accepts_split(new_node.children@, 0, t.skip(p as int), true);
                        lemma_forest_accepts_split(new_node.children@, 1, t.skip(p as int), true);
                        if node_accepts(leaf, t.skip(p as int), true) {
                            assert(t =~= head@ + t.skip(p as int));
                            assert(t == sfx);
                        }
                    }
                }
                assert forall|t: Seq<char>| node_accepts(child0, t, false) implies node_accepts(
                    new_node,
                    t,
                    false,
                ) by {
                    lemma_node_accepts_split(child0, tail_child, p as int, t, false);
                    lemma_forest_accepts_split(new_node.children@, 0, t.skip(p as int), false);
                }
            }
        }
    }

    proof {
        assert(new_node.path@[0] == c0);
        assert(node_accepts(new_node, sfx, true) == marker);
        assert(node_accepts(new_node, sfx, false));
        assert forall|t: Seq<char>| t != sfx implies (node_accepts(new_node, t, true)
            <==> node_accepts(child0, t, true)) by {}
    }
    cs.insert(idx, new_node);
    proof {
        assert(cs@ =~= cs0.update(idx as int, new_node));
        assert(distinct_first_chars(cs@)) by {
            assert forall|i: int, j: int| 0 <= i < j < cs@.len() implies (#[trigger] cs@[i].path@)[0]
                != (#[trigger] cs@[j].path@)[0] by {
                assert(cs0[i].path@[0] != cs0[j].path@[0]);
            }
        }
        assert forall|t: Seq<char>, nt: bool| true implies {
            &&& (forest_accepts(cs@, t, nt) <==> (forest_accepts_except(cs0, idx as int, t, nt)
                || node_accepts(new_node, t, nt)))
            &&& (forest_accepts(cs0, t, nt) <==> (forest_accepts_except(cs0, idx as int, t, nt)
                || node_accepts(child0, t, nt)))
        } by {
            lemma_forest_accepts_update(cs0, idx as int, new_node, t, nt);
            lemma_forest_accepts_split(cs0, idx as int, t, nt);
        }
        assert(!forest_accepts_except(cs0, idx as int, sfx, true)) by {
            if forest_accepts_except(cs0, idx as int, sfx, true) {
                let i = choose|i: int|
                    0 <= i < cs0.len() && i != idx && node_accepts(#[trigger] cs0[i], sfx, true);
                lemma_accepts_first_char(cs0[i], sfx, true);
                assert(cs0[i].path@[0] != cs0[idx as int].path@[0]);
            }
        }
    }
    cs
}

impl CompressedTrie {
    /// Insert `seq` with the given terminal marker: afterwards `seq` is a
    /// stored entry exactly when `marker` is set, every other sequence's
    /// membership is unchanged, and every existing path still exists.
    pub fn insert(&mut self, seq: &Vec<char>, marker: bool)
        requires
            old(self).wf(),
        ensures
            final(self).wf(),
            final(self).contains(seq@) == marker,
            final(self).has_path(seq@),
            forall|t: Seq<char>|
                #![trigger final(self).contains(t)]
                #![trigger old(self).contains(t)]
                t != seq@ ==> (final(self).contains(t) <==> old(self).contains(t)),
            forall|t: Seq<char>|
                #![trigger final(self).has_path(t)]
                #![trigger old(self).has_path(t)]
                old(self).has_path(t) ==> final(self).has_path(t),
    {
        if seq.len() == 0 {
            self.empty_terminal = marker;
            proof {
                assert forall|t: Seq<char>|
                    #![trigger self.contains(t)]
                    #![trigger old(self).contains(t)]
                    t != seq@ implies (self.contains(t) <==> old(self).contains(t)) by {
                    if t.len() == 0 {
                        assert(t =~= seq@);
                    }
                }
            }
        } else {
            let mut kids: Vec<TrieNode> = Vec::new();
            core::mem::swap(&mut kids, &mut self.children);
            let kids = insert_into_forest(kids, seq, 0, marker);
            proof {
                assert(seq@.skip(0) =~= seq@);
            }
            self.children = kids;
            proof {
                assert forall|t: Seq<char>|
                    #![trigger self.contains(t)]
                    #![trigger old(self).contains(t)]
                    t != seq@ implies (self.contains(t) <==> old(self).contains(t)) by {
                    if t.len() > 0 {
                        assert(forest_accepts(self.children@, t, true) <==> forest_accepts(
                            old(self).children@,
                            t,
                            true,
                        ));
                    }
                }
                assert forall|t: Seq<char>| old(self).has_path(t) implies self.has_path(t) by {
                    if t.len() > 0 {
                        assert(forest_accepts(old(self).children@, t, false));
                        assert(forest_accepts(self.children@, t, false));
                    }
                }
            }
        }
    }
}

/// Whether `path` equals the characters of `query` starting at `at`.
fn path_matches(path: &Vec<char>, query: &Vec<char>, at: usize) -> (r: bool)
    requires
        at + path@.len() <= query@.len(),
    ensures
        r == path@.is_prefix_of(query@.skip(at as int)),
{
    let qn = query.len();
    let k = path.len();
    let mut m: usize = 0;
    while m < k
        invariant
            0 <= m <= k,
            k == path@.len(),
            at + k <= qn == query@.len(),
            forall|mm: int| 0 <= mm < m ==> path@[mm] == query@[at + mm],
        decreases k - m,
    {
        if path[m] != query[at + m] {
            proof {
                assert(query@.skip(at as int)[m as int] == query@[at + m]);
                assert(!path@.is_prefix_of(query@.skip(at as int))) by {
                    if path@.is_prefix_of(query@.skip(at as int)) {
                        let mi = m as int;
                        assert(query@.skip(at as int).subrange(0, k as int)[mi] == path@[mi]);
                    }
                }
            }
            return false;
        }
        m += 1;
    }
    proof {
        assert(path@ =~= query@.skip(at as int).subrange(0, k as int));
    }
    true
}

/// Align `query` against the tree from the root and emit a boundary at every
/// branch point passed, then the final trailing boundary. The query must
/// exist as a path of the tree (it is one after it has been inserted); a
/// query that does not is reported as [`SegmentError::NoPathFound`], never
/// silently mis-segmented. The boundaries tile the query's character range,
/// and the interior cuts fall exactly on the branch points.
#[verifier::loop_isolation(false)]
#[verifier::rlimit(100)]
#[verifier::spinoff_prover]
pub fn branch_split_walk(trie: &CompressedTrie, query: &Vec<char>) -> (r: Result<
    Vec<(usize, usize)>,
    SegmentError,
>)
    requires
        trie.wf(),
    ensures
        (r is Ok) == (query@.len() == 0 || trie.has_path(query@)),
        r matches Ok(v) ==> spans_tile(v@, query@.len()),
        r matches Ok(v) ==> forall|k: int| 0 <= k < v@.len() - 1 ==> (#[trigger] v@[k]).0
            < v@[k].1,
        r matches Ok(v) ==> cuts_are_branch_points(trie.children@, query@, v@),
{
    let ghost s = query@;
    let ghost root = trie.children@;
    let n = query.len();
    let mut offsets: Vec<(usize, usize)> = Vec::new();
    let mut i: usize = 0;
    let mut j: usize = 0;
    let mut cur: &Vec<TrieNode> = &trie.children;
    proof {
        assert(s.skip(0) =~= s);
    }
    loop
        invariant
            i + j <= n,
            distinct_first_chars(cur@),
            forall|q: int| 0 <= q < cur@.len() ==> node_wf(#[trigger] cur@[q]),
            offsets@.len() > 0 ==> offsets@[0].0 == 0,
            offsets@.len() == 0 ==> i == 0,
            offsets@.len() > 0 ==> offsets@[offsets@.len() - 1].1 == i,
            forall|k: int| 0 < k < offsets@.len() ==> (#[trigger] offsets@[k]).0 == offsets@[k
                - 1].1,
            forall|k: int| 0 <= k < offsets@.len() ==> (#[trigger] offsets@[k]).0 < offsets@[k].1,
            forall|k: int| 0 <= k < offsets@.len() ==> (#[trigger] offsets@[k]).1 <= i,
            i + j < n ==> (trie.has_path(s) <==> forest_accepts(
                cur@,
                s.skip((i + j) as int),
                false,
            )),
            i + j == n ==> (n == 0 || trie.has_path(s)),
            forall|m: int|
                i + j < m ==> (#[trigger] forest_branch_at(root, s, m) <==> forest_branch_at(
                    cur@,
                    s.skip((i + j) as int),
                    m - (i + j),
                )),
            forall|m: int|
                0 < m <= i + j ==> (#[trigger] forest_branch_at(root, s, m) <==> exists|k: int|
                    0 <= k < offsets@.len() && (#[trigger] offsets@[k]).1 == m),
        decreases n - i - j,
    {
        if i + j == n {
            let ghost offs0 = offsets@;
            offsets.push((i, i + j));
            proof {
                assert(offsets@.last().0 == i && offsets@.last().1 == i + j);
                assert(forall|kk: int| 0 <= kk < offs0.len() ==> offsets@[kk] == offs0[kk]);
                assert(spans_tile(offsets@, n as nat));
                assert(cuts_are_branch_points(trie.children@, query@, offsets@)) by {
                    assert forall|m: int|
                        0 < m <= query@.len() && #[trigger] forest_branch_at(
                            trie.children@,
                            query@,
                            m,
                        ) implies exists|kk: int|
                        0 <= kk < offsets@.len() - 1 && (#[trigger] offsets@[kk]).1 == m by {
                        assert(forest_branch_at(root, s, m));
                        let kk = choose|kk: int|
                            0 <= kk < offs0.len() && (#[trigger] offs0[kk]).1 == m;
                        assert(0 <= kk < offsets@.len() - 1 && offsets@[kk].1 == m);
                    }
                    assert forall|kk: int| 0 <= kk < offsets@.len() - 1 implies forest_branch_at(
                        trie.children@,
                        query@,
                        (#[trigger] offsets@[kk]).1 as int,
                    ) by {
                        let m = offs0[kk].1 as int;
                        assert(0 < m <= i + j);
                        assert(exists|k2: int|
                            0 <= k2 < offs0.len() && (#[trigger] offs0[k2]).1 == m);
                        assert(forest_branch_at(root, s, m));
                    }
                }
            }
            return Ok(offsets);
        }
        let ghost pos = (i + j) as int;
        let ghost u = s.skip(pos);
        proof {
            assert(u.len() > 0);
            assert(u[0] == s[pos]);
        }

        // At most one tree can continue the query here: the one whose path
        // fragment starts with the next character.
        let m_children = cur.len();
        let mut idx = m_children;
        let mut q: usize = 0;
        while q < m_children
            invariant
                0 <= q <= m_children,
                m_children == cur@.len(),
                idx == m_children || (idx < q && cur@[idx as int].path@[0] == s[pos]),
                idx == m_children ==> forall|mm: int|
                    0 <= mm < q ==> (#[trigger] cur@[mm].path@)[0] != s[pos],
            decreases m_children - q,
        {
            if idx == m_children {
                proof {
                    assert(node_wf(cur@[q as int]));
                }
                let cq = &cur[q];
                if cq.path[0] == query[i + j] {
                    idx = q;
                }
            }
            q += 1;
        }
        if idx == m_children {
            proof {
                lemma_forest_rejects_char(cur@, u, false);
                assert(!trie.has_path(s));
            }
            return Err(SegmentError::NoPathFound);
        }
        let child = &cur[idx];
        let k = child.path.len();
        proof {
            assert(node_wf(cur@[idx as int]));
        }
        if k > n - (i + j) || !path_matches(&child.path, query, i + j) {
            // The tree's next fragment does not lie along the query: the
            // query is not a path of the tree.
            proof {
                assert(!node_accepts(cur@[idx as int], u, false)) by {
                    if node_accepts(cur@[idx as int], u, false) {
                        assert(child.path@.is_prefix_of(u));
                        assert(child.path@ =~= u.subrange(0, k as int));
                        assert(u =~= s.skip(pos));
                        assert(child.path@.is_prefix_of(s.skip(pos))) by {
                            assert(u.subrange(0, k as int) =~= s.skip(pos).subrange(0, k as int));
                        }
                    }
                }
                assert(!forest_accepts(cur@, u, false)) by {
                    if forest_accepts(cur@, u, false) {
                        lemma_accepts_unique(cur@, u, false, idx as int);
                    }
                }
                assert(!trie.has_path(s));
            }
            return Err(SegmentError::NoPathFound);
        }
        proof {
            assert(child.path@.is_prefix_of(u)) by {
                assert(u.subrange(0, k as int) =~= s.skip(pos).subrange(0, k as int));
            }
            assert(u.skip(k as int) =~= s.skip(pos + k));
            // The matched tree is the only one that can accept or branch.
            assert forall|nt: bool| forest_accepts(cur@, u, nt) implies node_accepts(
                cur@[idx as int],
                u,
                nt,
            ) by {
                lemma_accepts_unique(cur@, u, nt, idx as int);
            }
            assert forall|m: int| #[trigger]
                forest_branch_at(cur@, u, m) implies node_branch_at(cur@[idx as int], u, m) by {
                lemma_branch_unique(cur@, u, m, idx as int);
            }
            if pos + k < n {
                assert(forest_accepts(cur@, u, false) <==> forest_accepts(
                    child.children@,
                    u.skip(k as int),
                    false,
                ));
            } else {
                assert(u.len() == k);
                assert(node_accepts(cur@[idx as int], u, false));
                assert(forest_accepts(cur@, u, false));
                assert(trie.has_path(s));
            }
            // Branch points beyond this node's fragment continue below it;
            // inside the fragment there are none; at its end there is one
            // exactly when the node is a branch point.
            assert forall|m: int| pos < m implies (#[trigger] forest_branch_at(root, s, m) <==> (
            if m == pos + k {
                node_is_branch(cur@[idx as int])
            } else if m < pos + k {
                false
            } else {
                forest_branch_at(child.children@, s.skip(pos + k), m - pos - k)
            })) by {
                assert(forest_branch_at(root, s, m) <==> forest_branch_at(cur@, u, m - pos));
                if m < pos + k {
                    if forest_branch_at(cur@, u, m - pos) {
                        assert(node_branch_at(cur@[idx as int], u, m - pos));
                    }
                } else if m == pos + k {
                    assert(node_branch_at(cur@[idx as int], u, k as int) == node_is_branch(
                        cur@[idx as int],
                    ));
                    if node_is_branch(cur@[idx as int]) {
                        assert(forest_branch_at(cur@, u, k as int));
                    }
                } else {
                    assert(node_branch_at(cur@[idx as int], u, m - pos) <==> forest_branch_at(
                        child.children@,
                        u.skip(k as int),
                        m - pos - k,
                    ));
                    if forest_branch_at(child.children@, u.skip(k as int), m - pos - k) {
                        assert(node_branch_at(cur@[idx as int], u, m - pos));
                        assert(forest_branch_at(cur@, u, m - pos));
                    }
                }
            }
        }
        let ghost childg = cur@[idx as int];
        let ghost offs0 = offsets@;
        let ghost i0 = i as int;
        j += k;
        let is_br = child.children.len() > 1 || (child.children.len() == 1 && child.terminal);
        proof {
            assert(is_br == node_is_branch(childg));
        }
        if is_br {
            offsets.push((i, i + j));
            i += j;
            j = 0;
        }
        cur = &child.children;
        proof {
            let pos2 = pos + k;
            assert(i + j == pos2);
            assert(cur@ == childg.children@);
            assert(node_wf(childg));
            if pos2 < n {
                assert(trie.has_path(s) <==> forest_accepts(cur@, s.skip(pos2), false));
            } else {
                assert(trie.has_path(s));
            }
            assert forall|m: int| i + j < m implies (#[trigger] forest_branch_at(root, s, m)
                <==> forest_branch_at(cur@, s.skip(pos2), m - pos2)) by {}
            if is_br {
                assert(offsets@ == offs0.push((i0 as usize, pos2 as usize)));
                assert(forall|kk: int| 0 <= kk < offs0.len() ==> offsets@[kk] == offs0[kk]);
                assert(offsets@.last().1 == i);
            }
            assert forall|m: int| 0 < m <= i + j implies (#[trigger] forest_branch_at(root, s, m)
                <==> exists|kk: int|
                0 <= kk < offsets@.len() && (#[trigger] offsets@[kk]).1 == m) by {
                if m <= pos {
                    if forest_branch_at(root, s, m) {
                        let kk = choose|kk: int|
                            0 <= kk < offs0.len() && (#[trigger] offs0[kk]).1 == m;
                        assert(offsets@[kk].1 == m);
                    }
                    if exists|kk: int| 0 <= kk < offsets@.len() && (#[trigger] offsets@[kk]).1
                        == m {
                        let kk = choose|kk: int|
                            0 <= kk < offsets@.len() && (#[trigger] offsets@[kk]).1 == m;
                        assert(kk < offs0.len()) by {
                            if kk >= offs0.len() {
                                assert(offsets@[kk].1 == pos2);
                            }
                        }
                        assert(exists|k2: int|
                            0 <= k2 < offs0.len() && (#[trigger] offs0[k2]).1 == m);
                    }
                } else {
                    if m < pos2 {
                        assert(!forest_branch_at(root, s, m));
                        assert forall|kk: int|
                            0 <= kk < offsets@.len() implies (#[trigger] offsets@[kk]).1
                            != m by {
                            if kk < offs0.len() {
                                assert(offs0[kk].1 <= i0 <= pos);
                            } else {
                                assert(offsets@[kk].1 == pos2);
                            }
                        }
                    } else {
                        assert(forest_branch_at(root, s, pos2) == node_is_branch(childg));
                        if is_br {
                            assert(offsets@[offsets@.len() - 1].1 == m);
                        } else {
                            assert forall|kk: int|
                                0 <= kk < offsets@.len() implies (#[trigger] offsets@[kk]).1
                                != m by {
                                assert(offs0[kk].1 <= i0 <= pos);
                            }
                        }
                    }
                }
            }
        }
    }
}

} // verus!
