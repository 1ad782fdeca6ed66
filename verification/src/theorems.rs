//! What holds of every well-formed forest and of every outcome of the
//! operations, stated over the model.

use vstd::prelude::*;
use crate::model::{
    NodeView, attachable, attached, attached_positions, detached, excised, in_subtree, isolated,
    node_ok, root_of, well_formed, without,
};
use crate::lemmas::{
    lemma_attached_positions, lemma_attached_subtree, lemma_attached_well_formed,
    lemma_detached_subtree,
    lemma_detached_well_formed, lemma_excised_well_formed, lemma_parent_step, lemma_root_of,
    lemma_subtree_root,
};

verus! {

/// A node without parent has depth 0, and any other node lies one level below
/// its parent.
pub proof fn theorem_depth<T>(s: Seq<NodeView<T>>, n: int)
    requires
        well_formed(s),
        0 <= n < s.len(),
    ensures
        match s[n].parent {
            Some(p) => p < s.len() && s[n].depth == s[p as int].depth + 1,
            None => s[n].depth == 0,
        },
{
    assert(node_ok(s, n));
}

/// A node lists another as a child exactly when that one names it as parent.
pub proof fn theorem_links<T>(s: Seq<NodeView<T>>, p: usize, c: usize)
    requires
        well_formed(s),
        p < s.len(),
        c < s.len(),
    ensures
        s[p as int].children.contains(c) <==> s[c as int].parent == Some(p),
{
    assert(node_ok(s, p as int));
    assert(node_ok(s, c as int));
}

/// No node is listed as a child by two nodes.
pub proof fn theorem_one_parent<T>(s: Seq<NodeView<T>>, p: usize, q: usize, c: usize)
    requires
        well_formed(s),
        p < s.len(),
        q < s.len(),
        c < s.len(),
        s[p as int].children.contains(c),
        s[q as int].children.contains(c),
    ensures
        p == q,
{
    theorem_links(s, p, c);
    theorem_links(s, q, c);
}

/// The root of the tree that holds `m` is a node without parent, at depth 0,
/// and `m` lies in its subtree.
pub proof fn theorem_root<T>(s: Seq<NodeView<T>>, m: int)
    requires
        well_formed(s),
        0 <= m < s.len(),
    ensures
        0 <= root_of(s, m) < s.len(),
        s[root_of(s, m)].parent is None,
        s[root_of(s, m)].depth == 0,
        in_subtree(s, root_of(s, m), m),
{
    lemma_root_of(s, m);
    lemma_parent_step(s, root_of(s, m));
}

/// A node whose subtree holds `m` is a node of the forest, has the root that
/// `m` has, and lies no deeper than `m`.
pub proof fn theorem_subtree<T>(s: Seq<NodeView<T>>, a: int, m: int)
    requires
        well_formed(s),
        0 <= m < s.len(),
        in_subtree(s, a, m),
    ensures
        0 <= a < s.len(),
        root_of(s, a) == root_of(s, m),
        s[a].depth <= s[m].depth,
{
    lemma_subtree_root(s, a, m);
}

/// The subtree of a root holds exactly the nodes that have it as their root.
pub proof fn theorem_tree_of_root<T>(s: Seq<NodeView<T>>, c: int, m: int)
    requires
        well_formed(s),
        0 <= c < s.len(),
        0 <= m < s.len(),
        s[c].parent is None,
    ensures
        in_subtree(s, c, m) <==> root_of(s, m) == c,
{
    lemma_root_of(s, m);
    if in_subtree(s, c, m) {
        lemma_subtree_root(s, c, m);
    }
}

/// `attached_positions` gives the positions of the candidates that have a
/// parent, each once and in increasing order; it gives none exactly when every
/// candidate is a root.
pub proof fn theorem_attached_positions<T>(s: Seq<NodeView<T>>, batch: Seq<usize>)
    requires
        batch.len() <= usize::MAX,
    ensures
        attached_positions(s, batch).len() == 0 <==> forall|i: int|
            0 <= i < batch.len() ==> s[(#[trigger] batch[i]) as int].parent is None,
        forall|i: int|
            0 <= i < batch.len() ==> (attached_positions(s, batch).contains(i as usize)
                <==> s[(#[trigger] batch[i]) as int].parent is Some),
        forall|j: int, k: int|
            0 <= j < k < attached_positions(s, batch).len() ==> attached_positions(s, batch)[j]
                < attached_positions(s, batch)[k],
{
    let found = attached_positions(s, batch);
    lemma_attached_positions(s, batch);
    if found.len() > 0 {
        assert(s[batch[found[0] as int] as int].parent is Some);
    }
}

/// After an attachment the forest is well formed, the parent keeps its depth
/// and lists the batch after its earlier children, and every candidate names
/// the parent and lies one level below it.
pub proof fn theorem_attachment<T>(s: Seq<NodeView<T>>, parent: usize, batch: Seq<usize>)
    requires
        well_formed(s),
        attachable(s, parent, batch),
    ensures
        well_formed(attached(s, parent, batch)),
        attached(s, parent, batch)[parent as int].children == s[parent as int].children + batch,
        attached(s, parent, batch)[parent as int].depth == s[parent as int].depth,
        forall|i: int|
            0 <= i < batch.len() ==> {
                &&& attached(s, parent, batch)[(#[trigger] batch[i]) as int].parent == Some(parent)
                &&& attached(s, parent, batch)[batch[i] as int].depth == s[parent as int].depth + 1
            },
{
    let t = attached(s, parent, batch);
    lemma_attached_well_formed(s, parent, batch);
    lemma_root_of(s, parent as int);
    assert forall|i: int| 0 <= i < batch.len() implies {
        &&& t[(#[trigger] batch[i]) as int].parent == Some(parent)
        &&& t[batch[i] as int].depth == s[parent as int].depth + 1
    } by {
        assert(node_ok(t, batch[i] as int));
    }
}

/// A node that was in the tree of a candidate lies, after the attachment, in
/// the subtree of the parent, deeper than before by the depth of the parent
/// plus one. Any other node keeps its depth.
pub proof fn theorem_attached_depth<T>(
    s: Seq<NodeView<T>>,
    parent: usize,
    batch: Seq<usize>,
    m: int,
)
    requires
        well_formed(s),
        attachable(s, parent, batch),
        0 <= m < s.len(),
    ensures
        batch.contains(root_of(s, m) as usize) ==> {
            &&& in_subtree(attached(s, parent, batch), parent as int, m)
            &&& attached(s, parent, batch)[m].depth == s[m].depth + s[parent as int].depth + 1
        },
        !batch.contains(root_of(s, m) as usize) ==> attached(s, parent, batch)[m].depth
            == s[m].depth,
{
    if batch.contains(root_of(s, m) as usize) {
        lemma_attached_subtree(s, parent, batch, m);
    }
}

/// Promotion: where `n` has the parent `p`, taking `n` out leaves `p` without
/// `n` but with the children of `n`, in their order, after the children that
/// it keeps; each of them names `p` as parent and lies one level below `p`;
/// and `n` is left isolated.
pub proof fn theorem_promotion<T>(s: Seq<NodeView<T>>, n: usize, p: usize)
    requires
        well_formed(s),
        n < s.len(),
        s[n as int].parent == Some(p),
    ensures
        well_formed(excised(s, n)),
        !excised(s, n)[p as int].children.contains(n),
        excised(s, n)[p as int].children == without(s[p as int].children, n)
            + s[n as int].children,
        excised(s, n)[p as int].depth == s[p as int].depth,
        forall|i: int|
            0 <= i < s[n as int].children.len() ==> {
                &&& excised(s, n)[(#[trigger] s[n as int].children[i]) as int].parent == Some(p)
                &&& excised(s, n)[s[n as int].children[i] as int].depth == s[p as int].depth + 1
            },
        excised(s, n)[n as int] == isolated(s[n as int].value),
{
    let t = excised(s, n);
    lemma_excised_well_formed(s, n);
    assert(node_ok(s, n as int));
    if in_subtree(s, n as int, p as int) {
        lemma_subtree_root(s, n as int, p as int);
    }
    assert forall|i: int| 0 <= i < s[n as int].children.len() implies {
        &&& t[(#[trigger] s[n as int].children[i]) as int].parent == Some(p)
        &&& t[s[n as int].children[i] as int].depth == s[p as int].depth + 1
    } by {
        assert(node_ok(t, s[n as int].children[i] as int));
    }
}

/// Orphaning: taking out a root leaves it without children, and each of its
/// former children is a root at depth 0.
pub proof fn theorem_orphaning<T>(s: Seq<NodeView<T>>, n: usize)
    requires
        well_formed(s),
        n < s.len(),
        s[n as int].parent is None,
    ensures
        well_formed(excised(s, n)),
        excised(s, n)[n as int] == isolated(s[n as int].value),
        forall|i: int|
            0 <= i < s[n as int].children.len() ==> {
                &&& excised(s, n)[(#[trigger] s[n as int].children[i]) as int].parent is None
                &&& excised(s, n)[s[n as int].children[i] as int].depth == 0
            },
{
    let t = excised(s, n);
    lemma_excised_well_formed(s, n);
    assert(node_ok(s, n as int));
    assert forall|i: int| 0 <= i < s[n as int].children.len() implies {
        &&& t[(#[trigger] s[n as int].children[i]) as int].parent is None
        &&& t[s[n as int].children[i] as int].depth == 0
    } by {
        assert(node_ok(t, s[n as int].children[i] as int));
    }
}

/// Cutting the subtree of `n` from the parent `p` leaves `n` a root at depth
/// 0 that `p` no longer lists, and leaves every node `m` of the subtree in
/// the subtree, with its children and at its old depth below `n`.
pub proof fn theorem_subtree_kept<T>(s: Seq<NodeView<T>>, n: usize, p: usize, m: int)
    requires
        well_formed(s),
        n < s.len(),
        s[n as int].parent == Some(p),
        0 <= m < s.len(),
        in_subtree(s, n as int, m),
    ensures
        well_formed(detached(s, n)),
        detached(s, n)[n as int].parent is None,
        detached(s, n)[n as int].depth == 0,
        !detached(s, n)[p as int].children.contains(n),
        detached(s, n)[p as int].children == without(s[p as int].children, n),
        in_subtree(detached(s, n), n as int, m),
        detached(s, n)[m].children == s[m].children,
        m != n ==> detached(s, n)[m].parent == s[m].parent,
        detached(s, n)[m].depth - detached(s, n)[n as int].depth == s[m].depth - s[n as int].depth,
{
    lemma_detached_well_formed(s, n);
    lemma_detached_subtree(s, n, m);
    lemma_subtree_root(s, n as int, m);
    assert(node_ok(s, n as int));
}

/// Cutting the subtree of a root changes nothing.
pub proof fn theorem_root_stays<T>(s: Seq<NodeView<T>>, n: usize)
    requires
        well_formed(s),
        n < s.len(),
        s[n as int].parent is None,
    ensures
        detached(s, n) == s,
{
    assert(node_ok(s, n as int));
}

/// No operation adds or drops a node or changes a value.
pub proof fn theorem_values_stay<T>(
    s: Seq<NodeView<T>>,
    parent: usize,
    batch: Seq<usize>,
    n: usize,
    m: int,
)
    requires
        0 <= m < s.len(),
    ensures
        attached(s, parent, batch).len() == s.len(),
        detached(s, n).len() == s.len(),
        excised(s, n).len() == s.len(),
        attached(s, parent, batch)[m].value == s[m].value,
        detached(s, n)[m].value == s[m].value,
        excised(s, n)[m].value == s[m].value,
{
}

} // verus!
