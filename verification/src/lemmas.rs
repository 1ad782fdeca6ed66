//! Facts about well-formed forests on which the operations rest.

use vstd::prelude::*;
use vstd::set_lib::{lemma_int_range, lemma_len_subset, lemma_map_size_bound, set_int_range};
use crate::model::{
    NodeView, attachable, attached, attached_positions, detached, differs_from, excised,
    in_subtree, node_ok, parent_step, root_of, well_formed, without,
};

verus! {

/// In a well-formed forest the upward step from a node is its parent link.
pub proof fn lemma_parent_step<T>(s: Seq<NodeView<T>>, m: int)
    requires
        well_formed(s),
        0 <= m < s.len(),
    ensures
        parent_step(s, m) == match s[m].parent {
            Some(p) => Some(p as int),
            None => None,
        },
        s[m].parent matches Some(p) ==> 0 <= p < s.len() && s[m].depth == s[p as int].depth + 1,
        s[m].parent is None ==> s[m].depth == 0,
{
    assert(node_ok(s, m));
}

/// Every depth up to that of `n` is the depth of some node.
proof fn lemma_depths_attained<T>(s: Seq<NodeView<T>>, n: int, k: nat) -> (m: int)
    requires
        well_formed(s),
        0 <= n < s.len(),
        k <= s[n].depth,
    ensures
        0 <= m < s.len(),
        s[m].depth == k,
    decreases s[n].depth,
{
    lemma_parent_step(s, n);
    if s[n].depth == k {
        n
    } else {
        lemma_depths_attained(s, s[n].parent->0 as int, k)
    }
}

/// The depth of a node is less than the number of nodes: the nodes on the way
/// to its root have pairwise different depths.
pub proof fn lemma_depth_bound<T>(s: Seq<NodeView<T>>, n: int)
    requires
        well_formed(s),
        0 <= n < s.len(),
    ensures
        s[n].depth < s.len(),
{
    let handles = set_int_range(0, s.len() as int);
    let depth_at = |m: int| s[m].depth as int;
    let reached = handles.map(depth_at);
    let wanted = set_int_range(0, s[n].depth as int + 1);
    lemma_int_range(0, s.len() as int);
    lemma_int_range(0, s[n].depth as int + 1);
    lemma_map_size_bound(handles, reached, depth_at);
    assert forall|k: int| wanted.contains(k) implies reached.contains(k) by {
        let m = lemma_depths_attained(s, n, k as nat);
        assert(handles.contains(m));
    }
    lemma_len_subset(wanted, reached);
}

/// The root of the tree that holds `m` is a node without parent whose subtree
/// holds `m`.
pub proof fn lemma_root_of<T>(s: Seq<NodeView<T>>, m: int)
    requires
        well_formed(s),
        0 <= m < s.len(),
    ensures
        0 <= root_of(s, m) < s.len(),
        s[root_of(s, m)].parent is None,
        in_subtree(s, root_of(s, m), m),
    decreases s[m].depth,
{
    lemma_parent_step(s, m);
    if s[m].parent is Some {
        lemma_root_of(s, s[m].parent->0 as int);
    }
}

/// A node and every node of its subtree have the same root, and none of them
/// is higher than the node itself.
pub proof fn lemma_subtree_root<T>(s: Seq<NodeView<T>>, a: int, m: int)
    requires
        well_formed(s),
        0 <= m < s.len(),
        in_subtree(s, a, m),
    ensures
        0 <= a < s.len(),
        root_of(s, a) == root_of(s, m),
        s[a].depth <= s[m].depth,
    decreases s[m].depth,
{
    if m != a {
        lemma_subtree_root(s, a, s[m].parent->0 as int);
    }
}

/// What lies in the subtree of a child lies in the subtree of its parent.
pub proof fn lemma_subtree_up<T>(s: Seq<NodeView<T>>, x: int, c: int, m: int)
    requires
        well_formed(s),
        0 <= c < s.len(),
        0 <= m < s.len(),
        s[c].parent == Some(x as usize),
        0 <= x < s.len(),
        in_subtree(s, c, m),
    ensures
        in_subtree(s, x, m),
    decreases s[m].depth,
{
    lemma_parent_step(s, m);
    if m != c {
        lemma_subtree_up(s, x, c, s[m].parent->0 as int);
    } else {
        assert(in_subtree(s, x, x));
    }
}

/// A node below `x` lies in the subtree of one of the children of `x`.
pub proof fn lemma_subtree_down<T>(s: Seq<NodeView<T>>, x: int, m: int) -> (j: int)
    requires
        well_formed(s),
        0 <= m < s.len(),
        in_subtree(s, x, m),
        m != x,
    ensures
        0 <= j < s[x].children.len(),
        in_subtree(s, s[x].children[j] as int, m),
    decreases s[m].depth,
{
    let p = s[m].parent->0 as int;
    if p == x {
        assert(node_ok(s, m));
        choose|j: int| 0 <= j < s[x].children.len() && s[x].children[j] == m as usize
    } else {
        lemma_subtree_down(s, x, p)
    }
}

/// A subtree that keeps its parent links below its top, in a forest `t` where
/// each of those links still leads to a smaller depth, is a subtree of `t`.
pub proof fn lemma_subtree_kept<T>(s: Seq<NodeView<T>>, t: Seq<NodeView<T>>, a: int, m: int)
    requires
        well_formed(s),
        t.len() == s.len(),
        0 <= m < s.len(),
        in_subtree(s, a, m),
        forall|k: int|
            0 <= k < s.len() && k != a && #[trigger] in_subtree(s, a, k) ==> t[k].parent
                == s[k].parent && t[s[k].parent->0 as int].depth < t[k].depth,
    ensures
        in_subtree(t, a, m),
    decreases s[m].depth,
{
    if m != a {
        lemma_subtree_kept(s, t, a, s[m].parent->0 as int);
    }
}

/// `without` keeps exactly the entries that differ from `n`.
pub proof fn lemma_without(children: Seq<usize>, n: usize)
    ensures
        forall|x: usize| without(children, n).contains(x) <==> children.contains(x) && x != n,
        without(children, n).len() <= children.len(),
{
    let kept = without(children, n);
    let differs = differs_from(n);
    assert forall|x: usize| kept.contains(x) <==> children.contains(x) && x != n by {
        if kept.contains(x) {
            children.lemma_filter_contains_rev(differs, x);
        }
    }
}

/// Attaching roots below a node of another tree keeps the forest well formed.
pub proof fn lemma_attached_well_formed<T>(s: Seq<NodeView<T>>, parent: usize, batch: Seq<usize>)
    requires
        well_formed(s),
        attachable(s, parent, batch),
    ensures
        well_formed(attached(s, parent, batch)),
{
    let t = attached(s, parent, batch);
    lemma_root_of(s, parent as int);
    assert forall|n: int| 0 <= n < t.len() implies #[trigger] node_ok(t, n) by {
        assert(node_ok(s, n));
        if batch.contains(n as usize) {
            assert(t[parent as int].children[s[parent as int].children.len() + batch.index_of(
                n as usize,
            )] == n as usize);
        } else if s[n].parent is Some {
            let q = s[n].parent->0 as int;
            let i = s[q].children.index_of(n as usize);
            assert(t[q].children[i] == n as usize);
        }
    }
}

/// After the attachment, whatever belonged to a tree of the batch lies in the
/// subtree of the root that it had, and so in the subtree of `parent`.
pub proof fn lemma_attached_subtree<T>(
    s: Seq<NodeView<T>>,
    parent: usize,
    batch: Seq<usize>,
    m: int,
)
    requires
        well_formed(s),
        attachable(s, parent, batch),
        0 <= m < s.len(),
        batch.contains(root_of(s, m) as usize),
    ensures
        in_subtree(attached(s, parent, batch), root_of(s, m), m),
        in_subtree(attached(s, parent, batch), parent as int, m),
{
    let t = attached(s, parent, batch);
    let c = root_of(s, m);
    lemma_root_of(s, m);
    lemma_subtree_kept(s, t, c, m);
    lemma_attached_well_formed(s, parent, batch);
    lemma_subtree_up(t, parent as int, c, m);
}

/// Cutting a subtree off keeps the forest well formed.
pub proof fn lemma_detached_well_formed<T>(s: Seq<NodeView<T>>, n: usize)
    requires
        well_formed(s),
        n < s.len(),
    ensures
        well_formed(detached(s, n)),
{
    let t = detached(s, n);
    assert forall|k: int| 0 <= k < t.len() implies #[trigger] node_ok(t, k) by {
        assert(node_ok(s, k));
        if k != n && s[k].parent is Some {
            let q = s[k].parent->0 as int;
            if in_subtree(s, n as int, q) {
                lemma_subtree_root(s, n as int, q);
            }
        }
        lemma_without(s[k].children, n);
        assert forall|i: int| 0 <= i < t[k].children.len() implies (#[trigger] t[k].children[i])
            < t.len() && t[t[k].children[i] as int].parent == Some(k as usize) by {
            let c = t[k].children[i];
            assert(s[k].children.contains(c));
        }
    }
}

/// The subtree that was cut off is still the subtree of its top.
pub proof fn lemma_detached_subtree<T>(s: Seq<NodeView<T>>, n: usize, m: int)
    requires
        well_formed(s),
        n < s.len(),
        0 <= m < s.len(),
        in_subtree(s, n as int, m),
    ensures
        in_subtree(detached(s, n), n as int, m),
{
    let t = detached(s, n);
    assert forall|k: int|
        0 <= k < s.len() && k != n && #[trigger] in_subtree(s, n as int, k) implies t[k].parent
        == s[k].parent && t[s[k].parent->0 as int].depth < t[k].depth by {
        let q = s[k].parent->0 as int;
        lemma_subtree_root(s, n as int, q);
    }
    lemma_subtree_kept(s, t, n as int, m);
}

/// Taking one node out keeps the forest well formed.
pub proof fn lemma_excised_well_formed<T>(s: Seq<NodeView<T>>, n: usize)
    requires
        well_formed(s),
        n < s.len(),
    ensures
        well_formed(excised(s, n)),
{
    let t = excised(s, n);
    assert(in_subtree(s, n as int, n as int));
    assert(node_ok(s, n as int));
    if s[n as int].parent is Some {
        let p = s[n as int].parent->0 as int;
        if in_subtree(s, n as int, p) {
            lemma_subtree_root(s, n as int, p);
        }
        lemma_without(s[p].children, n);
    }
    assert forall|k: int| 0 <= k < t.len() implies #[trigger] node_ok(t, k) by {
        assert(node_ok(s, k));
        if k != n && s[k].parent is Some {
            let q = s[k].parent->0 as int;
            if q == n {
                if s[n as int].parent is Some {
                    let p = s[n as int].parent->0 as int;
                    let j = s[n as int].children.index_of(k as usize);
                    assert(t[p].children[without(s[p].children, n).len() + j] == k as usize);
                }
            } else {
                if s[n as int].parent == Some(q as usize) {
                    let j = without(s[q].children, n).index_of(k as usize);
                    assert(t[q].children[j] == k as usize);
                }
            }
        }
        assert forall|i: int| 0 <= i < t[k].children.len() implies (#[trigger] t[k].children[i])
            < t.len() && t[t[k].children[i] as int].parent == Some(k as usize) by {
            let c = t[k].children[i];
            if s[n as int].parent == Some(k as usize) {
                let kept = without(s[k].children, n);
                if i < kept.len() {
                    assert(s[k].children.contains(c));
                }
            }
        }
    }
}

/// The subtree of a child of the node that was taken out is still the subtree
/// of that child.
pub proof fn lemma_excised_subtree<T>(s: Seq<NodeView<T>>, n: usize, c: int, m: int)
    requires
        well_formed(s),
        n < s.len(),
        0 <= c < s.len(),
        0 <= m < s.len(),
        s[c].parent == Some(n),
        in_subtree(s, c, m),
    ensures
        in_subtree(excised(s, n), c, m),
{
    let t = excised(s, n);
    lemma_parent_step(s, c);
    assert forall|k: int|
        0 <= k < s.len() && k != c && #[trigger] in_subtree(s, c, k) implies t[k].parent
        == s[k].parent && t[s[k].parent->0 as int].depth < t[k].depth by {
        let q = s[k].parent->0 as int;
        lemma_subtree_root(s, c, q);
    }
    lemma_subtree_kept(s, t, c, m);
}

/// `attached_positions` names, in increasing order, exactly the positions of
/// the candidates that have a parent.
pub proof fn lemma_attached_positions<T>(s: Seq<NodeView<T>>, batch: Seq<usize>)
    requires
        batch.len() <= usize::MAX,
    ensures
        attached_positions(s, batch).len() <= batch.len(),
        forall|k: int|
            0 <= k < attached_positions(s, batch).len() ==> {
                &&& (#[trigger] attached_positions(s, batch)[k]) < batch.len()
                &&& s[batch[attached_positions(s, batch)[k] as int] as int].parent is Some
            },
        forall|i: int|
            0 <= i < batch.len() && s[(#[trigger] batch[i]) as int].parent is Some
                ==> attached_positions(s, batch).contains(i as usize),
        forall|j: int, k: int|
            0 <= j < k < attached_positions(s, batch).len() ==> attached_positions(s, batch)[j]
                < attached_positions(s, batch)[k],
    decreases batch.len(),
{
    let found = attached_positions(s, batch);
    if batch.len() > 0 {
        let shorter = batch.drop_last();
        let earlier = attached_positions(s, shorter);
        lemma_attached_positions(s, shorter);
        assert forall|i: int|
            0 <= i < batch.len() && s[(#[trigger] batch[i]) as int].parent is Some
            implies found.contains(i as usize) by {
            if i < shorter.len() {
                assert(shorter[i] == batch[i]);
                let k = earlier.index_of(i as usize);
                assert(found[k] == i as usize);
            } else {
                assert(found[found.len() - 1] == i as usize);
            }
        }
    }
}

/// The first `i + 1` entries hold what the first `i` hold, and entry `i`.
pub proof fn lemma_take_contains(batch: Seq<usize>, i: int)
    requires
        0 <= i < batch.len(),
    ensures
        forall|x: usize| #[trigger]
            batch.take(i + 1).contains(x) <==> batch.take(i).contains(x) || x == batch[i],
{
    let done = batch.take(i);
    let next = batch.take(i + 1);
    assert forall|x: usize| #[trigger] next.contains(x) <==> done.contains(x) || x == batch[i] by {
        if x == batch[i] {
            assert(next[i] == x);
        }
    }
}

} // verus!
