//! The mathematical model of a forest: a sequence of node views, one per
//! handle, together with the functions that say what each operation does to it.

use vstd::prelude::*;

verus! {

/// What one node holds, as the contracts see it.
pub struct NodeView<T> {
    /// The payload, fixed when the node is made.
    pub value: T,
    /// The handle of the parent, or `None` for a root.
    pub parent: Option<usize>,
    /// The handles of the children, in the order in which they were attached.
    pub children: Seq<usize>,
    /// The cached distance to the root.
    pub depth: nat,
}

/// A node on its own: no parent, no children, depth 0.
pub open spec fn isolated<T>(value: T) -> NodeView<T> {
    NodeView { value, parent: None, children: Seq::empty(), depth: 0 }
}

/// The links and the depth of node `n` are consistent with its neighbours:
/// its parent lists it as a child and is one level higher, a root has depth 0,
/// and every listed child names `n` as its parent.
pub open spec fn node_ok<T>(s: Seq<NodeView<T>>, n: int) -> bool {
    &&& match s[n].parent {
        Some(p) => p < s.len() && s[p as int].children.contains(n as usize) && s[n].depth
            == s[p as int].depth + 1,
        None => s[n].depth == 0,
    }
    &&& forall|i: int|
        0 <= i < s[n].children.len() ==> (#[trigger] s[n].children[i]) < s.len()
            && s[s[n].children[i] as int].parent == Some(n as usize)
}

/// Every node of the forest is consistent with its neighbours, and every node
/// has a handle.
pub open spec fn well_formed<T>(s: Seq<NodeView<T>>) -> bool {
    &&& s.len() <= usize::MAX
    &&& forall|n: int| 0 <= n < s.len() ==> #[trigger] node_ok(s, n)
}

/// The parent of `m`, where following the link leads to a node of smaller
/// depth. In a well-formed forest this is the parent link itself.
pub open spec fn parent_step<T>(s: Seq<NodeView<T>>, m: int) -> Option<int> {
    match s[m].parent {
        Some(p) if 0 <= m < s.len() && p < s.len() && s[p as int].depth < s[m].depth => Some(
            p as int,
        ),
        _ => None,
    }
}

/// The node reached from `m` by following parent links as far as they go.
pub open spec fn root_of<T>(s: Seq<NodeView<T>>, m: int) -> int
    decreases s[m].depth,
{
    match parent_step(s, m) {
        Some(p) => root_of(s, p),
        None => m,
    }
}

/// `m` lies in the subtree rooted at `a`: it is `a` or one of its descendants.
pub open spec fn in_subtree<T>(s: Seq<NodeView<T>>, a: int, m: int) -> bool
    decreases s[m].depth,
{
    m == a || match parent_step(s, m) {
        Some(p) => in_subtree(s, a, p),
        None => false,
    }
}

/// The test that a handle is another one than `n`.
pub open spec fn differs_from(n: usize) -> spec_fn(usize) -> bool {
    |c: usize| c != n
}

/// `children` without every occurrence of `n`, the rest in their order.
pub open spec fn without(children: Seq<usize>, n: usize) -> Seq<usize> {
    children.filter(differs_from(n))
}

/// The positions in `batch`, in increasing order, of the candidates that
/// already have a parent.
pub open spec fn attached_positions<T>(s: Seq<NodeView<T>>, batch: Seq<usize>) -> Seq<usize>
    decreases batch.len(),
{
    if batch.len() == 0 {
        Seq::empty()
    } else {
        let before = attached_positions(s, batch.drop_last());
        if s[batch.last() as int].parent is Some {
            before.push((batch.len() - 1) as usize)
        } else {
            before
        }
    }
}

/// The batch may be attached below `parent`: all its members are roots of the
/// forest, and none of them is the root of the tree that holds `parent`.
pub open spec fn attachable<T>(s: Seq<NodeView<T>>, parent: usize, batch: Seq<usize>) -> bool {
    &&& parent < s.len()
    &&& forall|i: int|
        0 <= i < batch.len() ==> {
            &&& (#[trigger] batch[i]) < s.len()
            &&& s[batch[i] as int].parent is None
            &&& batch[i] != root_of(s, parent as int)
        }
}

/// The forest after the roots in `batch` have become the last children of
/// `parent`, in the order of `batch`. Each of their subtrees moves down by the
/// depth of `parent` plus one; nothing else changes.
pub open spec fn attached<T>(s: Seq<NodeView<T>>, parent: usize, batch: Seq<usize>) -> Seq<
    NodeView<T>,
> {
    Seq::new(
        s.len(),
        |m: int|
            NodeView {
                value: s[m].value,
                parent: if batch.contains(m as usize) {
                    Some(parent)
                } else {
                    s[m].parent
                },
                children: if m == parent {
                    s[m].children + batch
                } else {
                    s[m].children
                },
                depth: if batch.contains(root_of(s, m) as usize) {
                    s[parent as int].depth + 1 + s[m].depth
                } else {
                    s[m].depth
                },
            },
    )
}

/// The forest after `n` has been cut from its parent together with its whole
/// subtree, which keeps its shape and now starts at depth 0. Where `n` is a
/// root already, this is the forest itself.
pub open spec fn detached<T>(s: Seq<NodeView<T>>, n: usize) -> Seq<NodeView<T>> {
    Seq::new(
        s.len(),
        |m: int|
            NodeView {
                value: s[m].value,
                parent: if m == n {
                    None
                } else {
                    s[m].parent
                },
                children: if s[n as int].parent == Some(m as usize) {
                    without(s[m].children, n)
                } else {
                    s[m].children
                },
                depth: if in_subtree(s, n as int, m) {
                    (s[m].depth - s[n as int].depth) as nat
                } else {
                    s[m].depth
                },
            },
    )
}

/// The forest after `n` alone has been taken out. Its children take the parent
/// of `n` as theirs, or become roots where `n` was one; that parent loses `n`
/// and gains the children of `n` after its remaining ones. Every descendant of
/// `n` moves up by one level, and `n` is left isolated.
pub open spec fn excised<T>(s: Seq<NodeView<T>>, n: usize) -> Seq<NodeView<T>> {
    Seq::new(
        s.len(),
        |m: int|
            NodeView {
                value: s[m].value,
                parent: if m == n {
                    None
                } else if s[m].parent == Some(n) {
                    s[n as int].parent
                } else {
                    s[m].parent
                },
                children: if m == n {
                    Seq::empty()
                } else if s[n as int].parent == Some(m as usize) {
                    without(s[m].children, n) + s[n as int].children
                } else {
                    s[m].children
                },
                depth: if m == n {
                    0
                } else if in_subtree(s, n as int, m) {
                    (s[m].depth - 1) as nat
                } else {
                    s[m].depth
                },
            },
    )
}

} // verus!
