//! The nodes, the arena that holds them, and the operations that attach and
//! detach them.

use std::fmt::Display;
use vstd::prelude::*;
use crate::error::AlreadyAttached;
use crate::model::{
    NodeView, attached, attached_positions, detached, differs_from, excised, in_subtree,
    isolated, node_ok, root_of, well_formed, without,
};
use crate::lemmas::{
    lemma_attached_positions, lemma_attached_subtree, lemma_attached_well_formed,
    lemma_depth_bound, lemma_detached_subtree, lemma_detached_well_formed, lemma_excised_subtree,
    lemma_excised_well_formed, lemma_parent_step, lemma_root_of, lemma_subtree_down,
    lemma_subtree_root, lemma_subtree_up, lemma_take_contains,
};

verus! {

/// One node of a forest: a value that can be shown as text, the handle of its
/// parent, the handles of its children in the order in which they were
/// attached, and its cached depth.
pub struct TreeNode<T> where T: Display {
    value: T,
    parent: Option<usize>,
    children: Vec<usize>,
    depth_level: usize,
}

/// An arena of nodes. A node is addressed by its handle, the position at which
/// it was inserted; handles stay valid for the life of the forest.
pub struct Forest<T> where T: Display {
    nodes: Vec<TreeNode<T>>,
}

impl<T: Display> View for TreeNode<T> {
    type V = NodeView<T>;

    closed spec fn view(&self) -> NodeView<T> {
        NodeView {
            value: self.value,
            parent: self.parent,
            children: self.children@,
            depth: self.depth_level as nat,
        }
    }
}

impl<T: Display> View for Forest<T> {
    type V = Seq<NodeView<T>>;

    closed spec fn view(&self) -> Seq<NodeView<T>> {
        Seq::new(self.nodes@.len(), |i: int| self.nodes@[i]@)
    }
}

impl<T: Display> Forest<T> {
    /// The links agree in both directions and every cached depth is exact.
    pub open spec fn wf(&self) -> bool {
        well_formed(self@)
    }

    /// A forest without nodes.
    pub fn new() -> (forest: Forest<T>)
        ensures
            forest@ == Seq::<NodeView<T>>::empty(),
            forest.wf(),
    {
        let forest = Forest { nodes: Vec::new() };
        forest
    }

    /// The number of nodes, which is one more than the largest handle.
    pub fn len(&self) -> (count: usize)
        ensures
            count == self@.len(),
    {
        self.nodes.len()
    }

    /// Puts a new isolated node that holds `value` into the forest and returns
    /// its handle.
    pub fn insert(&mut self, value: T) -> (id: usize)
        ensures
            id == old(self)@.len(),
            final(self)@ == old(self)@.push(isolated(value)),
            old(self).wf() ==> final(self).wf(),
    {
        let id = self.nodes.len();
        self.nodes.push(TreeNode::new(value));
        proof {
            if old(self).wf() {
                assert(self@.len() == self.nodes.len());
                assert forall|n: int| 0 <= n < self@.len() implies #[trigger] node_ok(self@, n) by {
                    if n < old(self)@.len() {
                        assert(node_ok(old(self)@, n));
                    }
                }
            }
        }
        id
    }

    /// The node behind a handle.
    pub fn node(&self, id: usize) -> (node: &TreeNode<T>)
        requires
            id < self@.len(),
        ensures
            node@ == self@[id as int],
    {
        &self.nodes[id]
    }

    /// The root of the tree that holds `id`.
    pub fn root_of(&self, id: usize) -> (root: usize)
        requires
            self.wf(),
            id < self@.len(),
        ensures
            root == root_of(self@, id as int),
    {
        let mut current = id;
        loop
            invariant
                self.wf(),
                current < self@.len(),
                root_of(self@, current as int) == root_of(self@, id as int),
            decreases self@[current as int].depth,
        {
            proof {
                lemma_parent_step(self@, current as int);
            }
            match self.nodes[current].parent {
                Some(parent) => {
                    current = parent;
                },
                None => {
                    return current;
                },
            }
        }
    }
}

/// The text of `value`: calls `std::fmt::Display::fmt` of `T`, through
/// `format!`. That impl is the caller's, so nothing is claimed of the text.
#[verifier::external_body]
fn render<T: Display>(value: &T) -> (text: String) {
    format!("{}", value)
}

impl<T: Display> TreeNode<T> {
    /// A node on its own: no parent, no children, depth 0.
    pub fn new(value: T) -> (node: TreeNode<T>)
        ensures
            node@ == isolated(value),
    {
        TreeNode { value, parent: None, children: Vec::new(), depth_level: 0 }
    }

    /// The value of the node as text, in the rendering that `T` supplies.
    pub fn get_printable_value(&self) -> (text: String) {
        render(&self.value)
    }

    /// The handles of the children, in the order in which they were attached.
    pub fn get_children(&self) -> (children: &Vec<usize>)
        ensures
            children@ == self@.children,
    {
        &self.children
    }

    /// The handle of the parent, or `None` for a root.
    pub fn get_parent(&self) -> (parent: Option<usize>)
        ensures
            parent == self@.parent,
    {
        self.parent
    }

    /// The cached distance to the root.
    pub fn get_depth(&self) -> (depth: usize)
        ensures
            depth == self@.depth,
    {
        self.depth_level
    }

    /// Makes `parent` the parent link of `node`, and changes nothing else.
    fn set_parent(forest: &mut Forest<T>, node: usize, parent: usize)
        requires
            node < old(forest)@.len(),
        ensures
            final(forest)@ == old(forest)@.update(
                node as int,
                NodeView { parent: Some(parent), ..old(forest)@[node as int] },
            ),
    {
        forest.nodes[node].parent = Some(parent);
    }

    /// Puts the handles of `batch` after the children of `node`, in their
    /// order, and changes nothing else.
    fn add_children(forest: &mut Forest<T>, node: usize, batch: &[usize])
        requires
            node < old(forest)@.len(),
        ensures
            final(forest)@ == old(forest)@.update(
                node as int,
                NodeView {
                    children: old(forest)@[node as int].children + batch@,
                    ..old(forest)@[node as int]
                },
            ),
    {
        let mut i: usize = 0;
        while i < batch.len()
            invariant
                i <= batch@.len(),
                node < old(forest)@.len(),
                forest@.len() == old(forest)@.len(),
                forest@ == old(forest)@.update(
                    node as int,
                    NodeView {
                        children: old(forest)@[node as int].children + batch@.take(i as int),
                        ..old(forest)@[node as int]
                    },
                ),
            decreases batch@.len() - i,
        {
            let ghost before = forest@;
            forest.nodes[node].children.push(batch[i]);
            i += 1;
            proof {
                assert(batch@.take(i as int) =~= batch@.take(i - 1).push(batch@[i - 1]));
                assert(forest@ =~= before.update(
                    node as int,
                    NodeView {
                        children: old(forest)@[node as int].children + batch@.take(i as int),
                        ..before[node as int]
                    },
                ));
            }
        }
        proof {
            assert(batch@.take(i as int) =~= batch@);
        }
    }

    /// Moves the handles of `batch` after the children of `node`, in their
    /// order, and changes nothing else.
    fn transfer_children(forest: &mut Forest<T>, node: usize, batch: Vec<usize>)
        requires
            node < old(forest)@.len(),
        ensures
            final(forest)@ == old(forest)@.update(
                node as int,
                NodeView {
                    children: old(forest)@[node as int].children + batch@,
                    ..old(forest)@[node as int]
                },
            ),
    {
        let mut moved = batch;
        forest.nodes[node].children.append(&mut moved);
    }

    /// Takes every occurrence of `gone` out of the children of `node`, keeps
    /// the rest in their order, and changes nothing else.
    fn remove_child(forest: &mut Forest<T>, node: usize, gone: usize)
        requires
            node < old(forest)@.len(),
        ensures
            final(forest)@ == old(forest)@.update(
                node as int,
                NodeView {
                    children: without(old(forest)@[node as int].children, gone),
                    ..old(forest)@[node as int]
                },
            ),
    {
        let ghost listed = forest@[node as int].children;
        let count = forest.nodes[node].children.len();
        let mut kept: Vec<usize> = Vec::new();
        let mut i: usize = 0;
        while i < count
            invariant
                i <= count,
                node < forest@.len(),
                count == listed.len(),
                listed == forest@[node as int].children,
                kept@ == without(listed.take(i as int), gone),
            decreases count - i,
        {
            let child = forest.nodes[node].children[i];
            if child != gone {
                kept.push(child);
            }
            proof {
                listed.take(i as int).lemma_filter_push(child, differs_from(gone));
                assert(listed.take(i + 1) =~= listed.take(i as int).push(child));
            }
            i += 1;
        }
        proof {
            assert(listed.take(i as int) =~= listed);
        }
        forest.nodes[node].children = kept;
    }

    /// Gives every node below `node` its depth, counted from the depth that
    /// `node` has now.
    ///
    /// `target` is a well-formed forest with the child lists of this one, in
    /// which `node` has the depth that it has here. The call gives each node
    /// of the subtree of `node` its depth in `target`, and changes no other
    /// depth, no link and no value.
    fn update_children_depth(
        forest: &mut Forest<T>,
        node: usize,
        Ghost(target): Ghost<Seq<NodeView<T>>>,
    )
        requires
            well_formed(target),
            old(forest)@.len() == target.len(),
            node < target.len(),
            forall|m: int|
                0 <= m < target.len() ==> (#[trigger] old(forest)@[m]).children
                    == target[m].children,
            old(forest)@[node as int].depth == target[node as int].depth,
        ensures
            final(forest)@.len() == target.len(),
            forall|m: int|
                0 <= m < target.len() ==> (#[trigger] final(forest)@[m]) == (NodeView {
                    depth: if in_subtree(target, node as int, m) {
                        target[m].depth
                    } else {
                        old(forest)@[m].depth
                    },
                    ..old(forest)@[m]
                }),
        decreases target.len() - target[node as int].depth,
    {
        let count = forest.nodes[node].children.len();
        let depth = forest.nodes[node].depth_level;
        let ghost listed = target[node as int].children;
        let mut i: usize = 0;
        while i < count
            invariant
                i <= count,
                well_formed(target),
                node < target.len(),
                forest@.len() == target.len(),
                old(forest)@.len() == target.len(),
                count == listed.len(),
                listed == target[node as int].children,
                depth == target[node as int].depth,
                forall|m: int|
                    0 <= m < target.len() ==> (#[trigger] forest@[m]).children
                        == target[m].children,
                forall|m: int|
                    0 <= m < target.len() ==> (#[trigger] forest@[m]) == (NodeView {
                        depth: forest@[m].depth,
                        ..old(forest)@[m]
                    }),
                forest@[node as int].depth == target[node as int].depth,
                forall|m: int|
                    0 <= m < target.len() && !in_subtree(target, node as int, m) ==> (
                    #[trigger] forest@[m]).depth == old(forest)@[m].depth,
                forall|j: int, m: int|
                    0 <= j < i && 0 <= m < target.len() && #[trigger] in_subtree(
                        target,
                        listed[j] as int,
                        m,
                    ) ==> forest@[m].depth == target[m].depth,
            decreases count - i,
        {
            let child = forest.nodes[node].children[i];
            proof {
                assert(node_ok(target, node as int));
                lemma_parent_step(target, child as int);
                lemma_depth_bound(target, child as int);
            }
            let ghost before = forest@;
            forest.nodes[child].depth_level = depth + 1;
            assert(forest@ =~= before.update(
                child as int,
                NodeView { depth: (depth + 1) as nat, ..before[child as int] },
            ));
            let ghost levelled = forest@;
            if forest.nodes[child].children.len() != 0 {
                Self::update_children_depth(forest, child, Ghost(target));
            } else {
                proof {
                    assert forall|m: int|
                        0 <= m < target.len() && in_subtree(
                            target,
                            child as int,
                            m,
                        ) implies m == child by {
                        if m != child {
                            lemma_subtree_down(target, child as int, m);
                        }
                    }
                }
            }
            proof {
                assert forall|m: int|
                    0 <= m < target.len() && !in_subtree(target, node as int, m) implies (
                #[trigger] forest@[m]).depth == old(forest)@[m].depth by {
                    if in_subtree(target, child as int, m) {
                        lemma_subtree_up(target, node as int, child as int, m);
                    }
                }
            }
            i += 1;
        }
        proof {
            assert forall|m: int|
                0 <= m < target.len() && in_subtree(
                    target,
                    node as int,
                    m,
                ) implies forest@[m].depth == target[m].depth by {
                if m != node {
                    lemma_subtree_down(target, node as int, m);
                }
            }
        }
    }

    /// Puts `child` after the children of `node`, one level below it, and
    /// gives every node below `child` its depth.
    ///
    /// `target` is a well-formed forest whose child lists are those of this
    /// forest once `child` is listed, and in which `node` has the depth that
    /// it has here. The call gives each node of the subtree of `child` its
    /// depth in `target`, and changes nothing else.
    fn add_child(
        forest: &mut Forest<T>,
        node: usize,
        child: usize,
        Ghost(target): Ghost<Seq<NodeView<T>>>,
    )
        requires
            well_formed(target),
            old(forest)@.len() == target.len(),
            node < target.len(),
            forall|m: int|
                0 <= m < target.len() ==> (#[trigger] target[m]).children == if m == node {
                    old(forest)@[m].children.push(child)
                } else {
                    old(forest)@[m].children
                },
            old(forest)@[node as int].depth == target[node as int].depth,
        ensures
            final(forest)@.len() == target.len(),
            forall|m: int|
                0 <= m < target.len() ==> (#[trigger] final(forest)@[m]) == (NodeView {
                    children: target[m].children,
                    depth: if in_subtree(target, child as int, m) {
                        target[m].depth
                    } else {
                        old(forest)@[m].depth
                    },
                    ..old(forest)@[m]
                }),
    {
        proof {
            let last = old(forest)@[node as int].children.len() as int;
            assert(node_ok(target, node as int));
            assert(target[node as int].children[last] == child);
            lemma_parent_step(target, child as int);
            lemma_depth_bound(target, child as int);
        }
        forest.nodes[node].children.push(child);
        let depth = forest.nodes[node].depth_level;
        forest.nodes[child].depth_level = depth + 1;
        Self::update_children_depth(forest, child, Ghost(target));
    }

    /// Makes `intended_child`, a root, the last child of `intended_parent`.
    ///
    /// Fails, and changes nothing, exactly when `intended_child` already has a
    /// parent. Otherwise the subtree of `intended_child` moves below
    /// `intended_parent`, each of its nodes deeper by the depth of
    /// `intended_parent` plus one.
    ///
    /// A root cannot go below a node of its own tree: the caller tells with
    /// [`Forest::root_of`] whether `intended_child` is the root above
    /// `intended_parent`.
    pub fn set_relationship(
        forest: &mut Forest<T>,
        intended_parent: usize,
        intended_child: usize,
    ) -> (outcome: Result<(), AlreadyAttached>)
        requires
            old(forest).wf(),
            intended_parent < old(forest)@.len(),
            intended_child < old(forest)@.len(),
            old(forest)@[intended_child as int].parent is None ==> root_of(
                old(forest)@,
                intended_parent as int,
            ) != intended_child,
        ensures
            final(forest).wf(),
            match outcome {
                Ok(_) => old(forest)@[intended_child as int].parent is None && final(forest)@
                    == attached(old(forest)@, intended_parent, seq![intended_child]),
                Err(error) => old(forest)@[intended_child as int].parent is Some && *final(forest)
                    == *old(forest) && error.positions@ == seq![0usize],
            },
    {
        if forest.nodes[intended_child].parent.is_some() {
            let mut positions: Vec<usize> = Vec::new();
            positions.push(0);
            return Err(AlreadyAttached { positions });
        }
        let ghost before = forest@;
        let ghost batch = seq![intended_child];
        let ghost target = attached(before, intended_parent, batch);
        proof {
            lemma_root_of(before, intended_parent as int);
            assert(batch[0] == intended_child);
            lemma_attached_well_formed(before, intended_parent, batch);
            assert(before[intended_parent as int].children + batch
                =~= before[intended_parent as int].children.push(intended_child));
        }
        Self::add_child(forest, intended_parent, intended_child, Ghost(target));
        Self::set_parent(forest, intended_child, intended_parent);
        proof {
            assert forall|m: int| 0 <= m < target.len() implies forest@[m] == target[m] by {
                lemma_root_of(before, m);
                if root_of(before, m) == intended_child {
                    lemma_attached_subtree(before, intended_parent, batch, m);
                }
            }
            assert(forest@ =~= target);
        }
        Ok(())
    }

    /// Makes the nodes of `intended_children`, all roots, the last children of
    /// `intended_parent`, in their order.
    ///
    /// Fails, and changes nothing, exactly when one of them already has a
    /// parent; the error then names the position of each such candidate.
    /// Otherwise every candidate is attached, and each of their subtrees moves
    /// below `intended_parent`.
    ///
    /// A root cannot go below a node of its own tree: the caller tells with
    /// [`Forest::root_of`] whether a candidate is the root above
    /// `intended_parent`.
    pub fn set_multiple_relationships(
        forest: &mut Forest<T>,
        intended_parent: usize,
        intended_children: &[usize],
    ) -> (outcome: Result<(), AlreadyAttached>)
        requires
            old(forest).wf(),
            intended_parent < old(forest)@.len(),
            forall|i: int|
                0 <= i < intended_children@.len() ==> (#[trigger] intended_children@[i]) < old(
                    forest,
                )@.len(),
            (forall|i: int|
                0 <= i < intended_children@.len() ==> old(
                    forest,
                )@[(#[trigger] intended_children@[i]) as int].parent is None)
                ==> forall|i: int|
                0 <= i < intended_children@.len() ==> (#[trigger] intended_children@[i])
                    != root_of(old(forest)@, intended_parent as int),
        ensures
            final(forest).wf(),
            outcome is Ok <==> forall|i: int|
                0 <= i < intended_children@.len() ==> old(
                    forest,
                )@[(#[trigger] intended_children@[i]) as int].parent is None,
            match outcome {
                Ok(_) => final(forest)@ == attached(
                    old(forest)@,
                    intended_parent,
                    intended_children@,
                ),
                Err(error) => *final(forest) == *old(forest) && error.positions@
                    == attached_positions(old(forest)@, intended_children@),
            },
    {
        let ghost before = forest@;
        let ghost batch = intended_children@;
        let count = intended_children.len();
        let mut positions: Vec<usize> = Vec::new();
        let mut i: usize = 0;
        while i < count
            invariant
                i <= count,
                count == batch.len(),
                batch == intended_children@,
                forest@ == before,
                forall|k: int| 0 <= k < batch.len() ==> (#[trigger] batch[k]) < before.len(),
                positions@ == attached_positions(before, batch.take(i as int)),
            decreases count - i,
        {
            proof {
                assert(batch.take(i + 1).drop_last() =~= batch.take(i as int));
            }
            if forest.nodes[intended_children[i]].parent.is_some() {
                positions.push(i);
            }
            i += 1;
        }
        proof {
            assert(batch.take(i as int) =~= batch);
            lemma_attached_positions(before, batch);
        }
        if positions.len() != 0 {
            proof {
                assert(before[batch[positions@[0] as int] as int].parent is Some);
            }
            return Err(AlreadyAttached { positions });
        }
        let ghost target = attached(before, intended_parent, batch);
        proof {
            lemma_root_of(before, intended_parent as int);
            lemma_attached_well_formed(before, intended_parent, batch);
        }
        i = 0;
        while i < count
            invariant
                i <= count,
                count == batch.len(),
                batch == intended_children@,
                forest@.len() == before.len(),
                before.len() <= usize::MAX,
                forall|k: int| 0 <= k < batch.len() ==> (#[trigger] batch[k]) < before.len(),
                forall|m: int|
                    0 <= m < before.len() ==> (#[trigger] forest@[m]) == (NodeView {
                        parent: if batch.take(i as int).contains(m as usize) {
                            Some(intended_parent)
                        } else {
                            before[m].parent
                        },
                        ..before[m]
                    }),
            decreases count - i,
        {
            Self::set_parent(forest, intended_children[i], intended_parent);
            proof {
                lemma_take_contains(batch, i as int);
            }
            i += 1;
        }
        Self::add_children(forest, intended_parent, intended_children);
        Self::update_children_depth(forest, intended_parent, Ghost(target));
        proof {
            assert forall|m: int| 0 <= m < target.len() implies forest@[m] == target[m] by {
                if batch.contains(root_of(before, m) as usize) {
                    lemma_attached_subtree(before, intended_parent, batch, m);
                }
            }
            assert(forest@ =~= target);
        }
        Ok(())
    }

    /// Takes `node` alone out of its tree and leaves it isolated.
    ///
    /// Its children become children of its parent, after the children that
    /// the parent keeps and in their order; where `node` is a root, they
    /// become roots. Every node below `node` rises by one level.
    pub fn remove_node(forest: &mut Forest<T>, node: usize)
        requires
            old(forest).wf(),
            node < old(forest)@.len(),
        ensures
            final(forest).wf(),
            final(forest)@ == excised(old(forest)@, node),
    {
        let ghost before = forest@;
        let ghost target = excised(before, node);
        let ghost listed = before[node as int].children;
        proof {
            lemma_excised_well_formed(before, node);
            assert(node_ok(before, node as int));
        }
        let mut moved: Vec<usize> = Vec::new();
        std::mem::swap(&mut moved, &mut forest.nodes[node].children);
        let count = moved.len();
        match forest.nodes[node].parent {
            Some(parent) => {
                let mut i: usize = 0;
                while i < count
                    invariant
                        i <= count,
                        count == listed.len(),
                        moved@ == listed,
                        well_formed(before),
                        node < before.len(),
                        parent < before.len(),
                        listed == before[node as int].children,
                        forest@.len() == before.len(),
                        forall|m: int|
                            0 <= m < before.len() ==> (#[trigger] forest@[m]) == (NodeView {
                                parent: if listed.take(i as int).contains(m as usize) {
                                    Some(parent)
                                } else {
                                    before[m].parent
                                },
                                children: if m == node {
                                    Seq::empty()
                                } else {
                                    before[m].children
                                },
                                ..before[m]
                            }),
                    decreases count - i,
                {
                    proof {
                        assert(node_ok(before, node as int));
                    }
                    Self::set_parent(forest, moved[i], parent);
                    proof {
                        lemma_take_contains(listed, i as int);
                    }
                    i += 1;
                }
                Self::remove_child(forest, parent, node);
                Self::transfer_children(forest, parent, moved);
                proof {
                    assert(listed.take(i as int) =~= listed);
                    if in_subtree(before, node as int, parent as int) {
                        lemma_subtree_root(before, node as int, parent as int);
                    }
                }
                Self::update_children_depth(forest, parent, Ghost(target));
                let ghost levelled = forest@;
                forest.nodes[node].depth_level = 0;
                forest.nodes[node].parent = None;
                assert(forest@ =~= levelled.update(
                    node as int,
                    NodeView { parent: None, depth: 0, ..levelled[node as int] },
                ));
                proof {
                    assert forall|m: int| 0 <= m < target.len() implies forest@[m]
                        == target[m] by {
                        assert(node_ok(before, m));
                        if listed.contains(m as usize) {
                            let j = listed.index_of(m as usize);
                            assert(before[listed[j] as int].parent == Some(node));
                        }
                        if m != node && in_subtree(before, node as int, m) {
                            let j = lemma_subtree_down(before, node as int, m);
                            let c = listed[j] as int;
                            lemma_excised_subtree(before, node, c, m);
                            lemma_subtree_up(target, parent as int, c, m);
                        }
                    }
                    assert(forest@ =~= target);
                }
            },
            None => {
                let mut i: usize = 0;
                while i < count
                    invariant
                        i <= count,
                        count == listed.len(),
                        moved@ == listed,
                        well_formed(before),
                        well_formed(target),
                        target == excised(before, node),
                        node < before.len(),
                        before[node as int].parent is None,
                        listed == before[node as int].children,
                        forest@.len() == before.len(),
                        forall|m: int|
                            0 <= m < before.len() ==> {
                                &&& (#[trigger] forest@[m]).value == before[m].value
                                &&& forest@[m].children == target[m].children
                                &&& forest@[m].parent == if listed.take(i as int).contains(
                                    m as usize,
                                ) {
                                    None
                                } else {
                                    before[m].parent
                                }
                                &&& (forest@[m].depth == before[m].depth || forest@[m].depth
                                    == target[m].depth)
                            },
                        forall|j: int, m: int|
                            0 <= j < i && 0 <= m < before.len() && #[trigger] in_subtree(
                                target,
                                listed[j] as int,
                                m,
                            ) ==> forest@[m].depth == target[m].depth,
                    decreases count - i,
                {
                    let orphan = moved[i];
                    proof {
                        assert(node_ok(before, node as int));
                        lemma_parent_step(before, orphan as int);
                        assert(in_subtree(before, node as int, node as int));
                    }
                    let ghost held = forest@;
                    forest.nodes[orphan].parent = None;
                    forest.nodes[orphan].depth_level = 0;
                    assert(forest@ =~= held.update(
                        orphan as int,
                        NodeView { parent: None, depth: 0, ..held[orphan as int] },
                    ));
                    Self::update_children_depth(forest, orphan, Ghost(target));
                    proof {
                        lemma_take_contains(listed, i as int);
                    }
                    i += 1;
                }
                proof {
                    assert(listed.take(i as int) =~= listed);
                    assert forall|m: int| 0 <= m < target.len() implies forest@[m]
                        == target[m] by {
                        assert(node_ok(before, m));
                        if listed.contains(m as usize) {
                            let j = listed.index_of(m as usize);
                            assert(before[listed[j] as int].parent == Some(node));
                        }
                        if m != node && in_subtree(before, node as int, m) {
                            let j = lemma_subtree_down(before, node as int, m);
                            let c = listed[j] as int;
                            lemma_excised_subtree(before, node, c, m);
                        }
                    }
                    assert(forest@ =~= target);
                }
            },
        }
    }

    /// Cuts `origin_node` from its parent together with its whole subtree.
    ///
    /// The subtree keeps its shape and becomes a tree of its own, with
    /// `origin_node` at depth 0. Where `origin_node` is a root already,
    /// nothing changes.
    pub fn remove_subtree(forest: &mut Forest<T>, origin_node: usize)
        requires
            old(forest).wf(),
            origin_node < old(forest)@.len(),
        ensures
            final(forest).wf(),
            final(forest)@ == detached(old(forest)@, origin_node),
            old(forest)@[origin_node as int].parent is None ==> *final(forest) == *old(forest),
    {
        let ghost before = forest@;
        let ghost target = detached(before, origin_node);
        proof {
            lemma_detached_well_formed(before, origin_node);
            lemma_parent_step(before, origin_node as int);
        }
        match forest.nodes[origin_node].parent {
            Some(parent) => {
                forest.nodes[origin_node].parent = None;
                Self::remove_child(forest, parent, origin_node);
                let ghost unlisted = forest@;
                assert(unlisted.len() == before.len());
                forest.nodes[origin_node].depth_level = 0;
                assert(forest@ =~= unlisted.update(
                    origin_node as int,
                    NodeView { depth: 0, ..unlisted[origin_node as int] },
                ));
                Self::update_children_depth(forest, origin_node, Ghost(target));
                proof {
                    assert forall|m: int| 0 <= m < target.len() implies forest@[m]
                        == target[m] by {
                        if in_subtree(before, origin_node as int, m) {
                            lemma_detached_subtree(before, origin_node, m);
                        }
                    }
                    assert(forest@ =~= target);
                }
            },
            None => {},
        }
    }
}

} // verus!
