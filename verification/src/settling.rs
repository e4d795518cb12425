//! What holds of a scene tree after its transforms were updated: the nodes
//! that the update reaches have the product of their parent's cached
//! transform and their own local transform as their cached transform, and
//! the other nodes are as they were.

use crate::propagation::{
    lemma_dirty_below_holds_the_stale, lemma_subtree_keeps_shape, lemma_visited_keeps_shape,
    same_shape,
};
use crate::scene_tree::{NodeHandle, SceneTreeView};
use vstd::prelude::*;

verus! {

impl<T> SceneTreeView<T> {
    /// Children have larger indices than their parents, and the children
    /// lists agree with the declared parents.
    pub open spec fn linked(self) -> bool {
        &&& self.children_ascend()
        &&& self.links_agree()
    }

    /// The node `v` declares a parent of smaller index.
    pub open spec fn has_parent_below(self, v: int) -> bool {
        &&& 0 <= v < self.nodes.len()
        &&& self.nodes[v].parent matches Some(p) && p.0 < v
    }

    /// The node `x` is the node `v` or lies above it: following the declared
    /// parents from `v`, each of smaller index than its child, leads to `x`.
    pub open spec fn reaches(self, x: int, v: int) -> bool
        decreases v,
    {
        v == x || (self.has_parent_below(v) && self.reaches(
            x,
            self.nodes[v].parent.unwrap().0 as int,
        ))
    }

    /// The node `v` is not stale, and its cached transform is the product of
    /// its parent's cached transform and its own local transform.
    pub open spec fn settled(self, v: int, product: spec_fn(T, T) -> T) -> bool {
        &&& !self.nodes[v].dirty
        &&& self.nodes[v].cached_transform == product(
            self.nodes[self.nodes[v].parent.unwrap().0 as int].cached_transform,
            self.nodes[v].local_transform,
        )
    }

    /// The node `v` is one of the nodes `kids` or lies below one.
    pub open spec fn below_any(self, kids: Seq<NodeHandle>, v: int) -> bool {
        exists|k: int| 0 <= k < kids.len() && self.reaches((#[trigger] kids[k]).0 as int, v)
    }

    /// The node `v` is one of the nodes on `stack` or lies below one.
    pub open spec fn below_stack(self, stack: Seq<usize>, v: int) -> bool {
        exists|k: int| 0 <= k < stack.len() && self.reaches((#[trigger] stack[k]) as int, v)
    }

    /// The update reaches the node `v`: it is stale or lies below a stale
    /// node.
    pub open spec fn reached(self, v: int) -> bool {
        exists|d: int|
            0 <= d < self.nodes.len() && (#[trigger] self.nodes[d]).dirty && self.reaches(d, v)
    }
}

/// A node that lies above another has no larger index.
pub proof fn lemma_reaches_from_above<T>(shape: SceneTreeView<T>, x: int, v: int)
    requires
        shape.reaches(x, v),
    ensures
        x <= v,
    decreases v,
{
    if v != x {
        lemma_reaches_from_above(shape, x, shape.nodes[v].parent.unwrap().0 as int);
    }
}

/// What lies below a node lies below that node's parent.
pub proof fn lemma_reaches_through_parent<T>(shape: SceneTreeView<T>, x: int, c: int, v: int)
    requires
        shape.has_parent_below(c),
        shape.nodes[c].parent == Some(NodeHandle(x as usize)),
        0 <= x <= usize::MAX,
        shape.reaches(c, v),
    ensures
        shape.reaches(x, v),
    decreases v,
{
    if v == c {
        assert(shape.reaches(x, x));
    } else {
        lemma_reaches_through_parent(shape, x, c, shape.nodes[v].parent.unwrap().0 as int);
    }
}

/// What lies below a node and is not that node lies below one of the node's
/// children or is one.
pub proof fn lemma_reaches_through_child<T>(shape: SceneTreeView<T>, x: int, v: int)
    requires
        shape.linked(),
        shape.nodes.len() <= usize::MAX,
        0 <= x < shape.nodes.len(),
        0 <= v < shape.nodes.len(),
        shape.reaches(x, v),
        v != x,
    ensures
        shape.below_any(shape.nodes[x].children, v),
    decreases v,
{
    let kids = shape.nodes[x].children;
    let p = shape.nodes[v].parent.unwrap().0 as int;
    if p == x {
        assert(kids.contains(NodeHandle(v as usize)));
        let k = choose|k: int| 0 <= k < kids.len() && kids[k] == NodeHandle(v as usize);
        assert(shape.reaches(kids[k].0 as int, v));
    } else {
        lemma_reaches_through_child(shape, x, p);
        let k = choose|k: int| 0 <= k < kids.len() && shape.reaches((#[trigger] kids[k]).0 as int, p);
        assert(shape.reaches(kids[k].0 as int, v));
    }
}

/// After the subtree of the node `x` was visited, the nodes below `x` are
/// settled, `x` is as its visit left it, and the nodes that do not lie
/// below `x` are as they were.
pub proof fn lemma_subtree_settles<T>(
    shape: SceneTreeView<T>,
    tree: SceneTreeView<T>,
    x: int,
    product: spec_fn(T, T) -> T,
)
    requires
        shape.linked(),
        shape.nodes.len() <= usize::MAX,
        same_shape(shape, tree),
        0 <= x < tree.nodes.len(),
    ensures
        ({
            let after = tree.subtree_visited(tree.nodes.len() as int, x, product);
            &&& same_shape(shape, after)
            &&& after.nodes[x] == tree.visited(x, product).nodes[x]
            &&& forall|v: int|
                0 <= v < tree.nodes.len() && v != x && shape.reaches(x, v) ==> #[trigger] after.settled(
                    v,
                    product,
                )
            &&& forall|v: int|
                0 <= v < tree.nodes.len() && !shape.reaches(x, v) ==> #[trigger] after.nodes[v]
                    == tree.nodes[v]
        }),
    decreases tree.nodes.len() - x, 1int, 0int,
{
    let n = tree.nodes.len() as int;
    let first = tree.visited(x, product);
    let kids = tree.nodes[x].children;
    assert(shape.nodes[x].children == kids);
    lemma_visited_keeps_shape(tree, x, product);
    assert forall|k: int| 0 <= k < kids.len() implies x < (#[trigger] kids[k]).0 < n
        && shape.nodes[kids[k].0 as int].parent == Some(NodeHandle(x as usize)) by {
        assert(x < shape.nodes[x].children[k].0 < n);
    }
    lemma_children_settle(shape, first, x, kids, product);
    lemma_subtree_keeps_shape(tree, x, product);
    let after = first.children_visited(n, x, kids, product);
    assert(after == tree.subtree_visited(n, x, product));
    assert(!shape.below_any(kids, x)) by {
        if shape.below_any(kids, x) {
            let k = choose|k: int| 0 <= k < kids.len() && shape.reaches((#[trigger] kids[k]).0 as int, x);
            lemma_reaches_from_above(shape, kids[k].0 as int, x);
        }
    }
    assert forall|v: int| 0 <= v < n && v != x && shape.reaches(x, v) implies #[trigger] after.settled(
        v,
        product,
    ) by {
        lemma_reaches_through_child(shape, x, v);
    }
    assert forall|v: int| 0 <= v < n && !shape.reaches(x, v) implies #[trigger] after.nodes[v]
        == tree.nodes[v] by {
        if shape.below_any(kids, v) {
            let k = choose|k: int| 0 <= k < kids.len() && shape.reaches((#[trigger] kids[k]).0 as int, v);
            lemma_reaches_through_parent(shape, x, kids[k].0 as int, v);
        }
        assert(shape.reaches(x, x));
    }
}

/// After the subtrees of `kids`, children of the node `x`, were visited,
/// the nodes `kids` and the nodes below them are settled, and the other
/// nodes are as they were.
pub proof fn lemma_children_settle<T>(
    shape: SceneTreeView<T>,
    tree: SceneTreeView<T>,
    x: int,
    kids: Seq<NodeHandle>,
    product: spec_fn(T, T) -> T,
)
    requires
        shape.linked(),
        shape.nodes.len() <= usize::MAX,
        same_shape(shape, tree),
        0 <= x < tree.nodes.len(),
        forall|k: int|
            0 <= k < kids.len() ==> x < (#[trigger] kids[k]).0 < tree.nodes.len()
                && shape.nodes[kids[k].0 as int].parent == Some(NodeHandle(x as usize)),
    ensures
        ({
            let after = tree.children_visited(tree.nodes.len() as int, x, kids, product);
            &&& same_shape(shape, after)
            &&& forall|v: int|
                0 <= v < tree.nodes.len() && shape.below_any(kids, v) ==> #[trigger] after.settled(
                    v,
                    product,
                )
            &&& forall|v: int|
                0 <= v < tree.nodes.len() && !shape.below_any(kids, v) ==> #[trigger] after.nodes[v]
                    == tree.nodes[v]
        }),
    decreases tree.nodes.len() - x, 0int, kids.len(),
{
    let n = tree.nodes.len() as int;
    if kids.len() > 0 {
        let c = kids.last().0 as int;
        let rest = kids.drop_last();
        assert(x < kids[kids.len() - 1].0 < n);
        assert(shape.nodes[c].parent == Some(NodeHandle(x as usize)));
        lemma_subtree_settles(shape, tree, c, product);
        let next = tree.subtree_visited(n, c, product);
        assert forall|k: int| 0 <= k < rest.len() implies x < (#[trigger] rest[k]).0 < n
            && shape.nodes[rest[k].0 as int].parent == Some(NodeHandle(x as usize)) by {
            assert(rest[k] == kids[k]);
        }
        lemma_children_settle(shape, next, x, rest, product);
        let after = next.children_visited(n, x, rest, product);
        assert(after == tree.children_visited(n, x, kids, product));
        // the node `c` is settled as soon as its subtree was visited
        assert(next.settled(c, product)) by {
            assert(tree.recomputes(c));
            if shape.reaches(c, x) {
                lemma_reaches_from_above(shape, c, x);
            }
            assert(next.nodes[x] == tree.nodes[x]);
        }
        assert forall|v: int| 0 <= v < n && shape.below_any(kids, v) implies #[trigger] after.settled(
            v,
            product,
        ) by {
            if !shape.below_any(rest, v) {
                let k = choose|k: int| 0 <= k < kids.len() && shape.reaches((#[trigger] kids[k]).0 as int, v);
                if k < rest.len() {
                    assert(rest[k] == kids[k]);
                    assert(false);
                }
                assert(shape.reaches(c, v));
                assert(next.settled(v, product));
                assert(after.nodes[v] == next.nodes[v]);
                // the parent of `v` was not visited again either
                let q = shape.nodes[v].parent.unwrap().0 as int;
                if shape.below_any(rest, q) {
                    let j = choose|j: int|
                        0 <= j < rest.len() && shape.reaches((#[trigger] rest[j]).0 as int, q);
                    if v == c {
                        lemma_reaches_from_above(shape, rest[j].0 as int, q);
                        assert(rest[j] == kids[j]);
                        assert(false);
                    } else {
                        assert(shape.reaches(rest[j].0 as int, v));
                        assert(false);
                    }
                }
                assert(after.nodes[q] == next.nodes[q]);
            }
        }
        assert forall|v: int| 0 <= v < n && !shape.below_any(kids, v) implies #[trigger] after.nodes[v]
            == tree.nodes[v] by {
            if shape.below_any(rest, v) {
                let j = choose|j: int|
                    0 <= j < rest.len() && shape.reaches((#[trigger] rest[j]).0 as int, v);
                assert(rest[j] == kids[j]);
                assert(false);
            }
            if shape.reaches(c, v) {
                assert(shape.reaches(kids[kids.len() - 1].0 as int, v));
                assert(false);
            }
        }
    } else {
        assert forall|v: int| 0 <= v < n implies !shape.below_any(kids, v) by {}
    }
}

/// After a stack was visited, the nodes on it that declare a parent of
/// smaller index and all nodes below the nodes on it are settled, and the
/// nodes that are neither on the stack nor below a node on it are as they
/// were.
pub proof fn lemma_stack_settles<T>(
    shape: SceneTreeView<T>,
    tree: SceneTreeView<T>,
    stack: Seq<usize>,
    product: spec_fn(T, T) -> T,
)
    requires
        shape.linked(),
        shape.nodes.len() <= usize::MAX,
        same_shape(shape, tree),
        forall|k: int| 0 <= k < stack.len() ==> stack[k] < tree.nodes.len(),
    ensures
        ({
            let after = tree.stack_visited(stack, product);
            &&& same_shape(shape, after)
            &&& forall|v: int|
                shape.has_parent_below(v) && shape.below_stack(stack, v) ==> #[trigger] after.settled(
                    v,
                    product,
                )
            &&& forall|v: int|
                0 <= v < tree.nodes.len() && !shape.below_stack(stack, v) ==> #[trigger] after.nodes[v]
                    == tree.nodes[v]
        }),
    decreases stack.len(),
{
    let n = tree.nodes.len() as int;
    if stack.len() > 0 {
        let s = stack.last() as int;
        let rest = stack.drop_last();
        assert(stack[stack.len() - 1] < n);
        lemma_subtree_settles(shape, tree, s, product);
        let next = tree.subtree_visited(n, s, product);
        assert forall|k: int| 0 <= k < rest.len() implies rest[k] < next.nodes.len() by {
            assert(rest[k] == stack[k]);
        }
        lemma_stack_settles(shape, next, rest, product);
        let after = next.stack_visited(rest, product);
        assert(after == tree.stack_visited(stack, product));
        assert forall|v: int|
            shape.has_parent_below(v) && shape.below_stack(stack, v) implies #[trigger] after.settled(
            v,
            product,
        ) by {
            if !shape.below_stack(rest, v) {
                let k = choose|k: int|
                    0 <= k < stack.len() && shape.reaches((#[trigger] stack[k]) as int, v);
                if k < rest.len() {
                    assert(rest[k] == stack[k]);
                    assert(false);
                }
                assert(shape.reaches(s, v));
                let q = shape.nodes[v].parent.unwrap().0 as int;
                if v == s {
                    assert(tree.recomputes(s));
                    if shape.reaches(s, q) {
                        lemma_reaches_from_above(shape, s, q);
                    }
                    assert(next.nodes[q] == tree.nodes[q]);
                }
                assert(next.settled(v, product));
                assert(after.nodes[v] == next.nodes[v]);
                if shape.below_stack(rest, q) {
                    let j = choose|j: int|
                        0 <= j < rest.len() && shape.reaches((#[trigger] rest[j]) as int, q);
                    assert(shape.reaches(rest[j] as int, v));
                    assert(false);
                }
                assert(after.nodes[q] == next.nodes[q]);
            }
        }
        assert forall|v: int|
            0 <= v < n && !shape.below_stack(stack, v) implies #[trigger] after.nodes[v]
            == tree.nodes[v] by {
            if shape.below_stack(rest, v) {
                let j = choose|j: int|
                    0 <= j < rest.len() && shape.reaches((#[trigger] rest[j]) as int, v);
                assert(rest[j] == stack[j]);
                assert(false);
            }
            if shape.reaches(s, v) {
                assert(shape.reaches(stack[stack.len() - 1] as int, v));
                assert(false);
            }
        }
    } else {
        assert forall|v: int| 0 <= v < n implies !shape.below_stack(stack, v) by {}
    }
}

/// The stale nodes below `upto` are stale.
pub proof fn lemma_dirty_below_are_stale<T>(tree: SceneTreeView<T>, upto: int)
    requires
        0 <= upto <= tree.nodes.len() <= usize::MAX,
    ensures
        forall|k: int|
            0 <= k < tree.dirty_below(upto).len() ==> (#[trigger] tree.dirty_below(upto)[k]) < upto
                && tree.nodes[tree.dirty_below(upto)[k] as int].dirty,
    decreases upto,
{
    if upto > 0 {
        lemma_dirty_below_are_stale(tree, upto - 1);
        let front = tree.dirty_below(upto - 1);
        assert forall|k: int| 0 <= k < tree.dirty_below(upto).len() implies (
        #[trigger] tree.dirty_below(upto)[k]) < upto && tree.nodes[tree.dirty_below(
            upto,
        )[k] as int].dirty by {
            if k < front.len() {
                assert(tree.dirty_below(upto)[k] == front[k]);
            }
        }
    }
}

/// After the transforms were updated, every node that the update reaches
/// and that declares a parent of smaller index is not stale and has the
/// product of its parent's cached transform and its own local transform as
/// its cached transform. A node that the update does not reach is as it
/// was. The update changes no parent, no children list, no local transform
/// and no model.
pub proof fn lemma_update_settles<T>(tree: SceneTreeView<T>, product: spec_fn(T, T) -> T)
    requires
        tree.well_formed(),
    ensures
        same_shape(tree, tree.propagated(product)),
        forall|v: int|
            tree.has_parent_below(v) && tree.reached(v) ==> #[trigger] tree.propagated(
                product,
            ).settled(v, product),
        forall|v: int|
            0 <= v < tree.nodes.len() && !tree.reached(v) ==> #[trigger] tree.propagated(
                product,
            ).nodes[v] == tree.nodes[v],
{
    let n = tree.nodes.len() as int;
    let stack = tree.dirty_below(n);
    let after = tree.propagated(product);
    assert(tree.topology() =~= tree.topology());
    lemma_dirty_below_are_stale(tree, n);
    lemma_stack_settles(tree, tree, stack, product);
    assert forall|v: int| tree.has_parent_below(v) && tree.reached(v) implies #[trigger] after.settled(
        v,
        product,
    ) by {
        let d = choose|d: int|
            0 <= d < tree.nodes.len() && (#[trigger] tree.nodes[d]).dirty && tree.reaches(d, v);
        lemma_dirty_below_holds_the_stale(tree, n, d);
        let k = choose|k: int| 0 <= k < stack.len() && #[trigger] stack[k] == d;
        assert(tree.reaches(stack[k] as int, v));
        assert(tree.below_stack(stack, v));
    }
    assert forall|v: int| 0 <= v < n && !tree.reached(v) implies #[trigger] after.nodes[v]
        == tree.nodes[v] by {
        if tree.below_stack(stack, v) {
            let k = choose|k: int|
                0 <= k < stack.len() && tree.reaches((#[trigger] stack[k]) as int, v);
            assert(tree.nodes[stack[k] as int].dirty);
            assert(false);
        }
    }
}

impl<T> SceneTreeView<T> {
    /// The product of the local transforms on the way to the node `v`: the
    /// local transform of a node that declares no parent of smaller index,
    /// else the product of what its parent has and its own local transform.
    pub open spec fn path_product(self, v: int, product: spec_fn(T, T) -> T) -> T
        decreases v,
    {
        if self.has_parent_below(v) {
            product(
                self.path_product(self.nodes[v].parent.unwrap().0 as int, product),
                self.nodes[v].local_transform,
            )
        } else {
            self.nodes[v].local_transform
        }
    }

    /// On the way to the node `v`, every node that declares a parent of
    /// smaller index is settled, and the node at the top has its local
    /// transform as its cached transform.
    pub open spec fn path_settled(self, v: int, product: spec_fn(T, T) -> T) -> bool
        decreases v,
    {
        if self.has_parent_below(v) {
            self.settled(v, product) && self.path_settled(
                self.nodes[v].parent.unwrap().0 as int,
                product,
            )
        } else {
            self.nodes[v].cached_transform == self.nodes[v].local_transform
        }
    }
}

/// Where every node on the way to a node is settled, the node's cached
/// transform is the product of the local transforms on the way.
pub proof fn lemma_settled_path_is_product<T>(
    tree: SceneTreeView<T>,
    v: int,
    product: spec_fn(T, T) -> T,
)
    requires
        tree.path_settled(v, product),
    ensures
        tree.nodes[v].cached_transform == tree.path_product(v, product),
    decreases v,
{
    if tree.has_parent_below(v) {
        lemma_settled_path_is_product(tree, tree.nodes[v].parent.unwrap().0 as int, product);
    }
}

impl<T> SceneTreeView<T> {
    /// The instance that the node `v` places, where it places one, has the
    /// node's cached transform.
    pub open spec fn instance_in_step(self, v: int) -> bool {
        match (self.nodes[v].model, self.nodes[v].instance_id) {
            (Some(m), Some(id)) => m.0 < self.models.len() && id.0 < self.models[m.0 as int].len()
                ==> self.models[m.0 as int][id.0 as int] == self.nodes[v].cached_transform,
            _ => true,
        }
    }
}

/// Visiting a node that recomputes puts its instance in step, and visiting
/// any node leaves the instances of the other nodes in step.
pub proof fn lemma_visit_keeps_instances<T>(
    tree: SceneTreeView<T>,
    i: int,
    product: spec_fn(T, T) -> T,
    v: int,
)
    requires
        tree.instances_exist(),
        tree.instances_distinct(),
        0 <= v < tree.nodes.len(),
        tree.instance_in_step(v) || (v == i && tree.recomputes(i)),
    ensures
        tree.visited(i, product).instance_in_step(v),
{
    if tree.recomputes(i) && v != i {
        if v < i {
            assert(tree.nodes[v].model.is_some() && tree.nodes[v].model == tree.nodes[i].model
                ==> tree.nodes[v].instance_id != tree.nodes[i].instance_id);
        } else {
            assert(tree.nodes[i].model.is_some() && tree.nodes[i].model == tree.nodes[v].model
                ==> tree.nodes[i].instance_id != tree.nodes[v].instance_id);
        }
    }
}

/// The two clauses of the invariant that speak of instances hold of every
/// tree of the same shape.
pub proof fn lemma_shape_keeps_instances<T>(shape: SceneTreeView<T>, tree: SceneTreeView<T>)
    requires
        same_shape(shape, tree),
        shape.instances_exist(),
        shape.instances_distinct(),
    ensures
        tree.instances_exist(),
        tree.instances_distinct(),
{
    assert forall|i: int| 0 <= i < tree.nodes.len() implies match (
    #[trigger] tree.nodes[i]).model {
        Some(m) => m.0 < tree.models.len() && (tree.nodes[i].instance_id matches Some(id)
            && id.0 < tree.models[m.0 as int].len()),
        None => tree.nodes[i].instance_id.is_none(),
    } by {
        assert(shape.nodes[i].model == tree.nodes[i].model);
    }
    assert forall|i: int, j: int|
        0 <= i < j < tree.nodes.len() && (#[trigger] tree.nodes[i]).model.is_some()
            && tree.nodes[i].model == (#[trigger] tree.nodes[j]).model implies tree.nodes[i].instance_id
        != tree.nodes[j].instance_id by {
        assert(shape.nodes[i].model == tree.nodes[i].model);
        assert(shape.nodes[j].model == tree.nodes[j].model);
    }
}

/// After the subtree of the node `x` was visited, the instances that were
/// in step are in step, and so are those of the nodes below `x`, and that
/// of `x` where it recomputes.
pub proof fn lemma_subtree_places_instances<T>(
    shape: SceneTreeView<T>,
    tree: SceneTreeView<T>,
    x: int,
    product: spec_fn(T, T) -> T,
)
    requires
        shape.linked(),
        shape.instances_exist(),
        shape.instances_distinct(),
        shape.nodes.len() <= usize::MAX,
        same_shape(shape, tree),
        0 <= x < tree.nodes.len(),
    ensures
        ({
            let after = tree.subtree_visited(tree.nodes.len() as int, x, product);
            &&& same_shape(shape, after)
            &&& forall|v: int|
                0 <= v < tree.nodes.len() && (tree.instance_in_step(v) || (v != x && shape.reaches(
                    x,
                    v,
                )) || (v == x && tree.recomputes(x))) ==> #[trigger] after.instance_in_step(v)
        }),
    decreases tree.nodes.len() - x, 1int, 0int,
{
    let n = tree.nodes.len() as int;
    let first = tree.visited(x, product);
    let kids = tree.nodes[x].children;
    assert(shape.nodes[x].children == kids);
    lemma_visited_keeps_shape(tree, x, product);
    lemma_shape_keeps_instances(shape, tree);
    assert forall|k: int| 0 <= k < kids.len() implies x < (#[trigger] kids[k]).0 < n
        && shape.nodes[kids[k].0 as int].parent == Some(NodeHandle(x as usize)) by {
        assert(x < shape.nodes[x].children[k].0 < n);
    }
    lemma_children_place_instances(shape, first, x, kids, product);
    lemma_subtree_keeps_shape(tree, x, product);
    let after = first.children_visited(n, x, kids, product);
    assert forall|v: int|
        0 <= v < n && (tree.instance_in_step(v) || (v != x && shape.reaches(x, v)) || (v == x
            && tree.recomputes(x))) implies #[trigger] after.instance_in_step(v) by {
        if v != x && shape.reaches(x, v) {
            lemma_reaches_through_child(shape, x, v);
        } else {
            lemma_visit_keeps_instances(tree, x, product, v);
        }
    }
}

/// After the subtrees of `kids`, children of the node `x`, were visited,
/// the instances that were in step are in step, and so are those of the
/// nodes `kids` and of the nodes below them.
pub proof fn lemma_children_place_instances<T>(
    shape: SceneTreeView<T>,
    tree: SceneTreeView<T>,
    x: int,
    kids: Seq<NodeHandle>,
    product: spec_fn(T, T) -> T,
)
    requires
        shape.linked(),
        shape.instances_exist(),
        shape.instances_distinct(),
        shape.nodes.len() <= usize::MAX,
        same_shape(shape, tree),
        0 <= x < tree.nodes.len(),
        forall|k: int|
            0 <= k < kids.len() ==> x < (#[trigger] kids[k]).0 < tree.nodes.len()
                && shape.nodes[kids[k].0 as int].parent == Some(NodeHandle(x as usize)),
    ensures
        ({
            let after = tree.children_visited(tree.nodes.len() as int, x, kids, product);
            &&& same_shape(shape, after)
            &&& forall|v: int|
                0 <= v < tree.nodes.len() && (tree.instance_in_step(v) || shape.below_any(kids, v))
                    ==> #[trigger] after.instance_in_step(v)
        }),
    decreases tree.nodes.len() - x, 0int, kids.len(),
{
    let n = tree.nodes.len() as int;
    if kids.len() > 0 {
        let c = kids.last().0 as int;
        let rest = kids.drop_last();
        assert(x < kids[kids.len() - 1].0 < n);
        assert(shape.nodes[c].parent == Some(NodeHandle(x as usize)));
        lemma_subtree_places_instances(shape, tree, c, product);
        let next = tree.subtree_visited(n, c, product);
        assert forall|k: int| 0 <= k < rest.len() implies x < (#[trigger] rest[k]).0 < n
            && shape.nodes[rest[k].0 as int].parent == Some(NodeHandle(x as usize)) by {
            assert(rest[k] == kids[k]);
        }
        lemma_children_place_instances(shape, next, x, rest, product);
        let after = next.children_visited(n, x, rest, product);
        assert(after == tree.children_visited(n, x, kids, product));
        assert(tree.recomputes(c));
        assert forall|v: int|
            0 <= v < n && (tree.instance_in_step(v) || shape.below_any(kids, v)) implies #[trigger] after.instance_in_step(
            v,
        ) by {
            if !tree.instance_in_step(v) && !shape.below_any(rest, v) {
                let k = choose|k: int|
                    0 <= k < kids.len() && shape.reaches((#[trigger] kids[k]).0 as int, v);
                if k < rest.len() {
                    assert(rest[k] == kids[k]);
                    assert(false);
                }
                assert(shape.reaches(c, v));
                assert(next.instance_in_step(v));
            }
            if tree.instance_in_step(v) {
                assert(next.instance_in_step(v));
            }
        }
    }
}

/// After a stack was visited, the instances that were in step are in step,
/// and so are those of the nodes on the stack that declare a parent of
/// smaller index and of all nodes below the nodes on the stack.
pub proof fn lemma_stack_places_instances<T>(
    shape: SceneTreeView<T>,
    tree: SceneTreeView<T>,
    stack: Seq<usize>,
    product: spec_fn(T, T) -> T,
)
    requires
        shape.linked(),
        shape.instances_exist(),
        shape.instances_distinct(),
        shape.nodes.len() <= usize::MAX,
        same_shape(shape, tree),
        forall|k: int| 0 <= k < stack.len() ==> stack[k] < tree.nodes.len(),
    ensures
        ({
            let after = tree.stack_visited(stack, product);
            &&& same_shape(shape, after)
            &&& forall|v: int|
                0 <= v < tree.nodes.len() && (tree.instance_in_step(v) || (shape.has_parent_below(
                    v,
                ) && shape.below_stack(stack, v))) ==> #[trigger] after.instance_in_step(v)
        }),
    decreases stack.len(),
{
    let n = tree.nodes.len() as int;
    if stack.len() > 0 {
        let s = stack.last() as int;
        let rest = stack.drop_last();
        assert(stack[stack.len() - 1] < n);
        lemma_subtree_places_instances(shape, tree, s, product);
        let next = tree.subtree_visited(n, s, product);
        assert forall|k: int| 0 <= k < rest.len() implies rest[k] < next.nodes.len() by {
            assert(rest[k] == stack[k]);
        }
        lemma_stack_places_instances(shape, next, rest, product);
        let after = next.stack_visited(rest, product);
        assert(after == tree.stack_visited(stack, product));
        assert forall|v: int|
            0 <= v < n && (tree.instance_in_step(v) || (shape.has_parent_below(v)
                && shape.below_stack(stack, v))) implies #[trigger] after.instance_in_step(v) by {
            if !tree.instance_in_step(v) && !shape.below_stack(rest, v) {
                let k = choose|k: int|
                    0 <= k < stack.len() && shape.reaches((#[trigger] stack[k]) as int, v);
                if k < rest.len() {
                    assert(rest[k] == stack[k]);
                    assert(false);
                }
                assert(shape.reaches(s, v));
                if v == s {
                    assert(tree.recomputes(s));
                }
                assert(next.instance_in_step(v));
            }
            if tree.instance_in_step(v) {
                assert(next.instance_in_step(v));
            }
        }
    }
}

/// After the transforms were updated, the instance of every node that the
/// update reaches and that declares a parent of smaller index holds the
/// node's new cached transform, and an instance that held its node's cached
/// transform before holds it after.
pub proof fn lemma_update_places_instances<T>(tree: SceneTreeView<T>, product: spec_fn(T, T) -> T)
    requires
        tree.well_formed(),
    ensures
        forall|v: int|
            0 <= v < tree.nodes.len() && (tree.instance_in_step(v) || (tree.has_parent_below(v)
                && tree.reached(v))) ==> #[trigger] tree.propagated(product).instance_in_step(v),
{
    let n = tree.nodes.len() as int;
    let stack = tree.dirty_below(n);
    let after = tree.propagated(product);
    assert(tree.topology() =~= tree.topology());
    lemma_dirty_below_are_stale(tree, n);
    lemma_stack_places_instances(tree, tree, stack, product);
    assert forall|v: int|
        0 <= v < n && (tree.instance_in_step(v) || (tree.has_parent_below(v) && tree.reached(
            v,
        ))) implies #[trigger] after.instance_in_step(v) by {
        if tree.has_parent_below(v) && tree.reached(v) {
            let d = choose|d: int|
                0 <= d < tree.nodes.len() && (#[trigger] tree.nodes[d]).dirty && tree.reaches(d, v);
            lemma_dirty_below_holds_the_stale(tree, n, d);
            let k = choose|k: int| 0 <= k < stack.len() && #[trigger] stack[k] == d;
            assert(tree.reaches(stack[k] as int, v));
            assert(tree.below_stack(stack, v));
        }
    }
}

} // verus!
