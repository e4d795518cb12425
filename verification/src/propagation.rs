//! What updating the transforms of a scene tree computes, and why the
//! update ends.
//!
//! The update keeps a stack of nodes. It takes the node on top, recomputes
//! that node's cached transform from its parent's, and puts the node's
//! children on the stack. A node is therefore followed by its whole subtree,
//! last child first, before the node below it on the stack has its turn.

use crate::scene_tree::{CorruptParent, fresh_node, NodeHandle, SceneNodeView, SceneTreeView};
use vstd::prelude::*;

verus! {

impl<T> SceneTreeView<T> {
    /// The node `i` has its cached transform recomputed when it is visited:
    /// it declares a parent that is another node of the tree.
    pub open spec fn recomputes(self, i: int) -> bool {
        &&& 0 <= i < self.nodes.len()
        &&& self.nodes[i].parent matches Some(p) && p.0 != i && p.0 < self.nodes.len()
    }

    /// The tree after the node `i` got the cached transform `value`: the
    /// node is no longer stale, and the instance that it places has `value`
    /// too.
    pub open spec fn refreshed(self, i: int, value: T) -> SceneTreeView<T> {
        SceneTreeView {
            nodes: self.nodes.update(i, self.nodes[i].with_cached_transform(value)),
            models: match (self.nodes[i].model, self.nodes[i].instance_id) {
                (Some(m), Some(id)) => if m.0 < self.models.len() && id.0
                    < self.models[m.0 as int].len() {
                    self.models.update(
                        m.0 as int,
                        self.models[m.0 as int].update(id.0 as int, value),
                    )
                } else {
                    self.models
                },
                _ => self.models,
            },
            ..self
        }
    }

    /// The tree after the node `i` was visited: where it recomputes, its
    /// cached transform is the product of its parent's cached transform and
    /// its own local transform, and it is refreshed with that. A node that
    /// declares no parent, itself or a node that the tree does not have is
    /// left as it is.
    pub open spec fn visited(self, i: int, product: spec_fn(T, T) -> T) -> SceneTreeView<T> {
        if self.recomputes(i) {
            let p = self.nodes[i].parent.unwrap().0 as int;
            self.refreshed(
                i,
                product(self.nodes[p].cached_transform, self.nodes[i].local_transform),
            )
        } else {
            self
        }
    }

    /// The children lists of the nodes, by index.
    pub open spec fn topology(self) -> Seq<Seq<NodeHandle>> {
        self.nodes.map_values(|n: SceneNodeView<T>| n.children)
    }

    /// The indices of the stale nodes below `upto`, ascending.
    pub open spec fn dirty_below(self, upto: int) -> Seq<usize>
        decreases upto,
    {
        if upto <= 0 {
            Seq::empty()
        } else if self.nodes[upto - 1].dirty {
            self.dirty_below(upto - 1).push((upto - 1) as usize)
        } else {
            self.dirty_below(upto - 1)
        }
    }

    /// The tree after the node `i` and then its subtree were visited, in a
    /// tree of `n` nodes.
    pub open spec fn subtree_visited(
        self,
        n: int,
        i: int,
        product: spec_fn(T, T) -> T,
    ) -> SceneTreeView<T>
        decreases n - i, 1int, 0int,
    {
        if 0 <= i < n {
            self.visited(i, product).children_visited(n, i, self.nodes[i].children, product)
        } else {
            self
        }
    }

    /// The tree after the subtrees of `kids`, which are children of the node
    /// `i`, were visited from the last child to the first, in a tree of `n`
    /// nodes.
    pub open spec fn children_visited(
        self,
        n: int,
        i: int,
        kids: Seq<NodeHandle>,
        product: spec_fn(T, T) -> T,
    ) -> SceneTreeView<T>
        decreases n - i, 0int, kids.len(),
    {
        if kids.len() == 0 {
            self
        } else {
            let c = kids.last().0 as int;
            let next = if i < c < n {
                self.subtree_visited(n, c, product)
            } else {
                self
            };
            next.children_visited(n, i, kids.drop_last(), product)
        }
    }

    /// The tree after the subtrees of the nodes on `stack` were visited from
    /// the top of the stack, which is its end, to the bottom.
    pub open spec fn stack_visited(
        self,
        stack: Seq<usize>,
        product: spec_fn(T, T) -> T,
    ) -> SceneTreeView<T>
        decreases stack.len(),
    {
        if stack.len() == 0 {
            self
        } else {
            self.subtree_visited(
                self.nodes.len() as int,
                stack.last() as int,
                product,
            ).stack_visited(stack.drop_last(), product)
        }
    }

    /// The tree after its transforms were updated: the subtree of every
    /// stale node was visited, from the stale node of the largest index to
    /// that of the least.
    pub open spec fn propagated(self, product: spec_fn(T, T) -> T) -> SceneTreeView<T> {
        self.stack_visited(self.dirty_below(self.nodes.len() as int), product)
    }
}

/// The indices that the handles `kids` name.
pub open spec fn indices(kids: Seq<NodeHandle>) -> Seq<usize> {
    kids.map_values(|h: NodeHandle| h.0)
}

/// The number of visits that the subtree of the node `i` takes, in a tree
/// with the children lists `topology`.
pub open spec fn subtree_size(topology: Seq<Seq<NodeHandle>>, i: int) -> nat
    decreases topology.len() - i, 1int, 0int,
{
    if 0 <= i < topology.len() {
        1 + children_size(topology, i, topology[i])
    } else {
        0
    }
}

/// The number of visits that the subtrees of `kids`, children of the node
/// `i`, take.
pub open spec fn children_size(topology: Seq<Seq<NodeHandle>>, i: int, kids: Seq<NodeHandle>) -> nat
    decreases topology.len() - i, 0int, kids.len(),
{
    if kids.len() == 0 {
        0
    } else {
        let c = kids.last().0 as int;
        children_size(topology, i, kids.drop_last()) + if i < c < topology.len() {
            subtree_size(topology, c)
        } else {
            0
        }
    }
}

/// The number of visits that the subtrees of the nodes on `stack` take.
pub open spec fn stack_size(topology: Seq<Seq<NodeHandle>>, stack: Seq<usize>) -> nat
    decreases stack.len(),
{
    if stack.len() == 0 {
        0
    } else {
        stack_size(topology, stack.drop_last()) + subtree_size(topology, stack.last() as int)
    }
}

/// Visiting a node changes no parent, no children list, no local transform
/// and no model, nor the number of nodes, of models or of a model's
/// instances.
pub proof fn lemma_visited_keeps_shape<T>(
    tree: SceneTreeView<T>,
    i: int,
    product: spec_fn(T, T) -> T,
)
    ensures
        same_shape(tree, tree.visited(i, product)),
{
    let after = tree.visited(i, product);
    assert(after.topology() =~= tree.topology());
}

/// Two trees differ at most in cached transforms, stale flags and instance
/// transforms.
pub open spec fn same_shape<T>(a: SceneTreeView<T>, b: SceneTreeView<T>) -> bool {
    &&& a.identity == b.identity
    &&& a.nodes.len() == b.nodes.len()
    &&& a.models.len() == b.models.len()
    &&& a.topology() == b.topology()
    &&& forall|j: int|
        0 <= j < a.nodes.len() ==> {
            &&& (#[trigger] a.nodes[j]).parent == b.nodes[j].parent
            &&& a.nodes[j].children == b.nodes[j].children
            &&& a.nodes[j].local_transform == b.nodes[j].local_transform
            &&& a.nodes[j].model == b.nodes[j].model
            &&& a.nodes[j].instance_id == b.nodes[j].instance_id
        }
    &&& forall|m: int| 0 <= m < a.models.len() ==> (#[trigger] a.models[m]).len() == b.models[m].len()
}

/// On children that lie between their parent and the end of the tree,
/// visiting the children is visiting a stack of them.
pub proof fn lemma_children_are_a_stack<T>(
    tree: SceneTreeView<T>,
    i: int,
    kids: Seq<NodeHandle>,
    product: spec_fn(T, T) -> T,
)
    requires
        forall|k: int| 0 <= k < kids.len() ==> i < (#[trigger] kids[k]).0 < tree.nodes.len(),
    ensures
        tree.children_visited(tree.nodes.len() as int, i, kids, product) == tree.stack_visited(
            indices(kids),
            product,
        ),
    decreases kids.len(),
{
    let n = tree.nodes.len() as int;
    if kids.len() > 0 {
        let c = kids.last().0 as int;
        assert(i < kids[kids.len() - 1].0 < n);
        let next = tree.subtree_visited(n, c, product);
        lemma_subtree_keeps_shape(tree, c, product);
        lemma_children_are_a_stack(next, i, kids.drop_last(), product);
        assert(indices(kids).drop_last() =~= indices(kids.drop_last()));
        assert(indices(kids).last() == kids.last().0);
    }
}

/// Visiting a subtree keeps the shape of the tree.
pub proof fn lemma_subtree_keeps_shape<T>(
    tree: SceneTreeView<T>,
    i: int,
    product: spec_fn(T, T) -> T,
)
    ensures
        same_shape(tree, tree.subtree_visited(tree.nodes.len() as int, i, product)),
    decreases tree.nodes.len() - i, 1int, 0int,
{
    let n = tree.nodes.len() as int;
    if 0 <= i < n {
        lemma_visited_keeps_shape(tree, i, product);
        lemma_children_keep_shape(tree.visited(i, product), i, tree.nodes[i].children, product);
    }
}

/// Visiting the subtrees of some children keeps the shape of the tree.
pub proof fn lemma_children_keep_shape<T>(
    tree: SceneTreeView<T>,
    i: int,
    kids: Seq<NodeHandle>,
    product: spec_fn(T, T) -> T,
)
    ensures
        same_shape(tree, tree.children_visited(tree.nodes.len() as int, i, kids, product)),
    decreases tree.nodes.len() - i, 0int, kids.len(),
{
    let n = tree.nodes.len() as int;
    if kids.len() > 0 {
        let c = kids.last().0 as int;
        if i < c < n {
            lemma_subtree_keeps_shape(tree, c, product);
        }
        let next = if i < c < n {
            tree.subtree_visited(n, c, product)
        } else {
            tree
        };
        lemma_children_keep_shape(next, i, kids.drop_last(), product);
    }
}

/// Visiting a stack keeps the shape of the tree.
pub proof fn lemma_stack_keeps_shape<T>(
    tree: SceneTreeView<T>,
    stack: Seq<usize>,
    product: spec_fn(T, T) -> T,
)
    ensures
        same_shape(tree, tree.stack_visited(stack, product)),
    decreases stack.len(),
{
    if stack.len() > 0 {
        lemma_subtree_keeps_shape(tree, stack.last() as int, product);
        let next = tree.subtree_visited(tree.nodes.len() as int, stack.last() as int, product);
        lemma_stack_keeps_shape(next, stack.drop_last(), product);
    }
}

/// Visiting a stack that is two stacks, one on the other, is visiting the
/// upper one and then the lower one.
pub proof fn lemma_stack_visited_append<T>(
    tree: SceneTreeView<T>,
    lower: Seq<usize>,
    upper: Seq<usize>,
    product: spec_fn(T, T) -> T,
)
    ensures
        tree.stack_visited(lower + upper, product) == tree.stack_visited(
            upper,
            product,
        ).stack_visited(lower, product),
    decreases upper.len(),
{
    if upper.len() == 0 {
        assert(lower + upper =~= lower);
    } else {
        let next = tree.subtree_visited(tree.nodes.len() as int, upper.last() as int, product);
        assert((lower + upper).drop_last() =~= lower + upper.drop_last());
        assert((lower + upper).last() == upper.last());
        lemma_stack_visited_append(next, lower, upper.drop_last(), product);
    }
}

/// The visits of two stacks, one on the other, add up.
pub proof fn lemma_stack_size_append(
    topology: Seq<Seq<NodeHandle>>,
    lower: Seq<usize>,
    upper: Seq<usize>,
)
    ensures
        stack_size(topology, lower + upper) == stack_size(topology, lower) + stack_size(
            topology,
            upper,
        ),
    decreases upper.len(),
{
    if upper.len() == 0 {
        assert(lower + upper =~= lower);
    } else {
        assert((lower + upper).drop_last() =~= lower + upper.drop_last());
        assert((lower + upper).last() == upper.last());
        lemma_stack_size_append(topology, lower, upper.drop_last());
    }
}

/// On children that lie between their parent and the end of the tree, the
/// visits of the children are the visits of a stack of them.
pub proof fn lemma_children_size_is_stack_size(
    topology: Seq<Seq<NodeHandle>>,
    i: int,
    kids: Seq<NodeHandle>,
)
    requires
        forall|k: int| 0 <= k < kids.len() ==> i < (#[trigger] kids[k]).0 < topology.len(),
    ensures
        children_size(topology, i, kids) == stack_size(topology, indices(kids)),
    decreases kids.len(),
{
    if kids.len() > 0 {
        assert(i < kids[kids.len() - 1].0 < topology.len());
        lemma_children_size_is_stack_size(topology, i, kids.drop_last());
        assert(indices(kids).drop_last() =~= indices(kids.drop_last()));
        assert(indices(kids).last() == kids.last().0);
    }
}

/// A node that was just added without parent has the tree's identity as
/// its local and as its cached transform and is not stale.
pub proof fn lemma_new_node_is_fresh<T>(tree: SceneTreeView<T>)
    ensures
        ({
            let after = tree.with_node(None);
            let node = after.nodes[tree.nodes.len() as int];
            &&& after.nodes.len() == tree.nodes.len() + 1
            &&& node == fresh_node(tree.identity, None)
            &&& node.local_transform == tree.identity
            &&& node.cached_transform == tree.identity
            &&& !node.dirty
        }),
{
}

/// After the local transform of a node without parent was set, the node's
/// cached transform is that transform and the node is not stale.
pub proof fn lemma_root_resolves_at_once<T>(tree: SceneTreeView<T>, i: int, transform: T)
    requires
        0 <= i < tree.nodes.len(),
        tree.nodes[i].parent.is_none(),
    ensures
        ({
            let node = tree.with_local_transform(i, transform).nodes[i];
            &&& node.local_transform == transform
            &&& node.cached_transform == transform
            &&& !node.dirty
        }),
{
}

/// After the local transform of a node with a declared parent was set, the
/// node is stale and its cached transform is what it was.
pub proof fn lemma_child_waits_for_update<T>(tree: SceneTreeView<T>, i: int, transform: T)
    requires
        0 <= i < tree.nodes.len(),
        tree.nodes[i].parent.is_some(),
    ensures
        ({
            let node = tree.with_local_transform(i, transform).nodes[i];
            &&& node.local_transform == transform
            &&& node.cached_transform == tree.nodes[i].cached_transform
            &&& node.dirty
        }),
{
}

/// Visiting a node that declares itself, or a node that the tree does not
/// have, as its parent changes nothing.
pub proof fn lemma_corrupt_parent_is_skipped<T>(
    tree: SceneTreeView<T>,
    i: int,
    product: spec_fn(T, T) -> T,
)
    requires
        0 <= i < tree.nodes.len(),
        tree.nodes[i].parent matches Some(p) && (p.0 == i || p.0 >= tree.nodes.len()),
    ensures
        tree.visited(i, product) == tree,
{
}

/// Visiting a node changes no other node.
pub proof fn lemma_visit_leaves_other_nodes<T>(
    tree: SceneTreeView<T>,
    i: int,
    j: int,
    product: spec_fn(T, T) -> T,
)
    requires
        0 <= j < tree.nodes.len(),
        j != i,
    ensures
        tree.visited(i, product).nodes[j] == tree.nodes[j],
{
}

/// In a chain of a root, its child and the child's child whose local
/// transforms were set to `m1`, `m2` and `m3`, updating leaves no node
/// stale, and the cached transforms are `m1`, the product of `m1` and `m2`,
/// and the product of that and `m3`.
pub proof fn lemma_chain_of_three<T>(identity: T, m1: T, m2: T, m3: T, product: spec_fn(T, T) -> T)
    ensures
        ({
            let empty = SceneTreeView { identity, nodes: Seq::empty(), models: Seq::empty() };
            let chain = empty.with_node(None).with_node(Some(NodeHandle(0))).with_node(
                Some(NodeHandle(1)),
            );
            let set = chain.with_local_transform(0, m1).with_local_transform(
                1,
                m2,
            ).with_local_transform(2, m3);
            let after = set.propagated(product);
            &&& after.nodes.len() == 3
            &&& after.nodes[0].cached_transform == m1
            &&& after.nodes[1].cached_transform == product(m1, m2)
            &&& after.nodes[2].cached_transform == product(product(m1, m2), m3)
            &&& !after.nodes[0].dirty
            &&& !after.nodes[1].dirty
            &&& !after.nodes[2].dirty
        }),
{
    let empty = SceneTreeView { identity, nodes: Seq::empty(), models: Seq::empty() };
    let chain = empty.with_node(None).with_node(Some(NodeHandle(0))).with_node(
        Some(NodeHandle(1)),
    );
    let set = chain.with_local_transform(0, m1).with_local_transform(1, m2).with_local_transform(
        2,
        m3,
    );
    assert(set.nodes.len() == 3);
    assert(set.nodes[0].children =~= seq![NodeHandle(1)]);
    assert(set.nodes[1].children =~= seq![NodeHandle(2)]);
    assert(set.nodes[2].children =~= Seq::empty());
    reveal_with_fuel(SceneTreeView::dirty_below, 4);
    assert(set.dirty_below(3) =~= seq![1usize, 2usize]);
    let stack = seq![1usize, 2usize];
    assert(stack.drop_last() =~= seq![1usize]);
    assert(seq![1usize].drop_last() =~= Seq::<usize>::empty());
    // the child's child is visited first, with its parent still stale
    reveal_with_fuel(SceneTreeView::children_visited, 2);
    let first = set.subtree_visited(3, 2, product);
    assert(first == set.visited(2, product));
    // then the child is visited, and its child after it
    let second = first.visited(1, product);
    assert(first.nodes[1].children =~= seq![NodeHandle(2)]);
    assert(seq![NodeHandle(2)].drop_last() =~= Seq::<NodeHandle>::empty());
    let third = second.subtree_visited(3, 2, product);
    assert(second.nodes[2].children =~= Seq::empty());
    assert(third == second.visited(2, product));
    let kids = seq![NodeHandle(2)];
    assert(kids.last() == NodeHandle(2));
    assert(second.children_visited(3, 1, kids, product) == third.children_visited(
        3,
        1,
        kids.drop_last(),
        product,
    ));
    assert(first.subtree_visited(3, 1, product) == second.children_visited(3, 1, kids, product));
    assert(first.subtree_visited(3, 1, product) == third);
    reveal_with_fuel(SceneTreeView::stack_visited, 3);
    assert(set.stack_visited(stack, product) == third);
}

/// Visiting a subtree makes no node stale.
pub proof fn lemma_subtree_sets_no_flag<T>(
    tree: SceneTreeView<T>,
    i: int,
    product: spec_fn(T, T) -> T,
    j: int,
)
    requires
        0 <= j < tree.nodes.len(),
    ensures
        tree.subtree_visited(tree.nodes.len() as int, i, product).nodes[j].dirty
            ==> tree.nodes[j].dirty,
    decreases tree.nodes.len() - i, 1int, 0int,
{
    let n = tree.nodes.len() as int;
    if 0 <= i < n {
        lemma_visited_keeps_shape(tree, i, product);
        lemma_children_set_no_flag(tree.visited(i, product), i, tree.nodes[i].children, product, j);
    }
}

/// Visiting the subtrees of some children makes no node stale.
pub proof fn lemma_children_set_no_flag<T>(
    tree: SceneTreeView<T>,
    i: int,
    kids: Seq<NodeHandle>,
    product: spec_fn(T, T) -> T,
    j: int,
)
    requires
        0 <= j < tree.nodes.len(),
    ensures
        tree.children_visited(tree.nodes.len() as int, i, kids, product).nodes[j].dirty
            ==> tree.nodes[j].dirty,
    decreases tree.nodes.len() - i, 0int, kids.len(),
{
    let n = tree.nodes.len() as int;
    if kids.len() > 0 {
        let c = kids.last().0 as int;
        if i < c < n {
            lemma_subtree_sets_no_flag(tree, c, product, j);
            lemma_subtree_keeps_shape(tree, c, product);
        }
        let next = if i < c < n {
            tree.subtree_visited(n, c, product)
        } else {
            tree
        };
        lemma_children_set_no_flag(next, i, kids.drop_last(), product, j);
    }
}

/// Visiting a stack makes no node stale.
pub proof fn lemma_stack_sets_no_flag<T>(
    tree: SceneTreeView<T>,
    stack: Seq<usize>,
    product: spec_fn(T, T) -> T,
    j: int,
)
    requires
        0 <= j < tree.nodes.len(),
    ensures
        tree.stack_visited(stack, product).nodes[j].dirty ==> tree.nodes[j].dirty,
    decreases stack.len(),
{
    if stack.len() > 0 {
        let next = tree.subtree_visited(tree.nodes.len() as int, stack.last() as int, product);
        lemma_subtree_sets_no_flag(tree, stack.last() as int, product, j);
        lemma_subtree_keeps_shape(tree, stack.last() as int, product);
        lemma_stack_sets_no_flag(next, stack.drop_last(), product, j);
    }
}

/// After a stack was visited, a node that was on it is stale only if it
/// does not recompute.
pub proof fn lemma_stack_clears_its_nodes<T>(
    tree: SceneTreeView<T>,
    stack: Seq<usize>,
    product: spec_fn(T, T) -> T,
    k: int,
)
    requires
        0 <= k < stack.len(),
        stack[k] < tree.nodes.len(),
    ensures
        tree.stack_visited(stack, product).nodes[stack[k] as int].dirty ==> !tree.recomputes(
            stack[k] as int,
        ),
    decreases stack.len(),
{
    let n = tree.nodes.len() as int;
    let top = stack.last() as int;
    let next = tree.subtree_visited(n, top, product);
    lemma_subtree_keeps_shape(tree, top, product);
    if k == stack.len() - 1 {
        let j = stack[k] as int;
        lemma_visited_keeps_shape(tree, j, product);
        lemma_children_set_no_flag(tree.visited(j, product), j, tree.nodes[j].children, product, j);
        lemma_stack_sets_no_flag(next, stack.drop_last(), product, j);
    } else {
        lemma_stack_clears_its_nodes(next, stack.drop_last(), product, k);
        assert(stack.drop_last()[k] == stack[k]);
        assert(next.recomputes(stack[k] as int) == tree.recomputes(stack[k] as int));
    }
}

/// Every stale node below `upto` is among the stale nodes below `upto`.
pub proof fn lemma_dirty_below_holds_the_stale<T>(tree: SceneTreeView<T>, upto: int, j: int)
    requires
        0 <= j < upto <= tree.nodes.len() <= usize::MAX,
        tree.nodes[j].dirty,
    ensures
        exists|k: int|
            0 <= k < tree.dirty_below(upto).len() && #[trigger] tree.dirty_below(upto)[k] == j,
        forall|k: int|
            0 <= k < tree.dirty_below(upto).len() ==> #[trigger] tree.dirty_below(upto)[k] < upto,
    decreases upto,
{
    lemma_dirty_below_in_range(tree, upto);
    if j == upto - 1 {
        let s = tree.dirty_below(upto);
        assert(s[s.len() - 1] == j);
    } else {
        lemma_dirty_below_holds_the_stale(tree, upto - 1, j);
        let front = tree.dirty_below(upto - 1);
        let k = choose|k: int| 0 <= k < front.len() && #[trigger] front[k] == j;
        assert(tree.dirty_below(upto)[k] == j);
    }
}

/// The stale nodes below `upto` lie below `upto`.
pub proof fn lemma_dirty_below_in_range<T>(tree: SceneTreeView<T>, upto: int)
    requires
        0 <= upto <= tree.nodes.len() <= usize::MAX,
    ensures
        forall|k: int|
            0 <= k < tree.dirty_below(upto).len() ==> #[trigger] tree.dirty_below(upto)[k] < upto,
    decreases upto,
{
    if upto > 0 {
        lemma_dirty_below_in_range(tree, upto - 1);
        let front = tree.dirty_below(upto - 1);
        assert forall|k: int| 0 <= k < tree.dirty_below(upto).len() implies #[trigger] tree.dirty_below(
            upto,
        )[k] < upto by {
            if k < front.len() {
                assert(tree.dirty_below(upto)[k] == front[k]);
            }
        }
    }
}

/// After the transforms were updated, a node is stale only if it was stale
/// before and declares as its parent itself or a node that the tree does
/// not have. The update changes no parent, no children list, no local
/// transform and no model.
pub proof fn lemma_update_clears_stale_flags<T>(
    tree: SceneTreeView<T>,
    product: spec_fn(T, T) -> T,
    j: int,
)
    requires
        tree.well_formed(),
        0 <= j < tree.nodes.len(),
    ensures
        same_shape(tree, tree.propagated(product)),
        tree.propagated(product).nodes[j].dirty ==> tree.nodes[j].dirty && (
        tree.nodes[j].parent matches Some(p) && (p.0 == j || p.0 >= tree.nodes.len())),
{
    let n = tree.nodes.len() as int;
    let stack = tree.dirty_below(n);
    lemma_stack_keeps_shape(tree, stack, product);
    lemma_stack_sets_no_flag(tree, stack, product, j);
    if tree.nodes[j].dirty {
        lemma_dirty_below_holds_the_stale(tree, n, j);
        let k = choose|k: int| 0 <= k < stack.len() && #[trigger] stack[k] == j;
        lemma_stack_clears_its_nodes(tree, stack, product, k);
    }
}

/// Visiting a subtree leaves a node that does not recompute as it is.
pub proof fn lemma_subtree_leaves_skipped<T>(
    tree: SceneTreeView<T>,
    i: int,
    product: spec_fn(T, T) -> T,
    j: int,
)
    requires
        0 <= j < tree.nodes.len(),
        !tree.recomputes(j),
    ensures
        tree.subtree_visited(tree.nodes.len() as int, i, product).nodes[j] == tree.nodes[j],
    decreases tree.nodes.len() - i, 1int, 0int,
{
    let n = tree.nodes.len() as int;
    if 0 <= i < n {
        lemma_visited_keeps_shape(tree, i, product);
        lemma_children_leave_skipped(
            tree.visited(i, product),
            i,
            tree.nodes[i].children,
            product,
            j,
        );
    }
}

/// Visiting the subtrees of some children leaves a node that does not
/// recompute as it is.
pub proof fn lemma_children_leave_skipped<T>(
    tree: SceneTreeView<T>,
    i: int,
    kids: Seq<NodeHandle>,
    product: spec_fn(T, T) -> T,
    j: int,
)
    requires
        0 <= j < tree.nodes.len(),
        !tree.recomputes(j),
    ensures
        tree.children_visited(tree.nodes.len() as int, i, kids, product).nodes[j]
            == tree.nodes[j],
    decreases tree.nodes.len() - i, 0int, kids.len(),
{
    let n = tree.nodes.len() as int;
    if kids.len() > 0 {
        let c = kids.last().0 as int;
        if i < c < n {
            lemma_subtree_leaves_skipped(tree, c, product, j);
            lemma_subtree_keeps_shape(tree, c, product);
        }
        let next = if i < c < n {
            tree.subtree_visited(n, c, product)
        } else {
            tree
        };
        lemma_children_leave_skipped(next, i, kids.drop_last(), product, j);
    }
}

/// Visiting a stack leaves a node that does not recompute as it is.
pub proof fn lemma_stack_leaves_skipped<T>(
    tree: SceneTreeView<T>,
    stack: Seq<usize>,
    product: spec_fn(T, T) -> T,
    j: int,
)
    requires
        0 <= j < tree.nodes.len(),
        !tree.recomputes(j),
    ensures
        tree.stack_visited(stack, product).nodes[j] == tree.nodes[j],
    decreases stack.len(),
{
    if stack.len() > 0 {
        let next = tree.subtree_visited(tree.nodes.len() as int, stack.last() as int, product);
        lemma_subtree_leaves_skipped(tree, stack.last() as int, product, j);
        lemma_subtree_keeps_shape(tree, stack.last() as int, product);
        lemma_stack_leaves_skipped(next, stack.drop_last(), product, j);
    }
}

/// The nodes that an update skips are listed: a node below `upto` that
/// declares itself or a node that the tree does not have as its parent
/// stands in the list with that parent, and every item of the list is such
/// a node.
pub proof fn lemma_skipped_are_listed<T>(tree: SceneTreeView<T>, upto: int)
    requires
        0 <= upto <= tree.nodes.len() <= usize::MAX,
    ensures
        forall|j: int|
            0 <= j < upto && #[trigger] tree.skips(j) ==> tree.skipped_below(upto).contains(
                CorruptParent { node: NodeHandle(j as usize), parent: tree.nodes[j].parent.unwrap() },
            ),
        forall|k: int|
            0 <= k < tree.skipped_below(upto).len() ==> {
                let item = #[trigger] tree.skipped_below(upto)[k];
                &&& item.node.0 < upto
                &&& tree.skips(item.node.0 as int)
                &&& tree.nodes[item.node.0 as int].parent == Some(item.parent)
            },
    decreases upto,
{
    if upto > 0 {
        lemma_skipped_are_listed(tree, upto - 1);
        let front = tree.skipped_below(upto - 1);
        let list = tree.skipped_below(upto);
        assert forall|j: int| 0 <= j < upto && #[trigger] tree.skips(j) implies list.contains(
            CorruptParent { node: NodeHandle(j as usize), parent: tree.nodes[j].parent.unwrap() },
        ) by {
            let item = CorruptParent {
                node: NodeHandle(j as usize),
                parent: tree.nodes[j].parent.unwrap(),
            };
            if j == upto - 1 {
                assert(list[list.len() - 1] == item);
            } else {
                assert(front.contains(item));
                let k = choose|k: int| 0 <= k < front.len() && front[k] == item;
                assert(list[k] == item);
            }
        }
        assert forall|k: int| 0 <= k < list.len() implies {
            let item = #[trigger] list[k];
            &&& item.node.0 < upto
            &&& tree.skips(item.node.0 as int)
            &&& tree.nodes[item.node.0 as int].parent == Some(item.parent)
        } by {
            if k < front.len() {
                assert(list[k] == front[k]);
            }
        }
    }
}

/// What an update skips: a node is stale after the update exactly when it
/// was stale before and declares itself or a node that the tree does not
/// have as its parent, and every node that declares such a parent is after
/// the update as it was before.
pub proof fn lemma_update_skips<T>(tree: SceneTreeView<T>, product: spec_fn(T, T) -> T, j: int)
    requires
        tree.well_formed(),
        0 <= j < tree.nodes.len(),
    ensures
        tree.propagated(product).nodes[j].dirty <==> tree.nodes[j].dirty && tree.skips(j),
        tree.skips(j) ==> tree.propagated(product).nodes[j] == tree.nodes[j],
{
    lemma_update_clears_stale_flags(tree, product, j);
    if tree.skips(j) {
        lemma_stack_leaves_skipped(tree, tree.dirty_below(tree.nodes.len() as int), product, j);
    }
}

} // verus!
