//! The scene tree: nodes with a local transform and a cached global
//! transform, kept in an arena and named by index, and the models whose
//! instances the nodes place.
//!
//! The tree does not look into a transform. It is generic in the transform
//! type and is handed the product of two transforms as a function.

use crate::model::{InstanceId, Model};
use crate::propagation::{
    indices, lemma_children_are_a_stack, lemma_children_size_is_stack_size,
    lemma_stack_size_append, lemma_stack_visited_append, stack_size, subtree_size,
};
use vstd::prelude::*;

verus! {

/// The index of a node in its tree.
#[derive(Clone, Copy, Debug, PartialEq, Eq, Structural)]
pub struct NodeHandle(pub usize);

/// The index of a model in its tree.
#[derive(Clone, Copy, Debug, PartialEq, Eq, Structural)]
pub struct ModelHandle(pub usize);

/// Why a model could not be given to a node.
#[derive(Clone, Copy, Debug, PartialEq, Eq, Structural)]
pub enum SetModelError {
    /// The tree has no node of that index.
    NoSuchNode,
    /// The tree has no model of that index.
    NoSuchModel,
    /// The node has a model already.
    AlreadyAssigned,
}

/// A node whose declared parent is the node itself or no node of the tree.
#[derive(Clone, Copy, Debug, PartialEq, Eq, Structural)]
pub struct CorruptParent {
    /// The node.
    pub node: NodeHandle,
    /// The parent that the node declares.
    pub parent: NodeHandle,
}

/// A node of the scene tree.
#[derive(Debug)]
pub struct SceneNode<T> {
    local_transform: T,
    cached_transform: T,
    transform_changed: bool,
    parent: Option<NodeHandle>,
    children: Vec<NodeHandle>,
    model: Option<ModelHandle>,
    instance_id: Option<InstanceId>,
}

/// What a `SceneNode` holds.
pub struct SceneNodeView<T> {
    /// The transform relative to the parent.
    pub local_transform: T,
    /// The global transform as it was last computed.
    pub cached_transform: T,
    /// The cached transform is stale.
    pub dirty: bool,
    /// The declared parent.
    pub parent: Option<NodeHandle>,
    /// The nodes that were attached to this node, in the order of attaching.
    pub children: Seq<NodeHandle>,
    /// The model that the node places an instance of.
    pub model: Option<ModelHandle>,
    /// The instance of that model.
    pub instance_id: Option<InstanceId>,
}

impl<T> View for SceneNode<T> {
    type V = SceneNodeView<T>;

    closed spec fn view(&self) -> SceneNodeView<T> {
        SceneNodeView {
            local_transform: self.local_transform,
            cached_transform: self.cached_transform,
            dirty: self.transform_changed,
            parent: self.parent,
            children: self.children@,
            model: self.model,
            instance_id: self.instance_id,
        }
    }
}

impl<T> SceneNodeView<T> {
    /// The node after its local transform was set to `transform`: the node is
    /// stale, but for a node without parent, whose cached transform follows
    /// at once.
    pub open spec fn with_local_transform(self, transform: T) -> SceneNodeView<T> {
        if self.parent.is_none() {
            SceneNodeView {
                local_transform: transform,
                cached_transform: transform,
                dirty: false,
                ..self
            }
        } else {
            SceneNodeView { local_transform: transform, dirty: true, ..self }
        }
    }

    /// The node with the cached transform `value`, no longer stale.
    pub open spec fn with_cached_transform(self, value: T) -> SceneNodeView<T> {
        SceneNodeView { cached_transform: value, dirty: false, ..self }
    }
}

impl<T: Copy> SceneNode<T> {
    /// A node without model, with `identity` as its local and as its cached
    /// transform, under the declared parent `parent`.
    fn new(identity: T, parent: Option<NodeHandle>) -> (r: SceneNode<T>)
        ensures
            r@ == fresh_node(identity, parent),
    {
        SceneNode {
            local_transform: identity,
            cached_transform: identity,
            transform_changed: false,
            parent,
            children: Vec::new(),
            model: None,
            instance_id: None,
        }
    }

    /// The transform relative to the parent.
    pub fn get_local_transform(&self) -> (r: T)
        ensures
            r == self@.local_transform,
    {
        self.local_transform
    }

    /// Sets the local transform. A node with a parent is stale from then on;
    /// a node without parent has its cached transform follow at once and is
    /// not stale.
    pub fn update_local_transform(&mut self, transform: T)
        ensures
            final(self)@ == old(self)@.with_local_transform(transform),
    {
        self.local_transform = transform;
        if self.parent.is_none() {
            self.cached_transform = transform;
            self.transform_changed = false;
        } else {
            self.transform_changed = true;
        }
    }

    /// The global transform, unless it is stale.
    pub fn get_global_transform(&self) -> (r: Option<T>)
        ensures
            r == if self@.dirty {
                None
            } else {
                Some(self@.cached_transform)
            },
    {
        if self.transform_changed {
            None
        } else {
            Some(self.cached_transform)
        }
    }

    /// Recomputes the cached transform as the product of `parent_transform`
    /// and the local transform, and returns it. The node is no longer stale.
    fn refresh_transform<F: Fn(T, T) -> T>(&mut self, parent_transform: T, compose: &F) -> (r: T)
        requires
            compose.requires((parent_transform, old(self)@.local_transform)),
        ensures
            compose.ensures((parent_transform, old(self)@.local_transform), r),
            final(self)@ == old(self)@.with_cached_transform(r),
            final(self).children@ == old(self).children@,
    {
        let value = compose(parent_transform, self.local_transform);
        self.transform_changed = false;
        self.cached_transform = value;
        value
    }

    /// Whether the cached transform is stale.
    pub fn is_dirty(&self) -> (r: bool)
        ensures
            r == self@.dirty,
    {
        self.transform_changed
    }

    /// The declared parent.
    pub fn parent(&self) -> (r: Option<NodeHandle>)
        ensures
            r == self@.parent,
    {
        self.parent
    }

    /// The nodes that were attached to this node.
    pub fn children(&self) -> (r: &[NodeHandle])
        ensures
            r@ == self@.children,
    {
        self.children.as_slice()
    }

    /// The model that the node places an instance of.
    pub fn model(&self) -> (r: Option<ModelHandle>)
        ensures
            r == self@.model,
    {
        self.model
    }

    /// The instance that the node places.
    pub fn instance_id(&self) -> (r: Option<InstanceId>)
        ensures
            r == self@.instance_id,
    {
        self.instance_id
    }

    /// Gives the node the model `handle`, which `model` is: a new instance
    /// of the model gets the node's cached transform and is the node's from
    /// then on. A node that has a model is left as it is.
    pub fn set_model(&mut self, handle: ModelHandle, model: &mut Model<T>) -> (r: Result<
        InstanceId,
        SetModelError,
    >)
        ensures
            match r {
                Ok(id) => {
                    &&& old(self)@.model.is_none()
                    &&& id.0 == old(model)@.len()
                    &&& final(model)@ == old(model)@.push(old(self)@.cached_transform)
                    &&& final(self)@ == (SceneNodeView {
                        model: Some(handle),
                        instance_id: Some(id),
                        ..old(self)@
                    })
                },
                Err(e) => {
                    &&& e == SetModelError::AlreadyAssigned
                    &&& old(self)@.model.is_some()
                    &&& final(self)@ == old(self)@
                    &&& final(model)@ == old(model)@
                },
            },
    {
        if self.model.is_some() {
            return Err(SetModelError::AlreadyAssigned);
        }
        let id = model.new_instance(self.cached_transform);
        self.instance_id = Some(id);
        self.model = Some(handle);
        Ok(id)
    }
}

/// A node without model and children, with `identity` as its local and as
/// its cached transform, not stale, under the declared parent `parent`.
pub open spec fn fresh_node<T>(identity: T, parent: Option<NodeHandle>) -> SceneNodeView<T> {
    SceneNodeView {
        local_transform: identity,
        cached_transform: identity,
        dirty: false,
        parent,
        children: Seq::empty(),
        model: None,
        instance_id: None,
    }
}

/// The nodes of a scene and the models they place.
#[derive(Debug)]
pub struct SceneTree<T> {
    identity: T,
    nodes: Vec<SceneNode<T>>,
    models: Vec<Model<T>>,
}

/// What a `SceneTree` holds.
pub struct SceneTreeView<T> {
    /// The transform that a new node starts with.
    pub identity: T,
    /// The nodes, by index.
    pub nodes: Seq<SceneNodeView<T>>,
    /// The instance lists of the models, by index.
    pub models: Seq<Seq<T>>,
}

impl<T> View for SceneTree<T> {
    type V = SceneTreeView<T>;

    closed spec fn view(&self) -> SceneTreeView<T> {
        SceneTreeView {
            identity: self.identity,
            nodes: self.nodes@.map_values(|n: SceneNode<T>| n@),
            models: self.models@.map_values(|m: Model<T>| m@),
        }
    }
}

impl<T> SceneTreeView<T> {
    /// Every child of a node has a larger index than the node and is a node
    /// of the tree.
    pub open spec fn children_ascend(self) -> bool {
        forall|i: int, k: int|
            0 <= i < self.nodes.len() && 0 <= k < self.nodes[i].children.len() ==> i < (
            #[trigger] self.nodes[i].children[k]).0 < self.nodes.len()
    }

    /// A node with a model has an instance of that model, and only such a
    /// node has an instance.
    pub open spec fn instances_exist(self) -> bool {
        forall|i: int|
            0 <= i < self.nodes.len() ==> match (#[trigger] self.nodes[i]).model {
                Some(m) => m.0 < self.models.len() && (self.nodes[i].instance_id matches Some(id)
                    && id.0 < self.models[m.0 as int].len()),
                None => self.nodes[i].instance_id.is_none(),
            }
    }

    /// No two nodes place the same instance of the same model.
    pub open spec fn instances_distinct(self) -> bool {
        forall|i: int, j: int|
            0 <= i < j < self.nodes.len() && (#[trigger] self.nodes[i]).model.is_some()
                && self.nodes[i].model == (#[trigger] self.nodes[j]).model
                ==> self.nodes[i].instance_id != self.nodes[j].instance_id
    }

    /// Only a node with a declared parent is stale.
    pub open spec fn roots_are_clean(self) -> bool {
        forall|i: int|
            0 <= i < self.nodes.len() && (#[trigger] self.nodes[i]).dirty
                ==> self.nodes[i].parent.is_some()
    }

    /// A node's children declare the node as their parent, and a node that
    /// declares a node of smaller index as its parent is among that node's
    /// children.
    pub open spec fn links_agree(self) -> bool {
        &&& forall|i: int, k: int|
            0 <= i < self.nodes.len() && 0 <= k < self.nodes[i].children.len()
                ==> self.nodes[(#[trigger] self.nodes[i].children[k]).0 as int].parent == Some(
                NodeHandle(i as usize),
            )
        &&& forall|c: int|
            0 <= c < self.nodes.len() ==> match (#[trigger] self.nodes[c]).parent {
                Some(p) => p.0 < c ==> self.nodes[p.0 as int].children.contains(
                    NodeHandle(c as usize),
                ),
                None => true,
            }
    }

    /// The tree's invariant.
    pub open spec fn well_formed(self) -> bool {
        &&& self.nodes.len() <= usize::MAX
        &&& self.children_ascend()
        &&& self.links_agree()
        &&& self.instances_exist()
        &&& self.instances_distinct()
        &&& self.roots_are_clean()
    }

    /// The node `i` declares as its parent itself or a node that the tree
    /// does not have, so that an update skips it.
    pub open spec fn skips(self, i: int) -> bool {
        &&& 0 <= i < self.nodes.len()
        &&& self.nodes[i].parent matches Some(p) && (p.0 == i || p.0 >= self.nodes.len())
    }

    /// The nodes below `upto` that an update skips, each with the parent it
    /// declares, in ascending order.
    pub open spec fn skipped_below(self, upto: int) -> Seq<CorruptParent>
        decreases upto,
    {
        if upto <= 0 {
            Seq::empty()
        } else if self.skips(upto - 1) {
            self.skipped_below(upto - 1).push(
                CorruptParent {
                    node: NodeHandle((upto - 1) as usize),
                    parent: self.nodes[upto - 1].parent.unwrap(),
                },
            )
        } else {
            self.skipped_below(upto - 1)
        }
    }

    /// The tree with one more node, which is fresh and declares the parent
    /// `parent`. Where `parent` is a node of the tree, the new node ends its
    /// children.
    pub open spec fn with_node(self, parent: Option<NodeHandle>) -> SceneTreeView<T> {
        let attached = match parent {
            Some(p) => if p.0 < self.nodes.len() {
                self.nodes.update(
                    p.0 as int,
                    SceneNodeView {
                        children: self.nodes[p.0 as int].children.push(
                            NodeHandle(self.nodes.len() as usize),
                        ),
                        ..self.nodes[p.0 as int]
                    },
                )
            } else {
                self.nodes
            },
            None => self.nodes,
        };
        SceneTreeView { nodes: attached.push(fresh_node(self.identity, parent)), ..self }
    }

    /// The tree with one more model, which has no instances.
    pub open spec fn with_model(self) -> SceneTreeView<T> {
        SceneTreeView { models: self.models.push(Seq::empty()), ..self }
    }

    /// The tree after the local transform of the node `i` was set.
    pub open spec fn with_local_transform(self, i: int, transform: T) -> SceneTreeView<T> {
        SceneTreeView {
            nodes: self.nodes.update(i, self.nodes[i].with_local_transform(transform)),
            ..self
        }
    }

    /// The tree after the node `i` was given the model `m`: a new instance
    /// of the model has the node's cached transform and is the node's.
    pub open spec fn with_model_at(self, i: int, m: ModelHandle) -> SceneTreeView<T> {
        SceneTreeView {
            nodes: self.nodes.update(
                i,
                SceneNodeView {
                    model: Some(m),
                    instance_id: Some(InstanceId(self.models[m.0 as int].len() as usize)),
                    ..self.nodes[i]
                },
            ),
            models: self.models.update(
                m.0 as int,
                self.models[m.0 as int].push(self.nodes[i].cached_transform),
            ),
            ..self
        }
    }
}

impl<T: Copy> SceneTree<T> {
    /// The tree's invariant holds.
    pub open spec fn well_formed(&self) -> bool {
        self@.well_formed()
    }

    /// A tree without nodes and models, whose new nodes start with the
    /// transform `identity`.
    pub fn new(identity: T) -> (r: SceneTree<T>)
        ensures
            r.well_formed(),
            r@ == (SceneTreeView { identity, nodes: Seq::empty(), models: Seq::empty() }),
    {
        let r = SceneTree { identity, nodes: Vec::new(), models: Vec::new() };
        assert(r@.nodes =~= Seq::empty());
        assert(r@.models =~= Seq::empty());
        r
    }

    /// The number of nodes.
    pub fn len(&self) -> (r: usize)
        ensures
            r == self@.nodes.len(),
    {
        self.nodes.len()
    }

    /// The node `node_handle`, where the tree has it.
    pub fn get(&self, node_handle: &NodeHandle) -> (r: Option<&SceneNode<T>>)
        ensures
            match r {
                Some(n) => node_handle.0 < self@.nodes.len() && n@ == self@.nodes[node_handle.0 as int],
                None => node_handle.0 >= self@.nodes.len(),
            },
    {
        if node_handle.0 < self.nodes.len() {
            Some(&self.nodes[node_handle.0])
        } else {
            None
        }
    }

    /// The model `model_handle`, where the tree has it.
    pub fn get_model(&self, model_handle: &ModelHandle) -> (r: Option<&Model<T>>)
        ensures
            match r {
                Some(m) => model_handle.0 < self@.models.len() && m@ == self@.models[model_handle.0 as int],
                None => model_handle.0 >= self@.models.len(),
            },
    {
        if model_handle.0 < self.models.len() {
            Some(&self.models[model_handle.0])
        } else {
            None
        }
    }

    /// The nodes that an update skips: those that declare as their parent
    /// themselves or a node that the tree does not have, each with the
    /// parent it declares, in ascending order.
    pub fn corrupt_parents(&self) -> (r: Vec<CorruptParent>)
        ensures
            r@ == self@.skipped_below(self@.nodes.len() as int),
    {
        let n = self.nodes.len();
        let mut found: Vec<CorruptParent> = Vec::new();
        let mut i: usize = 0;
        while i < n
            invariant
                0 <= i <= n,
                n == self.nodes.len(),
                n == self@.nodes.len(),
                found@ == self@.skipped_below(i as int),
            decreases n - i,
        {
            match self.nodes[i].parent {
                Some(p) => {
                    if p.0 == i || p.0 >= n {
                        found.push(CorruptParent { node: NodeHandle(i), parent: p });
                    }
                },
                None => {},
            }
            i += 1;
        }
        found
    }

    /// Adds a model without instances and returns its handle.
    pub fn new_model(&mut self) -> (r: ModelHandle)
        requires
            old(self).well_formed(),
        ensures
            final(self).well_formed(),
            r.0 == old(self)@.models.len(),
            final(self)@ == old(self)@.with_model(),
    {
        let handle = ModelHandle(self.models.len());
        self.models.push(Model::new());
        assert(self@.models =~= old(self)@.models.push(Seq::empty()));
        assert(self@.nodes =~= old(self)@.nodes);
        handle
    }

    /// Adds a fresh node without parent and returns its handle.
    pub fn new_node(&mut self) -> (r: NodeHandle)
        requires
            old(self).well_formed(),
        ensures
            final(self).well_formed(),
            r.0 == old(self)@.nodes.len(),
            final(self)@ == old(self)@.with_node(None),
    {
        let node_index = self.nodes.len();
        self.nodes.push(SceneNode::new(self.identity, None));
        assert(self@.nodes =~= old(self)@.nodes.push(fresh_node(self@.identity, None)));
        assert(self@.models =~= old(self)@.models);
        let count = self.nodes.len();
        assert(self@.nodes.len() == count);
        NodeHandle(node_index)
    }

    /// Adds a fresh node that declares the parent `parent` and returns its
    /// handle. Where `parent` is a node of the tree, the new node becomes
    /// its last child. Where it is not, the new node declares a parent that
    /// the tree does not have, or itself, and is no node's child.
    pub fn new_child(&mut self, parent: &NodeHandle) -> (r: NodeHandle)
        requires
            old(self).well_formed(),
        ensures
            final(self).well_formed(),
            r.0 == old(self)@.nodes.len(),
            final(self)@ == old(self)@.with_node(Some(*parent)),
    {
        let node_index = self.nodes.len();
        if parent.0 < node_index {
            self.nodes[parent.0].children.push(NodeHandle(node_index));
        }
        self.nodes.push(SceneNode::new(self.identity, Some(*parent)));
        assert(self@.nodes =~= old(self)@.with_node(Some(*parent)).nodes);
        assert(self@.models =~= old(self)@.models);
        let count = self.nodes.len();
        assert(self@.nodes.len() == count);
        proof {
            let before = old(self)@;
            let after = self@;
            assert forall|c: int| 0 <= c < after.nodes.len() implies match (
            #[trigger] after.nodes[c]).parent {
                Some(p) => p.0 < c ==> after.nodes[p.0 as int].children.contains(
                    NodeHandle(c as usize),
                ),
                None => true,
            } by {
                match after.nodes[c].parent {
                    Some(p) => {
                        if p.0 < c {
                            if c == node_index {
                                let kids = after.nodes[p.0 as int].children;
                                assert(kids[kids.len() - 1] == NodeHandle(c as usize));
                            } else {
                                assert(before.nodes[c].parent == Some(p));
                                let kids = before.nodes[p.0 as int].children;
                                let k = choose|k: int|
                                    0 <= k < kids.len() && kids[k] == NodeHandle(c as usize);
                                assert(after.nodes[p.0 as int].children[k] == NodeHandle(
                                    c as usize,
                                ));
                            }
                        }
                    },
                    None => {},
                }
            }
            assert forall|i: int, k: int|
                0 <= i < after.nodes.len() && 0 <= k < after.nodes[i].children.len() implies {
                &&& i < (#[trigger] after.nodes[i].children[k]).0 < after.nodes.len()
                &&& after.nodes[after.nodes[i].children[k].0 as int].parent == Some(
                    NodeHandle(i as usize),
                )
            } by {
                if i < node_index && k < before.nodes[i].children.len() {
                    assert(i < before.nodes[i].children[k].0 < before.nodes.len());
                }
            }
        }
        NodeHandle(node_index)
    }

    /// Sets the local transform of the node `node_handle`, as
    /// `SceneNode::update_local_transform` does, and says whether the tree
    /// has that node.
    pub fn update_local_transform(&mut self, node_handle: &NodeHandle, transform: T) -> (r: bool)
        requires
            old(self).well_formed(),
        ensures
            final(self).well_formed(),
            r == (node_handle.0 < old(self)@.nodes.len()),
            final(self)@ == if r {
                old(self)@.with_local_transform(node_handle.0 as int, transform)
            } else {
                old(self)@
            },
    {
        if node_handle.0 >= self.nodes.len() {
            return false;
        }
        self.nodes[node_handle.0].update_local_transform(transform);
        assert(self@.nodes =~= old(self)@.with_local_transform(
            node_handle.0 as int,
            transform,
        ).nodes);
        assert(self@.models =~= old(self)@.models);
        true
    }

    /// Gives the node `node_handle` the model `model_handle`: a new instance
    /// of the model gets the node's cached transform and is the node's from
    /// then on. Fails, and changes nothing, where the tree does not have the
    /// node or the model, or where the node has a model already.
    pub fn set_model(&mut self, node_handle: &NodeHandle, model_handle: &ModelHandle) -> (r: Result<
        InstanceId,
        SetModelError,
    >)
        requires
            old(self).well_formed(),
        ensures
            final(self).well_formed(),
            r == set_model_outcome(old(self)@, *node_handle, *model_handle),
            final(self)@ == if r.is_ok() {
                old(self)@.with_model_at(node_handle.0 as int, *model_handle)
            } else {
                old(self)@
            },
    {
        if node_handle.0 >= self.nodes.len() {
            return Err(SetModelError::NoSuchNode);
        }
        if model_handle.0 >= self.models.len() {
            return Err(SetModelError::NoSuchModel);
        }
        let r = self.nodes[node_handle.0].set_model(
            *model_handle,
            &mut self.models[model_handle.0],
        );
        proof {
            if r.is_ok() {
                let after = old(self)@.with_model_at(node_handle.0 as int, *model_handle);
                assert(self@.nodes =~= after.nodes);
                assert(self@.models =~= after.models);
            } else {
                assert(self@.nodes =~= old(self)@.nodes);
                assert(self@.models =~= old(self)@.models);
            }
        }
        r
    }

    /// Recomputes the cached transforms that are stale. `compose` is the
    /// product of two transforms. Every stale node is visited, from the one
    /// of the largest index to the one of the least, and each is followed by
    /// its whole subtree, last child first. A visited node that declares as
    /// its parent another node of the tree gets the product of the parent's
    /// cached transform and its own local transform as its cached transform,
    /// is no longer stale, and hands that transform to the instance it
    /// places. A visited node that declares itself or a node that the tree
    /// does not have as its parent is left as it is: it is skipped, stays
    /// stale, and `corrupt_parents` lists it.
    ///
    /// The contract speaks of every function `product` that says what
    /// `compose` returns.
    pub fn update_transforms<F: Fn(T, T) -> T>(&mut self, compose: F)
        requires
            old(self).well_formed(),
            forall|a: T, b: T| compose.requires((a, b)),
        ensures
            final(self).well_formed(),
            forall|product: spec_fn(T, T) -> T| #[trigger]
                computes(compose, product) ==> final(self)@ == old(self)@.propagated(product),
    {
        let ghost start = self@;
        let n = self.nodes.len();
        let mut to_update: Vec<usize> = Vec::new();
        let mut i: usize = 0;
        while i < n
            invariant
                0 <= i <= n,
                n == self.nodes.len(),
                n == self@.nodes.len(),
                to_update@ == self@.dirty_below(i as int),
                forall|k: int| 0 <= k < to_update.len() ==> to_update@[k] < n,
            decreases n - i,
        {
            if self.nodes[i].transform_changed {
                to_update.push(i);
            }
            i += 1;
        }
        while to_update.len() > 0
            invariant
                self.well_formed(),
                n == self.nodes.len(),
                n == self@.nodes.len(),
                forall|a: T, b: T| compose.requires((a, b)),
                forall|k: int| 0 <= k < to_update.len() ==> to_update@[k] < n,
                forall|product: spec_fn(T, T) -> T| #[trigger]
                    computes(compose, product) ==> self@.stack_visited(to_update@, product)
                        == start.propagated(product),
            decreases stack_size(self@.topology(), to_update@),
        {
            let ghost before = self@;
            let ghost stack = to_update@;
            let index = to_update.pop().unwrap();
            assert(index == stack.last() && to_update@ == stack.drop_last());
            assert(index < n);
            self.visit(index, &compose);
            let ghost after = self@;
            let ghost kids = before.nodes[index as int].children;
            let child_count = self.nodes[index].children.len();
            let mut k: usize = 0;
            while k < child_count
                invariant
                    0 <= k <= child_count,
                    index < n,
                    n == self.nodes.len(),
                    n == self@.nodes.len(),
                    self@ == after,
                    self.nodes[index as int].children@ == kids,
                    child_count == kids.len(),
                    forall|j: int| 0 <= j < kids.len() ==> index < (#[trigger] kids[j]).0 < n,
                    forall|j: int| 0 <= j < to_update.len() ==> to_update@[j] < n,
                    to_update@ == stack.drop_last() + indices(kids.take(k as int)),
                decreases child_count - k,
            {
                let child = self.nodes[index].children[k];
                assert(child == kids[k as int]);
                to_update.push(child.0);
                assert(indices(kids.take(k + 1)) =~= indices(kids.take(k as int)).push(child.0));
                k += 1;
            }
            proof {
                assert(kids.take(k as int) =~= kids);
                // what is left to do comes to the same result
                assert forall|product: spec_fn(T, T) -> T| #[trigger]
                    computes(compose, product) implies self@.stack_visited(to_update@, product)
                    == start.propagated(product) by {
                    assert(after == before.visited(index as int, product));
                    lemma_children_are_a_stack(after, index as int, kids, product);
                    lemma_stack_visited_append(after, stack.drop_last(), indices(kids), product);
                    assert(before.subtree_visited(n as int, index as int, product)
                        == after.stack_visited(indices(kids), product));
                }
                // and takes one visit less
                let topology = before.topology();
                assert(after.topology() =~= topology);
                lemma_children_size_is_stack_size(topology, index as int, kids);
                lemma_stack_size_append(topology, stack.drop_last(), indices(kids));
                assert(subtree_size(topology, index as int) == 1 + stack_size(
                    topology,
                    indices(kids),
                ));
            }
        }
    }

    /// Visits the node `index`.
    fn visit<F: Fn(T, T) -> T>(&mut self, index: usize, compose: &F)
        requires
            old(self).well_formed(),
            index < old(self)@.nodes.len(),
            forall|a: T, b: T| compose.requires((a, b)),
        ensures
            final(self).well_formed(),
            forall|product: spec_fn(T, T) -> T| #[trigger]
                computes(*compose, product) ==> final(self)@ == old(self)@.visited(
                    index as int,
                    product,
                ),
            final(self).nodes.len() == old(self).nodes.len(),
            forall|j: int|
                0 <= j < old(self).nodes.len() ==> (#[trigger] final(self).nodes[j]).children@
                    == old(self).nodes[j].children@,
            final(self)@.topology() == old(self)@.topology(),
    {
        assert(self@.topology() =~= old(self)@.topology());
        let parent = match self.nodes[index].parent {
            Some(p) => p.0,
            None => {
                return ;
            },
        };
        if parent == index || parent >= self.nodes.len() {
            return ;
        }
        let parent_transform = self.nodes[parent].cached_transform;
        let value = self.nodes[index].refresh_transform(parent_transform, compose);
        match (self.nodes[index].model, self.nodes[index].instance_id) {
            (Some(m), Some(id)) => {
                self.models[m.0].update_instance(&id, value);
            },
            _ => {},
        }
        proof {
            let after = old(self)@.refreshed(index as int, value);
            assert(self@.nodes =~= after.nodes);
            assert(self@.models =~= after.models);
            assert(self@.topology() =~= old(self)@.topology());
        }
    }
}

/// What giving the node `node` the model `model` returns: the id of the new
/// instance, which is the number of instances that the model had, or the
/// first reason against it.
pub open spec fn set_model_outcome<T>(
    tree: SceneTreeView<T>,
    node: NodeHandle,
    model: ModelHandle,
) -> Result<InstanceId, SetModelError> {
    if node.0 >= tree.nodes.len() {
        Err(SetModelError::NoSuchNode)
    } else if model.0 >= tree.models.len() {
        Err(SetModelError::NoSuchModel)
    } else if tree.nodes[node.0 as int].model.is_some() {
        Err(SetModelError::AlreadyAssigned)
    } else {
        Ok(InstanceId(tree.models[model.0 as int].len() as usize))
    }
}

/// `product` says what `compose` returns: whatever a call of `compose`
/// returns for two transforms is `product` of them.
pub open spec fn computes<T, F: Fn(T, T) -> T>(compose: F, product: spec_fn(T, T) -> T) -> bool {
    forall|a: T, b: T, x: T| compose.ensures((a, b), x) ==> x == product(a, b)
}

} // verus!
