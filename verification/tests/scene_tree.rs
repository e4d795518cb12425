use cgmath::{Matrix4, SquareMatrix, Vector3};
use rust_shader_viewer::model::InstanceId;
use rust_shader_viewer::scene_tree::{
    CorruptParent, ModelHandle, NodeHandle, SceneTree, SetModelError,
};

type Mat = Matrix4<f32>;

fn tree() -> SceneTree<Mat> {
    SceneTree::new(Mat::identity())
}

fn product(a: Mat, b: Mat) -> Mat {
    a * b
}

fn close(a: Mat, b: Mat) -> bool {
    let a: [[f32; 4]; 4] = a.into();
    let b: [[f32; 4]; 4] = b.into();
    (0..4).all(|i| (0..4).all(|j| (a[i][j] - b[i][j]).abs() < 1e-4))
}

fn m1() -> Mat {
    Mat::from_translation(Vector3::new(1.0, 2.0, 3.0))
}

fn m2() -> Mat {
    Mat::from_angle_y(cgmath::Deg(30.0)) * Mat::from_scale(2.0)
}

fn m3() -> Mat {
    Mat::from_translation(Vector3::new(-4.0, 0.5, 0.0)) * Mat::from_angle_x(cgmath::Deg(45.0))
}

#[test]
fn new_tree_has_no_nodes() {
    let t = tree();
    assert_eq!(t.len(), 0);
    assert!(t.get(&NodeHandle(0)).is_none());
    assert!(t.get_model(&ModelHandle(0)).is_none());
}

#[test]
fn new_node_is_identity_and_clean() {
    let mut t = tree();
    let h = t.new_node();
    assert_eq!(h, NodeHandle(0));
    let node = t.get(&h).unwrap();
    assert_eq!(node.get_local_transform(), Mat::identity());
    assert_eq!(node.get_global_transform(), Some(Mat::identity()));
    assert!(!node.is_dirty());
    assert_eq!(node.parent(), None);
    assert!(node.children().is_empty());
    assert_eq!(node.model(), None);
    assert_eq!(node.instance_id(), None);
    assert_eq!(t.new_node(), NodeHandle(1));
    assert_eq!(t.len(), 2);
}

#[test]
fn root_resolves_without_update() {
    let mut t = tree();
    let root = t.new_node();
    assert!(t.update_local_transform(&root, m1()));
    let node = t.get(&root).unwrap();
    assert_eq!(node.get_local_transform(), m1());
    assert_eq!(node.get_global_transform(), Some(m1()));
    assert!(!node.is_dirty());
}

#[test]
fn child_is_stale_until_update() {
    let mut t = tree();
    let root = t.new_node();
    let child = t.new_child(&root);
    assert_eq!(t.get(&child).unwrap().parent(), Some(root));
    assert_eq!(t.get(&root).unwrap().children(), &[child]);
    assert!(t.update_local_transform(&child, m2()));
    let node = t.get(&child).unwrap();
    assert!(node.is_dirty());
    assert_eq!(node.get_local_transform(), m2());
    assert_eq!(node.get_global_transform(), None);
    t.update_transforms(product);
    let node = t.get(&child).unwrap();
    assert!(!node.is_dirty());
    assert_eq!(node.get_global_transform(), Some(m2()));
}

#[test]
fn update_of_a_missing_node_changes_nothing() {
    let mut t = tree();
    let root = t.new_node();
    assert!(!t.update_local_transform(&NodeHandle(1), m1()));
    assert!(!t.update_local_transform(&NodeHandle(usize::MAX), m1()));
    assert_eq!(t.len(), 1);
    assert_eq!(t.get(&root).unwrap().get_global_transform(), Some(Mat::identity()));
}

#[test]
fn chain_of_three_multiplies_along_the_path() {
    let mut t = tree();
    let root = t.new_node();
    let child = t.new_child(&root);
    let grandchild = t.new_child(&child);
    t.update_local_transform(&root, m1());
    t.update_local_transform(&child, m2());
    t.update_local_transform(&grandchild, m3());
    t.update_transforms(product);
    for h in [root, child, grandchild] {
        assert!(!t.get(&h).unwrap().is_dirty());
    }
    assert_eq!(t.get(&root).unwrap().get_global_transform(), Some(m1()));
    assert_eq!(t.get(&child).unwrap().get_global_transform(), Some(m1() * m2()));
    let global = t.get(&grandchild).unwrap().get_global_transform().unwrap();
    assert_eq!(global, (m1() * m2()) * m3());
    assert!(close(global, m1() * (m2() * m3())));
}

#[test]
fn stale_parent_refreshes_clean_descendants() {
    let mut t = tree();
    let root = t.new_node();
    let child = t.new_child(&root);
    let first = t.new_child(&child);
    let second = t.new_child(&child);
    t.update_local_transform(&root, m1());
    t.update_local_transform(&first, m3());
    t.update_local_transform(&second, m2());
    t.update_transforms(product);
    t.update_local_transform(&child, m2());
    assert!(!t.get(&first).unwrap().is_dirty());
    t.update_transforms(product);
    assert_eq!(t.get(&child).unwrap().get_global_transform(), Some(m1() * m2()));
    assert_eq!(t.get(&first).unwrap().get_global_transform(), Some((m1() * m2()) * m3()));
    assert_eq!(t.get(&second).unwrap().get_global_transform(), Some((m1() * m2()) * m2()));
}

#[test]
fn root_change_alone_reaches_no_child() {
    let mut t = tree();
    let root = t.new_node();
    let child = t.new_child(&root);
    t.update_local_transform(&child, m2());
    t.update_transforms(product);
    t.update_local_transform(&root, m1());
    t.update_transforms(product);
    assert_eq!(t.get(&root).unwrap().get_global_transform(), Some(m1()));
    assert_eq!(t.get(&child).unwrap().get_global_transform(), Some(m2()));
}

#[test]
fn update_without_stale_nodes_changes_nothing() {
    let mut t = tree();
    let root = t.new_node();
    let child = t.new_child(&root);
    t.update_local_transform(&root, m1());
    t.update_transforms(product);
    assert_eq!(t.get(&root).unwrap().get_global_transform(), Some(m1()));
    assert_eq!(t.get(&child).unwrap().get_global_transform(), Some(Mat::identity()));
}

#[test]
fn self_parent_is_skipped_and_siblings_resolve() {
    let mut t = tree();
    let root = t.new_node();
    let before = t.new_child(&root);
    let own = t.new_child(&NodeHandle(2));
    let after = t.new_child(&root);
    assert_eq!(own, NodeHandle(2));
    assert_eq!(t.get(&own).unwrap().parent(), Some(own));
    assert!(t.get(&own).unwrap().children().is_empty());
    assert_eq!(t.get(&root).unwrap().children(), &[before, after]);
    t.update_local_transform(&root, m1());
    t.update_local_transform(&before, m2());
    t.update_local_transform(&own, m3());
    t.update_local_transform(&after, m3());
    t.update_transforms(product);
    let skipped = t.get(&own).unwrap();
    assert!(skipped.is_dirty());
    assert_eq!(skipped.get_global_transform(), None);
    assert_eq!(skipped.get_local_transform(), m3());
    assert_eq!(t.get(&before).unwrap().get_global_transform(), Some(m1() * m2()));
    assert_eq!(t.get(&after).unwrap().get_global_transform(), Some(m1() * m3()));
    assert_eq!(t.get(&root).unwrap().get_global_transform(), Some(m1()));
}

#[test]
fn missing_parent_is_skipped_and_the_rest_resolves() {
    let mut t = tree();
    let root = t.new_node();
    let lost = t.new_child(&NodeHandle(40));
    let child = t.new_child(&root);
    let below = t.new_child(&lost);
    assert_eq!(t.get(&lost).unwrap().parent(), Some(NodeHandle(40)));
    t.update_local_transform(&lost, m1());
    t.update_local_transform(&child, m2());
    t.update_local_transform(&below, m3());
    t.update_transforms(product);
    assert!(t.get(&lost).unwrap().is_dirty());
    assert_eq!(t.get(&child).unwrap().get_global_transform(), Some(m2()));
    // the skipped node's cached transform is still the identity
    assert_eq!(t.get(&below).unwrap().get_global_transform(), Some(Mat::identity() * m3()));
}

#[test]
fn set_model_places_an_instance_with_the_cached_transform() {
    let mut t = tree();
    let model = t.new_model();
    assert_eq!(model, ModelHandle(0));
    let a = t.new_node();
    let b = t.new_node();
    t.update_local_transform(&a, m1());
    assert_eq!(t.set_model(&a, &model), Ok(InstanceId(0)));
    assert_eq!(t.set_model(&b, &model), Ok(InstanceId(1)));
    assert_eq!(t.get(&a).unwrap().model(), Some(model));
    assert_eq!(t.get(&a).unwrap().instance_id(), Some(InstanceId(0)));
    assert_eq!(t.get(&b).unwrap().instance_id(), Some(InstanceId(1)));
    assert_eq!(t.get_model(&model).unwrap().instances, vec![m1(), Mat::identity()]);
}

#[test]
fn set_model_fails_without_changing_anything() {
    let mut t = tree();
    let model = t.new_model();
    let other = t.new_model();
    let node = t.new_node();
    assert_eq!(t.set_model(&NodeHandle(5), &model), Err(SetModelError::NoSuchNode));
    assert_eq!(t.set_model(&NodeHandle(5), &ModelHandle(9)), Err(SetModelError::NoSuchNode));
    assert_eq!(t.set_model(&node, &ModelHandle(2)), Err(SetModelError::NoSuchModel));
    assert_eq!(t.set_model(&node, &model), Ok(InstanceId(0)));
    assert_eq!(t.set_model(&node, &model), Err(SetModelError::AlreadyAssigned));
    assert_eq!(t.set_model(&node, &other), Err(SetModelError::AlreadyAssigned));
    assert_eq!(t.get(&node).unwrap().model(), Some(model));
    assert_eq!(t.get_model(&model).unwrap().instances.len(), 1);
    assert!(t.get_model(&other).unwrap().instances.is_empty());
}

#[test]
fn update_refreshes_the_instances_of_visited_nodes() {
    let mut t = tree();
    let model = t.new_model();
    let root = t.new_node();
    let child = t.new_child(&root);
    let other = t.new_child(&root);
    t.set_model(&root, &model).unwrap();
    t.set_model(&child, &model).unwrap();
    t.set_model(&other, &model).unwrap();
    t.update_local_transform(&root, m1());
    t.update_local_transform(&child, m2());
    // the root's instance keeps the transform it was placed with
    assert_eq!(
        t.get_model(&model).unwrap().instances,
        vec![Mat::identity(), Mat::identity(), Mat::identity()]
    );
    t.update_transforms(product);
    assert_eq!(
        t.get_model(&model).unwrap().instances,
        vec![Mat::identity(), m1() * m2(), Mat::identity()]
    );
}

#[test]
fn update_works_for_any_product() {
    let mut t: SceneTree<u32> = SceneTree::new(1);
    let root = t.new_node();
    let child = t.new_child(&root);
    let grandchild = t.new_child(&child);
    t.update_local_transform(&root, 2);
    t.update_local_transform(&child, 3);
    t.update_local_transform(&grandchild, 5);
    t.update_transforms(|a: u32, b: u32| a * 10 + b);
    assert_eq!(t.get(&child).unwrap().get_global_transform(), Some(23));
    assert_eq!(t.get(&grandchild).unwrap().get_global_transform(), Some(235));
}

#[test]
fn corrupt_parents_are_listed_in_ascending_order() {
    let mut t = tree();
    assert!(t.corrupt_parents().is_empty());
    let root = t.new_node();
    let own = t.new_child(&NodeHandle(1));
    let child = t.new_child(&root);
    let lost = t.new_child(&NodeHandle(40));
    let below = t.new_child(&own);
    assert_eq!(
        t.corrupt_parents(),
        vec![
            CorruptParent { node: own, parent: own },
            CorruptParent { node: lost, parent: NodeHandle(40) },
        ]
    );
    t.update_local_transform(&own, m1());
    t.update_local_transform(&child, m2());
    t.update_transforms(product);
    // what the update skipped is what is stale after it
    let skipped: Vec<NodeHandle> = t
        .corrupt_parents()
        .into_iter()
        .map(|fault| fault.node)
        .filter(|node| t.get(node).unwrap().is_dirty())
        .collect();
    assert_eq!(skipped, vec![own]);
    assert!(!t.get(&child).unwrap().is_dirty());
    assert!(!t.get(&below).unwrap().is_dirty());
    assert!(!t.get(&lost).unwrap().is_dirty());
}

#[test]
fn declared_parent_that_joins_the_tree_later_is_no_longer_missing() {
    let mut t = tree();
    let early = t.new_child(&NodeHandle(1));
    assert_eq!(t.corrupt_parents(), vec![CorruptParent { node: early, parent: NodeHandle(1) }]);
    let late = t.new_node();
    assert_eq!(late, NodeHandle(1));
    assert!(t.corrupt_parents().is_empty());
    assert!(t.get(&late).unwrap().children().is_empty());
    t.update_local_transform(&late, m1());
    t.update_local_transform(&early, m2());
    t.update_transforms(product);
    assert_eq!(t.get(&early).unwrap().get_global_transform(), Some(m1() * m2()));
}

#[test]
fn every_node_of_a_model_has_its_own_instance() {
    let mut t = tree();
    let model = t.new_model();
    let other = t.new_model();
    let root = t.new_node();
    let mut placed = Vec::new();
    for i in 0..5 {
        let node = t.new_child(&root);
        let target = if i % 2 == 0 { model } else { other };
        placed.push((node, target, t.set_model(&node, &target).unwrap()));
    }
    for (i, a) in placed.iter().enumerate() {
        for b in &placed[i + 1..] {
            assert!(a.1 != b.1 || a.2 != b.2);
        }
    }
    for (k, (node, _, _)) in placed.iter().enumerate() {
        t.update_local_transform(node, Mat::from_scale(k as f32 + 2.0));
    }
    t.update_transforms(product);
    for (node, target, id) in &placed {
        let cached = t.get(node).unwrap().get_global_transform().unwrap();
        assert_eq!(t.get_model(target).unwrap().instances[id.0], cached);
    }
}
