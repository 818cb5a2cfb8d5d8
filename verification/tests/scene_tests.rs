use lib::math::Vec3;
use lib::physics::RigidBody;
use lib::scene::animation::{Animation, Track};
use lib::scene::node::{Node, NodeKind};
use lib::scene::Scene;
use lib::utils::pool::Handle;
use std::collections::HashMap;

fn named(name: &str, kind: NodeKind) -> Node {
    let mut n = Node::new(kind);
    n.set_name(name.to_string());
    n
}

fn children(scene: &Scene, h: Handle) -> Vec<Handle> {
    scene.get_node(h).unwrap().children.clone()
}

#[test]
fn new_scene_holds_only_its_root() {
    let mut scene = Scene::new();
    let root = scene.get_root();
    let node = scene.get_node(root).unwrap();
    assert_eq!(node.kind, NodeKind::Base);
    assert_eq!(node.name, "");
    assert!(node.parent.is_none());
    assert!(node.children.is_empty());
    assert!(scene.get_active_camera().is_none());
    assert_eq!(scene.get_nodes().get_capacity(), 1);
}

#[test]
fn added_node_hangs_from_root() {
    let mut scene = Scene::new();
    let root = scene.get_root();
    let a = scene.add_node(named("a", NodeKind::Mesh));
    let b = scene.add_node(named("b", NodeKind::Light));
    assert_eq!(scene.get_node(a).unwrap().parent, root);
    assert_eq!(children(&scene, root), vec![a, b]);
    assert!(scene.get_active_camera().is_none());
}

#[test]
fn added_camera_becomes_active() {
    let mut scene = Scene::new();
    let _ = scene.add_node(named("a", NodeKind::Base));
    let cam = scene.add_node(named("cam", NodeKind::Camera));
    let _ = scene.add_node(named("b", NodeKind::Mesh));
    assert_eq!(scene.get_active_camera().unwrap().name, "cam");
    let cam2 = scene.add_node(named("cam2", NodeKind::Camera));
    assert_ne!(cam, cam2);
    assert_eq!(scene.get_active_camera().unwrap().name, "cam2");
}

#[test]
fn link_moves_node_to_new_parent() {
    let mut scene = Scene::new();
    let root = scene.get_root();
    let a = scene.add_node(named("a", NodeKind::Base));
    let b = scene.add_node(named("b", NodeKind::Base));
    scene.link_nodes(b, a);
    assert_eq!(scene.get_node(b).unwrap().parent, a);
    assert_eq!(children(&scene, a), vec![b]);
    assert_eq!(children(&scene, root), vec![a]);
}

#[test]
fn unlink_detaches_node() {
    let mut scene = Scene::new();
    let root = scene.get_root();
    let a = scene.add_node(named("a", NodeKind::Base));
    let b = scene.add_node(named("b", NodeKind::Base));
    scene.unlink_node(a);
    assert!(scene.get_node(a).unwrap().parent.is_none());
    assert_eq!(children(&scene, root), vec![b]);
    // Unlinking a node without parent, or a dead handle, changes nothing.
    scene.unlink_node(a);
    scene.unlink_node(Handle::new(40, 1));
    assert_eq!(children(&scene, root), vec![b]);
}

#[test]
fn link_under_dead_parent_still_sets_parent() {
    let mut scene = Scene::new();
    let root = scene.get_root();
    let a = scene.add_node(named("a", NodeKind::Base));
    let ghost = Handle::new(77, 3);
    scene.link_nodes(a, ghost);
    assert_eq!(scene.get_node(a).unwrap().parent, ghost);
    assert!(children(&scene, root).is_empty());
}

#[test]
fn find_node_by_name_searches_depth_first() {
    let mut scene = Scene::new();
    let root = scene.get_root();
    let a = scene.add_node(named("a", NodeKind::Base));
    let x1 = scene.add_node(named("x", NodeKind::Base));
    let b = scene.add_node(named("b", NodeKind::Base));
    let x2 = scene.add_node(named("x", NodeKind::Base));
    scene.link_nodes(x1, a);
    // root's children are now [a, b, x2]; a's child x1 comes first in depth-first order.
    assert_eq!(children(&scene, root), vec![a, b, x2]);
    assert_eq!(scene.find_node_by_name(root, "x"), x1);
    assert_eq!(scene.find_node_by_name(b, "x"), Handle::none());
    assert_eq!(scene.find_node_by_name(root, "b"), b);
    assert_eq!(scene.find_node_by_name(root, "nothing"), Handle::none());
    assert_eq!(scene.find_node_by_name(Handle::new(50, 1), "a"), Handle::none());
    assert_eq!(scene.find_node_by_name(root, ""), root);
}

#[test]
fn remove_node_removes_subtree_and_bodies() {
    let mut scene = Scene::new();
    let root = scene.get_root();
    let a = scene.add_node(named("a", NodeKind::Base));
    let b = scene.add_node(named("b", NodeKind::Base));
    let c = scene.add_node(named("c", NodeKind::Base));
    let d = scene.add_node(named("d", NodeKind::Base));
    scene.link_nodes(b, a);
    scene.link_nodes(c, b);
    let body_c = scene.get_physics_mut().add_body(RigidBody { position: Vec3 { x: 1, y: 2, z: 3 } });
    let body_d = scene.get_physics_mut().add_body(RigidBody { position: Vec3 { x: 4, y: 5, z: 6 } });
    scene.get_node_mut(c).unwrap().set_body(body_c);
    scene.get_node_mut(d).unwrap().set_body(body_d);
    scene.remove_node(a);
    assert!(scene.get_node(a).is_none());
    assert!(scene.get_node(b).is_none());
    assert!(scene.get_node(c).is_none());
    assert!(scene.get_node(d).is_some());
    assert!(scene.get_physics().borrow_body(body_c).is_none());
    assert_eq!(scene.get_physics().borrow_body(body_d).unwrap().position, Vec3 { x: 4, y: 5, z: 6 });
    // The removed node's handle stays among the root's children.
    assert_eq!(children(&scene, root), vec![a, d]);
}

#[test]
fn update_nodes_propagates_visibility() {
    let mut scene = Scene::new();
    let root = scene.get_root();
    let a = scene.add_node(named("a", NodeKind::Base));
    let b = scene.add_node(named("b", NodeKind::Base));
    let c = scene.add_node(named("c", NodeKind::Base));
    scene.link_nodes(b, a);
    scene.get_node_mut(a).unwrap().visibility = false;
    scene.update_nodes();
    assert!(scene.get_node(root).unwrap().global_visibility);
    assert!(!scene.get_node(a).unwrap().global_visibility);
    assert!(!scene.get_node(b).unwrap().global_visibility);
    assert!(scene.get_node(c).unwrap().global_visibility);
    scene.get_node_mut(a).unwrap().visibility = true;
    scene.get_node_mut(root).unwrap().visibility = false;
    scene.update_nodes();
    assert!(!scene.get_node(a).unwrap().global_visibility);
    assert!(!scene.get_node(c).unwrap().global_visibility);
}

#[test]
fn update_nodes_leaves_detached_nodes_alone() {
    let mut scene = Scene::new();
    let a = scene.add_node(named("a", NodeKind::Base));
    scene.unlink_node(a);
    scene.get_node_mut(a).unwrap().visibility = false;
    scene.update_nodes();
    assert!(scene.get_node(a).unwrap().global_visibility);
}

#[test]
fn copy_node_copies_subtree_into_other_scene() {
    let mut src = Scene::new();
    let a = src.add_node(named("a", NodeKind::Mesh));
    let b = src.add_node(named("b", NodeKind::Camera));
    let c = src.add_node(named("c", NodeKind::Light));
    src.link_nodes(b, a);
    src.link_nodes(c, a);
    let body = src.get_physics_mut().add_body(RigidBody { position: Vec3 { x: 7, y: 8, z: 9 } });
    src.get_node_mut(b).unwrap().set_body(body);

    let mut dest = Scene::new();
    let dest_root = dest.get_root();
    let mut mapping: HashMap<u64, Handle> = HashMap::new();
    let copy = src.copy_node(a, &mut dest, &mut mapping);
    assert!(!copy.is_none());
    let copy_node = dest.get_node(copy).unwrap();
    assert_eq!(copy_node.name, "a");
    assert_eq!(copy_node.kind, NodeKind::Mesh);
    assert_eq!(copy_node.parent, dest_root);
    assert_eq!(children(&dest, dest_root), vec![copy]);
    let kids = children(&dest, copy);
    assert_eq!(kids.len(), 2);
    assert_eq!(dest.get_node(kids[0]).unwrap().name, "b");
    assert_eq!(dest.get_node(kids[1]).unwrap().name, "c");
    assert_eq!(dest.get_node(kids[0]).unwrap().parent, copy);
    let copied_body = dest.get_node(kids[0]).unwrap().body;
    assert_eq!(dest.get_physics().borrow_body(copied_body).unwrap().position, Vec3 { x: 7, y: 8, z: 9 });
    assert!(dest.get_node(kids[1]).unwrap().body.is_none());
    assert_eq!(mapping.len(), 3);
    assert_eq!(mapping[&a.key()], copy);
    assert_eq!(mapping[&b.key()], kids[0]);
    assert_eq!(mapping[&c.key()], kids[1]);
    assert_eq!(dest.get_active_camera().unwrap().name, "b");
}

#[test]
fn copy_of_dead_node_is_none() {
    let src = Scene::new();
    let mut dest = Scene::new();
    let mut mapping: HashMap<u64, Handle> = HashMap::new();
    let copy = src.copy_node(Handle::new(9, 9), &mut dest, &mut mapping);
    assert!(copy.is_none());
    assert!(mapping.is_empty());
    assert_eq!(dest.get_nodes().get_capacity(), 1);
}

#[test]
fn animations_are_kept_by_handle() {
    let mut scene = Scene::new();
    let a = scene.add_node(named("a", NodeKind::Base));
    let mut anim = Animation::new();
    anim.add_track(Track { node: a });
    let h = scene.add_animation(anim);
    assert_eq!(scene.get_animation(h).unwrap().tracks.len(), 1);
    scene.get_animation_mut(h).unwrap().add_track(Track { node: a });
    assert_eq!(scene.get_animation(h).unwrap().tracks.len(), 2);
    assert!(scene.get_animations().is_valid_handle(h));
    assert!(scene.get_animation(Handle::none()).is_none());
}

#[test]
fn default_scene_has_no_root() {
    let mut scene = Scene::default();
    assert!(scene.get_root().is_none());
    assert_eq!(scene.get_nodes().get_capacity(), 0);
    assert!(scene.get_active_camera().is_none());
    let a = scene.add_node(named("a", NodeKind::Base));
    let node = scene.get_node(a).unwrap();
    assert!(node.parent.is_none());
    assert_eq!(node.name, "a");
}

#[test]
fn copy_node_activates_the_last_camera_in_pre_order() {
    let mut src = Scene::new();
    let a = src.add_node(named("a", NodeKind::Camera));
    let b = src.add_node(named("b", NodeKind::Camera));
    let c = src.add_node(named("c", NodeKind::Mesh));
    let d = src.add_node(named("d", NodeKind::Camera));
    src.link_nodes(b, a);
    src.link_nodes(c, a);
    src.link_nodes(d, b);

    let mut dest = Scene::new();
    let mut mapping: HashMap<u64, Handle> = HashMap::new();
    let copy = src.copy_node(a, &mut dest, &mut mapping);
    assert_eq!(mapping[&a.key()], copy);
    assert_eq!(mapping.len(), 4);
    assert_eq!(dest.get_active_camera().unwrap().name, "d");
    assert_eq!(dest.get_nodes().get_capacity(), 5);
}

#[test]
fn a_cycle_elsewhere_does_not_stop_search_removal_or_update() {
    let mut scene = Scene::new();
    let root = scene.get_root();
    let a = scene.add_node(named("a", NodeKind::Base));
    let x = scene.add_node(named("x", NodeKind::Base));
    let y = scene.add_node(named("y", NodeKind::Base));
    scene.link_nodes(x, y);
    scene.link_nodes(y, x);
    assert_eq!(children(&scene, root), vec![a]);
    assert_eq!(scene.find_node_by_name(root, "a"), a);
    assert!(scene.find_node_by_name(root, "x").is_none());
    scene.get_node_mut(a).unwrap().visibility = false;
    scene.update_nodes();
    assert!(!scene.get_node(a).unwrap().global_visibility);
    scene.remove_node(a);
    assert!(scene.get_node(a).is_none());
    assert!(scene.get_node(x).is_some());
    assert!(scene.get_node(y).is_some());
}

#[test]
fn copy_node_mapping_follows_the_tree_and_bodies_are_fresh() {
    let mut src = Scene::new();
    let a = src.add_node(named("a", NodeKind::Base));
    let b = src.add_node(named("b", NodeKind::Base));
    let c = src.add_node(named("c", NodeKind::Mesh));
    let d = src.add_node(named("d", NodeKind::Mesh));
    let e = src.add_node(named("e", NodeKind::Light));
    src.link_nodes(b, a);
    src.link_nodes(c, a);
    src.link_nodes(d, b);
    src.link_nodes(e, b);
    let same = RigidBody { position: Vec3 { x: 1, y: 2, z: 3 } };
    let bd = src.get_physics_mut().add_body(same.clone());
    let be = src.get_physics_mut().add_body(same.clone());
    src.get_node_mut(d).unwrap().set_body(bd);
    src.get_node_mut(e).unwrap().set_body(be);

    let mut dest = Scene::new();
    let existing = dest.get_physics_mut().add_body(same.clone());
    let mut mapping: HashMap<u64, Handle> = HashMap::new();
    let copy = src.copy_node(a, &mut dest, &mut mapping);
    assert_eq!(mapping[&a.key()], copy);
    for n in [a, b, c, d, e] {
        let expected: Vec<Handle> = children(&src, n).iter().map(|k| mapping[&k.key()]).collect();
        assert_eq!(children(&dest, mapping[&n.key()]), expected);
        assert_eq!(dest.get_node(mapping[&n.key()]).unwrap().name, src.get_node(n).unwrap().name);
    }
    let cd = dest.get_node(mapping[&d.key()]).unwrap().body;
    let ce = dest.get_node(mapping[&e.key()]).unwrap().body;
    assert!(!cd.is_none() && !ce.is_none());
    assert_ne!(cd, ce);
    assert_ne!(cd, existing);
    assert_ne!(ce, existing);
    assert_eq!(dest.get_physics().borrow_body(cd).unwrap().position, Vec3 { x: 1, y: 2, z: 3 });
    assert!(dest.get_node(mapping[&c.key()]).unwrap().body.is_none());
}
