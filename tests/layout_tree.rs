use moon_core::entity::Entity;
use moon_core::layout::{LayoutError, UiLayoutTree};
use moon_core::propagate::propagate_geometry;
use moon_core::geometry::{Anchor, ComputedLayout, LayoutBox};
use moon_core::scene::{SceneNode, UiScene};
use moon_core::removal::apply_removals;
use moon_core::sync::{sync_layout, sync_node};
use moon_core::tree_shape::subtrees_disjoint;
use taffy::{AvailableSpace, Dimension, NodeId, Size, Style};

fn sized(width: f32, height: f32) -> Style {
    Style {
        size: Size { width: Dimension::Length(width), height: Dimension::Length(height) },
        ..Default::default()
    }
}

fn node(index: u32, style: Style, children: Vec<usize>, has_parent: bool) -> SceneNode {
    SceneNode {
        entity: Entity::new(index, 0),
        depth: 0,
        children,
        has_parent,
        style,
        measure: None,
        added: true,
        style_changed: false,
        children_changed: false,
    }
}

fn solve(tree: &mut UiLayoutTree, root: Entity, width: f32, height: f32) {
    let id = tree.compute_root(root);
    let space = Size { width: AvailableSpace::Definite(width), height: AvailableSpace::Definite(height) };
    tree.solver_mut().compute_layout(NodeId::from(id), space).unwrap();
}

fn children_of(tree: &mut UiLayoutTree, id: u64) -> Vec<u64> {
    tree.solver_mut().children(NodeId::from(id)).unwrap().into_iter().map(u64::from).collect()
}

#[test]
fn upsert_keeps_node_identity() {
    let mut tree = UiLayoutTree::new();
    let a = Entity::new(1, 0);
    let first = tree.upsert_node(a, Style::default(), None);
    let second = tree.upsert_node(a, sized(5.0, 5.0), Some(9));
    assert_eq!(first, second);
    assert!(tree.contains(a));
    assert_eq!(tree.node_id(a), Some(first));
    let b = tree.upsert_node(Entity::new(2, 0), Style::default(), None);
    assert_ne!(b, first);
}

#[test]
fn unmapped_entity_has_no_layout() {
    let tree = UiLayoutTree::new();
    assert_eq!(tree.get_layout(Entity::new(3, 1)), Err(LayoutError::NotFound));
}

#[test]
fn solved_boxes_are_read_back() {
    let mut tree = UiLayoutTree::new();
    let root = Entity::new(1, 0);
    let child = Entity::new(2, 0);
    let r = tree.upsert_node(root, sized(200.0, 100.0), None);
    let c = tree.upsert_node(child, sized(50.0, 40.0), None);
    tree.set_node_children(r, &[c]).unwrap();
    solve(&mut tree, root, 800.0, 600.0);
    let solved = tree.get_layout(child).unwrap();
    assert_eq!((solved.x, solved.y, solved.width, solved.height), (0, 0, 50, 40));
    let whole = tree.get_layout(root).unwrap();
    assert_eq!((whole.width, whole.height), (200, 100));
}

#[test]
fn bad_child_lists_are_refused() {
    let mut tree = UiLayoutTree::new();
    let a = tree.upsert_node(Entity::new(1, 0), Style::default(), None);
    let b = tree.upsert_node(Entity::new(2, 0), Style::default(), None);
    assert_eq!(tree.set_node_children(a, &[b, b]), Err(LayoutError::InvalidChildren));
    assert_eq!(tree.set_node_children(a, &[a]), Err(LayoutError::InvalidChildren));
    tree.set_node_children(a, &[b]).unwrap();
    assert_eq!(tree.set_node_children(b, &[a]), Err(LayoutError::InvalidChildren));
    assert_eq!(children_of(&mut tree, a), vec![b]);
}

#[test]
fn clearing_children_keeps_the_node() {
    let mut tree = UiLayoutTree::new();
    let parent = Entity::new(1, 0);
    let p = tree.upsert_node(parent, sized(30.0, 30.0), None);
    let c = tree.upsert_node(Entity::new(2, 0), sized(10.0, 10.0), None);
    tree.set_node_children(p, &[c]).unwrap();
    tree.remove_node_children(parent);
    assert!(children_of(&mut tree, p).is_empty());
    solve(&mut tree, parent, 100.0, 100.0);
    assert_eq!(tree.get_layout(parent).unwrap().width, 30);
    assert!(tree.contains(Entity::new(2, 0)));
}

#[test]
fn removed_entities_lose_their_node() {
    let mut tree = UiLayoutTree::new();
    let a = Entity::new(1, 0);
    let b = Entity::new(2, 0);
    tree.upsert_node(a, Style::default(), None);
    tree.upsert_node(b, Style::default(), None);
    tree.remove_nodes(&[a, Entity::new(5, 0)]);
    assert!(!tree.contains(a));
    assert!(tree.contains(b));
    assert_eq!(tree.get_layout(a), Err(LayoutError::NotFound));
    tree.remove_node(b);
    assert!(!tree.contains(b));
}

fn three_node_scene() -> UiScene {
    UiScene {
        nodes: vec![
            node(1, sized(200.0, 100.0), vec![1, 2], false),
            node(2, sized(50.0, 50.0), vec![], true),
            node(3, sized(20.0, 20.0), vec![], true),
        ],
    }
}

#[test]
fn sync_maps_every_node_and_links_children() {
    let mut tree = UiLayoutTree::new();
    let scene = three_node_scene();
    sync_layout(&mut tree, &scene, &[0]).unwrap();
    let root = tree.node_id(Entity::new(1, 0)).unwrap();
    let first = tree.node_id(Entity::new(2, 0)).unwrap();
    let second = tree.node_id(Entity::new(3, 0)).unwrap();
    assert_eq!(children_of(&mut tree, root), vec![first, second]);
    assert_eq!(tree.get_layout(Entity::new(9, 0)), Err(LayoutError::NotFound));
}

#[test]
fn resync_without_changes_keeps_ids_and_boxes() {
    let mut tree = UiLayoutTree::new();
    let mut scene = three_node_scene();
    sync_layout(&mut tree, &scene, &[0]).unwrap();
    solve(&mut tree, Entity::new(1, 0), 400.0, 400.0);
    let ids: Vec<_> = (1..4).map(|i| tree.node_id(Entity::new(i, 0))).collect();
    let boxes: Vec<LayoutBox> = (1..4).map(|i| tree.get_layout(Entity::new(i, 0)).unwrap()).collect();
    for n in scene.nodes.iter_mut() {
        n.added = false;
    }
    sync_layout(&mut tree, &scene, &[0]).unwrap();
    solve(&mut tree, Entity::new(1, 0), 400.0, 400.0);
    let ids_again: Vec<_> = (1..4).map(|i| tree.node_id(Entity::new(i, 0))).collect();
    let boxes_again: Vec<LayoutBox> = (1..4).map(|i| tree.get_layout(Entity::new(i, 0)).unwrap()).collect();
    assert_eq!(ids, ids_again);
    assert_eq!(boxes, boxes_again);
}

#[test]
fn unchanged_child_under_changed_parent_is_not_relisted() {
    let mut tree = UiLayoutTree::new();
    let mut scene = three_node_scene();
    sync_layout(&mut tree, &scene, &[0]).unwrap();
    for n in scene.nodes.iter_mut() {
        n.added = false;
    }
    scene.nodes[0].style_changed = true;
    scene.nodes[2].style_changed = true;
    sync_layout(&mut tree, &scene, &[0]).unwrap();
    let root = tree.node_id(Entity::new(1, 0)).unwrap();
    let changed = tree.node_id(Entity::new(3, 0)).unwrap();
    assert_eq!(children_of(&mut tree, root), vec![changed]);
}

#[test]
fn removals_apply_children_first_and_spare_readded_nodes() {
    let mut tree = UiLayoutTree::new();
    let scene = three_node_scene();
    sync_layout(&mut tree, &scene, &[0]).unwrap();
    let root = tree.node_id(Entity::new(1, 0)).unwrap();
    apply_removals(
        &mut tree,
        &[(Entity::new(1, 0), true)],
        &[(Entity::new(2, 0), false), (Entity::new(3, 0), true)],
    );
    assert!(children_of(&mut tree, root).is_empty());
    assert!(!tree.contains(Entity::new(2, 0)));
    assert!(tree.contains(Entity::new(3, 0)));
    assert!(tree.contains(Entity::new(1, 0)));
}

#[test]
fn propagation_anchors_children_and_settles() {
    let mut tree = UiLayoutTree::new();
    let scene = UiScene {
        nodes: vec![
            node(1, sized(200.0, 100.0), vec![1], false),
            SceneNode {
                style: Style {
                    size: Size { width: Dimension::Length(50.0), height: Dimension::Length(50.0) },
                    margin: taffy::Rect {
                        left: taffy::LengthPercentageAuto::Length(10.0),
                        right: taffy::LengthPercentageAuto::Length(0.0),
                        top: taffy::LengthPercentageAuto::Length(10.0),
                        bottom: taffy::LengthPercentageAuto::Length(0.0),
                    },
                    ..Default::default()
                },
                ..node(2, Style::default(), vec![], true)
            },
        ],
    };
    sync_layout(&mut tree, &scene, &[0]).unwrap();
    solve(&mut tree, Entity::new(1, 0), 800.0, 600.0);
    let mut cache = vec![ComputedLayout::new(), ComputedLayout::new()];
    let placed = propagate_geometry(&tree, &scene, &[0], &mut cache);
    assert_eq!(placed.len(), 2);
    assert_eq!(placed[0].0, 0);
    assert_eq!(placed[0].1, None);
    assert!(!placed[0].2.moved);
    assert_eq!(placed[1].0, 1);
    assert_eq!(placed[1].1, Some(0));
    assert!(placed[1].2.moved);
    assert_eq!(placed[1].2.to, Anchor { x: -130, y: 30 });
    assert_eq!(cache[1].layout.x, 10);
    let again = propagate_geometry(&tree, &scene, &[0], &mut cache);
    assert!(again.iter().all(|(_, _, p)| !p.moved && !p.changed));
}

#[test]
fn changed_grandchild_is_handed_up_past_an_unchanged_child() {
    let mut tree = UiLayoutTree::new();
    let mut scene = UiScene {
        nodes: vec![
            node(1, sized(100.0, 100.0), vec![1], false),
            node(2, sized(50.0, 50.0), vec![2], true),
            node(3, sized(10.0, 10.0), vec![], true),
        ],
    };
    sync_layout(&mut tree, &scene, &[0]).unwrap();
    for n in scene.nodes.iter_mut() {
        n.added = false;
    }
    scene.nodes[0].children_changed = true;
    scene.nodes[2].style_changed = true;
    let mut handed_up = Vec::new();
    sync_node(&mut tree, &scene, 0, &mut handed_up);
    let root = tree.node_id(Entity::new(1, 0)).unwrap();
    let grandchild = tree.node_id(Entity::new(3, 0)).unwrap();
    assert_eq!(handed_up, vec![root]);
    assert_eq!(children_of(&mut tree, root), vec![grandchild]);
}

#[test]
fn overlapping_roots_are_refused_without_change() {
    let mut tree = UiLayoutTree::new();
    let scene = three_node_scene();
    assert!(!subtrees_disjoint(&scene, &[0, 1]));
    assert_eq!(sync_layout(&mut tree, &scene, &[0, 1]), Err(LayoutError::InvalidChildren));
    assert!(!tree.contains(Entity::new(1, 0)));
    assert!(subtrees_disjoint(&scene, &[0]));
}

#[test]
fn stale_ancestor_link_is_detached_not_a_cycle() {
    let mut tree = UiLayoutTree::new();
    let a = tree.upsert_node(Entity::new(1, 0), Style::default(), None);
    let b = tree.upsert_node(Entity::new(2, 0), Style::default(), None);
    tree.set_node_children(a, &[b]).unwrap();
    tree.replace_children(b, &[a]);
    assert_eq!(children_of(&mut tree, b), vec![a]);
    assert!(children_of(&mut tree, a).is_empty());
}

#[test]
fn scene_shape_is_checked() {
    let good = three_node_scene();
    assert!(good.is_wf());
    let backwards = UiScene {
        nodes: vec![node(1, Style::default(), vec![], false), node(2, Style::default(), vec![0], false)],
    };
    assert!(!backwards.is_wf());
    let same_slot = UiScene {
        nodes: vec![node(1, Style::default(), vec![], false), node(1, Style::default(), vec![], false)],
    };
    assert!(!same_slot.is_wf());
}

#[test]
fn upsert_writes_style_and_key_in_place() {
    let mut tree = UiLayoutTree::new();
    let a = Entity::new(1, 0);
    let id = tree.upsert_node(a, Style::default(), Some(4));
    assert_eq!(tree.solver_mut().get_node_context(NodeId::from(id)), Some(&4));
    let again = tree.upsert_node(a, sized(7.0, 8.0), None);
    assert_eq!(again, id);
    assert_eq!(tree.solver_mut().style(NodeId::from(id)).unwrap().size, sized(7.0, 8.0).size);
    assert_eq!(tree.solver_mut().get_node_context(NodeId::from(id)), None);
}
