use moon_core::entity::Entity;
use moon_core::scene::{SceneNode, UiScene};
use moon_core::stack::UiStack;
use moon_core::stack_map::UiStackMap;
use taffy::Style;

fn node(index: u32, depth: u32, children: Vec<usize>, has_parent: bool) -> SceneNode {
    SceneNode {
        entity: Entity::new(index, 0),
        depth,
        children,
        has_parent,
        style: Style::default(),
        measure: None,
        added: true,
        style_changed: false,
        children_changed: false,
    }
}

fn e(index: u32) -> Entity {
    Entity::new(index, 0)
}

#[test]
fn siblings_paint_farthest_first_ties_by_slot() {
    // A at depth 0, B and C at depth 5, B's slot below C's.
    let scene = UiScene {
        nodes: vec![node(1, 0, vec![], false), node(2, 5, vec![], false), node(3, 5, vec![], false)],
    };
    let stack = UiStack::build(&scene, &[1, 2, 3]).unwrap();
    assert_eq!(stack.entities(), vec![e(2), e(3), e(1)]);
    assert_eq!(stack.roots(), vec![e(1), e(2), e(3)]);
    assert_eq!(stack.ranges(), vec![0..3]);
    assert_eq!(stack.ranks(), vec![(e(2), 0), (e(3), 1), (e(1), 2)]);
}

#[test]
fn rebuilding_gives_the_same_order() {
    let scene = UiScene {
        nodes: vec![
            node(7, 2, vec![1, 2], false),
            node(4, 2, vec![], true),
            node(9, 2, vec![], true),
            node(3, 2, vec![], false),
        ],
    };
    let first = UiStack::build(&scene, &[7, 4, 9, 3]).unwrap();
    let second = UiStack::build(&scene, &[7, 4, 9, 3]).unwrap();
    assert_eq!(first.entities(), second.entities());
    assert_eq!(first.entities(), vec![e(3), e(7), e(4), e(9)]);
}

#[test]
fn children_follow_their_parent_with_their_own_range() {
    // R(10) with children X(11, depth 1) and Y(12, depth 3); S(20) a second root.
    let scene = UiScene {
        nodes: vec![
            node(10, 0, vec![1, 2], false),
            node(11, 1, vec![], true),
            node(12, 3, vec![3], true),
            node(13, 0, vec![], true),
            node(20, 1, vec![], false),
        ],
    };
    let stack = UiStack::build(&scene, &[10, 20]).unwrap();
    assert_eq!(stack.roots(), vec![e(10), e(20)]);
    assert_eq!(stack.entities(), vec![e(20), e(10), e(12), e(13), e(11)]);
    assert_eq!(stack.ranges(), vec![0..2, 2..4, 4..5]);
}

#[test]
fn ranges_rebuild_the_sequence() {
    let scene = UiScene {
        nodes: vec![
            node(1, 0, vec![1, 2], false),
            node(2, 4, vec![3, 4], true),
            node(3, 2, vec![], true),
            node(4, 1, vec![], true),
            node(5, 6, vec![], true),
            node(6, 3, vec![], false),
        ],
    };
    let stack = UiStack::build(&scene, &[1, 6]).unwrap();
    let entities = stack.entities();
    let mut joined = Vec::new();
    let mut last_end = 0;
    for r in stack.ranges() {
        assert_eq!(r.start, last_end);
        joined.extend_from_slice(&entities[r.clone()]);
        last_end = r.end;
    }
    assert_eq!(joined, entities);
    assert_eq!(entities.len(), 6);
}

#[test]
fn nothing_visible_builds_no_stack() {
    let scene = UiScene { nodes: vec![node(1, 0, vec![], false)] };
    assert!(UiStack::build(&scene, &[]).is_none());
}

#[test]
fn invisible_roots_are_left_out() {
    let scene = UiScene {
        nodes: vec![node(1, 0, vec![1], false), node(2, 0, vec![], true), node(3, 0, vec![], false)],
    };
    let stack = UiStack::build(&scene, &[3, 2]).unwrap();
    assert_eq!(stack.roots(), vec![e(3)]);
    assert_eq!(stack.entities(), vec![e(3)]);
    assert!(stack.is_visible(2));
    assert!(stack.is_visible(3));
    assert!(!stack.is_visible(1));
}

#[test]
fn a_cleared_stack_is_empty() {
    let scene = UiScene { nodes: vec![node(1, 0, vec![], false)] };
    let mut stack = UiStack::build(&scene, &[1]).unwrap();
    stack.clear();
    assert!(stack.entities().is_empty());
    assert!(stack.roots().is_empty());
    assert!(stack.ranges().is_empty());
    assert!(!stack.is_visible(1));
}

#[test]
fn snapshots_are_not_touched_by_a_rebuild() {
    let scene = UiScene { nodes: vec![node(1, 0, vec![], false), node(2, 1, vec![], false)] };
    let camera = e(40);
    let other = e(41);
    let mut map = UiStackMap::new();
    map.rebuild(&scene, &[(camera, vec![1, 2]), (other, vec![])]);
    assert!(map.get(other).is_none());
    let earlier = map.snapshot();
    assert_eq!(earlier.get(camera).unwrap().entities(), vec![e(2), e(1)]);
    map.rebuild(&scene, &[(camera, vec![1])]);
    assert_eq!(map.get(camera).unwrap().entities(), vec![e(1)]);
    assert_eq!(earlier.get(camera).unwrap().entities(), vec![e(2), e(1)]);
    map.clear();
    assert!(map.get(camera).is_none());
    assert!(earlier.get(camera).is_some());
}
