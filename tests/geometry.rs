use moon_core::geometry::{Anchor, ComputedLayout, LayoutBox};

fn boxed(x: i32, y: i32, width: i32, height: i32) -> LayoutBox {
    LayoutBox {
        x,
        y,
        width,
        height,
        border_top: 0,
        border_right: 0,
        border_bottom: 0,
        border_left: 0,
    }
}

#[test]
fn child_anchor_is_flipped_centre_offset() {
    // Parent 200 x 100; child at (10, 10), 50 x 50: (-65, 15) pixels, in half pixels.
    let mut cache = ComputedLayout::new();
    let placed = cache.place(boxed(10, 10, 50, 50), Some((200, 100)));
    assert!(placed.moved);
    assert!(placed.changed);
    assert_eq!(placed.from, Anchor { x: 0, y: 0 });
    assert_eq!(placed.to, Anchor { x: -130, y: 30 });
    assert_eq!(cache.anchor, Anchor { x: -130, y: 30 });
    assert_eq!(cache.layout, boxed(10, 10, 50, 50));
}

#[test]
fn placing_again_unchanged_does_not_move() {
    let mut cache = ComputedLayout::new();
    cache.place(boxed(10, 10, 50, 50), Some((200, 100)));
    let again = cache.place(boxed(10, 10, 50, 50), Some((200, 100)));
    assert!(!again.moved);
    assert!(!again.changed);
    assert_eq!(cache.anchor, Anchor { x: -130, y: 30 });
}

#[test]
fn roots_keep_their_transform() {
    let mut cache = ComputedLayout::new();
    let placed = cache.place(boxed(5, 7, 200, 100), None);
    assert!(!placed.moved);
    assert!(placed.changed);
    assert_eq!(cache.anchor, Anchor { x: 0, y: 0 });
}

#[test]
fn borders_change_nothing_reported() {
    let mut cache = ComputedLayout::new();
    cache.place(boxed(0, 0, 10, 10), None);
    let mut with_border = boxed(0, 0, 10, 10);
    with_border.border_left = 2;
    let placed = cache.place(with_border, None);
    assert!(!placed.changed);
    assert_eq!(cache.layout.border_left, 2);
}

#[test]
fn update_keeps_the_anchor() {
    let mut cache = ComputedLayout::new();
    cache.place(boxed(0, 0, 10, 10), Some((30, 30)));
    cache.update(boxed(1, 2, 3, 4));
    assert_eq!(cache.layout, boxed(1, 2, 3, 4));
    assert_eq!(cache.anchor, Anchor { x: -20, y: 20 });
}
