//! Box geometry as reported by the layout solver, in whole layout pixels.
use vstd::prelude::*;

verus! {

/// A node's solved box: the top-left corner relative to its parent, its size, and
/// its border widths, all in layout pixels (origin top-left, Y down).
#[derive(Clone, Copy, Debug, PartialEq, Eq, Structural)]
pub struct LayoutBox {
    pub x: i32,
    pub y: i32,
    pub width: i32,
    pub height: i32,
    pub border_top: i32,
    pub border_right: i32,
    pub border_bottom: i32,
    pub border_left: i32,
}

impl LayoutBox {
    pub open spec fn zero_spec() -> LayoutBox {
        LayoutBox {
            x: 0,
            y: 0,
            width: 0,
            height: 0,
            border_top: 0,
            border_right: 0,
            border_bottom: 0,
            border_left: 0,
        }
    }

    /// A box of zero size at the origin with no borders.
    pub fn zero() -> (r: LayoutBox)
        ensures
            r == LayoutBox::zero_spec(),
    {
        LayoutBox {
            x: 0,
            y: 0,
            width: 0,
            height: 0,
            border_top: 0,
            border_right: 0,
            border_bottom: 0,
            border_left: 0,
        }
    }
}

/// A translation in the scene frame (Y up), in half pixels: the layout centre of a
/// node relative to its parent's centre.
#[derive(Clone, Copy, Debug, PartialEq, Eq, Structural)]
pub struct Anchor {
    pub x: i64,
    pub y: i64,
}

/// A node's cached geometry: its last solved box and the anchor last applied to
/// its transform.
#[derive(Clone, Copy, Debug, PartialEq, Eq, Structural)]
pub struct ComputedLayout {
    pub layout: LayoutBox,
    pub anchor: Anchor,
}

/// What placing one node decided.
#[derive(Clone, Copy, Debug, PartialEq, Eq, Structural)]
pub struct Placement {
    /// The solved location or size differs from the cached one.
    pub changed: bool,
    /// The transform must move from the `from` anchor to the `to` anchor.
    pub moved: bool,
    pub from: Anchor,
    pub to: Anchor,
}

/// The anchor of box `l` inside a parent of size `pw` by `ph`: its centre offset
/// from the parent's centre, `location + (size - parent_size) / 2`, with the
/// vertical axis flipped, doubled to stay whole.
pub open spec fn anchor_in(l: LayoutBox, pw: i32, ph: i32) -> Anchor {
    Anchor {
        x: (2 * l.x + l.width - pw) as i64,
        y: (-(2 * l.y + l.height - ph)) as i64,
    }
}

/// The location or size of two boxes differ.
pub open spec fn moved_or_resized(a: LayoutBox, b: LayoutBox) -> bool {
    a.x != b.x || a.y != b.y || a.width != b.width || a.height != b.height
}

/// The cache after placing a node with solved box `l` (and, unless it is a root,
/// its parent's size).
pub open spec fn placed_cache(c: ComputedLayout, l: LayoutBox, parent: Option<(i32, i32)>) -> ComputedLayout {
    match parent {
        Some((pw, ph)) => ComputedLayout { layout: l, anchor: anchor_in(l, pw, ph) },
        None => ComputedLayout { layout: l, anchor: c.anchor },
    }
}

/// The decision of placing a node: a root never moves; any other node moves
/// exactly when its anchor differs from the cached one.
pub open spec fn placement(c: ComputedLayout, l: LayoutBox, parent: Option<(i32, i32)>) -> Placement {
    let to = placed_cache(c, l, parent).anchor;
    Placement {
        changed: moved_or_resized(c.layout, l),
        moved: parent is Some && to != c.anchor,
        from: c.anchor,
        to,
    }
}

impl ComputedLayout {
    /// Nothing solved yet: an empty box with no anchor applied.
    pub fn new() -> (r: ComputedLayout)
        ensures
            r.layout == LayoutBox::zero_spec(),
            r.anchor == (Anchor { x: 0, y: 0 }),
    {
        ComputedLayout { layout: LayoutBox::zero(), anchor: Anchor { x: 0, y: 0 } }
    }

    /// Takes the solved box (location, size and borders); the anchor stays.
    pub fn update(&mut self, layout: LayoutBox)
        ensures
            final(self).layout == layout,
            final(self).anchor == old(self).anchor,
    {
        self.layout = layout;
    }

    /// Places a node: caches its solved box and, below a parent of the given size,
    /// its new anchor; reports whether its geometry changed and whether its
    /// transform has to move.
    pub fn place(&mut self, layout: LayoutBox, parent: Option<(i32, i32)>) -> (r: Placement)
        ensures
            *final(self) == placed_cache(*old(self), layout, parent),
            r == placement(*old(self), layout, parent),
    {
        let prev = *self;
        let changed = prev.layout.x != layout.x || prev.layout.y != layout.y
            || prev.layout.width != layout.width || prev.layout.height != layout.height;
        self.update(layout);
        match parent {
            Some((pw, ph)) => {
                let x: i64 = 2 * (layout.x as i64) + (layout.width as i64) - (pw as i64);
                let y: i64 = -(2 * (layout.y as i64) + (layout.height as i64) - (ph as i64));
                let to = Anchor { x, y };
                let moved = to != prev.anchor;
                if moved {
                    self.anchor = to;
                }
                Placement { changed, moved, from: prev.anchor, to }
            },
            None => Placement { changed, moved: false, from: prev.anchor, to: prev.anchor },
        }
    }
}

/// Placing a node twice with the same box and parent size never moves it the
/// second time.
pub proof fn lemma_place_settles(c: ComputedLayout, l: LayoutBox, parent: Option<(i32, i32)>)
    ensures
        !placement(placed_cache(c, l, parent), l, parent).moved,
        !placement(placed_cache(c, l, parent), l, parent).changed,
        placed_cache(placed_cache(c, l, parent), l, parent) == placed_cache(c, l, parent),
{
}

} // verus!
