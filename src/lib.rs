//! Keeps a retained layout-node tree in step with a UI scene hierarchy, orders the
//! scene's nodes back to front for each viewport, and turns solved box geometry into
//! anchored translations.
//!
//! - `entity`, `scene`: a frame's snapshot of the layout-relevant hierarchy.
//! - `solver`: the flex-layout solver's tree as the proofs see it.
//! - `layout`: the entity-to-node mapping over the solver tree.
//! - `sync`: the pass that reflects hierarchy changes onto the solver tree.
//! - `stack`, `stack_map`: per-viewport paint order and its shared snapshots.
//! - `geometry`, `propagate`: solved boxes, anchors, and their propagation.
//! - `phases`: the frame stages and render batches.

pub mod entity;
pub mod geometry;
pub mod layout;
pub mod phases;
pub mod propagate;
pub mod removal;
pub mod scene;
pub mod solver;
pub mod stack;
pub mod stack_map;
pub mod sync;
pub mod tree_shape;
