//! The per-viewport stacks of a frame, shared copy-on-write with their readers.
use vstd::prelude::*;
use std::collections::HashMap;
use std::sync::Arc;

use crate::entity::{entity_bits, Entity};
use crate::scene::UiScene;
use crate::stack::{stack_of, visible_set, UiStack};

verus! {

broadcast use vstd::std_specs::hash::group_hash_axioms;

/// Relies on `Arc::make_mut`: a unique handle to the shared map's contents, which
/// it copies first when another handle shares them.
#[verifier::external_body]
fn unshare(a: &mut Arc<HashMap<u64, Arc<UiStack>>>) -> (r: &mut HashMap<u64, Arc<UiStack>>)
    ensures
        (*r)@ == (**old(a))@,
        (**final(a))@ == (*final(r))@,
{
    Arc::make_mut(a)
}

/// View `i`, among the first `n`, is the last one of camera `e` with a visible
/// slot.
pub open spec fn last_shown(views: Seq<(Entity, Vec<u32>)>, e: u64, i: int, n: int) -> bool {
    &&& 0 <= i < n
    &&& entity_bits(views[i].0) == e
    &&& !visible_set(views[i].1@).is_empty()
    &&& forall|j: int|
        i < j < n && entity_bits(#[trigger] views[j].0) == e ==> visible_set(views[j].1@).is_empty()
}

/// The stacks of a frame keyed by viewport (camera) entity. Handles share one
/// map: a handle that is written to gets a map of its own first, so a snapshot
/// taken earlier never sees the change. Each stack is itself shared, never
/// written after it is built.
pub struct UiStackMap {
    stacks: Arc<HashMap<u64, Arc<UiStack>>>,
}

impl UiStackMap {
    /// The stacks by the 64-bit form of their camera entity.
    pub closed spec fn stacks(&self) -> Map<u64, Arc<UiStack>> {
        (*self.stacks)@
    }

    /// No stacks.
    pub fn new() -> (r: UiStackMap)
        ensures
            r.stacks().is_empty(),
    {
        let m: HashMap<u64, Arc<UiStack>> = HashMap::new();
        UiStackMap { stacks: Arc::new(m) }
    }

    /// Drops every stack from this handle; other handles keep theirs.
    pub fn clear(&mut self)
        ensures
            final(self).stacks().is_empty(),
    {
        let m: HashMap<u64, Arc<UiStack>> = HashMap::new();
        self.stacks = Arc::new(m);
    }

    /// Another handle on the same stacks, for a reader.
    pub fn snapshot(&self) -> (r: UiStackMap)
        ensures
            r.stacks() == self.stacks(),
    {
        UiStackMap { stacks: Arc::clone(&self.stacks) }
    }

    /// Sets the stack of `camera` in this handle only; the map is copied first
    /// when a snapshot still shares it.
    pub fn insert(&mut self, camera: Entity, stack: UiStack)
        ensures
            final(self).stacks() == old(self).stacks().insert(entity_bits(camera), Arc::new(stack)),
    {
        let own = unshare(&mut self.stacks);
        own.insert(camera.to_bits(), Arc::new(stack));
    }

    /// The stack of `camera`, if it has one.
    pub fn get(&self, camera: Entity) -> (r: Option<Arc<UiStack>>)
        ensures
            r == (if self.stacks().contains_key(entity_bits(camera)) {
                Some(self.stacks()[entity_bits(camera)])
            } else {
                None
            }),
    {
        match self.stacks.get(&camera.to_bits()) {
            Some(s) => Some(Arc::clone(s)),
            None => None,
        }
    }

    /// Rebuilds this frame's stacks from empty: one per viewport with any visible
    /// slot, each ordered as `UiStack::build` orders it; a viewport with nothing
    /// visible gets none. A camera listed twice keeps the stack of its last view
    /// with a visible slot.
    pub fn rebuild(&mut self, scene: &UiScene, views: &[(Entity, Vec<u32>)])
        requires
            scene.wf(),
        ensures
            forall|e: u64|
                final(self).stacks().contains_key(e) <==> exists|i: int|
                    0 <= i < views@.len() && entity_bits(views@[i].0) == e && !visible_set(
                        #[trigger] views@[i].1@,
                    ).is_empty(),
            forall|e: u64|
                #[trigger] final(self).stacks().contains_key(e) ==> exists|i: int|
                    last_shown(views@, e, i, views@.len() as int) && stack_of(
                        scene,
                        visible_set(#[trigger] views@[i].1@),
                        *final(self).stacks()[e],
                    ),
    {
        self.clear();
        let mut i: usize = 0;
        while i < views.len()
            invariant
                scene.wf(),
                i <= views@.len(),
                forall|e: u64|
                    self.stacks().contains_key(e) <==> exists|j: int|
                        0 <= j < i && entity_bits(views@[j].0) == e && !visible_set(
                            #[trigger] views@[j].1@,
                        ).is_empty(),
                forall|e: u64|
                    #[trigger] self.stacks().contains_key(e) ==> exists|j: int|
                        last_shown(views@, e, j, i as int) && stack_of(
                            scene,
                            visible_set(#[trigger] views@[j].1@),
                            *self.stacks()[e],
                        ),
            decreases views@.len() - i,
        {
            let (camera, visible) = (&views[i].0, &views[i].1);
            let built = UiStack::build(scene, visible.as_slice());
            let ghost before = self.stacks();
            if let Some(stack) = built {
                self.insert(*camera, stack);
            }
            proof {
                assert forall|e: u64|
                    self.stacks().contains_key(e) <==> exists|j: int|
                        0 <= j < i + 1 && entity_bits(views@[j].0) == e && !visible_set(
                            #[trigger] views@[j].1@,
                        ).is_empty() by {
                    if self.stacks().contains_key(e) && !before.contains_key(e) {
                        assert(entity_bits(views@[i as int].0) == e);
                    }
                    if exists|j: int|
                        0 <= j < i + 1 && entity_bits(views@[j].0) == e && !visible_set(
                            #[trigger] views@[j].1@,
                        ).is_empty() {
                        let j = choose|j: int|
                            0 <= j < i + 1 && entity_bits(views@[j].0) == e && !visible_set(
                                #[trigger] views@[j].1@,
                            ).is_empty();
                        if j < i {
                            assert(before.contains_key(e));
                        }
                    }
                }
                assert forall|e: u64| #[trigger] self.stacks().contains_key(e) implies exists|j: int|
                    last_shown(views@, e, j, i + 1) && stack_of(
                        scene,
                        visible_set(#[trigger] views@[j].1@),
                        *self.stacks()[e],
                    ) by {
                    if built is Some && e == entity_bits(views@[i as int].0) {
                        assert(last_shown(views@, e, i as int, i + 1));
                        assert(stack_of(scene, visible_set(views@[i as int].1@), *self.stacks()[e]));
                    } else {
                        assert(before.contains_key(e));
                        assert(self.stacks()[e] == before[e]);
                        let j = choose|j: int|
                            last_shown(views@, e, j, i as int) && stack_of(
                                scene,
                                visible_set(#[trigger] views@[j].1@),
                                *before[e],
                            );
                        assert(last_shown(views@, e, j, i + 1));
                    }
                }
            }
            i = i + 1;
        }
    }
}

} // verus!
