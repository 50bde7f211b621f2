//! A frame's snapshot of the layout-relevant part of the scene hierarchy.
use vstd::prelude::*;
use std::collections::HashSet;
use taffy::Style;

use crate::entity::Entity;

verus! {

broadcast use vstd::std_specs::hash::group_hash_axioms;

/// One layout-relevant entity as it stands this frame.
pub struct SceneNode {
    pub entity: Entity,
    /// Order key of the entity's depth coordinate: a larger key is farther away.
    pub depth: u32,
    /// Positions (in the snapshot) of its layout-relevant children, in hierarchy
    /// order.
    pub children: Vec<usize>,
    /// Whether it has a layout-relevant parent.
    pub has_parent: bool,
    pub style: Style,
    /// Key of its measurement provider, if its size depends on its content.
    pub measure: Option<u64>,
    /// It became layout-relevant this frame.
    pub added: bool,
    /// Its style was changed this frame.
    pub style_changed: bool,
    /// Its set of children was changed this frame.
    pub children_changed: bool,
}

/// The layout-relevant entities of the scene, each child placed after its parent.
pub struct UiScene {
    pub nodes: Vec<SceneNode>,
}

impl UiScene {
    pub open spec fn len(&self) -> nat {
        self.nodes@.len()
    }

    pub open spec fn children_of(&self, k: int) -> Seq<usize> {
        self.nodes@[k].children@
    }

    /// Children come after their parent and inside the snapshot, no child list
    /// repeats a position, and no two nodes share a slot index.
    pub open spec fn wf(&self) -> bool {
        &&& forall|k: int, i: int|
            #![trigger self.children_of(k)[i]]
            0 <= k < self.len() && 0 <= i < self.children_of(k).len() ==> k < self.children_of(k)[i]
                < self.len()
        &&& forall|k: int| 0 <= k < self.len() ==> #[trigger] self.children_of(k).no_duplicates()
        &&& forall|a: int, b: int|
            #![trigger self.nodes@[a], self.nodes@[b]]
            0 <= a < self.len() && 0 <= b < self.len() && a != b ==> self.nodes@[a].entity.index
                != self.nodes@[b].entity.index
    }

    /// Whether the snapshot is well formed.
    pub fn is_wf(&self) -> (r: bool)
        ensures
            r == self.wf(),
    {
        let n = self.nodes.len();
        let mut k: usize = 0;
        while k < n
            invariant
                n == self.len(),
                k <= n,
                forall|a: int, i: int|
                    #![trigger self.children_of(a)[i]]
                    0 <= a < k && 0 <= i < self.children_of(a).len() ==> a < self.children_of(a)[i]
                        < self.len(),
                forall|a: int| 0 <= a < k ==> #[trigger] self.children_of(a).no_duplicates(),
            decreases n - k,
        {
            let children = &self.nodes[k].children;
            let mut i: usize = 0;
            while i < children.len()
                invariant
                    n == self.len(),
                    k < n,
                    children@ == self.children_of(k as int),
                    i <= children@.len(),
                    forall|x: int| 0 <= x < i ==> k < #[trigger] children@[x] < n,
                    forall|x: int, y: int| 0 <= x < y < i ==> children@[x] != children@[y],
                decreases children@.len() - i,
            {
                let c = children[i];
                if c <= k || c >= n {
                    return false;
                }
                let mut j: usize = 0;
                while j < i
                    invariant
                        n == self.len(),
                        k < n,
                        children@ == self.children_of(k as int),
                        i < children@.len(),
                        j <= i,
                        c == children@[i as int],
                        forall|x: int| 0 <= x < j ==> children@[x] != c,
                    decreases i - j,
                {
                    if children[j] == c {
                        assert(children@[j as int] == children@[i as int]);
                        assert(!self.children_of(k as int).no_duplicates());
                        return false;
                    }
                    j = j + 1;
                }
                i = i + 1;
            }
            assert(self.children_of(k as int).no_duplicates()) by {
                assert forall|x: int, y: int|
                    0 <= x < children@.len() && 0 <= y < children@.len() && x != y implies children@[x]
                    != children@[y] by {
                    if x < y {
                    } else {
                    }
                }
            }
            k = k + 1;
        }
        let mut slots: HashSet<u32> = HashSet::new();
        let mut a: usize = 0;
        while a < n
            invariant
                n == self.len(),
                a <= n,
                forall|x: u32| slots@.contains(x) <==> exists|b: int|
                    0 <= b < a && (#[trigger] self.nodes@[b]).entity.index == x,
                forall|x: int, y: int|
                    #![trigger self.nodes@[x], self.nodes@[y]]
                    0 <= x < a && 0 <= y < a && x != y ==> self.nodes@[x].entity.index
                        != self.nodes@[y].entity.index,
            decreases n - a,
        {
            let index = self.nodes[a].entity.index;
            if !slots.insert(index) {
                proof {
                    let b = choose|b: int| 0 <= b < a && (#[trigger] self.nodes@[b]).entity.index == index;
                    assert(self.nodes@[b].entity.index == self.nodes@[a as int].entity.index);
                }
                return false;
            }
            a = a + 1;
        }
        true
    }
}

} // verus!
