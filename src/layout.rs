//! The entity-to-layout-node mapping and the operations that keep the solver's
//! retained tree in step with it.
use vstd::prelude::*;
use std::collections::HashMap;
use taffy::{Style, TaffyTree};

use crate::entity::{entity_bits, Entity};
use crate::geometry::LayoutBox;
use crate::solver::{
    chain_avoids, solver_children, solver_layout, solver_layouts, solver_new, solver_new_leaf,
    solver_new_leaf_with_context, solver_parent, solver_parent_of, solver_remove,
    solver_set_children, solver_set_node_context, solver_set_style, solver_sound, default_style, solver_styles, solver_contexts, solver_remove_child,
};

verus! {

broadcast use vstd::std_specs::hash::group_hash_axioms, vstd::seq_lib::group_filter_ensures;

/// Why a layout-tree operation did not take place.
#[derive(Clone, Copy, Debug, PartialEq, Eq, Structural)]
pub enum LayoutError {
    /// The entity has no layout node.
    NotFound,
    /// The requested child list repeats a node, or names the parent itself or one
    /// of its ancestors; or the hierarchy handed to a synchronisation lists a
    /// node twice.
    InvalidChildren,
}

/// The node reached from `n` after `i` parent links.
pub open spec fn walk(par: Map<u64, u64>, n: u64, i: nat) -> u64
    decreases i,
{
    if i == 0 {
        n
    } else {
        walk(par, par[n], (i - 1) as nat)
    }
}

proof fn lemma_walk_step(par: Map<u64, u64>, n: u64, i: nat)
    ensures
        walk(par, n, i + 1) == par[walk(par, n, i)],
    decreases i,
{
    assert(walk(par, n, i + 1) == walk(par, par[n], i));
    if i > 0 {
        lemma_walk_step(par, par[n], (i - 1) as nat);
        assert(walk(par, n, i) == walk(par, par[n], (i - 1) as nat));
    }
}

/// A chain that avoids `avoid` within `k` links still does so from any node on it.
proof fn lemma_chain_forward(par: Map<u64, u64>, n: u64, avoid: Seq<u64>, k: nat, i: nat)
    requires
        chain_avoids(par, n, avoid, k),
        forall|j: nat| j < i ==> par.contains_key(#[trigger] walk(par, n, j)),
    ensures
        i <= k,
        chain_avoids(par, walk(par, n, i), avoid, (k - i) as nat),
    decreases i,
{
    if i > 0 {
        assert(par.contains_key(walk(par, n, 0)));
        assert forall|j: nat| j < (i - 1) as nat implies par.contains_key(
            #[trigger] walk(par, par[n], j),
        ) by {
            assert(walk(par, n, j + 1) == walk(par, par[n], j));
            assert(par.contains_key(walk(par, n, j + 1)));
        }
        lemma_chain_forward(par, par[n], avoid, (k - 1) as nat, (i - 1) as nat);
    }
}

/// A clean prefix followed by a chain that avoids `avoid` gives a chain that
/// avoids it from the start.
proof fn lemma_chain_back(par: Map<u64, u64>, n: u64, avoid: Seq<u64>, k: nat, i: nat)
    requires
        forall|j: nat|
            j < i ==> !avoid.contains(#[trigger] walk(par, n, j)) && par.contains_key(
                walk(par, n, j),
            ),
        chain_avoids(par, walk(par, n, i), avoid, k),
    ensures
        chain_avoids(par, n, avoid, k + i),
    decreases i,
{
    if i > 0 {
        assert(!avoid.contains(walk(par, n, 0)) && par.contains_key(walk(par, n, 0)));
        assert forall|j: nat| j < (i - 1) as nat implies !avoid.contains(
            #[trigger] walk(par, par[n], j),
        ) && par.contains_key(walk(par, par[n], j)) by {
            assert(walk(par, n, j + 1) == walk(par, par[n], j));
            assert(!avoid.contains(walk(par, n, j + 1)) && par.contains_key(walk(par, n, j + 1)));
        }
        lemma_chain_back(par, par[n], avoid, k, (i - 1) as nat);
    }
}

fn slice_contains(v: &[u64], x: u64) -> (r: bool)
    ensures
        r == v@.contains(x),
{
    let mut i: usize = 0;
    while i < v.len()
        invariant
            i <= v@.len(),
            forall|j: int| 0 <= j < i ==> v@[j] != x,
        decreases v@.len() - i,
    {
        if v[i] == x {
            return true;
        }
        i = i + 1;
    }
    false
}

fn has_no_repeats(v: &[u64]) -> (r: bool)
    ensures
        r == v@.no_duplicates(),
{
    let mut i: usize = 0;
    while i < v.len()
        invariant
            i <= v@.len(),
            forall|a: int, b: int| 0 <= a < b < i ==> v@[a] != v@[b],
        decreases v@.len() - i,
    {
        let mut j: usize = 0;
        while j < i
            invariant
                i < v@.len(),
                j <= i,
                forall|a: int| 0 <= a < j ==> v@[a] != v@[i as int],
            decreases i - j,
        {
            if v[j] == v[i] {
                return false;
            }
            j = j + 1;
        }
        i = i + 1;
    }
    true
}

/// Whether the parent chain of `start` stays clear of `avoid` (`start` included).
fn chain_clear(t: &TaffyTree<u64>, start: u64, avoid: &[u64]) -> (r: bool)
    requires
        solver_sound(*t),
        solver_children(*t).contains_key(start),
    ensures
        r == exists|k: nat| chain_avoids(solver_parent(*t), start, avoid@, k),
{
    let ghost par = solver_parent(*t);
    let ghost ch = solver_children(*t);
    let ghost k0: nat = choose|k: nat| chain_avoids(par, start, Seq::empty(), k);
    let mut cur = start;
    let ghost mut i: nat = 0;
    loop
        invariant
            solver_sound(*t),
            par == solver_parent(*t),
            ch == solver_children(*t),
            cur == walk(par, start, i),
            ch.contains_key(cur),
            i <= k0,
            chain_avoids(par, cur, Seq::empty(), (k0 - i) as nat),
            forall|j: nat|
                j < i ==> !avoid@.contains(#[trigger] walk(par, start, j)) && par.contains_key(
                    walk(par, start, j),
                ),
        decreases k0 - i,
    {
        if slice_contains(avoid, cur) {
            proof {
                if exists|k: nat| chain_avoids(par, start, avoid@, k) {
                    let k = choose|k: nat| chain_avoids(par, start, avoid@, k);
                    assert forall|j: nat| j < i implies par.contains_key(
                        #[trigger] walk(par, start, j),
                    ) by {}
                    lemma_chain_forward(par, start, avoid@, k, i);
                }
            }
            return false;
        }
        match solver_parent_of(t, cur) {
            None => {
                proof {
                    assert(chain_avoids(par, cur, avoid@, 0));
                    lemma_chain_back(par, start, avoid@, 0, i);
                }
                return true;
            },
            Some(p) => {
                proof {
                    lemma_walk_step(par, start, i);
                    assert(par.contains_key(cur));
                    assert(ch.contains_key(par[cur]));
                }
                cur = p;
                proof {
                    i = i + 1;
                }
            },
        }
    }
}

/// Adding a node with no children and no parent keeps the links sound.
proof fn lemma_leaf_keeps_sound(ch: Map<u64, Seq<u64>>, par: Map<u64, u64>, id: u64)
    requires
        crate::solver::links_sound(ch, par),
        !ch.contains_key(id),
    ensures
        crate::solver::links_sound(ch.insert(id, Seq::empty()), par),
{
    let ch2 = ch.insert(id, Seq::empty());
    assert forall|p: u64, i: int| ch2.contains_key(p) && 0 <= i < ch2[p].len() implies ch2.contains_key(
        #[trigger] ch2[p][i],
    ) && par.contains_key(ch2[p][i]) && par[ch2[p][i]] == p by {
        assert(p != id);
        assert(ch[p][i] == ch2[p][i]);
    }
    assert forall|c: u64| #[trigger] par.contains_key(c) implies ch2.contains_key(c) && ch2.contains_key(
        par[c],
    ) && ch2[par[c]].contains(c) by {
        assert(par[c] != id);
    }
    assert forall|n: u64| #[trigger] ch2.contains_key(n) implies exists|k: nat|
        chain_avoids(par, n, Seq::empty(), k) by {
        if n == id {
            assert(chain_avoids(par, n, Seq::empty(), 0));
        } else {
            assert(ch.contains_key(n));
        }
    }
}

/// Node `q` lived before, its child list did not grow, and an empty list stayed
/// empty.
pub open spec fn survives(before: Map<u64, Seq<u64>>, after: Map<u64, Seq<u64>>, q: u64) -> bool {
    &&& before.contains_key(q)
    &&& after[q].len() <= before[q].len()
}

/// Keeps the entity-to-node mapping and owns the solver tree.
pub struct UiLayoutTree {
    taffy: TaffyTree<u64>,
    node_map: HashMap<u64, u64>,
}

impl UiLayoutTree {
    /// The mapping from an entity's 64-bit form to its layout node.
    pub closed spec fn nodes(&self) -> Map<u64, u64> {
        self.node_map@
    }

    /// The solver tree that the mapping points into.
    pub closed spec fn solver(&self) -> TaffyTree<u64> {
        self.taffy
    }

    /// Every mapped node is alive in the solver, no two entities share a node, and
    /// the solver's links are sound.
    pub open spec fn wf(&self) -> bool {
        &&& solver_sound(self.solver())
        &&& forall|e: u64| #[trigger]
            self.nodes().contains_key(e) ==> solver_children(self.solver()).contains_key(
                self.nodes()[e],
            )
        &&& forall|a: u64, b: u64|
            #![trigger self.nodes()[a], self.nodes()[b]]
            self.nodes().contains_key(a) && self.nodes().contains_key(b) && a != b
                ==> self.nodes()[a] != self.nodes()[b]
    }

    /// The layout node of `e`, if it has one.
    pub open spec fn node_of(&self, e: Entity) -> Option<u64> {
        if self.nodes().contains_key(entity_bits(e)) {
            Some(self.nodes()[entity_bits(e)])
        } else {
            None
        }
    }

    /// An empty tree.
    pub fn new() -> (r: UiLayoutTree)
        ensures
            r.wf(),
            r.nodes().is_empty(),
            solver_children(r.solver()).is_empty(),
    {
        let taffy = solver_new();
        let node_map = HashMap::new();
        let r = UiLayoutTree { taffy, node_map };
        assert(solver_children(r.taffy) =~= Map::empty());
        assert(solver_parent(r.taffy) =~= Map::empty());
        r
    }

    /// Whether `entity` has a layout node.
    pub fn contains(&self, entity: Entity) -> (r: bool)
        ensures
            r == self.nodes().contains_key(entity_bits(entity)),
    {
        self.node_map.contains_key(&entity.to_bits())
    }

    /// The layout node of `entity`, if it has one.
    pub fn node_id(&self, entity: Entity) -> (r: Option<u64>)
        ensures
            r == self.node_of(entity),
    {
        match self.node_map.get(&entity.to_bits()) {
            Some(id) => Some(*id),
            None => None,
        }
    }

    /// Creates the entity's node if it has none; otherwise gives its existing node
    /// the new style and measurement key, keeping the node's identity.
    pub fn upsert_node(&mut self, entity: Entity, style: Style, context: Option<u64>) -> (r: u64)
        requires
            old(self).wf(),
        ensures
            final(self).wf(),
            final(self).nodes() == old(self).nodes().insert(entity_bits(entity), r),
            old(self).nodes().contains_key(entity_bits(entity)) ==> {
                &&& r == old(self).nodes()[entity_bits(entity)]
                &&& solver_children(final(self).solver()) == solver_children(old(self).solver())
            },
            !old(self).nodes().contains_key(entity_bits(entity)) ==> {
                &&& !solver_children(old(self).solver()).contains_key(r)
                &&& solver_children(final(self).solver()) == solver_children(
                    old(self).solver(),
                ).insert(r, Seq::empty())
            },
            solver_styles(final(self).solver()) == solver_styles(old(self).solver()).insert(r, style),
            solver_contexts(final(self).solver()) == solver_contexts(old(self).solver()).insert(
                r,
                context,
            ),
    {
        let key = entity.to_bits();
        match self.node_map.get(&key) {
            Some(found) => {
                let id = *found;
                assert(self.nodes().contains_key(key));
                self.set_node_style(id, style);
                self.set_node_context(id, context);
                id
            },
            None => {
                let made = match context {
                    Some(c) => solver_new_leaf_with_context(&mut self.taffy, style, c),
                    None => solver_new_leaf(&mut self.taffy, style),
                };
                let id = match made {
                    Ok(id) => id,
                    Err(_) => 0,
                };
                proof {
                    lemma_leaf_keeps_sound(
                        solver_children(old(self).taffy),
                        solver_parent(old(self).taffy),
                        id,
                    );
                }
                self.node_map.insert(key, id);
                assert(solver_sound(self.taffy));
                assert forall|e: u64| #[trigger] self.nodes().contains_key(e) implies solver_children(
                    self.solver(),
                ).contains_key(self.nodes()[e]) by {
                    if e != key {
                        assert(old(self).nodes().contains_key(e));
                    }
                }
                assert forall|a: u64, b: u64|
                    self.nodes().contains_key(a) && self.nodes().contains_key(b) && a != b
                        implies #[trigger] self.nodes()[a] != #[trigger] self.nodes()[b] by {
                    if a != key {
                        assert(old(self).nodes().contains_key(a));
                    }
                    if b != key {
                        assert(old(self).nodes().contains_key(b));
                    }
                }
                id
            },
        }
    }

    /// Replaces the style of a live node.
    pub fn set_node_style(&mut self, id: u64, style: Style)
        requires
            old(self).wf(),
            solver_children(old(self).solver()).contains_key(id),
        ensures
            final(self).wf(),
            final(self).nodes() == old(self).nodes(),
            solver_children(final(self).solver()) == solver_children(old(self).solver()),
            solver_styles(final(self).solver()) == solver_styles(old(self).solver()).insert(id, style),
            solver_contexts(final(self).solver()) == solver_contexts(old(self).solver()),
    {
        let _ = solver_set_style(&mut self.taffy, id, style);
        assert(self.node_map@ == old(self).node_map@);
        assert(solver_sound(self.taffy));
        assert(self.nodes() == old(self).nodes());
    }

    /// Replaces (or clears) the measurement key of a live node.
    pub fn set_node_context(&mut self, id: u64, context: Option<u64>)
        requires
            old(self).wf(),
            solver_children(old(self).solver()).contains_key(id),
        ensures
            final(self).wf(),
            final(self).nodes() == old(self).nodes(),
            solver_children(final(self).solver()) == solver_children(old(self).solver()),
            solver_styles(final(self).solver()) == solver_styles(old(self).solver()),
            solver_contexts(final(self).solver()) == solver_contexts(old(self).solver()).insert(
                id,
                context,
            ),
    {
        let _ = solver_set_node_context(&mut self.taffy, id, context);
        assert(self.node_map@ == old(self).node_map@);
        assert(solver_sound(self.taffy));
        assert(self.nodes() == old(self).nodes());
    }

    /// Replaces a node's whole child list. Fails, changing nothing, when the list
    /// repeats a node or names the node itself or one of its ancestors.
    pub fn set_node_children(&mut self, id: u64, children: &[u64]) -> (r: Result<(), LayoutError>)
        requires
            old(self).wf(),
            solver_children(old(self).solver()).contains_key(id),
            forall|i: int|
                0 <= i < children@.len() ==> solver_children(old(self).solver()).contains_key(
                    #[trigger] children@[i],
                ),
        ensures
            (r is Ok) == (children@.no_duplicates() && exists|k: nat|
                chain_avoids(solver_parent(old(self).solver()), id, children@, k)),
            r is Err ==> r == Err::<(), LayoutError>(LayoutError::InvalidChildren) && *final(self)
                == *old(self),
            final(self).wf(),
            final(self).nodes() == old(self).nodes(),
            r is Ok ==> {
                &&& solver_children(final(self).solver()).dom() == solver_children(
                    old(self).solver(),
                ).dom()
                &&& solver_children(final(self).solver())[id] == children@
            },
            r is Ok && children@.len() == 0 ==> solver_children(final(self).solver())
                == solver_children(old(self).solver()).insert(id, Seq::empty()),
            r is Ok ==> forall|q: u64|
                q != id && #[trigger] solver_children(old(self).solver()).contains_key(q)
                    ==> solver_children(final(self).solver())[q] == solver_children(
                    old(self).solver(),
                )[q].filter(|x: u64| !children@.contains(x)),
            solver_styles(final(self).solver()) == solver_styles(old(self).solver()),
            solver_contexts(final(self).solver()) == solver_contexts(old(self).solver()),
    {
        if !has_no_repeats(children) || !chain_clear(&self.taffy, id, children) {
            return Err(LayoutError::InvalidChildren);
        }
        let _ = solver_set_children(&mut self.taffy, id, children);
        assert(self.nodes() == old(self).nodes());
        assert forall|e: u64| #[trigger] self.nodes().contains_key(e) implies solver_children(
            self.solver(),
        ).contains_key(self.nodes()[e]) by {
            assert(old(self).nodes().contains_key(e));
        }
        Ok(())
    }

    /// Removes the entity's node from the solver and forgets the mapping; nothing
    /// happens for an entity without a node.
    pub fn remove_node(&mut self, entity: Entity)
        requires
            old(self).wf(),
        ensures
            final(self).wf(),
            final(self).nodes() == old(self).nodes().remove(entity_bits(entity)),
            old(self).node_of(entity) matches Some(id) ==> solver_children(
                final(self).solver(),
            ).dom() == solver_children(old(self).solver()).dom().remove(id),
            old(self).node_of(entity) is None ==> *final(self) == *old(self),
            old(self).node_of(entity) matches Some(id) ==> forall|q: u64| #[trigger]
                solver_children(final(self).solver()).contains_key(q) ==> solver_children(
                    final(self).solver(),
                )[q] == solver_children(old(self).solver())[q].filter(|x: u64| x != id),
    {
        let key = entity.to_bits();
        if !self.node_map.contains_key(&key) {
            return;
        }
        let removed = self.node_map.remove(&key);
        if let Some(id) = removed {
            assert(old(self).nodes().contains_key(key));
            let _ = solver_remove(&mut self.taffy, id);
            assert forall|e: u64| #[trigger] self.nodes().contains_key(e) implies solver_children(
                self.solver(),
            ).contains_key(self.nodes()[e]) by {
                assert(old(self).nodes().contains_key(e));
                assert(old(self).nodes()[e] != old(self).nodes()[key]);
            }
            assert forall|a: u64, b: u64|
                self.nodes().contains_key(a) && self.nodes().contains_key(b) && a != b
                    implies #[trigger] self.nodes()[a] != #[trigger] self.nodes()[b] by {
                assert(old(self).nodes().contains_key(a));
                assert(old(self).nodes().contains_key(b));
            }
        }
    }

    /// Removes the node of every entity in `entities`, in order.
    pub fn remove_nodes(&mut self, entities: &[Entity])
        requires
            old(self).wf(),
        ensures
            final(self).wf(),
            forall|i: int|
                0 <= i < entities@.len() ==> !final(self).nodes().contains_key(
                    entity_bits(#[trigger] entities@[i]),
                ),
            forall|e: u64|
                final(self).nodes().contains_key(e) <==> old(self).nodes().contains_key(e) && !(
                exists|i: int| 0 <= i < entities@.len() && entity_bits(#[trigger] entities@[i]) == e),
            forall|e: u64| #[trigger]
                final(self).nodes().contains_key(e) ==> final(self).nodes()[e] == old(
                    self,
                ).nodes()[e],
            forall|q: u64| #[trigger]
                solver_children(final(self).solver()).contains_key(q) ==> survives(
                    solver_children(old(self).solver()),
                    solver_children(final(self).solver()),
                    q,
                ),
    {
        let mut i: usize = 0;
        while i < entities.len()
            invariant
                self.wf(),
                i <= entities@.len(),
                forall|q: u64| #[trigger]
                    solver_children(self.solver()).contains_key(q) ==> survives(
                        solver_children(old(self).solver()),
                        solver_children(self.solver()),
                        q,
                    ),
                forall|j: int|
                    0 <= j < i ==> !self.nodes().contains_key(entity_bits(#[trigger] entities@[j])),
                forall|e: u64|
                    self.nodes().contains_key(e) <==> old(self).nodes().contains_key(e) && !(
                    exists|j: int| 0 <= j < i && entity_bits(#[trigger] entities@[j]) == e),
                forall|e: u64| #[trigger]
                    self.nodes().contains_key(e) ==> self.nodes()[e] == old(self).nodes()[e],
            decreases entities@.len() - i,
        {
            let ghost before = solver_children(self.solver());
            self.remove_node(entities[i]);
            proof {
                let now = solver_children(self.solver());
                assert forall|q: u64| #[trigger] now.contains_key(q) implies survives(
                    solver_children(old(self).solver()),
                    now,
                    q,
                ) by {
                    assert(before.contains_key(q));
                }
            }
            i = i + 1;
        }
    }

    /// Empties the child list of the entity's node, keeping the node itself; nothing
    /// happens for an entity without a node.
    pub fn remove_node_children(&mut self, entity: Entity)
        requires
            old(self).wf(),
        ensures
            final(self).wf(),
            final(self).nodes() == old(self).nodes(),
            old(self).node_of(entity) matches Some(id) ==> solver_children(final(self).solver())
                == solver_children(old(self).solver()).insert(id, Seq::empty()),
            old(self).node_of(entity) is None ==> *final(self) == *old(self),
            solver_styles(final(self).solver()) == solver_styles(old(self).solver()),
            solver_contexts(final(self).solver()) == solver_contexts(old(self).solver()),
    {
        let found = self.node_id(entity);
        if let Some(id) = found {
            let empty: Vec<u64> = Vec::new();
            assert(empty@ =~= Seq::<u64>::empty());
            proof {
                let ch = solver_children(self.taffy);
                assert(ch.contains_key(id));
                let k = choose|k: nat| chain_avoids(solver_parent(self.taffy), id, Seq::empty(), k);
                assert(chain_avoids(solver_parent(self.taffy), id, empty@, k));
            }
            let _ = solver_set_children(&mut self.taffy, id, empty.as_slice());
            assert(self.nodes() == old(self).nodes());
            assert forall|e: u64| #[trigger] self.nodes().contains_key(e) implies solver_children(
                self.solver(),
            ).contains_key(self.nodes()[e]) by {
                assert(old(self).nodes().contains_key(e));
            }
        }
    }

    /// Empties the child list of each entity's node in `entities`, in order.
    pub fn remove_nodes_children(&mut self, entities: &[Entity])
        requires
            old(self).wf(),
        ensures
            final(self).wf(),
            final(self).nodes() == old(self).nodes(),
            forall|i: int|
                0 <= i < entities@.len() && old(self).node_of(#[trigger] entities@[i]) is Some
                    ==> solver_children(final(self).solver())[old(self).node_of(
                    entities@[i],
                )->Some_0] == Seq::<u64>::empty(),
            solver_children(final(self).solver()).dom() == solver_children(
                old(self).solver(),
            ).dom(),
            forall|q: u64|
                #[trigger] solver_children(old(self).solver()).contains_key(q) && !(exists|i: int|
                    0 <= i < entities@.len() && old(self).node_of(#[trigger] entities@[i]) == Some(q))
                    ==> solver_children(final(self).solver())[q] == solver_children(
                    old(self).solver(),
                )[q],
            solver_styles(final(self).solver()) == solver_styles(old(self).solver()),
            solver_contexts(final(self).solver()) == solver_contexts(old(self).solver()),
    {
        let mut i: usize = 0;
        while i < entities.len()
            invariant
                self.wf(),
                i <= entities@.len(),
                self.nodes() == old(self).nodes(),
                solver_children(self.solver()).dom() == solver_children(old(self).solver()).dom(),
                forall|j: int|
                    0 <= j < i && old(self).node_of(#[trigger] entities@[j]) is Some
                        ==> solver_children(self.solver())[old(self).node_of(
                        entities@[j],
                    )->Some_0] == Seq::<u64>::empty(),
                forall|q: u64|
                    #[trigger] solver_children(old(self).solver()).contains_key(q) && !(exists|j: int|
                        0 <= j < i && old(self).node_of(#[trigger] entities@[j]) == Some(q))
                        ==> solver_children(self.solver())[q] == solver_children(
                        old(self).solver(),
                    )[q],
                solver_styles(self.solver()) == solver_styles(old(self).solver()),
                solver_contexts(self.solver()) == solver_contexts(old(self).solver()),
            decreases entities@.len() - i,
        {
            self.remove_node_children(entities[i]);
            i = i + 1;
        }
    }

    /// The solved box of the entity's node, or `NotFound` when it has none.
    pub fn get_layout(&self, entity: Entity) -> (r: Result<LayoutBox, LayoutError>)
        requires
            self.wf(),
        ensures
            match self.node_of(entity) {
                Some(id) => r == Ok::<LayoutBox, LayoutError>(solver_layouts(self.solver())[id]),
                None => r == Err::<LayoutBox, LayoutError>(LayoutError::NotFound),
            },
    {
        match self.node_id(entity) {
            Some(id) => {
                assert(self.nodes().contains_key(entity_bits(entity)));
                match solver_layout(&self.taffy, id) {
                    Ok(b) => Ok(b),
                    Err(_) => Err(LayoutError::NotFound),
                }
            },
            None => Err(LayoutError::NotFound),
        }
    }

    /// The node that a computation rooted at `root` starts from: the entity's own
    /// node, or a new default-styled leaf mapped to it when it has none.
    pub fn compute_root(&mut self, root: Entity) -> (r: u64)
        requires
            old(self).wf(),
        ensures
            final(self).wf(),
            final(self).nodes() == old(self).nodes().insert(entity_bits(root), r),
            old(self).node_of(root) matches Some(id) ==> r == id && *final(self) == *old(self),
            old(self).node_of(root) is None ==> solver_children(final(self).solver())
                == solver_children(old(self).solver()).insert(r, Seq::empty()),
            old(self).node_of(root) is None ==> !solver_children(old(self).solver()).contains_key(r),
            old(self).node_of(root) is None ==> solver_contexts(final(self).solver())
                == solver_contexts(old(self).solver()).insert(r, None),
    {
        match self.node_id(root) {
            Some(id) => {
                assert(old(self).nodes().insert(entity_bits(root), id) =~= old(self).nodes());
                id
            },
            None => self.upsert_node(root, default_style(), None),
        }
    }

    /// Lends the solver tree for a computation over it (the measured solve, whose
    /// size callbacks work in floating point, runs outside this crate). A
    /// computation only writes solved boxes and leaves nodes and links as they are;
    /// nothing here can check that of the borrower, so after the borrow the tree is
    /// well formed only if the borrower did no more than compute.
    pub fn solver_mut(&mut self) -> (r: &mut TaffyTree<u64>)
        ensures
            *r == old(self).solver(),
            final(self).nodes() == old(self).nodes(),
            final(self).solver() == *final(r),
    {
        &mut self.taffy
    }

    /// Replaces a node's whole child list with `children`, which repeats no node
    /// and does not name the node itself; the new children leave their previous
    /// parents' lists. When the list names one of the node's ancestors (a link
    /// left from an earlier frame, which the hierarchy being written has already
    /// replaced), the node is first detached from its parent, so that no cycle
    /// forms and the write completes.
    pub fn replace_children(&mut self, id: u64, children: &[u64])
        requires
            old(self).wf(),
            solver_children(old(self).solver()).contains_key(id),
            forall|i: int|
                0 <= i < children@.len() ==> solver_children(old(self).solver()).contains_key(
                    #[trigger] children@[i],
                ),
            children@.no_duplicates(),
            !children@.contains(id),
        ensures
            final(self).wf(),
            final(self).nodes() == old(self).nodes(),
            solver_children(final(self).solver()).dom() == solver_children(old(self).solver()).dom(),
            solver_children(final(self).solver())[id] == children@,
            solver_styles(final(self).solver()) == solver_styles(old(self).solver()),
            solver_contexts(final(self).solver()) == solver_contexts(old(self).solver()),
            (exists|k: nat| chain_avoids(solver_parent(old(self).solver()), id, children@, k)) ==> {
                &&& solver_parent(final(self).solver()).contains_key(id) == solver_parent(
                    old(self).solver(),
                ).contains_key(id)
                &&& forall|q: u64|
                    q != id && #[trigger] solver_children(old(self).solver()).contains_key(q)
                        ==> solver_children(final(self).solver())[q] == solver_children(
                        old(self).solver(),
                    )[q].filter(|x: u64| !children@.contains(x))
            },
            !(exists|k: nat| chain_avoids(solver_parent(old(self).solver()), id, children@, k)) ==> {
                &&& !solver_parent(final(self).solver()).contains_key(id)
                &&& forall|q: u64|
                    q != id && #[trigger] solver_children(old(self).solver()).contains_key(q)
                        ==> solver_children(final(self).solver())[q] == (if q == solver_parent(
                        old(self).solver(),
                    )[id] {
                        solver_children(old(self).solver())[q].filter(|x: u64| x != id)
                    } else {
                        solver_children(old(self).solver())[q]
                    }).filter(|x: u64| !children@.contains(x))
            },
    {
        if !chain_clear(&self.taffy, id, children) {
            match solver_parent_of(&self.taffy, id) {
                Some(p) => {
                    let _ = solver_remove_child(&mut self.taffy, p, id);
                    assert(chain_avoids(solver_parent(self.taffy), id, children@, 0));
                },
                None => {
                    assert(chain_avoids(solver_parent(self.taffy), id, children@, 0));
                },
            }
        }
        let _ = solver_set_children(&mut self.taffy, id, children);
        assert(self.nodes() == old(self).nodes());
        assert forall|e: u64| #[trigger] self.nodes().contains_key(e) implies solver_children(
            self.solver(),
        ).contains_key(self.nodes()[e]) by {
            assert(old(self).nodes().contains_key(e));
        }
    }
}

} // verus!
