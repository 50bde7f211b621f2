//! A frame's removal notifications, applied to the layout tree.
use vstd::prelude::*;

use crate::entity::{entity_bits, Entity};
use crate::layout::UiLayoutTree;
use crate::solver::solver_children;

verus! {

/// The entities among the first `n` of `v` whose flag equals `keep`, in order.
pub open spec fn selected(v: Seq<(Entity, bool)>, keep: bool, n: int) -> Seq<Entity>
    decreases n,
{
    if n <= 0 {
        Seq::empty()
    } else if v[n - 1].1 == keep {
        selected(v, keep, n - 1).push(v[n - 1].0)
    } else {
        selected(v, keep, n - 1)
    }
}

proof fn lemma_selected(v: Seq<(Entity, bool)>, keep: bool, n: int)
    requires
        0 <= n <= v.len(),
    ensures
        forall|x: int|
            0 <= x < selected(v, keep, n).len() ==> exists|j: int|
                0 <= j < n && v[j].1 == keep && v[j].0 == #[trigger] selected(v, keep, n)[x],
        forall|j: int| 0 <= j < n && #[trigger] v[j].1 == keep ==> selected(v, keep, n).contains(v[j].0),
    decreases n,
{
    if n > 0 {
        lemma_selected(v, keep, n - 1);
        let prev = selected(v, keep, n - 1);
        let cur = selected(v, keep, n);
        assert forall|x: int| 0 <= x < cur.len() implies exists|j: int|
            0 <= j < n && v[j].1 == keep && v[j].0 == #[trigger] cur[x] by {
            if x < prev.len() {
                assert(cur[x] == prev[x]);
                let j = choose|j: int| 0 <= j < n - 1 && v[j].1 == keep && v[j].0 == #[trigger] prev[x];
            } else {
                assert(v[n - 1].0 == cur[x]);
            }
        }
        assert forall|j: int| 0 <= j < n && #[trigger] v[j].1 == keep implies cur.contains(v[j].0) by {
            if j < n - 1 {
                let x = choose|x: int| 0 <= x < prev.len() && prev[x] == v[j].0;
                assert(cur[x] == prev[x]);
            } else {
                assert(cur[cur.len() - 1] == v[j].0);
            }
        }
    }
}

fn select(v: &[(Entity, bool)], keep: bool) -> (r: Vec<Entity>)
    ensures
        r@ == selected(v@, keep, v@.len() as int),
{
    let mut out: Vec<Entity> = Vec::new();
    let mut i: usize = 0;
    while i < v.len()
        invariant
            i <= v@.len(),
            out@ == selected(v@, keep, i as int),
        decreases v@.len() - i,
    {
        let (e, flag) = v[i];
        if flag == keep {
            out.push(e);
        }
        i = i + 1;
    }
    out
}

/// Applies a frame's removal notifications, children links first: each entity
/// whose children were detached has its child list emptied if it is still
/// layout-relevant (flag set), then each entity that lost its layout state loses
/// its node unless it is layout-relevant again (flag set).
pub fn apply_removals(
    tree: &mut UiLayoutTree,
    removed_children: &[(Entity, bool)],
    removed_nodes: &[(Entity, bool)],
)
    requires
        old(tree).wf(),
    ensures
        final(tree).wf(),
        forall|e: u64|
            final(tree).nodes().contains_key(e) <==> old(tree).nodes().contains_key(e) && !(exists|
                j: int,
            |
                0 <= j < removed_nodes@.len() && !removed_nodes@[j].1 && entity_bits(
                    #[trigger] removed_nodes@[j].0,
                ) == e),
        forall|e: u64| #[trigger]
            final(tree).nodes().contains_key(e) ==> final(tree).nodes()[e] == old(tree).nodes()[e],
        forall|j: int, n: u64|
            0 <= j < removed_children@.len() && removed_children@[j].1 && #[trigger] old(
                tree,
            ).node_of(removed_children@[j].0) == Some(n) && #[trigger] solver_children(
                final(tree).solver(),
            ).contains_key(n) ==> solver_children(final(tree).solver())[n].len() == 0,
{
    let detach = select(removed_children, true);
    proof {
        lemma_selected(removed_children@, true, removed_children@.len() as int);
    }
    tree.remove_nodes_children(detach.as_slice());
    let ghost mid = *tree;
    proof {
        assert forall|j: int, n: u64|
            0 <= j < removed_children@.len() && removed_children@[j].1 && old(tree).node_of(
                removed_children@[j].0,
            ) == Some(n) implies solver_children(mid.solver())[n].len() == 0 by {
            assert(detach@.contains(removed_children@[j].0));
            let x = choose|x: int| 0 <= x < detach@.len() && detach@[x] == removed_children@[j].0;
            assert(old(tree).node_of(detach@[x]) is Some);
        }
    }
    let gone = select(removed_nodes, false);
    proof {
        lemma_selected(removed_nodes@, false, removed_nodes@.len() as int);
    }
    tree.remove_nodes(gone.as_slice());
    proof {
        assert forall|j: int, n: u64|
            0 <= j < removed_children@.len() && removed_children@[j].1 && #[trigger] old(
                tree,
            ).node_of(removed_children@[j].0) == Some(n) && #[trigger] solver_children(
                tree.solver(),
            ).contains_key(n) implies solver_children(tree.solver())[n].len() == 0 by {
            assert(solver_children(mid.solver())[n].len() == 0);
        }
        assert forall|e: u64|
            tree.nodes().contains_key(e) <==> old(tree).nodes().contains_key(e) && !(exists|j: int|
                0 <= j < removed_nodes@.len() && !removed_nodes@[j].1 && entity_bits(
                    #[trigger] removed_nodes@[j].0,
                ) == e) by {
            if exists|j: int|
                0 <= j < removed_nodes@.len() && !removed_nodes@[j].1 && entity_bits(
                    #[trigger] removed_nodes@[j].0,
                ) == e {
                let j = choose|j: int|
                    0 <= j < removed_nodes@.len() && !removed_nodes@[j].1 && entity_bits(
                        #[trigger] removed_nodes@[j].0,
                    ) == e;
                assert(removed_nodes@[j].1 == false);
                assert(gone@.contains(removed_nodes@[j].0));
                let x = choose|x: int| 0 <= x < gone@.len() && gone@[x] == removed_nodes@[j].0;
                assert(entity_bits(gone@[x]) == e);
            }
            if exists|x: int| 0 <= x < gone@.len() && entity_bits(#[trigger] gone@[x]) == e {
                let x = choose|x: int| 0 <= x < gone@.len() && entity_bits(#[trigger] gone@[x]) == e;
                let j = choose|j: int|
                    0 <= j < removed_nodes@.len() && removed_nodes@[j].1 == false
                        && removed_nodes@[j].0 == #[trigger] gone@[x];
                assert(entity_bits(removed_nodes@[j].0) == e);
            }
        }
    }
}

} // verus!
