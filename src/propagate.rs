//! Carries solved geometry down each visible subtree into cached boxes and
//! transform anchors.
use vstd::prelude::*;

use crate::entity::Entity;
use crate::geometry::{placed_cache, placement, ComputedLayout, LayoutBox, Placement};
use crate::layout::UiLayoutTree;
use crate::scene::UiScene;
use crate::solver::solver_layouts;

verus! {

/// The solved box of an entity that has a layout node.
pub open spec fn solved_box(tree: &UiLayoutTree, e: Entity) -> LayoutBox {
    solver_layouts(tree.solver())[tree.node_of(e)->Some_0]
}

/// The solved size of the parent a node is placed in; none for a root.
pub open spec fn size_of_parent(tree: &UiLayoutTree, scene: &UiScene, parent: Option<usize>) -> Option<
    (i32, i32),
> {
    match parent {
        Some(p) => Some(
            (
                solved_box(tree, scene.nodes@[p as int].entity).width,
                solved_box(tree, scene.nodes@[p as int].entity).height,
            ),
        ),
        None => None,
    }
}

/// Entry `i` is the only one that reports its node.
pub open spec fn reported_once(out: Seq<(usize, Option<usize>, Placement)>, i: int) -> bool {
    forall|j: int| 0 <= j < out.len() && j != i ==> #[trigger] out[j].0 != out[i].0
}

/// What a propagation pass reports and leaves behind. Each entry names a node,
/// the parent it was placed in (none for a root) and the decision. Every reported
/// node has a layout node and now caches its solved box; a named parent is a node
/// with a layout node that lists the reported node as a child; a node reported once was placed,
/// from its cache before the pass, in its parent's solved size, and caches the
/// result; a node that no entry reports kept its cache.
pub open spec fn propagated(
    tree: &UiLayoutTree,
    scene: &UiScene,
    before: Seq<ComputedLayout>,
    after: Seq<ComputedLayout>,
    out: Seq<(usize, Option<usize>, Placement)>,
) -> bool {
    &&& after.len() == before.len()
    &&& forall|i: int|
        #![trigger out[i]]
        0 <= i < out.len() ==> {
            &&& out[i].0 < scene.len()
            &&& tree.node_of(scene.nodes@[out[i].0 as int].entity) is Some
            &&& after[out[i].0 as int].layout == solved_box(tree, scene.nodes@[out[i].0 as int].entity)
            &&& out[i].1 matches Some(p) ==> {
                &&& p < scene.len()
                &&& tree.node_of(scene.nodes@[p as int].entity) is Some
                &&& scene.children_of(p as int).contains(out[i].0)
            }
            &&& reported_once(out, i) ==> {
                &&& out[i].2 == placement(
                    before[out[i].0 as int],
                    solved_box(tree, scene.nodes@[out[i].0 as int].entity),
                    size_of_parent(tree, scene, out[i].1),
                )
                &&& after[out[i].0 as int] == placed_cache(
                    before[out[i].0 as int],
                    solved_box(tree, scene.nodes@[out[i].0 as int].entity),
                    size_of_parent(tree, scene, out[i].1),
                )
            }
        }
    &&& forall|j: int|
        0 <= j < after.len() && after[j] != before[j] ==> exists|i: int|
            0 <= i < out.len() && out[i].0 == j
}

/// Every entry after position `lo` names a parent, and that parent was reported
/// at or after `lo` before it.
pub open spec fn parents_reported(out: Seq<(usize, Option<usize>, Placement)>, lo: int) -> bool {
    forall|j: int|
        #![trigger out[j]]
        lo < j < out.len() ==> out[j].1 is Some && exists|l: int|
            lo <= l < j && out[l].0 == out[j].1->Some_0
}

/// Every child that has a layout node, of a node reported at or after `lo`, is
/// reported at or after `lo`, placed in that node.
pub open spec fn children_reported(
    tree: &UiLayoutTree,
    scene: &UiScene,
    out: Seq<(usize, Option<usize>, Placement)>,
    lo: int,
) -> bool {
    forall|j: int, c: usize|
        lo <= j < out.len() && #[trigger] scene.children_of(out[j].0 as int).contains(c) && tree.node_of(
            scene.nodes@[c as int].entity,
        ) is Some ==> exists|l: int| lo <= l < out.len() && out[l].0 == c && out[l].1 == Some(out[j].0)
}

fn place_subtree(
    tree: &UiLayoutTree,
    scene: &UiScene,
    k: usize,
    parent: Option<usize>,
    parent_size: Option<(i32, i32)>,
    computed: &mut Vec<ComputedLayout>,
    out: &mut Vec<(usize, Option<usize>, Placement)>,
)
    requires
        tree.wf(),
        scene.wf(),
        k < scene.len(),
        parent_size == size_of_parent(tree, scene, parent),
        parent matches Some(p) ==> {
            &&& p < scene.len()
            &&& tree.node_of(scene.nodes@[p as int].entity) is Some
            &&& scene.children_of(p as int).contains(k)
        },
        old(computed)@.len() == scene.len(),
    ensures
        forall|b: Seq<ComputedLayout>|
            propagated(tree, scene, b, old(computed)@, old(out)@) ==> propagated(
                tree,
                scene,
                b,
                final(computed)@,
                final(out)@,
            ),
        final(computed)@.len() == scene.len(),
        final(out)@.len() >= old(out)@.len(),
        forall|i: int| 0 <= i < old(out)@.len() ==> final(out)@[i] == old(out)@[i],
        parents_reported(final(out)@, old(out)@.len() as int),
        children_reported(tree, scene, final(out)@, old(out)@.len() as int),
        final(out)@.len() > old(out)@.len() ==> tree.node_of(scene.nodes@[k as int].entity) is Some,
        k < scene.len() && tree.node_of(scene.nodes@[k as int].entity) is Some ==> final(out)@.len()
            > old(out)@.len() && final(out)@[old(out)@.len() as int].0 == k
            && final(out)@[old(out)@.len() as int].1 == parent
            && final(out)@[old(out)@.len() as int].2 == placement(
            old(computed)@[k as int],
            solved_box(tree, scene.nodes@[k as int].entity),
            parent_size,
        ),
    decreases scene.len() - k,
{
    let node = &scene.nodes[k];
    let solved = tree.get_layout(node.entity);
    let layout = match solved {
        Ok(l) => l,
        Err(_) => {
            assert(out@ =~= old(out)@);
            return ;
        },
    };
    let mut c = computed[k];
    let p = c.place(layout, parent_size);
    let ghost c0 = computed@;
    let ghost o0 = out@;
    computed.set(k, c);
    out.push((k, parent, p));
    assert forall|b: Seq<ComputedLayout>|
        propagated(tree, scene, b, c0, o0) implies propagated(tree, scene, b, computed@, out@) by {
        assert forall|j: int|
            0 <= j < computed@.len() && computed@[j] != b[j] implies exists|i: int|
                0 <= i < out@.len() && out@[i].0 == j by {
            if j == k {
                assert(out@[out@.len() - 1].0 == j);
            } else {
                let i = choose|i: int| 0 <= i < o0.len() && o0[i].0 == j;
                assert(out@[i] == o0[i]);
            }
        }
        assert forall|i: int| 0 <= i < out@.len() implies {
            &&& (#[trigger] out@[i]).0 < scene.len()
            &&& tree.node_of(scene.nodes@[out@[i].0 as int].entity) is Some
            &&& computed@[out@[i].0 as int].layout == solved_box(
                tree,
                scene.nodes@[out@[i].0 as int].entity,
            )
            &&& out@[i].1 matches Some(q) ==> {
                &&& q < scene.len()
                &&& tree.node_of(scene.nodes@[q as int].entity) is Some
                &&& scene.children_of(q as int).contains(out@[i].0)
            }
            &&& reported_once(out@, i) ==> {
                &&& out@[i].2 == placement(
                    b[out@[i].0 as int],
                    solved_box(tree, scene.nodes@[out@[i].0 as int].entity),
                    size_of_parent(tree, scene, out@[i].1),
                )
                &&& computed@[out@[i].0 as int] == placed_cache(
                    b[out@[i].0 as int],
                    solved_box(tree, scene.nodes@[out@[i].0 as int].entity),
                    size_of_parent(tree, scene, out@[i].1),
                )
            }
        } by {
            if i < o0.len() {
                assert(out@[i] == o0[i]);
                if reported_once(out@, i) {
                    assert(out@[out@.len() - 1].0 == k);
                    assert(out@[i].0 != k);
                    assert forall|j: int| 0 <= j < o0.len() && j != i implies #[trigger] o0[j].0
                        != o0[i].0 by {
                        assert(out@[j] == o0[j]);
                    }
                    assert(reported_once(o0, i));
                }
            } else {
                if reported_once(out@, i) {
                    if c0[k as int] != b[k as int] {
                        let j = choose|j: int| 0 <= j < o0.len() && o0[j].0 == k;
                        assert(out@[j] == o0[j]);
                        assert(out@[j].0 == out@[i].0);
                    }
                }
            }
        }
    }
    let first = out.len() - 1;
    let size = Some((c.layout.width, c.layout.height));
    assert(tree.node_of(scene.nodes@[k as int].entity) is Some);
    let children = &node.children;
    let mut i: usize = 0;
    while i < children.len()
        invariant
            tree.wf(),
            scene.wf(),
            k < scene.len(),
            children@ == scene.children_of(k as int),
            i <= children@.len(),
            computed@.len() == scene.len(),
            first == o0.len(),
            out@.len() > first,
            out@[first as int].0 == k,
            out@[first as int].1 == parent,
            out@[first as int].2 == p,
            c.layout == solved_box(tree, scene.nodes@[k as int].entity),
            size == size_of_parent(tree, scene, Some(k)),
            tree.node_of(scene.nodes@[k as int].entity) is Some,
            forall|b: Seq<ComputedLayout>|
                propagated(tree, scene, b, old(computed)@, old(out)@) ==> propagated(
                    tree,
                    scene,
                    b,
                    computed@,
                    out@,
                ),
            o0 == old(out)@,
            forall|j: int| 0 <= j < o0.len() ==> out@[j] == o0[j],
            parents_reported(out@, first as int),
            forall|j: int, cc: usize|
                first < j < out@.len() && #[trigger] scene.children_of(out@[j].0 as int).contains(cc)
                    && tree.node_of(scene.nodes@[cc as int].entity) is Some ==> exists|l: int|
                    first <= l < out@.len() && out@[l].0 == cc && out@[l].1 == Some(out@[j].0),
            forall|t: int|
                0 <= t < i && tree.node_of(scene.nodes@[#[trigger] children@[t] as int].entity) is Some
                    ==> exists|l: int| first <= l < out@.len() && out@[l].0 == children@[t] && out@[l].1
                    == Some(k),
        decreases children@.len() - i,
    {
        let child = children[i];
        assert(k < scene.children_of(k as int)[i as int]);
        assert(scene.children_of(k as int)[i as int] == child);
        assert(scene.children_of(k as int).contains(child));
        let ghost o1 = out@;
        place_subtree(tree, scene, child, Some(k), size, computed, out);
        proof {
            assert forall|j: int| first < j < out@.len() implies out@[j].1 is Some && exists|l: int|
                first <= l < j && out@[l].0 == out@[j].1->Some_0 by {
                if j < o1.len() {
                    assert(out@[j] == o1[j]);
                    let l = choose|l: int| first <= l < j && o1[l].0 == o1[j].1->Some_0;
                    assert(out@[l] == o1[l]);
                } else if j == o1.len() {
                    assert(out@[first as int] == o1[first as int]);
                } else {
                    let l = choose|l: int| o1.len() <= l < j && out@[l].0 == out@[j].1->Some_0;
                }
            }
            assert forall|j: int, cc: usize|
                first < j < out@.len() && #[trigger] scene.children_of(out@[j].0 as int).contains(cc)
                    && tree.node_of(scene.nodes@[cc as int].entity) is Some implies exists|l: int|
                first <= l < out@.len() && out@[l].0 == cc && out@[l].1 == Some(out@[j].0) by {
                if j < o1.len() {
                    assert(out@[j] == o1[j]);
                    assert(scene.children_of(o1[j].0 as int).contains(cc));
                    let l = choose|l: int| first <= l < o1.len() && o1[l].0 == cc && o1[l].1 == Some(o1[j].0);
                    assert(out@[l] == o1[l]);
                } else {
                    let l = choose|l: int| o1.len() <= l < out@.len() && out@[l].0 == cc && out@[l].1 == Some(out@[j].0);
                }
            }
            assert forall|t: int|
                0 <= t < i + 1 && tree.node_of(scene.nodes@[#[trigger] children@[t] as int].entity) is Some
                    implies exists|l: int| first <= l < out@.len() && out@[l].0 == children@[t] && out@[l].1
                    == Some(k) by {
                if t < i {
                    let l = choose|l: int| first <= l < o1.len() && o1[l].0 == children@[t] && o1[l].1 == Some(k);
                    assert(out@[l] == o1[l]);
                } else {
                    assert(out@[o1.len() as int].0 == child);
                }
            }
        }
        i = i + 1;
    }
    proof {
        assert forall|j: int, cc: usize|
            first <= j < out@.len() && #[trigger] scene.children_of(out@[j].0 as int).contains(cc)
                && tree.node_of(scene.nodes@[cc as int].entity) is Some implies exists|l: int|
            first <= l < out@.len() && out@[l].0 == cc && out@[l].1 == Some(out@[j].0) by {
            if j == first {
                let t = choose|t: int| 0 <= t < children@.len() && children@[t] == cc;
                assert(tree.node_of(scene.nodes@[children@[t] as int].entity) is Some);
            }
        }
    }
}

/// Carries the solved geometry down from each root, in the given order: every node
/// with a layout node caches its solved box, a child's anchor is taken inside its
/// parent's solved size, and a root keeps its transform. A node without a layout
/// node is skipped together with its subtree.
pub fn propagate_geometry(
    tree: &UiLayoutTree,
    scene: &UiScene,
    roots: &[usize],
    computed: &mut Vec<ComputedLayout>,
) -> (r: Vec<(usize, Option<usize>, Placement)>)
    requires
        tree.wf(),
        scene.wf(),
        old(computed)@.len() == scene.len(),
    ensures
        propagated(tree, scene, old(computed)@, final(computed)@, r@),
        forall|i: int|
            0 <= i < roots@.len() && #[trigger] roots@[i] < scene.len() && tree.node_of(
                scene.nodes@[roots@[i] as int].entity,
            ) is Some ==> exists|j: int|
                0 <= j < r@.len() && r@[j].0 == roots@[i] && r@[j].1 is None && !r@[j].2.moved,
        forall|j: int| 0 <= j < r@.len() && (#[trigger] r@[j]).1 is None ==> roots@.contains(r@[j].0),
        forall|j: int|
            0 <= j < r@.len() && (#[trigger] r@[j]).1 is Some ==> exists|l: int|
                0 <= l < j && r@[l].0 == r@[j].1->Some_0,
        children_reported(tree, scene, r@, 0),
{
    let mut out: Vec<(usize, Option<usize>, Placement)> = Vec::new();
    let mut i: usize = 0;
    while i < roots.len()
        invariant
            tree.wf(),
            scene.wf(),
            i <= roots@.len(),
            computed@.len() == scene.len(),
            propagated(tree, scene, old(computed)@, computed@, out@),
            forall|x: int|
                0 <= x < i && #[trigger] roots@[x] < scene.len() && tree.node_of(
                    scene.nodes@[roots@[x] as int].entity,
                ) is Some ==> exists|j: int|
                    0 <= j < out@.len() && out@[j].0 == roots@[x] && out@[j].1 is None && !out@[j].2.moved,
            forall|j: int| 0 <= j < out@.len() && (#[trigger] out@[j]).1 is None ==> roots@.contains(out@[j].0),
            forall|j: int|
                0 <= j < out@.len() && (#[trigger] out@[j]).1 is Some ==> exists|l: int|
                    0 <= l < j && out@[l].0 == out@[j].1->Some_0,
            children_reported(tree, scene, out@, 0),
        decreases roots@.len() - i,
    {
        let root = roots[i];
        if root < scene.nodes.len() {
            let ghost o0 = out@;
            place_subtree(tree, scene, root, None, None, computed, &mut out);
            proof {
                assert forall|x: int|
                    0 <= x < i + 1 && #[trigger] roots@[x] < scene.len() && tree.node_of(
                        scene.nodes@[roots@[x] as int].entity,
                    ) is Some implies exists|j: int|
                    0 <= j < out@.len() && out@[j].0 == roots@[x] && out@[j].1 is None && !out@[j].2.moved by {
                    if x < i {
                        let j = choose|j: int| 0 <= j < o0.len() && o0[j].0 == roots@[x] && o0[j].1 is None && !o0[j].2.moved;
                        assert(out@[j] == o0[j]);
                    } else {
                        assert(out@[o0.len() as int].0 == roots@[x]);
                    }
                }
                assert forall|j: int| 0 <= j < out@.len() && (#[trigger] out@[j]).1 is None implies roots@.contains(
                    out@[j].0,
                ) by {
                    if j < o0.len() {
                        assert(out@[j] == o0[j]);
                    } else {
                        assert(j == o0.len());
                        assert(roots@[i as int] == root);
                    }
                }
                assert forall|j: int|
                    0 <= j < out@.len() && (#[trigger] out@[j]).1 is Some implies exists|l: int|
                    0 <= l < j && out@[l].0 == out@[j].1->Some_0 by {
                    if j < o0.len() {
                        assert(out@[j] == o0[j]);
                        let l = choose|l: int| 0 <= l < j && o0[l].0 == o0[j].1->Some_0;
                        assert(out@[l] == o0[l]);
                    } else {
                        let l = choose|l: int| o0.len() <= l < j && out@[l].0 == out@[j].1->Some_0;
                    }
                }
                assert forall|j: int, cc: usize|
                    0 <= j < out@.len() && #[trigger] scene.children_of(out@[j].0 as int).contains(cc)
                        && tree.node_of(scene.nodes@[cc as int].entity) is Some implies exists|l: int|
                    0 <= l < out@.len() && out@[l].0 == cc && out@[l].1 == Some(out@[j].0) by {
                    if j < o0.len() {
                        assert(out@[j] == o0[j]);
                        assert(scene.children_of(o0[j].0 as int).contains(cc));
                        let l = choose|l: int| 0 <= l < o0.len() && o0[l].0 == cc && o0[l].1 == Some(o0[j].0);
                        assert(out@[l] == o0[l]);
                    } else {
                        let l = choose|l: int| o0.len() <= l < out@.len() && out@[l].0 == cc && out@[l].1 == Some(out@[j].0);
                    }
                }
            }
        }
        i = i + 1;
    }
    out
}

/// Propagating again over an unchanged tree moves nothing and reports no change:
/// a node reported once in each pass, in the same parent, keeps its transform.
pub proof fn lemma_repropagation_settles(
    tree: &UiLayoutTree,
    scene: &UiScene,
    before: Seq<ComputedLayout>,
    first: Seq<ComputedLayout>,
    out1: Seq<(usize, Option<usize>, Placement)>,
    second: Seq<ComputedLayout>,
    out2: Seq<(usize, Option<usize>, Placement)>,
    i: int,
    j: int,
)
    requires
        propagated(tree, scene, before, first, out1),
        propagated(tree, scene, first, second, out2),
        0 <= i < out1.len(),
        0 <= j < out2.len(),
        reported_once(out1, i),
        reported_once(out2, j),
        out2[j].0 == out1[i].0,
        out2[j].1 == out1[i].1,
    ensures
        !out2[j].2.moved,
        !out2[j].2.changed,
        second[out2[j].0 as int] == first[out2[j].0 as int],
{
    let k = out1[i].0 as int;
    let l = solved_box(tree, scene.nodes@[k].entity);
    let ps = size_of_parent(tree, scene, out1[i].1);
    assert(out1[i] == out1[i]);
    assert(out2[j] == out2[j]);
    crate::geometry::lemma_place_settles(before[k], l, ps);
}

} // verus!
