//! Whether a set of roots spans a tree: no position is reached twice.
use vstd::prelude::*;

use crate::scene::UiScene;
use crate::sync::{
    dfs_list, dfs_node, lemma_dfs_list_bounded, lemma_dfs_list_prefix, lemma_dfs_list_step,
    lemma_dfs_node_bounded, lemma_nodup_join, lemma_nodup_parts, lemma_nodup_prefix,
    lemma_roots_prefix, roots_dfs,
};

verus! {

/// Marks the subtree of `k` in `seen`, and reports whether it repeats no
/// position and meets no position already marked.
fn mark_subtree(scene: &UiScene, k: usize, seen: &mut Vec<bool>) -> (r: bool)
    requires
        scene.wf(),
        k < scene.len(),
        old(seen)@.len() == scene.len(),
    ensures
        final(seen)@.len() == scene.len(),
        r == (dfs_node(scene, k as int).no_duplicates() && forall|i: int|
            0 <= i < dfs_node(scene, k as int).len() ==> !old(seen)@[#[trigger] dfs_node(
                scene,
                k as int,
            )[i] as int]),
        r ==> forall|x: int|
            0 <= x < scene.len() ==> #[trigger] final(seen)@[x] == (old(seen)@[x] || dfs_node(
                scene,
                k as int,
            ).contains(x as usize)),
    decreases scene.len() - k,
{
    let ghost dk = dfs_node(scene, k as int);
    let ghost n = scene.children_of(k as int).len() as int;
    proof {
        lemma_dfs_node_bounded(scene, k as int);
        assert(dk == seq![k] + dfs_list(scene, k as int, n));
        assert(dk[0] == k);
    }
    if seen[k] {
        return false;
    }
    seen.set(k, true);
    proof {
        let p0 = seq![k] + dfs_list(scene, k as int, 0);
        assert(dfs_list(scene, k as int, 0) =~= Seq::<usize>::empty());
        assert(p0 =~= seq![k]);
        assert(seen@ == old(seen)@.update(k as int, true));
        assert forall|x: int| 0 <= x < scene.len() implies #[trigger] seen@[x] == (old(seen)@[x]
            || p0.contains(x as usize)) by {
            if p0.contains(x as usize) {
                let y = choose|y: int| 0 <= y < p0.len() && p0[y] == x as usize;
                assert(y == 0);
            }
            if x == k {
                assert(p0[0] == k);
            }
        }
    }
    let children = &scene.nodes[k].children;
    let mut i: usize = 0;
    while i < children.len()
        invariant
            scene.wf(),
            k < scene.len(),
            children@ == scene.children_of(k as int),
            n == children@.len(),
            i <= n,
            seen@.len() == scene.len(),
            dk == dfs_node(scene, k as int),
            ({
                let p = seq![k] + dfs_list(scene, k as int, i as int);
                &&& p.no_duplicates()
                &&& forall|j: int| 0 <= j < p.len() ==> !old(seen)@[#[trigger] p[j] as int]
                &&& forall|x: int|
                    0 <= x < scene.len() ==> #[trigger] seen@[x] == (old(seen)@[x] || p.contains(
                        x as usize,
                    ))
            }),
        decreases n - i,
    {
        let c = children[i];
        let ghost p = seq![k] + dfs_list(scene, k as int, i as int);
        let ghost sub = dfs_node(scene, c as int);
        let ghost before = seen@;
        proof {
            lemma_dfs_list_step(scene, k as int, i as int);
            lemma_dfs_list_prefix(scene, k as int, i as int + 1, n);
            lemma_dfs_list_bounded(scene, k as int, i as int);
            lemma_dfs_node_bounded(scene, c as int);
            assert(seq![k] + dfs_list(scene, k as int, i as int + 1) =~= p + sub);
            assert(dk.subrange(0, (p + sub).len() as int) =~= p + sub);
        }
        if !mark_subtree(scene, c, seen) {
            proof {
                if dk.no_duplicates() && forall|j: int| 0 <= j < dk.len() ==> !old(seen)@[#[trigger] dk[j] as int] {
                    lemma_nodup_prefix(dk, (p + sub).len() as int);
                    lemma_nodup_parts(p, sub);
                    assert forall|j: int| 0 <= j < sub.len() implies !before[#[trigger] sub[j] as int] by {
                        assert((p + sub)[p.len() + j] == sub[j]);
                        assert(dk.subrange(0, (p + sub).len() as int)[p.len() + j] == dk[p.len() + j]);
                        assert(dk[p.len() + j] == sub[j]);
                        assert(!old(seen)@[dk[p.len() + j] as int]);
                        if p.contains(sub[j]) {
                            let y = choose|y: int| 0 <= y < p.len() && p[y] == sub[j];
                        }
                    }
                }
            }
            return false;
        }
        proof {
            lemma_nodup_join(p, sub);
            let q = p + sub;
            assert forall|j: int| 0 <= j < q.len() implies !old(seen)@[#[trigger] q[j] as int] by {
                if j < p.len() {
                    assert(q[j] == p[j]);
                } else {
                    assert(q[j] == sub[j - p.len()]);
                }
            }
            assert forall|x: int| 0 <= x < scene.len() implies #[trigger] seen@[x] == (old(seen)@[x]
                || q.contains(x as usize)) by {
                if p.contains(x as usize) {
                    let y = choose|y: int| 0 <= y < p.len() && p[y] == x as usize;
                    assert(q[y] == p[y]);
                }
                if sub.contains(x as usize) {
                    let y = choose|y: int| 0 <= y < sub.len() && sub[y] == x as usize;
                    assert(q[p.len() + y] == sub[y]);
                }
                if q.contains(x as usize) {
                    let y = choose|y: int| 0 <= y < q.len() && q[y] == x as usize;
                    if y < p.len() {
                        assert(q[y] == p[y]);
                    } else {
                        assert(q[y] == sub[y - p.len()]);
                    }
                }
            }
        }
        i = i + 1;
    }
    proof {
        assert(seq![k] + dfs_list(scene, k as int, n) == dk);
    }
    true
}

/// Whether the subtrees of the roots, taken together, repeat no position.
pub fn subtrees_disjoint(scene: &UiScene, roots: &[usize]) -> (r: bool)
    requires
        scene.wf(),
    ensures
        r == roots_dfs(scene, roots@).no_duplicates(),
{
    let mut seen: Vec<bool> = Vec::new();
    let mut x: usize = 0;
    while x < scene.nodes.len()
        invariant
            x <= scene.len(),
            seen@.len() == x,
            forall|y: int| 0 <= y < x ==> !#[trigger] seen@[y],
        decreases scene.len() - x,
    {
        seen.push(false);
        x = x + 1;
    }
    let mut i: usize = 0;
    while i < roots.len()
        invariant
            scene.wf(),
            i <= roots@.len(),
            seen@.len() == scene.len(),
            ({
                let p = roots_dfs(scene, roots@.take(i as int));
                &&& p.no_duplicates()
                &&& forall|y: int| 0 <= y < scene.len() ==> #[trigger] seen@[y] == p.contains(y as usize)
            }),
        decreases roots@.len() - i,
    {
        let root = roots[i];
        let ghost p = roots_dfs(scene, roots@.take(i as int));
        let ghost sub = dfs_node(scene, root as int);
        let ghost before = seen@;
        proof {
            let t1 = roots@.take(i as int + 1);
            assert(t1.drop_last() =~= roots@.take(i as int));
            assert(roots_dfs(scene, t1) == p + sub);
            lemma_roots_prefix(scene, roots@, i as int + 1);
        }
        if root < scene.nodes.len() {
            proof {
                lemma_roots_bounded_dfs(scene, roots@.take(i as int));
                lemma_dfs_node_bounded(scene, root as int);
            }
            if !mark_subtree(scene, root, &mut seen) {
                proof {
                    if roots_dfs(scene, roots@).no_duplicates() {
                        lemma_nodup_prefix(roots_dfs(scene, roots@), (p + sub).len() as int);
                        lemma_nodup_parts(p, sub);
                        assert forall|j: int| 0 <= j < sub.len() implies !before[#[trigger] sub[j] as int] by {
                            if p.contains(sub[j]) {
                                let y = choose|y: int| 0 <= y < p.len() && p[y] == sub[j];
                            }
                        }
                    }
                }
                return false;
            }
            proof {
                lemma_nodup_join(p, sub);
                let q = p + sub;
                assert forall|y: int| 0 <= y < scene.len() implies #[trigger] seen@[y] == q.contains(y as usize) by {
                    if p.contains(y as usize) {
                        let z = choose|z: int| 0 <= z < p.len() && p[z] == y as usize;
                        assert(q[z] == p[z]);
                    }
                    if sub.contains(y as usize) {
                        let z = choose|z: int| 0 <= z < sub.len() && sub[z] == y as usize;
                        assert(q[p.len() + z] == sub[z]);
                    }
                    if q.contains(y as usize) {
                        let z = choose|z: int| 0 <= z < q.len() && q[z] == y as usize;
                        if z < p.len() {
                            assert(q[z] == p[z]);
                        } else {
                            assert(q[z] == sub[z - p.len()]);
                        }
                    }
                }
            }
        } else {
            assert(sub =~= Seq::empty());
            assert(p + sub =~= p);
        }
        i = i + 1;
    }
    assert(roots@.take(roots@.len() as int) =~= roots@);
    true
}

pub(crate) proof fn lemma_roots_bounded_dfs(scene: &UiScene, roots: Seq<usize>)
    requires
        scene.wf(),
    ensures
        forall|i: int|
            0 <= i < roots_dfs(scene, roots).len() ==> #[trigger] roots_dfs(scene, roots)[i]
                < scene.len(),
    decreases roots.len(),
{
    if roots.len() > 0 {
        let a = roots_dfs(scene, roots.drop_last());
        let b = dfs_node(scene, roots.last() as int);
        lemma_roots_bounded_dfs(scene, roots.drop_last());
        lemma_dfs_node_bounded(scene, roots.last() as int);
        let f = roots_dfs(scene, roots);
        assert(f == a + b);
        assert forall|i: int| 0 <= i < f.len() implies #[trigger] f[i] < scene.len() by {
            if i < a.len() {
                assert(f[i] == a[i]);
            } else {
                assert(f[i] == b[i - a.len()]);
            }
        }
    }
}

} // verus!
