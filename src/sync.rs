//! The per-frame pass that reflects the scene hierarchy onto the solver tree.
use vstd::prelude::*;
use taffy::TaffyTree;

use crate::entity::{entity_bits, Entity};
use crate::layout::{LayoutError, UiLayoutTree};
use crate::scene::{SceneNode, UiScene};
use crate::tree_shape::{lemma_roots_bounded_dfs, subtrees_disjoint};
use crate::solver::{clone_style, solver_children, solver_contexts, solver_styles, style_copy};

verus! {

/// The subtree of `k` in hierarchy order: `k`, then each child's subtree.
pub open spec fn dfs_node(scene: &UiScene, k: int) -> Seq<usize>
    decreases scene.len() - k, 1int, 0int,
{
    if 0 <= k < scene.len() {
        seq![k as usize] + dfs_list(scene, k, scene.children_of(k).len() as int)
    } else {
        Seq::empty()
    }
}

/// The subtrees of the first `n` children of `k`, one after the other.
pub open spec fn dfs_list(scene: &UiScene, k: int, n: int) -> Seq<usize>
    decreases scene.len() - k, 0int, n,
{
    if n <= 0 || !(0 <= k < scene.len()) || n > scene.children_of(k).len() {
        Seq::empty()
    } else {
        let c = scene.children_of(k)[n - 1] as int;
        dfs_list(scene, k, n - 1) + (if k < c < scene.len() {
            dfs_node(scene, c)
        } else {
            Seq::empty()
        })
    }
}

/// A node must be written to the solver: it is new to the tree, or its style or
/// its set of children changed this frame.
pub open spec fn needs_sync(n: SceneNode, m: Map<u64, u64>) -> bool {
    n.added || n.style_changed || n.children_changed || !m.contains_key(entity_bits(n.entity))
}

pub open spec fn key_of(scene: &UiScene, k: usize) -> u64 {
    entity_bits(scene.nodes@[k as int].entity)
}

/// `m2` keeps every mapping of `m1`.
pub open spec fn extends(m1: Map<u64, u64>, m2: Map<u64, u64>) -> bool {
    forall|e: u64| #[trigger]
        m1.contains_key(e) ==> m2.contains_key(e) && m2[e] == m1[e]
}

/// Every key of `m2` is in `m1` or is one of the nodes of `s`.
pub open spec fn grown_only_by(scene: &UiScene, m1: Map<u64, u64>, m2: Map<u64, u64>, s: Seq<usize>) -> bool {
    forall|e: u64| #[trigger]
        m2.contains_key(e) ==> m1.contains_key(e) || exists|i: int|
            0 <= i < s.len() && key_of(scene, #[trigger] s[i]) == e
}

pub open spec fn all_mapped(scene: &UiScene, m: Map<u64, u64>, s: Seq<usize>) -> bool {
    forall|i: int| 0 <= i < s.len() ==> m.contains_key(key_of(scene, #[trigger] s[i]))
}

pub open spec fn all_clean(scene: &UiScene, m: Map<u64, u64>, s: Seq<usize>) -> bool {
    forall|i: int| 0 <= i < s.len() ==> !needs_sync(scene.nodes@[#[trigger] s[i] as int], m)
}

pub open spec fn all_live(tree: &UiLayoutTree, v: Seq<u64>) -> bool {
    forall|i: int| 0 <= i < v.len() ==> solver_children(tree.solver()).contains_key(#[trigger] v[i])
}

/// Every node of `a` occurs in `b`.
pub open spec fn within(a: Seq<usize>, b: Seq<usize>) -> bool {
    forall|i: int| 0 <= i < a.len() ==> b.contains(#[trigger] a[i])
}

proof fn lemma_within_concat(a: Seq<usize>, b: Seq<usize>)
    ensures
        within(a, a + b),
        within(b, a + b),
{
    assert forall|i: int| 0 <= i < a.len() implies (a + b).contains(#[trigger] a[i]) by {
        assert((a + b)[i] == a[i]);
    }
    assert forall|i: int| 0 <= i < b.len() implies (a + b).contains(#[trigger] b[i]) by {
        assert((a + b)[a.len() + i] == b[i]);
    }
}

proof fn lemma_within_trans(a: Seq<usize>, b: Seq<usize>, c: Seq<usize>)
    requires
        within(a, b),
        within(b, c),
    ensures
        within(a, c),
{
    assert forall|i: int| 0 <= i < a.len() implies c.contains(#[trigger] a[i]) by {
        assert(b.contains(a[i]));
        let j = choose|j: int| 0 <= j < b.len() && b[j] == a[i];
        assert(c.contains(b[j]));
    }
}

pub(crate) proof fn lemma_dfs_list_step(scene: &UiScene, k: int, i: int)
    requires
        scene.wf(),
        0 <= k < scene.len(),
        0 <= i < scene.children_of(k).len(),
    ensures
        dfs_list(scene, k, i + 1) == dfs_list(scene, k, i) + dfs_node(
            scene,
            scene.children_of(k)[i] as int,
        ),
        k < scene.children_of(k)[i] < scene.len(),
{
    assert(k < scene.children_of(k)[i] < scene.len());
    if i == 0 {
        assert(dfs_list(scene, k, 0) =~= Seq::empty());
    }
}

/// Every child's subtree lies within the parent's subtree.
proof fn lemma_child_within(scene: &UiScene, k: int, i: int)
    requires
        scene.wf(),
        0 <= k < scene.len(),
        0 <= i < scene.children_of(k).len(),
    ensures
        within(dfs_node(scene, scene.children_of(k)[i] as int), dfs_node(scene, k)),
        within(dfs_list(scene, k, i), dfs_node(scene, k)),
{
    let n = scene.children_of(k).len() as int;
    lemma_dfs_list_step(scene, k, i);
    lemma_within_concat(dfs_list(scene, k, i), dfs_node(scene, scene.children_of(k)[i] as int));
    lemma_list_within(scene, k, i + 1, n);
    lemma_within_concat(seq![k as usize], dfs_list(scene, k, n));
    lemma_within_trans(
        dfs_node(scene, scene.children_of(k)[i] as int),
        dfs_list(scene, k, i + 1),
        dfs_list(scene, k, n),
    );
    lemma_within_trans(
        dfs_node(scene, scene.children_of(k)[i] as int),
        dfs_list(scene, k, n),
        dfs_node(scene, k),
    );
    lemma_within_trans(dfs_list(scene, k, i), dfs_list(scene, k, i + 1), dfs_list(scene, k, n));
    lemma_within_trans(dfs_list(scene, k, i), dfs_list(scene, k, n), dfs_node(scene, k));
}

proof fn lemma_list_within(scene: &UiScene, k: int, i: int, j: int)
    requires
        scene.wf(),
        0 <= k < scene.len(),
        0 <= i <= j <= scene.children_of(k).len(),
    ensures
        within(dfs_list(scene, k, i), dfs_list(scene, k, j)),
    decreases j - i,
{
    if i == j {
        assert forall|x: int| 0 <= x < dfs_list(scene, k, i).len() implies dfs_list(
            scene,
            k,
            j,
        ).contains(#[trigger] dfs_list(scene, k, i)[x]) by {}
    } else {
        lemma_list_within(scene, k, i, j - 1);
        lemma_dfs_list_step(scene, k, j - 1);
        lemma_within_concat(dfs_list(scene, k, j - 1), dfs_node(scene, scene.children_of(k)[j - 1] as int));
        lemma_within_trans(dfs_list(scene, k, i), dfs_list(scene, k, j - 1), dfs_list(scene, k, j));
    }
}

proof fn lemma_clean_within(scene: &UiScene, m: Map<u64, u64>, a: Seq<usize>, b: Seq<usize>)
    requires
        within(a, b),
        all_clean(scene, m, b),
    ensures
        all_clean(scene, m, a),
{
    assert forall|i: int| 0 <= i < a.len() implies !needs_sync(scene.nodes@[#[trigger] a[i] as int], m) by {
        assert(b.contains(a[i]));
        let j = choose|j: int| 0 <= j < b.len() && b[j] == a[i];
        assert(!needs_sync(scene.nodes@[b[j] as int], m));
    }
}

proof fn lemma_grown_within(
    scene: &UiScene,
    m1: Map<u64, u64>,
    m2: Map<u64, u64>,
    a: Seq<usize>,
    b: Seq<usize>,
)
    requires
        within(a, b),
        grown_only_by(scene, m1, m2, a),
    ensures
        grown_only_by(scene, m1, m2, b),
{
    assert forall|e: u64| #[trigger] m2.contains_key(e) implies m1.contains_key(e) || exists|i: int|
        0 <= i < b.len() && key_of(scene, #[trigger] b[i]) == e by {
        if !m1.contains_key(e) {
            let i = choose|i: int| 0 <= i < a.len() && key_of(scene, #[trigger] a[i]) == e;
            assert(b.contains(a[i]));
            let j = choose|j: int| 0 <= j < b.len() && b[j] == a[i];
            assert(key_of(scene, b[j]) == e);
        }
    }
}

/// What the subtree of `k` hands up to the child list of the nearest node above
/// it that is written: `k`'s own node when `k` needs writing (its descendants then
/// hand their part to `k` instead), otherwise whatever its children hand up. An
/// unchanged node thus never appears in a rebuilt child list. `m0` is the mapping
/// when the pass began, `m` the one it left.
pub open spec fn contrib_node(scene: &UiScene, m0: Map<u64, u64>, m: Map<u64, u64>, k: int) -> Seq<u64>
    decreases scene.len() - k, 1int, 0int,
{
    if 0 <= k < scene.len() {
        if needs_sync(scene.nodes@[k], m0) {
            seq![m[entity_bits(scene.nodes@[k].entity)]]
        } else {
            contrib_list(scene, m0, m, k, scene.children_of(k).len() as int)
        }
    } else {
        Seq::empty()
    }
}

/// What the subtrees of the first `n` children of `k` hand up, one after another:
/// the child list that `k` gets when it is written.
pub open spec fn contrib_list(scene: &UiScene, m0: Map<u64, u64>, m: Map<u64, u64>, k: int, n: int) -> Seq<u64>
    decreases scene.len() - k, 0int, n,
{
    if n <= 0 || !(0 <= k < scene.len()) || n > scene.children_of(k).len() {
        Seq::empty()
    } else {
        let c = scene.children_of(k)[n - 1] as int;
        contrib_list(scene, m0, m, k, n - 1) + (if k < c < scene.len() {
            contrib_node(scene, m0, m, c)
        } else {
            Seq::empty()
        })
    }
}

/// Two pairs of mappings that agree, on the nodes of `s`, on which nodes need
/// writing and on the nodes of those that do.
pub open spec fn agree_on(
    scene: &UiScene,
    m0: Map<u64, u64>,
    m: Map<u64, u64>,
    m0b: Map<u64, u64>,
    mb: Map<u64, u64>,
    s: Seq<usize>,
) -> bool {
    forall|i: int|
        #![trigger s[i]]
        0 <= i < s.len() ==> {
            &&& needs_sync(scene.nodes@[s[i] as int], m0) == needs_sync(scene.nodes@[s[i] as int], m0b)
            &&& needs_sync(scene.nodes@[s[i] as int], m0) ==> m[key_of(scene, s[i])] == mb[key_of(
                scene,
                s[i],
            )]
        }
}

proof fn lemma_agree_split(
    scene: &UiScene,
    m0: Map<u64, u64>,
    m: Map<u64, u64>,
    m0b: Map<u64, u64>,
    mb: Map<u64, u64>,
    a: Seq<usize>,
    b: Seq<usize>,
)
    requires
        agree_on(scene, m0, m, m0b, mb, a + b),
    ensures
        agree_on(scene, m0, m, m0b, mb, a),
        agree_on(scene, m0, m, m0b, mb, b),
{
    assert forall|i: int| 0 <= i < a.len() implies #[trigger] a[i] == (a + b)[i] by {}
    assert forall|i: int| 0 <= i < b.len() implies #[trigger] b[i] == (a + b)[a.len() + i] by {}
}

proof fn lemma_contrib_node_agree(
    scene: &UiScene,
    m0: Map<u64, u64>,
    m: Map<u64, u64>,
    m0b: Map<u64, u64>,
    mb: Map<u64, u64>,
    k: int,
)
    requires
        scene.wf(),
        k <= usize::MAX,
        agree_on(scene, m0, m, m0b, mb, dfs_node(scene, k)),
    ensures
        contrib_node(scene, m0, m, k) == contrib_node(scene, m0b, mb, k),
    decreases scene.len() - k, 1int, 0int,
{
    if 0 <= k < scene.len() {
        let n = scene.children_of(k).len() as int;
        lemma_agree_split(scene, m0, m, m0b, mb, seq![k as usize], dfs_list(scene, k, n));
        assert(seq![k as usize][0] as int == k);
        lemma_contrib_list_agree(scene, m0, m, m0b, mb, k, n);
    }
}

proof fn lemma_contrib_list_agree(
    scene: &UiScene,
    m0: Map<u64, u64>,
    m: Map<u64, u64>,
    m0b: Map<u64, u64>,
    mb: Map<u64, u64>,
    k: int,
    n: int,
)
    requires
        scene.wf(),
        0 <= k < scene.len(),
        0 <= n <= scene.children_of(k).len(),
        agree_on(scene, m0, m, m0b, mb, dfs_list(scene, k, n)),
    ensures
        contrib_list(scene, m0, m, k, n) == contrib_list(scene, m0b, mb, k, n),
    decreases scene.len() - k, 0int, n,
{
    if n > 0 {
        let c = scene.children_of(k)[n - 1] as int;
        lemma_dfs_list_step(scene, k, n - 1);
        lemma_agree_split(scene, m0, m, m0b, mb, dfs_list(scene, k, n - 1), dfs_node(scene, c));
        lemma_contrib_list_agree(scene, m0, m, m0b, mb, k, n - 1);
        lemma_contrib_node_agree(scene, m0, m, m0b, mb, c);
    }
}

/// The subtrees of the first `i` children form the start of those of the first `j`.
pub(crate) proof fn lemma_dfs_list_prefix(scene: &UiScene, k: int, i: int, j: int)
    requires
        scene.wf(),
        0 <= k < scene.len(),
        0 <= i <= j <= scene.children_of(k).len(),
    ensures
        dfs_list(scene, k, i).len() <= dfs_list(scene, k, j).len(),
        dfs_list(scene, k, j).subrange(0, dfs_list(scene, k, i).len() as int) == dfs_list(scene, k, i),
    decreases j - i,
{
    if i == j {
        assert(dfs_list(scene, k, j).subrange(0, dfs_list(scene, k, i).len() as int) =~= dfs_list(
            scene,
            k,
            i,
        ));
    } else {
        lemma_dfs_list_prefix(scene, k, i, j - 1);
        lemma_dfs_list_step(scene, k, j - 1);
        let a = dfs_list(scene, k, j - 1);
        let b = dfs_node(scene, scene.children_of(k)[j - 1] as int);
        let li = dfs_list(scene, k, i).len() as int;
        assert((a + b).subrange(0, li) =~= a.subrange(0, li));
    }
}

/// Distinct positions hold entities with distinct 64-bit forms.
proof fn lemma_keys_distinct(scene: &UiScene, x: usize, y: usize)
    requires
        scene.wf(),
        x < scene.len(),
        y < scene.len(),
        x != y,
    ensures
        key_of(scene, x) != key_of(scene, y),
{
    let a = scene.nodes@[x as int].entity;
    let b = scene.nodes@[y as int].entity;
    assert(a.index != b.index);
    let ga = a.generation as int;
    let gb = b.generation as int;
    let ia = a.index as int;
    let ib = b.index as int;
    assert(ga * 0x1_0000_0000 + ia != gb * 0x1_0000_0000 + ib) by (nonlinear_arith)
        requires
            0 <= ia < 0x1_0000_0000,
            0 <= ib < 0x1_0000_0000,
            0 <= ga,
            0 <= gb,
            ia != ib,
    ;
    assert(ga * 0x1_0000_0000 + ia < 0x1_0000_0000 * 0x1_0000_0000) by (nonlinear_arith)
        requires
            0 <= ia < 0x1_0000_0000,
            0 <= ga < 0x1_0000_0000,
    ;
    assert(gb * 0x1_0000_0000 + ib < 0x1_0000_0000 * 0x1_0000_0000) by (nonlinear_arith)
        requires
            0 <= ib < 0x1_0000_0000,
            0 <= gb < 0x1_0000_0000,
    ;
}

pub(crate) proof fn lemma_dfs_node_bounded(scene: &UiScene, k: int)
    requires
        scene.wf(),
    ensures
        forall|i: int|
            0 <= i < dfs_node(scene, k).len() ==> #[trigger] dfs_node(scene, k)[i] < scene.len(),
    decreases scene.len() - k, 1int, 0int,
{
    if 0 <= k < scene.len() {
        let n = scene.children_of(k).len() as int;
        lemma_dfs_list_bounded(scene, k, n);
        let rest = dfs_list(scene, k, n);
        let f = dfs_node(scene, k);
        assert forall|i: int| 0 <= i < f.len() implies #[trigger] f[i] < scene.len() by {
            if i > 0 {
                assert(f[i] == rest[i - 1]);
            }
        }
    }
}

pub(crate) proof fn lemma_dfs_list_bounded(scene: &UiScene, k: int, n: int)
    requires
        scene.wf(),
    ensures
        forall|i: int|
            0 <= i < dfs_list(scene, k, n).len() ==> #[trigger] dfs_list(scene, k, n)[i] < scene.len(),
    decreases scene.len() - k, 0int, n,
{
    if n > 0 && 0 <= k < scene.len() && n <= scene.children_of(k).len() {
        let c = scene.children_of(k)[n - 1] as int;
        lemma_dfs_list_bounded(scene, k, n - 1);
        let a = dfs_list(scene, k, n - 1);
        let b = if k < c < scene.len() {
            dfs_node(scene, c)
        } else {
            Seq::empty()
        };
        if k < c < scene.len() {
            lemma_dfs_node_bounded(scene, c);
        }
        let f = dfs_list(scene, k, n);
        assert(f == a + b);
        assert forall|i: int| 0 <= i < f.len() implies #[trigger] f[i] < scene.len() by {
            if i < a.len() {
                assert(f[i] == a[i]);
            } else {
                assert(f[i] == b[i - a.len()]);
            }
        }
    }
}

pub(crate) proof fn lemma_nodup_parts(a: Seq<usize>, b: Seq<usize>)
    requires
        (a + b).no_duplicates(),
    ensures
        a.no_duplicates(),
        b.no_duplicates(),
        forall|i: int, j: int| 0 <= i < a.len() && 0 <= j < b.len() ==> a[i] != b[j],
{
    assert forall|i: int, j: int| 0 <= i < a.len() && 0 <= j < a.len() && i != j implies a[i] != a[j] by {
        assert(a[i] == (a + b)[i] && a[j] == (a + b)[j]);
    }
    assert forall|i: int, j: int| 0 <= i < b.len() && 0 <= j < b.len() && i != j implies b[i] != b[j] by {
        assert(b[i] == (a + b)[a.len() + i] && b[j] == (a + b)[a.len() + j]);
    }
    assert forall|i: int, j: int| 0 <= i < a.len() && 0 <= j < b.len() implies a[i] != b[j] by {
        assert(a[i] == (a + b)[i] && b[j] == (a + b)[a.len() + j]);
    }
}

pub(crate) proof fn lemma_nodup_prefix(s: Seq<usize>, n: int)
    requires
        s.no_duplicates(),
        0 <= n <= s.len(),
    ensures
        s.subrange(0, n).no_duplicates(),
{
    let t = s.subrange(0, n);
    assert forall|i: int, j: int| 0 <= i < t.len() && 0 <= j < t.len() && i != j implies t[i] != t[j] by {
        assert(t[i] == s[i] && t[j] == s[j]);
    }
}

/// The visited prefix `[k]` plus the subtrees of the first `i + 1` children starts
/// the subtree of `k`, so it repeats no position when that subtree repeats none.
proof fn lemma_visited_nodup(scene: &UiScene, k: int, i: int)
    requires
        scene.wf(),
        0 <= k < scene.len(),
        0 <= i < scene.children_of(k).len(),
        dfs_node(scene, k).no_duplicates(),
    ensures
        (seq![k as usize] + dfs_list(scene, k, i) + dfs_node(scene, scene.children_of(k)[i] as int)).no_duplicates(),
{
    let n = scene.children_of(k).len() as int;
    lemma_dfs_list_prefix(scene, k, i + 1, n);
    lemma_dfs_list_step(scene, k, i);
    let whole = dfs_list(scene, k, n);
    let part = dfs_list(scene, k, i + 1);
    let dk = dfs_node(scene, k);
    assert(dk == seq![k as usize] + whole);
    assert(dk.subrange(0, 1 + part.len() as int) =~= seq![k as usize] + part);
    lemma_nodup_prefix(dk, 1 + part.len() as int);
    assert(seq![k as usize] + dfs_list(scene, k, i) + dfs_node(scene, scene.children_of(k)[i] as int)
        =~= seq![k as usize] + part);
}

/// Distinct keys of `m` map to distinct nodes.
pub open spec fn injective(m: Map<u64, u64>) -> bool {
    forall|a: u64, b: u64|
        #![trigger m[a], m[b]]
        m.contains_key(a) && m.contains_key(b) && a != b ==> m[a] != m[b]
}

/// The nodes of the positions of `s`.
pub open spec fn ids_of(scene: &UiScene, m: Map<u64, u64>, s: Seq<usize>) -> Seq<u64> {
    s.map_values(|x: usize| m[key_of(scene, x)])
}

/// Every entry of `v` is the node of some position of `s`.
pub open spec fn drawn_from(scene: &UiScene, m: Map<u64, u64>, v: Seq<u64>, s: Seq<usize>) -> bool {
    forall|i: int| 0 <= i < v.len() ==> ids_of(scene, m, s).contains(#[trigger] v[i])
}

pub(crate) proof fn lemma_nodup_join<A>(a: Seq<A>, b: Seq<A>)
    requires
        a.no_duplicates(),
        b.no_duplicates(),
        forall|i: int, j: int| 0 <= i < a.len() && 0 <= j < b.len() ==> a[i] != b[j],
    ensures
        (a + b).no_duplicates(),
{
    let c = a + b;
    assert forall|i: int, j: int| 0 <= i < c.len() && 0 <= j < c.len() && i != j implies c[i] != c[j] by {
        if i < a.len() && j < a.len() {
            assert(c[i] == a[i] && c[j] == a[j]);
        } else if i >= a.len() && j >= a.len() {
            assert(c[i] == b[i - a.len()] && c[j] == b[j - a.len()]);
        } else if i < a.len() {
            assert(c[i] == a[i] && c[j] == b[j - a.len()]);
        } else {
            assert(c[j] == a[j] && c[i] == b[i - a.len()]);
        }
    }
}

proof fn lemma_mapped_parts(scene: &UiScene, m: Map<u64, u64>, a: Seq<usize>, b: Seq<usize>)
    requires
        all_mapped(scene, m, a + b),
    ensures
        all_mapped(scene, m, a),
        all_mapped(scene, m, b),
{
    assert forall|i: int| 0 <= i < a.len() implies m.contains_key(key_of(scene, #[trigger] a[i])) by {
        assert((a + b)[i] == a[i]);
    }
    assert forall|i: int| 0 <= i < b.len() implies m.contains_key(key_of(scene, #[trigger] b[i])) by {
        assert((a + b)[a.len() + i] == b[i]);
    }
}

/// What a subtree hands up names nodes of that subtree, each once.
proof fn lemma_contrib_node_nodup(scene: &UiScene, m0: Map<u64, u64>, m: Map<u64, u64>, c: int)
    requires
        scene.wf(),
        0 <= c < scene.len(),
        c <= usize::MAX,
        dfs_node(scene, c).no_duplicates(),
        all_mapped(scene, m, dfs_node(scene, c)),
        injective(m),
    ensures
        contrib_node(scene, m0, m, c).no_duplicates(),
        drawn_from(scene, m, contrib_node(scene, m0, m, c), dfs_node(scene, c)),
    decreases scene.len() - c, 1int, 0int,
{
    let n = scene.children_of(c).len() as int;
    let d = dfs_node(scene, c);
    let rest = dfs_list(scene, c, n);
    assert(d == seq![c as usize] + rest);
    assert(d[0] == c as usize);
    if needs_sync(scene.nodes@[c], m0) {
        let v = contrib_node(scene, m0, m, c);
        assert(v.len() == 1);
        assert(ids_of(scene, m, d)[0] == v[0]);
        assert forall|i: int| 0 <= i < v.len() implies ids_of(scene, m, d).contains(#[trigger] v[i]) by {
            assert(i == 0);
        }
    } else {
        lemma_nodup_parts(seq![c as usize], rest);
        lemma_mapped_parts(scene, m, seq![c as usize], rest);
        lemma_contrib_list_nodup(scene, m0, m, c, n);
        let whole = ids_of(scene, m, d);
        let tail = ids_of(scene, m, rest);
        assert(whole =~= seq![m[key_of(scene, c as usize)]] + tail);
        let v = contrib_node(scene, m0, m, c);
        assert forall|i: int| 0 <= i < v.len() implies whole.contains(#[trigger] v[i]) by {
            assert(tail.contains(v[i]));
            let x = choose|x: int| 0 <= x < tail.len() && tail[x] == v[i];
            assert(whole[x + 1] == tail[x]);
        }
    }
}

proof fn lemma_contrib_list_nodup(scene: &UiScene, m0: Map<u64, u64>, m: Map<u64, u64>, k: int, n: int)
    requires
        scene.wf(),
        0 <= k < scene.len(),
        0 <= n <= scene.children_of(k).len(),
        dfs_list(scene, k, n).no_duplicates(),
        all_mapped(scene, m, dfs_list(scene, k, n)),
        injective(m),
    ensures
        contrib_list(scene, m0, m, k, n).no_duplicates(),
        drawn_from(scene, m, contrib_list(scene, m0, m, k, n), dfs_list(scene, k, n)),
    decreases scene.len() - k, 0int, n,
{
    if n == 0 {
        assert(contrib_list(scene, m0, m, k, n) =~= Seq::empty());
    } else {
        let c = scene.children_of(k)[n - 1] as int;
        lemma_dfs_list_step(scene, k, n - 1);
        let d1 = dfs_list(scene, k, n - 1);
        let d2 = dfs_node(scene, c);
        lemma_nodup_parts(d1, d2);
        lemma_mapped_parts(scene, m, d1, d2);
        lemma_contrib_list_nodup(scene, m0, m, k, n - 1);
        lemma_contrib_node_nodup(scene, m0, m, c);
        let a = contrib_list(scene, m0, m, k, n - 1);
        let b = contrib_node(scene, m0, m, c);
        lemma_dfs_list_bounded(scene, k, n - 1);
        lemma_dfs_node_bounded(scene, c);
        assert forall|i: int, j: int| 0 <= i < a.len() && 0 <= j < b.len() implies a[i] != b[j] by {
            assert(ids_of(scene, m, d1).contains(a[i]));
            assert(ids_of(scene, m, d2).contains(b[j]));
            let x = choose|x: int| 0 <= x < ids_of(scene, m, d1).len() && ids_of(scene, m, d1)[x] == a[i];
            let y = choose|y: int| 0 <= y < ids_of(scene, m, d2).len() && ids_of(scene, m, d2)[y] == b[j];
            lemma_keys_distinct(scene, d1[x], d2[y]);
            assert(m.contains_key(key_of(scene, d1[x])));
            assert(m.contains_key(key_of(scene, d2[y])));
        }
        lemma_nodup_join(a, b);
        let v = contrib_list(scene, m0, m, k, n);
        let d = dfs_list(scene, k, n);
        assert(v == a + b);
        assert(ids_of(scene, m, d) =~= ids_of(scene, m, d1) + ids_of(scene, m, d2));
        let ia = ids_of(scene, m, d1);
        let ib = ids_of(scene, m, d2);
        assert forall|i: int| 0 <= i < v.len() implies ids_of(scene, m, d).contains(#[trigger] v[i]) by {
            if i < a.len() {
                assert(v[i] == a[i]);
                assert(ia.contains(a[i]));
                let x = choose|x: int| 0 <= x < ia.len() && ia[x] == a[i];
                assert((ia + ib)[x] == ia[x]);
            } else {
                assert(v[i] == b[i - a.len()]);
                assert(ib.contains(b[i - a.len()]));
                let y = choose|y: int| 0 <= y < ib.len() && ib[y] == b[i - a.len()];
                assert((ia + ib)[ia.len() + y] == ib[y]);
            }
        }
        assert(drawn_from(scene, m, v, d));
    }
}

/// Node `q` is the node of some entity of `s` under `m`.
pub open spec fn owned_by(scene: &UiScene, m: Map<u64, u64>, s: Seq<usize>, q: u64) -> bool {
    exists|x: int|
        0 <= x < s.len() && m.contains_key(key_of(scene, #[trigger] s[x])) && m[key_of(scene, s[x])]
            == q
}

/// A key of the subtree of the `i`th child of `k`, mapped once the pass has
/// visited `k` and the subtrees of the first `i` children, was mapped before it.
proof fn lemma_child_key_not_new(
    scene: &UiScene,
    m0: Map<u64, u64>,
    before: Map<u64, u64>,
    k: int,
    i: int,
    y: int,
)
    requires
        scene.wf(),
        0 <= k < scene.len(),
        0 <= i < scene.children_of(k).len(),
        dfs_node(scene, k).no_duplicates(),
        grown_only_by(scene, m0, before, seq![k as usize] + dfs_list(scene, k, i)),
        0 <= y < dfs_node(scene, scene.children_of(k)[i] as int).len(),
        before.contains_key(key_of(scene, dfs_node(scene, scene.children_of(k)[i] as int)[y])),
    ensures
        m0.contains_key(key_of(scene, dfs_node(scene, scene.children_of(k)[i] as int)[y])),
{
    let prefix = seq![k as usize] + dfs_list(scene, k, i);
    let sub = dfs_node(scene, scene.children_of(k)[i] as int);
    let key = key_of(scene, sub[y]);
    if !m0.contains_key(key) {
        lemma_visited_nodup(scene, k, i);
        lemma_nodup_parts(prefix, sub);
        let j = choose|j: int| 0 <= j < prefix.len() && key_of(scene, #[trigger] prefix[j]) == key;
        assert(prefix[j] != sub[y]);
        lemma_dfs_list_step(scene, k, i);
        lemma_dfs_node_bounded(scene, scene.children_of(k)[i] as int);
        lemma_dfs_list_bounded(scene, k, i);
        if j > 0 {
            assert(prefix[j] == dfs_list(scene, k, i)[j - 1]);
        }
        lemma_keys_distinct(scene, prefix[j], sub[y]);
    }
}

/// What the pass left on the nodes of `s`: a node that needed writing carries a
/// copy of its style and its measurement key; any other keeps the style and key
/// it had. `m0`, `t0` are the mapping and solver tree before, `m`, `t` after.
pub open spec fn written(
    scene: &UiScene,
    m0: Map<u64, u64>,
    m: Map<u64, u64>,
    t0: TaffyTree<u64>,
    t: TaffyTree<u64>,
    s: Seq<usize>,
) -> bool {
    forall|x: int|
        #![trigger s[x]]
        0 <= x < s.len() ==> {
            &&& needs_sync(scene.nodes@[s[x] as int], m0) ==> {
                &&& solver_styles(t)[m[key_of(scene, s[x])]] == style_copy(scene.nodes@[s[x] as int].style)
                &&& solver_contexts(t)[m[key_of(scene, s[x])]] == scene.nodes@[s[x] as int].measure
            }
            &&& !needs_sync(scene.nodes@[s[x] as int], m0) ==> {
                &&& solver_styles(t)[m0[key_of(scene, s[x])]] == solver_styles(t0)[m0[key_of(scene, s[x])]]
                &&& solver_contexts(t)[m0[key_of(scene, s[x])]] == solver_contexts(t0)[m0[key_of(
                    scene,
                    s[x],
                )]]
            }
        }
}

/// A subtree that hands nothing up holds no node that needs writing.
proof fn lemma_contrib_node_empty(scene: &UiScene, m0: Map<u64, u64>, m: Map<u64, u64>, c: int)
    requires
        scene.wf(),
        0 <= c < scene.len(),
        c <= usize::MAX,
        contrib_node(scene, m0, m, c).len() == 0,
    ensures
        all_clean(scene, m0, dfs_node(scene, c)),
    decreases scene.len() - c, 1int, 0int,
{
    let n = scene.children_of(c).len() as int;
    assert(!needs_sync(scene.nodes@[c], m0));
    lemma_contrib_list_empty(scene, m0, m, c, n);
    let rest = dfs_list(scene, c, n);
    let d = dfs_node(scene, c);
    assert(d == seq![c as usize] + rest);
    assert(d[0] == c as usize);
    assert forall|i: int| 0 <= i < d.len() implies !needs_sync(scene.nodes@[#[trigger] d[i] as int], m0) by {
        if i > 0 {
            assert(d[i] == rest[i - 1]);
        }
    }
}

proof fn lemma_contrib_list_empty(scene: &UiScene, m0: Map<u64, u64>, m: Map<u64, u64>, k: int, n: int)
    requires
        scene.wf(),
        0 <= k < scene.len(),
        0 <= n <= scene.children_of(k).len(),
        contrib_list(scene, m0, m, k, n).len() == 0,
    ensures
        all_clean(scene, m0, dfs_list(scene, k, n)),
    decreases scene.len() - k, 0int, n,
{
    if n > 0 {
        let c = scene.children_of(k)[n - 1] as int;
        lemma_dfs_list_step(scene, k, n - 1);
        lemma_contrib_list_empty(scene, m0, m, k, n - 1);
        lemma_contrib_node_empty(scene, m0, m, c);
        let a = dfs_list(scene, k, n - 1);
        let b = dfs_node(scene, c);
        let d = dfs_list(scene, k, n);
        assert forall|i: int| 0 <= i < d.len() implies !needs_sync(scene.nodes@[#[trigger] d[i] as int], m0) by {
            if i < a.len() {
                assert(d[i] == a[i]);
            } else {
                assert(d[i] == b[i - a.len()]);
            }
        }
    } else {
        assert(dfs_list(scene, k, n) =~= Seq::empty());
    }
}

/// One child step of the pass keeps `written` and the frame over the visited
/// positions.
proof fn lemma_written_step(
    scene: &UiScene,
    m0: Map<u64, u64>,
    before: Map<u64, u64>,
    after: Map<u64, u64>,
    t0: TaffyTree<u64>,
    tb: TaffyTree<u64>,
    ta: TaffyTree<u64>,
    k: int,
    i: int,
)
    requires
        scene.wf(),
        0 <= k < scene.len(),
        k <= usize::MAX,
        0 <= i < scene.children_of(k).len(),
        dfs_node(scene, k).no_duplicates(),
        written(scene, m0, before, t0, tb, seq![k as usize] + dfs_list(scene, k, i)),
        forall|q: u64|
            #[trigger] solver_children(t0).contains_key(q) && !owned_by(
                scene,
                m0,
                seq![k as usize] + dfs_list(scene, k, i),
                q,
            ) ==> solver_styles(tb)[q] == solver_styles(t0)[q] && solver_contexts(tb)[q]
                == solver_contexts(t0)[q],
        written(scene, before, after, tb, ta, dfs_node(scene, scene.children_of(k)[i] as int)),
        forall|q: u64|
            #[trigger] solver_children(tb).contains_key(q) && !owned_by(
                scene,
                before,
                dfs_node(scene, scene.children_of(k)[i] as int),
                q,
            ) ==> solver_styles(ta)[q] == solver_styles(tb)[q] && solver_contexts(ta)[q]
                == solver_contexts(tb)[q],
        extends(m0, before),
        extends(before, after),
        injective(before),
        forall|e: u64| #[trigger] before.contains_key(e) ==> solver_children(tb).contains_key(before[e]),
        forall|n: u64| #[trigger] solver_children(t0).contains_key(n) ==> solver_children(tb).contains_key(n),
        forall|e: u64| #[trigger] m0.contains_key(e) ==> solver_children(t0).contains_key(m0[e]),
        all_mapped(scene, before, seq![k as usize] + dfs_list(scene, k, i)),
        grown_only_by(scene, m0, before, seq![k as usize] + dfs_list(scene, k, i)),
    ensures
        written(
            scene,
            m0,
            after,
            t0,
            ta,
            seq![k as usize] + dfs_list(scene, k, i) + dfs_node(scene, scene.children_of(k)[i] as int),
        ),
        forall|q: u64|
            #[trigger] solver_children(t0).contains_key(q) && !owned_by(
                scene,
                m0,
                seq![k as usize] + dfs_list(scene, k, i) + dfs_node(scene, scene.children_of(k)[i] as int),
                q,
            ) ==> solver_styles(ta)[q] == solver_styles(t0)[q] && solver_contexts(ta)[q]
                == solver_contexts(t0)[q],
{
    let c = scene.children_of(k)[i];
    let prefix = seq![k as usize] + dfs_list(scene, k, i);
    let sub = dfs_node(scene, c as int);
    let next2 = prefix + sub;
    lemma_visited_nodup(scene, k, i);
    lemma_nodup_parts(prefix, sub);
    lemma_dfs_list_step(scene, k, i);
    lemma_dfs_node_bounded(scene, c as int);
    lemma_dfs_list_bounded(scene, k, i);
    assert forall|x: int| 0 <= x < prefix.len() implies #[trigger] prefix[x] < scene.len() by {
        if x > 0 {
            assert(prefix[x] == dfs_list(scene, k, i)[x - 1]);
        }
    }
    assert forall|x: int| 0 <= x < prefix.len() implies before.contains_key(
        key_of(scene, #[trigger] prefix[x]),
    ) by {
        if x > 0 {
            assert(prefix[x] == dfs_list(scene, k, i)[x - 1]);
        }
    }
    // nodes of the visited prefix are not nodes of the child's subtree
    assert forall|x: int, y: int|
        0 <= x < prefix.len() && 0 <= y < sub.len() && before.contains_key(
            key_of(scene, sub[y]),
        ) implies before[key_of(scene, #[trigger] prefix[x])] != before[key_of(
        scene,
        #[trigger] sub[y],
    )] by {
        lemma_keys_distinct(scene, prefix[x], sub[y]);
        
    }
    assert(written(scene, m0, after, t0, ta, next2)) by {
        assert forall|x: int| 0 <= x < next2.len() implies {
            &&& needs_sync(scene.nodes@[next2[x] as int], m0) ==> {
                &&& solver_styles(ta)[after[key_of(scene, next2[x])]] == style_copy(
        scene.nodes@[next2[x] as int].style,
                )
                &&& solver_contexts(ta)[after[key_of(scene, next2[x])]]
        == scene.nodes@[next2[x] as int].measure
            }
            &&& !needs_sync(scene.nodes@[next2[x] as int], m0) ==> {
                &&& solver_styles(ta)[m0[key_of(scene, next2[x])]] == solver_styles(
        t0,
                )[m0[key_of(scene, next2[x])]]
                &&& solver_contexts(ta)[m0[key_of(scene, next2[x])]] == solver_contexts(
        t0,
                )[m0[key_of(scene, next2[x])]]
            }
        } by {
            if x < prefix.len() {
                assert(next2[x] == prefix[x]);
                let key = key_of(scene, prefix[x]);
                let id = before[key];
                assert(before.contains_key(key));
                assert(solver_children(tb).contains_key(id));
                if owned_by(scene, before, sub, id) {
        let y = choose|y: int|
            0 <= y < sub.len() && before.contains_key(
                key_of(scene, #[trigger] sub[y]),
            ) && before[key_of(scene, sub[y])] == id;
        assert(before[key_of(scene, prefix[x])] != before[key_of(scene, sub[y])]);
                }
                assert(after[key] == id);
                if !needs_sync(scene.nodes@[prefix[x] as int], m0) {
        assert(m0[key] == id);
                }
            } else {
                let y = x - prefix.len();
                assert(next2[x] == sub[y]);
                let key = key_of(scene, sub[y]);
                if before.contains_key(key) {
                    lemma_child_key_not_new(scene, m0, before, k, i, y);
                }
                assert(needs_sync(scene.nodes@[sub[y] as int], before) == needs_sync(
        scene.nodes@[sub[y] as int],
        m0,
                ));
                if !needs_sync(scene.nodes@[sub[y] as int], m0) {
        assert(m0.contains_key(key));
        assert(before[key] == m0[key]);
        let id = m0[key];
        assert(solver_children(t0).contains_key(id));
        if owned_by(scene, m0, prefix, id) {
            let z = choose|z: int|
                0 <= z < prefix.len() && m0.contains_key(
                    key_of(scene, #[trigger] prefix[z]),
                ) && m0[key_of(scene, prefix[z])] == id;
            assert(before[key_of(scene, prefix[z])] == m0[key_of(scene, prefix[z])]);
            assert(before[key_of(scene, prefix[z])] != before[key_of(scene, sub[y])]);
        }
                }
            }
        }
    }
    assert forall|q: u64|
        #[trigger] solver_children(t0).contains_key(q) && !owned_by(scene, m0, next2, q) implies solver_styles(
        ta,
    )[q] == solver_styles(t0)[q] && solver_contexts(ta)[q] == solver_contexts(t0)[q] by {
        if owned_by(scene, m0, prefix, q) {
            let z = choose|z: int|
                0 <= z < prefix.len() && m0.contains_key(key_of(scene, #[trigger] prefix[z]))
        && m0[key_of(scene, prefix[z])] == q;
            assert(next2[z] == prefix[z]);
        }
        assert(solver_children(tb).contains_key(q));
        if owned_by(scene, before, sub, q) {
            let y = choose|y: int|
                0 <= y < sub.len() && before.contains_key(key_of(scene, #[trigger] sub[y]))
        && before[key_of(scene, sub[y])] == q;
            lemma_child_key_not_new(scene, m0, before, k, i, y);
            assert(next2[prefix.len() + y] == sub[y]);
        }
    }
}

/// Writing a further stretch `sub` of positions, disjoint from the stretch `prev`
/// already written, keeps `written` and the frame over both.
proof fn lemma_written_extend(
    scene: &UiScene,
    m0: Map<u64, u64>,
    before: Map<u64, u64>,
    after: Map<u64, u64>,
    t0: TaffyTree<u64>,
    tb: TaffyTree<u64>,
    ta: TaffyTree<u64>,
    prev: Seq<usize>,
    sub: Seq<usize>,
)
    requires
        scene.wf(),
        (prev + sub).no_duplicates(),
        forall|x: int| 0 <= x < prev.len() ==> #[trigger] prev[x] < scene.len(),
        forall|x: int| 0 <= x < sub.len() ==> #[trigger] sub[x] < scene.len(),
        written(scene, m0, before, t0, tb, prev),
        forall|q: u64|
            #[trigger] solver_children(t0).contains_key(q) && !owned_by(
                scene,
                m0,
                prev,
                q,
            ) ==> solver_styles(tb)[q] == solver_styles(t0)[q] && solver_contexts(tb)[q]
                == solver_contexts(t0)[q],
        written(scene, before, after, tb, ta, sub),
        forall|q: u64|
            #[trigger] solver_children(tb).contains_key(q) && !owned_by(
                scene,
                before,
                sub,
                q,
            ) ==> solver_styles(ta)[q] == solver_styles(tb)[q] && solver_contexts(ta)[q]
                == solver_contexts(tb)[q],
        extends(m0, before),
        extends(before, after),
        injective(before),
        forall|e: u64| #[trigger] before.contains_key(e) ==> solver_children(tb).contains_key(before[e]),
        forall|n: u64| #[trigger] solver_children(t0).contains_key(n) ==> solver_children(tb).contains_key(n),
        forall|e: u64| #[trigger] m0.contains_key(e) ==> solver_children(t0).contains_key(m0[e]),
        all_mapped(scene, before, prev),
        grown_only_by(scene, m0, before, prev),
    ensures
        written(
            scene,
            m0,
            after,
            t0,
            ta,
            prev + sub,
        ),
        forall|q: u64|
            #[trigger] solver_children(t0).contains_key(q) && !owned_by(
                scene,
                m0,
                prev + sub,
                q,
            ) ==> solver_styles(ta)[q] == solver_styles(t0)[q] && solver_contexts(ta)[q]
                == solver_contexts(t0)[q],
{
    let prefix = prev;
    let next2 = prev + sub;
    lemma_nodup_parts(prefix, sub);
    // nodes of the visited prefix are not nodes of the child's subtree
    assert forall|x: int, y: int|
        0 <= x < prefix.len() && 0 <= y < sub.len() && before.contains_key(
            key_of(scene, sub[y]),
        ) implies before[key_of(scene, #[trigger] prefix[x])] != before[key_of(
        scene,
        #[trigger] sub[y],
    )] by {
        lemma_keys_distinct(scene, prefix[x], sub[y]);
        
    }
    assert(written(scene, m0, after, t0, ta, next2)) by {
        assert forall|x: int| 0 <= x < next2.len() implies {
            &&& needs_sync(scene.nodes@[next2[x] as int], m0) ==> {
                &&& solver_styles(ta)[after[key_of(scene, next2[x])]] == style_copy(
        scene.nodes@[next2[x] as int].style,
                )
                &&& solver_contexts(ta)[after[key_of(scene, next2[x])]]
        == scene.nodes@[next2[x] as int].measure
            }
            &&& !needs_sync(scene.nodes@[next2[x] as int], m0) ==> {
                &&& solver_styles(ta)[m0[key_of(scene, next2[x])]] == solver_styles(
        t0,
                )[m0[key_of(scene, next2[x])]]
                &&& solver_contexts(ta)[m0[key_of(scene, next2[x])]] == solver_contexts(
        t0,
                )[m0[key_of(scene, next2[x])]]
            }
        } by {
            if x < prefix.len() {
                assert(next2[x] == prefix[x]);
                let key = key_of(scene, prefix[x]);
                let id = before[key];
                assert(before.contains_key(key));
                assert(solver_children(tb).contains_key(id));
                if owned_by(scene, before, sub, id) {
        let y = choose|y: int|
            0 <= y < sub.len() && before.contains_key(
                key_of(scene, #[trigger] sub[y]),
            ) && before[key_of(scene, sub[y])] == id;
        assert(before[key_of(scene, prefix[x])] != before[key_of(scene, sub[y])]);
                }
                assert(after[key] == id);
                if !needs_sync(scene.nodes@[prefix[x] as int], m0) {
        assert(m0[key] == id);
                }
            } else {
                let y = x - prefix.len();
                assert(next2[x] == sub[y]);
                let key = key_of(scene, sub[y]);
                if before.contains_key(key) && !m0.contains_key(key) {
                    let j = choose|j: int| 0 <= j < prefix.len() && key_of(scene, #[trigger] prefix[j]) == key;
                    lemma_keys_distinct(scene, prefix[j], sub[y]);
                }
                assert(needs_sync(scene.nodes@[sub[y] as int], before) == needs_sync(
        scene.nodes@[sub[y] as int],
        m0,
                ));
                if !needs_sync(scene.nodes@[sub[y] as int], m0) {
        assert(m0.contains_key(key));
        assert(before[key] == m0[key]);
        let id = m0[key];
        assert(solver_children(t0).contains_key(id));
        if owned_by(scene, m0, prefix, id) {
            let z = choose|z: int|
                0 <= z < prefix.len() && m0.contains_key(
                    key_of(scene, #[trigger] prefix[z]),
                ) && m0[key_of(scene, prefix[z])] == id;
            assert(before[key_of(scene, prefix[z])] == m0[key_of(scene, prefix[z])]);
            assert(before[key_of(scene, prefix[z])] != before[key_of(scene, sub[y])]);
        }
                }
            }
        }
    }
    assert forall|q: u64|
        #[trigger] solver_children(t0).contains_key(q) && !owned_by(scene, m0, next2, q) implies solver_styles(
        ta,
    )[q] == solver_styles(t0)[q] && solver_contexts(ta)[q] == solver_contexts(t0)[q] by {
        if owned_by(scene, m0, prefix, q) {
            let z = choose|z: int|
                0 <= z < prefix.len() && m0.contains_key(key_of(scene, #[trigger] prefix[z]))
        && m0[key_of(scene, prefix[z])] == q;
            assert(next2[z] == prefix[z]);
        }
        assert(solver_children(tb).contains_key(q));
        if owned_by(scene, before, sub, q) {
            let y = choose|y: int|
                0 <= y < sub.len() && before.contains_key(key_of(scene, #[trigger] sub[y]))
        && before[key_of(scene, sub[y])] == q;
            if !m0.contains_key(key_of(scene, sub[y])) {
                let j = choose|j: int|
                    0 <= j < prefix.len() && key_of(scene, #[trigger] prefix[j]) == key_of(scene, sub[y]);
                lemma_keys_distinct(scene, prefix[j], sub[y]);
            }
            assert(next2[prefix.len() + y] == sub[y]);
        }
    }
}

/// Writes the subtree of `k` to the solver. A node that needs it is upserted and
/// gets, as its new child list, what its children's subtrees hand up (when that is
/// not empty); a node that does not is still descended into. Appends to `layouts`
/// what the subtree hands up to the nearest written node above it.
pub fn sync_node(tree: &mut UiLayoutTree, scene: &UiScene, k: usize, layouts: &mut Vec<u64>)
    requires
        old(tree).wf(),
        scene.wf(),
        k < scene.len(),
        dfs_node(scene, k as int).no_duplicates(),
        all_live(old(tree), old(layouts)@),
    ensures
        final(tree).wf(),
        extends(old(tree).nodes(), final(tree).nodes()),
        grown_only_by(scene, old(tree).nodes(), final(tree).nodes(), dfs_node(scene, k as int)),
        forall|n: u64| #[trigger]
            solver_children(old(tree).solver()).contains_key(n) ==> solver_children(
                final(tree).solver(),
            ).contains_key(n),
        all_live(final(tree), final(layouts)@),
        final(layouts)@.len() >= old(layouts)@.len(),
        all_mapped(scene, final(tree).nodes(), dfs_node(scene, k as int)),
        all_clean(scene, old(tree).nodes(), dfs_node(scene, k as int)) ==> *final(tree)
            == *old(tree) && final(layouts)@ == old(layouts)@,
        final(layouts)@ == old(layouts)@
            + contrib_node(scene, old(tree).nodes(), final(tree).nodes(), k as int),
        needs_sync(
            scene.nodes@[k as int],
            old(tree).nodes(),
        ) && contrib_list(
            scene,
            old(tree).nodes(),
            final(tree).nodes(),
            k as int,
            scene.children_of(k as int).len() as int,
        ).len() > 0 ==> solver_children(final(tree).solver())[final(tree).nodes()[key_of(scene, k)]]
            == contrib_list(
            scene,
            old(tree).nodes(),
            final(tree).nodes(),
            k as int,
            scene.children_of(k as int).len() as int,
        ),
        forall|q: u64|
            #[trigger] solver_children(old(tree).solver()).contains_key(q) && !owned_by(
                scene,
                old(tree).nodes(),
                dfs_node(scene, k as int),
                q,
            ) ==> solver_styles(final(tree).solver())[q] == solver_styles(old(tree).solver())[q]
                && solver_contexts(final(tree).solver())[q] == solver_contexts(old(tree).solver())[q],
        written(
            scene,
            old(tree).nodes(),
            final(tree).nodes(),
            old(tree).solver(),
            final(tree).solver(),
            dfs_node(scene, k as int),
        ),
        needs_sync(scene.nodes@[k as int], old(tree).nodes()) && contrib_list(
            scene,
            old(tree).nodes(),
            final(tree).nodes(),
            k as int,
            scene.children_of(k as int).len() as int,
        ).len() == 0 ==> solver_children(final(tree).solver())[final(tree).nodes()[key_of(scene, k)]]
            == (if old(tree).nodes().contains_key(key_of(scene, k)) {
            solver_children(old(tree).solver())[final(tree).nodes()[key_of(scene, k)]]
        } else {
            Seq::<u64>::empty()
        }),
        needs_sync(scene.nodes@[k as int], old(tree).nodes()) ==> {
            &&& solver_styles(final(tree).solver())[final(tree).nodes()[key_of(scene, k)]]
                == style_copy(scene.nodes@[k as int].style)
            &&& solver_contexts(final(tree).solver())[final(tree).nodes()[key_of(scene, k)]]
                == scene.nodes@[k as int].measure
        },
    decreases scene.len() - k,
{
    let ghost dk = dfs_node(scene, k as int);
    let ghost t0 = old(tree).solver();
    let ghost m0 = old(tree).nodes();
    let ghost nodup = dk.no_duplicates();
    let node = &scene.nodes[k];
    proof {
        lemma_within_concat(seq![k], dfs_list(scene, k as int, scene.children_of(k as int).len() as int));
        assert(dk[0] == k);
    }
    let changed = node.added || node.style_changed || node.children_changed || !tree.contains(
        node.entity,
    );
    assert(changed == needs_sync(scene.nodes@[k as int], m0));
    let mut mark: Option<(u64, usize)> = None;
    if changed {
        let id = tree.upsert_node(node.entity, clone_style(&node.style), node.measure);
        layouts.push(id);
        mark = Some((id, layouts.len()));
        proof {
            assert(all_live(tree, layouts@)) by {
                assert forall|i: int| 0 <= i < layouts@.len() implies solver_children(
                    tree.solver(),
                ).contains_key(#[trigger] layouts@[i]) by {
                    if i < layouts@.len() - 1 {
                        assert(solver_children(old(tree).solver()).contains_key(layouts@[i]));
                    }
                }
            }
        }
    }
    let ghost after_self = tree.nodes();
    proof {
        assert(dk[0] == k);
        assert forall|q: u64|
            #[trigger] solver_children(t0).contains_key(q) && !owned_by(scene, m0, dk, q) implies solver_styles(
            tree.solver(),
        )[q] == solver_styles(t0)[q] && solver_contexts(tree.solver())[q] == solver_contexts(t0)[q] by {
            if changed && m0.contains_key(key_of(scene, k)) && q == after_self[key_of(scene, k)] {
                assert(m0.contains_key(key_of(scene, dk[0])) && m0[key_of(scene, dk[0])] == q);
            }
        }
    }
    let ghost ch_self = solver_children(tree.solver());
    proof {
        let first_part = seq![k] + dfs_list(scene, k as int, 0);
        assert(dfs_list(scene, k as int, 0) =~= Seq::<usize>::empty());
        assert(first_part =~= seq![k]);
        assert(first_part[0] == k);
        assert(written(scene, m0, tree.nodes(), t0, tree.solver(), first_part)) by {
            assert forall|x: int| 0 <= x < first_part.len() implies first_part[x] == k by {}
        }
        assert forall|q: u64|
            #[trigger] solver_children(t0).contains_key(q) && !owned_by(scene, m0, first_part, q) implies solver_styles(
            tree.solver(),
        )[q] == solver_styles(t0)[q] && solver_contexts(tree.solver())[q] == solver_contexts(t0)[q] by {
            if changed && m0.contains_key(key_of(scene, k)) && q == after_self[key_of(scene, k)] {
                assert(m0.contains_key(key_of(scene, first_part[0])) && m0[key_of(scene, first_part[0])] == q);
            }
        }
    }
    let ghost own: Seq<u64> = if changed {
        seq![after_self[entity_bits(node.entity)]]
    } else {
        Seq::empty()
    };
    proof {
        let first_part = seq![k] + dfs_list(scene, k as int, 0);
        assert(first_part[0] == k);
        assert(grown_only_by(scene, m0, tree.nodes(), first_part)) by {
            assert forall|e: u64| #[trigger] tree.nodes().contains_key(e) implies m0.contains_key(e)
                || exists|i: int| 0 <= i < first_part.len() && key_of(scene, #[trigger] first_part[i]) == e by {
                if !m0.contains_key(e) {
                    assert(key_of(scene, first_part[0]) == e);
                }
            }
        }
        assert(dfs_list(scene, k as int, 0) =~= Seq::empty());
        assert forall|x: int| 0 <= x < first_part.len() implies dk.contains(#[trigger] first_part[x]) by {
            assert(first_part[x] == dk[0]);
        }
        lemma_grown_within(scene, m0, tree.nodes(), first_part, dk);
        assert(layouts@ =~= old(layouts)@ + own + contrib_list(scene, m0, tree.nodes(), k as int, 0));
    }
    assert(after_self.contains_key(entity_bits(node.entity)));
    let children = &node.children;
    let mut i: usize = 0;
    while i < children.len()
        invariant
            tree.wf(),
            scene.wf(),
            k < scene.len(),
            node == scene.nodes@[k as int],
            children@ == scene.children_of(k as int),
            i <= children@.len(),
            dk == dfs_node(scene, k as int),
            m0 == old(tree).nodes(),
            nodup == dk.no_duplicates(),
            nodup,
            t0 == old(tree).solver(),
            old(tree).wf(),
            forall|q: u64|
                #[trigger] solver_children(t0).contains_key(q) && !owned_by(scene, m0, dk, q)
                    ==> solver_styles(tree.solver())[q] == solver_styles(t0)[q] && solver_contexts(
                    tree.solver(),
                )[q] == solver_contexts(t0)[q],
            changed ==> solver_styles(tree.solver())[after_self[entity_bits(node.entity)]]
                == style_copy(node.style) && solver_contexts(
                tree.solver(),
            )[after_self[entity_bits(node.entity)]] == node.measure,
            changed == needs_sync(scene.nodes@[k as int], m0),
            changed == mark is Some,
            written(scene, m0, tree.nodes(), t0, tree.solver(), seq![k] + dfs_list(scene, k as int, i as int)),
            forall|q: u64|
                #[trigger] solver_children(t0).contains_key(q) && !owned_by(
                    scene,
                    m0,
                    seq![k] + dfs_list(scene, k as int, i as int),
                    q,
                ) ==> solver_styles(tree.solver())[q] == solver_styles(t0)[q] && solver_contexts(
                    tree.solver(),
                )[q] == solver_contexts(t0)[q],
            contrib_list(scene, m0, tree.nodes(), k as int, i as int).len() == 0 ==> solver_children(
                tree.solver(),
            ) == ch_self,
            changed && m0.contains_key(entity_bits(node.entity)) ==> ch_self == solver_children(t0),
            changed && !m0.contains_key(entity_bits(node.entity)) ==> ch_self[after_self[entity_bits(
                node.entity,
            )]] == Seq::<u64>::empty(),
            own == (if changed {
                seq![after_self[entity_bits(node.entity)]]
            } else {
                Seq::<u64>::empty()
            }),
            extends(old(tree).nodes(), tree.nodes()),
            extends(after_self, tree.nodes()),
            after_self.contains_key(entity_bits(node.entity)),
            grown_only_by(scene, old(tree).nodes(), tree.nodes(), dk),
            grown_only_by(scene, m0, tree.nodes(), seq![k] + dfs_list(scene, k as int, i as int)),
            forall|n: u64| #[trigger]
                solver_children(old(tree).solver()).contains_key(n) ==> solver_children(
                    tree.solver(),
                ).contains_key(n),
            all_live(tree, layouts@),
            layouts@.len() >= old(layouts)@.len(),
            mark matches Some((id, start)) ==> {
                &&& start <= layouts@.len()
                &&& start == old(layouts)@.len() + 1
                &&& id == after_self[entity_bits(node.entity)]
            },
            all_mapped(scene, tree.nodes(), dfs_list(scene, k as int, i as int)),
            all_clean(scene, old(tree).nodes(), dk) ==> mark is None && *tree == *old(tree)
                && layouts@ == old(layouts)@,
            nodup ==> layouts@ == old(layouts)@ + own + contrib_list(
                scene,
                m0,
                tree.nodes(),
                k as int,
                i as int,
            ),
        decreases children@.len() - i,
    {
        let c = children[i];
        proof {
            lemma_dfs_list_step(scene, k as int, i as int);
            lemma_child_within(scene, k as int, i as int);
            if all_clean(scene, old(tree).nodes(), dk) {
                lemma_clean_within(scene, old(tree).nodes(), dfs_node(scene, c as int), dk);
            }
        }
        let ghost before = tree.nodes();
        let ghost layouts_before = layouts@;
        let ghost prefix = seq![k] + dfs_list(scene, k as int, i as int);
        let ghost sub = dfs_node(scene, c as int);
        proof {
            if nodup {
                lemma_visited_nodup(scene, k as int, i as int);
                lemma_nodup_parts(prefix, sub);
            }
        }
        let ghost tree_before = *tree;
        sync_node(tree, scene, c, layouts);
        proof {
            let tb = tree_before.solver();
            assert forall|q: u64|
                #[trigger] solver_children(t0).contains_key(q) && !owned_by(scene, m0, dk, q) implies solver_styles(
                tree.solver(),
            )[q] == solver_styles(t0)[q] && solver_contexts(tree.solver())[q] == solver_contexts(t0)[q] by {
                assert(solver_children(tb).contains_key(q));
                if owned_by(scene, before, sub, q) {
                    let y = choose|y: int|
                        0 <= y < sub.len() && before.contains_key(key_of(scene, #[trigger] sub[y]))
                            && before[key_of(scene, sub[y])] == q;
                    lemma_child_key_not_new(scene, m0, before, k as int, i as int, y);
                    assert(dk.contains(sub[y]));
                    let x = choose|x: int| 0 <= x < dk.len() && dk[x] == sub[y];
                    assert(m0.contains_key(key_of(scene, dk[x])) && m0[key_of(scene, dk[x])] == q);
                }
            }
            if changed {
                let idk = after_self[entity_bits(node.entity)];
                assert(before.contains_key(key_of(scene, k)));
                assert(before[key_of(scene, k)] == idk);
                assert(solver_children(tb).contains_key(idk));
                if owned_by(scene, before, sub, idk) {
                    let y = choose|y: int|
                        0 <= y < sub.len() && before.contains_key(key_of(scene, #[trigger] sub[y]))
                            && before[key_of(scene, sub[y])] == idk;
                    assert(prefix[0] == k);
                    assert(sub[y] != k);
                    lemma_dfs_node_bounded(scene, c as int);
                    lemma_keys_distinct(scene, sub[y], k);
                    assert(tree_before.nodes() == before);
                }
            }
            lemma_grown_within(scene, before, tree.nodes(), dfs_node(scene, c as int), dk);
            assert forall|e: u64| #[trigger] tree.nodes().contains_key(e) implies old(
                tree,
            ).nodes().contains_key(e) || exists|j: int|
                0 <= j < dk.len() && key_of(scene, #[trigger] dk[j]) == e by {
                if !before.contains_key(e) {
                    assert(grown_only_by(scene, before, tree.nodes(), dk));
                }
            }
            let prev = dfs_list(scene, k as int, i as int);
            assert forall|j: int| 0 <= j < (prev + sub).len() implies tree.nodes().contains_key(
                key_of(scene, #[trigger] (prev + sub)[j]),
            ) by {
                if j < prev.len() {
                    assert((prev + sub)[j] == prev[j]);
                    assert(before.contains_key(key_of(scene, prev[j])));
                } else {
                    assert((prev + sub)[j] == sub[j - prev.len()]);
                }
            }
            let next = seq![k] + dfs_list(scene, k as int, i as int + 1);
            assert(next =~= prefix + sub);
            assert forall|e: u64| #[trigger] tree.nodes().contains_key(e) implies m0.contains_key(e)
                || exists|j: int| 0 <= j < next.len() && key_of(scene, #[trigger] next[j]) == e by {
                if !before.contains_key(e) {
                    let j = choose|j: int| 0 <= j < sub.len() && key_of(scene, #[trigger] sub[j]) == e;
                    assert(next[prefix.len() + j] == sub[j]);
                } else if !m0.contains_key(e) {
                    let j = choose|j: int| 0 <= j < prefix.len() && key_of(scene, #[trigger] prefix[j]) == e;
                    assert(next[j] == prefix[j]);
                }
            }
            if nodup {
                let after = tree.nodes();
                // the child's subtree was untouched by the part of the pass before it
                assert(agree_on(scene, before, after, m0, after, sub)) by {
                    assert forall|x: int| 0 <= x < sub.len() implies {
                        &&& needs_sync(scene.nodes@[#[trigger] sub[x] as int], before) == needs_sync(
                            scene.nodes@[sub[x] as int],
                            m0,
                        )
                    } by {
                        let key = key_of(scene, sub[x]);
                        if before.contains_key(key) && !m0.contains_key(key) {
                            let j = choose|j: int|
                                0 <= j < prefix.len() && key_of(scene, #[trigger] prefix[j]) == key;
                            assert(prefix[j] != sub[x]);
                            lemma_dfs_node_bounded(scene, c as int);
                            lemma_dfs_list_bounded(scene, k as int, i as int);
                            if j > 0 {
                                assert(prefix[j] == dfs_list(scene, k as int, i as int)[j - 1]);
                            }
                            lemma_keys_distinct(scene, prefix[j], sub[x]);
                        }
                    }
                }
                lemma_contrib_node_agree(scene, before, after, m0, after, c as int);
                assert(agree_on(scene, m0, before, m0, after, dfs_list(scene, k as int, i as int))) by {
                    let pl = dfs_list(scene, k as int, i as int);
                    assert forall|x: int| 0 <= x < pl.len() implies (needs_sync(
                        scene.nodes@[#[trigger] pl[x] as int],
                        m0,
                    ) ==> before[key_of(scene, pl[x])] == after[key_of(scene, pl[x])]) by {
                        assert(before.contains_key(key_of(scene, pl[x])));
                    }
                }
                lemma_contrib_list_agree(scene, m0, before, m0, after, k as int, i as int);
                assert(contrib_list(scene, m0, after, k as int, i as int + 1) == contrib_list(
                    scene,
                    m0,
                    after,
                    k as int,
                    i as int,
                ) + contrib_node(scene, m0, after, c as int));
                assert(layouts@ =~= old(layouts)@ + own + contrib_list(
                    scene,
                    m0,
                    after,
                    k as int,
                    i as int + 1,
                ));
                let tb = tree_before.solver();
                let ta = tree.solver();
                let next2 = prefix + sub;
                assert(injective(before)) by {
                    assert(tree_before.wf());
                    assert(tree_before.nodes() == before);
                }
                assert(all_mapped(scene, before, prefix)) by {
                    let pl = dfs_list(scene, k as int, i as int);
                    assert forall|x: int| 0 <= x < prefix.len() implies before.contains_key(
                        key_of(scene, #[trigger] prefix[x]),
                    ) by {
                        if x > 0 {
                            assert(prefix[x] == pl[x - 1]);
                        } else {
                            assert(prefix[x] == k);
                        }
                    }
                }
                lemma_written_step(scene, m0, before, after, t0, tb, ta, k as int, i as int);
                if contrib_list(scene, m0, after, k as int, i as int + 1).len() == 0 {
                    lemma_contrib_node_empty(scene, m0, after, c as int);
                    assert(all_clean(scene, before, sub)) by {
                        assert forall|x: int| 0 <= x < sub.len() implies !needs_sync(
                            scene.nodes@[#[trigger] sub[x] as int],
                            before,
                        ) by {
                            assert(!needs_sync(scene.nodes@[sub[x] as int], m0));
                        }
                    }
                }
                assert(next2 =~= seq![k] + dfs_list(scene, k as int, i as int + 1));
            }
        }
        i = i + 1;
    }
    proof {
        let n = children@.len() as int;
        let whole = dfs_list(scene, k as int, n);
        assert(dk == seq![k] + whole);
        assert forall|j: int| 0 <= j < dk.len() implies tree.nodes().contains_key(
            key_of(scene, #[trigger] dk[j]),
        ) by {
            if j > 0 {
                assert(dk[j] == whole[j - 1]);
            }
        }
    }
    let ghost collected = contrib_list(
        scene,
        m0,
        tree.nodes(),
        k as int,
        children@.len() as int,
    );
    if let Some((id, start)) = mark {
        if layouts.len() > start {
            let ghost old_layouts = layouts@;
            let collected_now = layouts.split_off(start);
            proof {
                assert forall|j: int| 0 <= j < collected_now@.len() implies solver_children(
                    tree.solver(),
                ).contains_key(#[trigger] collected_now@[j]) by {
                    assert(collected_now@[j] == old_layouts[start + j]);
                }
                assert(tree.nodes().contains_key(entity_bits(node.entity)));
                if nodup {
                    assert(collected_now@ =~= collected);
                    assert(layouts@ =~= old(layouts)@ + own);
                }
            }
            proof {
                let n = children@.len() as int;
                let rest = dfs_list(scene, k as int, n);
                let m = tree.nodes();
                assert(dk == seq![k] + rest);
                lemma_nodup_parts(seq![k], rest);
                lemma_mapped_parts(scene, m, seq![k], rest);
                lemma_contrib_list_nodup(scene, m0, m, k as int, n);
                lemma_dfs_list_bounded(scene, k as int, n);
                assert(seq![k][0] == k);
                assert(id == m[key_of(scene, k)]);
                assert(!collected_now@.contains(id)) by {
                    if collected_now@.contains(id) {
                        let i = choose|i: int| 0 <= i < collected_now@.len() && collected_now@[i] == id;
                        assert(ids_of(scene, m, rest).contains(collected[i]));
                        let x = choose|x: int|
                            0 <= x < ids_of(scene, m, rest).len() && ids_of(scene, m, rest)[x] == collected[i];
                        assert(rest[x] != k);
                        lemma_keys_distinct(scene, rest[x], k);
                        assert(m.contains_key(key_of(scene, rest[x])));
                    }
                }
            }
            tree.replace_children(id, collected_now.as_slice());
        } else {
            proof {
                if nodup {
                    assert(collected.len() == 0);
                    assert(layouts@ =~= old(layouts)@ + own);
                }
            }
        }
    } else {
        proof {
            if nodup {
                assert(layouts@ =~= old(layouts)@ + contrib_node(scene, m0, tree.nodes(), k as int));
            }
        }
    }
}

/// The subtrees of the given roots, one after the other (a position outside the
/// snapshot stands for nothing).
pub open spec fn roots_dfs(scene: &UiScene, roots: Seq<usize>) -> Seq<usize>
    decreases roots.len(),
{
    if roots.len() == 0 {
        Seq::empty()
    } else {
        roots_dfs(scene, roots.drop_last()) + dfs_node(scene, roots.last() as int)
    }
}

/// Reflects one viewport's roots and everything below them onto the solver tree,
/// one root after another as `sync_node` does: new entities get nodes, changed
/// ones are rewritten in place (a copy of their style and their measurement key),
/// unchanged ones keep their node, style and key. It
/// refuses, changing nothing, a set of roots whose subtrees share or repeat a
/// position (the hierarchy would not be a tree).
pub fn sync_layout(tree: &mut UiLayoutTree, scene: &UiScene, roots: &[usize]) -> (r: Result<
    (),
    LayoutError,
>)
    requires
        old(tree).wf(),
        scene.wf(),
    ensures
        final(tree).wf(),
        extends(old(tree).nodes(), final(tree).nodes()),
        grown_only_by(scene, old(tree).nodes(), final(tree).nodes(), roots_dfs(scene, roots@)),
        (r is Ok) == roots_dfs(scene, roots@).no_duplicates(),
        r is Err ==> r == Err::<(), LayoutError>(LayoutError::InvalidChildren) && *final(tree)
            == *old(tree),
        r is Ok ==> all_mapped(scene, final(tree).nodes(), roots_dfs(scene, roots@)),
        r is Ok ==> written(
            scene,
            old(tree).nodes(),
            final(tree).nodes(),
            old(tree).solver(),
            final(tree).solver(),
            roots_dfs(scene, roots@),
        ),
        forall|q: u64|
            #[trigger] solver_children(old(tree).solver()).contains_key(q) && !owned_by(
                scene,
                old(tree).nodes(),
                roots_dfs(scene, roots@),
                q,
            ) ==> solver_styles(final(tree).solver())[q] == solver_styles(old(tree).solver())[q]
                && solver_contexts(final(tree).solver())[q] == solver_contexts(old(tree).solver())[q],
        r is Ok && all_clean(scene, old(tree).nodes(), roots_dfs(scene, roots@)) ==> *final(tree)
            == *old(tree),
{
    let ghost all = roots_dfs(scene, roots@);
    if !subtrees_disjoint(scene, roots) {
        return Err(LayoutError::InvalidChildren);
    }
    assert(roots_dfs(scene, roots@.take(0)) =~= Seq::<usize>::empty());
    let mut layouts: Vec<u64> = Vec::new();
    let mut i: usize = 0;
    while i < roots.len()
        invariant
            tree.wf(),
            scene.wf(),
            i <= roots@.len(),
            all == roots_dfs(scene, roots@),
            extends(old(tree).nodes(), tree.nodes()),
            grown_only_by(scene, old(tree).nodes(), tree.nodes(), roots_dfs(scene, roots@.take(i as int))),
            all_live(tree, layouts@),
            all_mapped(scene, tree.nodes(), roots_dfs(scene, roots@.take(i as int))),
            all_clean(scene, old(tree).nodes(), all) ==> *tree == *old(tree) && layouts@.len() == 0,
            within(roots_dfs(scene, roots@.take(i as int)), all),
            all.no_duplicates(),
            old(tree).wf(),
            written(
                scene,
                old(tree).nodes(),
                tree.nodes(),
                old(tree).solver(),
                tree.solver(),
                roots_dfs(scene, roots@.take(i as int)),
            ),
            forall|q: u64|
                #[trigger] solver_children(old(tree).solver()).contains_key(q) && !owned_by(
                    scene,
                    old(tree).nodes(),
                    roots_dfs(scene, roots@.take(i as int)),
                    q,
                ) ==> solver_styles(tree.solver())[q] == solver_styles(old(tree).solver())[q]
                    && solver_contexts(tree.solver())[q] == solver_contexts(old(tree).solver())[q],
            forall|n: u64| #[trigger]
                solver_children(old(tree).solver()).contains_key(n) ==> solver_children(
                    tree.solver(),
                ).contains_key(n),
            forall|q: u64|
                #[trigger] solver_children(old(tree).solver()).contains_key(q) && !owned_by(
                    scene,
                    old(tree).nodes(),
                    all,
                    q,
                ) ==> solver_styles(tree.solver())[q] == solver_styles(old(tree).solver())[q]
                    && solver_contexts(tree.solver())[q] == solver_contexts(old(tree).solver())[q],
        decreases roots@.len() - i,
    {
        let root = roots[i];
        let ghost prev = roots_dfs(scene, roots@.take(i as int));
        let ghost sub = dfs_node(scene, root as int);
        let ghost t1 = roots@.take(i as int + 1);
        proof {
            assert(t1.drop_last() =~= roots@.take(i as int));
            assert(roots_dfs(scene, t1) == prev + sub);
            lemma_within_concat(prev, sub);
            lemma_prefix_within(scene, roots@, i as int + 1);
            lemma_within_trans(sub, prev + sub, all);
            lemma_roots_prefix(scene, roots@, i as int + 1);
            lemma_nodup_prefix(all, (prev + sub).len() as int);
            lemma_nodup_parts(prev, sub);
            if all_clean(scene, old(tree).nodes(), all) {
                lemma_clean_within(scene, old(tree).nodes(), sub, all);
            }
        }
        let ghost before = tree.nodes();
        if root < scene.nodes.len() {
            let ghost tree_before = *tree;
            sync_node(tree, scene, root, &mut layouts);
            proof {
                lemma_roots_bounded_dfs(scene, roots@.take(i as int));
                lemma_dfs_node_bounded(scene, root as int);
                assert(injective(before)) by {
                    assert(tree_before.wf());
                    assert(tree_before.nodes() == before);
                }
                lemma_written_extend(
                    scene,
                    old(tree).nodes(),
                    before,
                    tree.nodes(),
                    old(tree).solver(),
                    tree_before.solver(),
                    tree.solver(),
                    prev,
                    sub,
                );
                let m0 = old(tree).nodes();
                assert forall|q: u64|
                    #[trigger] solver_children(old(tree).solver()).contains_key(q) && !owned_by(
                        scene,
                        m0,
                        all,
                        q,
                    ) implies solver_styles(tree.solver())[q] == solver_styles(old(tree).solver())[q]
                    && solver_contexts(tree.solver())[q] == solver_contexts(old(tree).solver())[q] by {
                    assert(solver_children(tree_before.solver()).contains_key(q));
                    if owned_by(scene, before, sub, q) {
                        let y = choose|y: int|
                            0 <= y < sub.len() && before.contains_key(key_of(scene, #[trigger] sub[y]))
                                && before[key_of(scene, sub[y])] == q;
                        let key = key_of(scene, sub[y]);
                        if !m0.contains_key(key) {
                            let j = choose|j: int| 0 <= j < prev.len() && key_of(scene, #[trigger] prev[j]) == key;
                            lemma_roots_bounded_dfs(scene, roots@.take(i as int));
                            lemma_dfs_node_bounded(scene, root as int);
                            assert(prev[j] != sub[y]);
                            lemma_keys_distinct(scene, prev[j], sub[y]);
                        }
                        assert(all.contains(sub[y]));
                        let x = choose|x: int| 0 <= x < all.len() && all[x] == sub[y];
                        assert(m0.contains_key(key_of(scene, all[x])) && m0[key_of(scene, all[x])] == q);
                    }
                }
                assert forall|e: u64| #[trigger] tree.nodes().contains_key(e) implies old(
                    tree,
                ).nodes().contains_key(e) || exists|j: int|
                    0 <= j < (prev + sub).len() && key_of(scene, #[trigger] (prev + sub)[j]) == e by {
                    if !before.contains_key(e) {
                        let j = choose|j: int| 0 <= j < sub.len() && key_of(scene, #[trigger] sub[j]) == e;
                        assert((prev + sub)[prev.len() + j] == sub[j]);
                    } else if !old(tree).nodes().contains_key(e) {
                        let j = choose|j: int| 0 <= j < prev.len() && key_of(scene, #[trigger] prev[j]) == e;
                        assert((prev + sub)[j] == prev[j]);
                    }
                }
            }
        } else {
            assert(sub =~= Seq::empty());
            assert(prev + sub =~= prev);
        }
        proof {
            assert forall|j: int| 0 <= j < (prev + sub).len() implies tree.nodes().contains_key(
                key_of(scene, #[trigger] (prev + sub)[j]),
            ) by {
                if j < prev.len() {
                    assert((prev + sub)[j] == prev[j]);
                    assert(before.contains_key(key_of(scene, prev[j])));
                } else {
                    assert((prev + sub)[j] == sub[j - prev.len()]);
                }
            }
        }
        i = i + 1;
    }
    assert(roots@.take(roots@.len() as int) =~= roots@);
    Ok(())
}

/// The subtrees of the first `i` roots start the subtrees of all of them.
pub(crate) proof fn lemma_roots_prefix(scene: &UiScene, roots: Seq<usize>, i: int)
    requires
        0 <= i <= roots.len(),
    ensures
        roots_dfs(scene, roots.take(i)).len() <= roots_dfs(scene, roots).len(),
        roots_dfs(scene, roots).subrange(0, roots_dfs(scene, roots.take(i)).len() as int)
            == roots_dfs(scene, roots.take(i)),
    decreases roots.len(),
{
    if i == roots.len() {
        assert(roots.take(i) =~= roots);
        assert(roots_dfs(scene, roots).subrange(0, roots_dfs(scene, roots).len() as int)
            =~= roots_dfs(scene, roots));
    } else {
        lemma_roots_prefix(scene, roots.drop_last(), i);
        assert(roots.drop_last().take(i) =~= roots.take(i));
        let a = roots_dfs(scene, roots.drop_last());
        let b = dfs_node(scene, roots.last() as int);
        let li = roots_dfs(scene, roots.take(i)).len() as int;
        assert((a + b).subrange(0, li) =~= a.subrange(0, li));
    }
}

proof fn lemma_prefix_within(scene: &UiScene, roots: Seq<usize>, i: int)
    requires
        0 <= i <= roots.len(),
    ensures
        within(roots_dfs(scene, roots.take(i)), roots_dfs(scene, roots)),
    decreases roots.len(),
{
    if i == roots.len() {
        assert(roots.take(i) =~= roots);
        let a = roots_dfs(scene, roots);
        assert forall|x: int| 0 <= x < a.len() implies a.contains(#[trigger] a[x]) by {}
    } else {
        lemma_prefix_within(scene, roots.drop_last(), i);
        assert(roots.drop_last().take(i) =~= roots.take(i));
        lemma_within_concat(roots_dfs(scene, roots.drop_last()), dfs_node(scene, roots.last() as int));
        lemma_within_trans(
            roots_dfs(scene, roots.take(i)),
            roots_dfs(scene, roots.drop_last()),
            roots_dfs(scene, roots),
        );
    }
}

/// Once a synchronisation has mapped every node of `s`, a later synchronisation of
/// the same nodes with nothing added or changed finds every node clean, so it
/// leaves the tree (node identities and solved boxes included) as it is.
pub proof fn lemma_resync_is_clean(scene: &UiScene, m: Map<u64, u64>, s: Seq<usize>)
    requires
        all_mapped(scene, m, s),
        forall|i: int|
            0 <= i < s.len() ==> {
                let n = #[trigger] scene.nodes@[s[i] as int];
                !n.added && !n.style_changed && !n.children_changed
            },
    ensures
        all_clean(scene, m, s),
{
    assert forall|i: int| 0 <= i < s.len() implies !needs_sync(scene.nodes@[#[trigger] s[i] as int], m) by {
        assert(m.contains_key(key_of(scene, s[i])));
    }
}

/// After a successful synchronisation every node below the synchronised roots has
/// a layout node, so its box can be read; an entity that had none before and is
/// not below those roots still has none.
pub proof fn lemma_synced_have_layout(
    before: &UiLayoutTree,
    after: &UiLayoutTree,
    scene: &UiScene,
    roots: Seq<usize>,
    e: Entity,
)
    requires
        all_mapped(scene, after.nodes(), roots_dfs(scene, roots)),
        grown_only_by(scene, before.nodes(), after.nodes(), roots_dfs(scene, roots)),
    ensures
        forall|i: int|
            0 <= i < roots_dfs(scene, roots).len() ==> after.node_of(
                scene.nodes@[#[trigger] roots_dfs(scene, roots)[i] as int].entity,
            ) is Some,
        before.node_of(e) is None && !(exists|i: int|
            0 <= i < roots_dfs(scene, roots).len() && key_of(scene, #[trigger] roots_dfs(scene, roots)[i])
                == entity_bits(e)) ==> after.node_of(e) is None,
{
    let s = roots_dfs(scene, roots);
    assert forall|i: int| 0 <= i < s.len() implies after.node_of(
        scene.nodes@[#[trigger] s[i] as int].entity,
    ) is Some by {
        assert(after.nodes().contains_key(key_of(scene, s[i])));
    }
}

} // verus!
