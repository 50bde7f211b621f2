//! Per-viewport paint order: the visible roots, every node in back-to-front order,
//! and the range table over that order.
use vstd::prelude::*;
use vstd::relations::{sorted_by, total_ordering};
use std::ops::Range;
use fixedbitset::FixedBitSet;
use smallvec::SmallVec;

use crate::entity::Entity;
use crate::scene::{SceneNode, UiScene};

verus! {

broadcast use vstd::seq_lib::group_to_multiset_ensures;

#[verifier::external_type_specification]
#[verifier::external_body]
pub struct ExFixedBitSet(FixedBitSet);

/// A stack's root list, held inline for up to eight roots.
#[verifier::external_body]
#[derive(Debug)]
pub struct RootList {
    inner: SmallVec<[Entity; 8]>,
}

/// A stack's flattened sequence, held inline for up to 24 entities.
#[verifier::external_body]
#[derive(Debug)]
pub struct EntityList {
    inner: SmallVec<[Entity; 24]>,
}

/// A stack's range table, held inline for up to 16 ranges.
#[verifier::external_body]
#[derive(Debug)]
pub struct RangeList {
    inner: SmallVec<[Range<usize>; 16]>,
}

/// The bits that are set.
pub uninterp spec fn bitset_members(b: FixedBitSet) -> Set<usize>;

/// The entities held by a stack's root list.
pub uninterp spec fn root_list(v: RootList) -> Seq<Entity>;

/// The entities held by a stack's flattened sequence.
pub uninterp spec fn entity_list(v: EntityList) -> Seq<Entity>;

/// The ranges held by a stack's range table.
pub uninterp spec fn range_list(v: RangeList) -> Seq<Range<usize>>;

/// Relies on `FixedBitSet::new`: no bit is set.
#[verifier::external_body]
fn bitset_new() -> (r: FixedBitSet)
    ensures
        bitset_members(r).is_empty(),
{
    FixedBitSet::new()
}

/// Relies on `FixedBitSet::grow_and_insert`: sets one bit, growing as needed
/// (`bit + 1` must not overflow).
#[verifier::external_body]
fn bitset_grow_and_insert(b: &mut FixedBitSet, bit: usize)
    requires
        bit < usize::MAX,
    ensures
        bitset_members(*final(b)) == bitset_members(*old(b)).insert(bit),
{
    b.grow_and_insert(bit)
}

/// Relies on `FixedBitSet::contains`: whether the bit is set (false past the end).
#[verifier::external_body]
fn bitset_contains(b: &FixedBitSet, bit: usize) -> (r: bool)
    ensures
        r == bitset_members(*b).contains(bit),
{
    b.contains(bit)
}

/// Relies on `FixedBitSet::is_clear`: whether no bit is set.
#[verifier::external_body]
fn bitset_is_clear(b: &FixedBitSet) -> (r: bool)
    ensures
        r == bitset_members(*b).is_empty(),
{
    b.is_clear()
}

/// Relies on `SmallVec::from_vec`: the same elements in the same order.
#[verifier::external_body]
fn roots_from_vec(v: Vec<Entity>) -> (r: RootList)
    ensures
        root_list(r) == v@,
{
    RootList { inner: SmallVec::from_vec(v) }
}

/// Relies on `SmallVec::from_vec`: the same elements in the same order.
#[verifier::external_body]
fn entities_from_vec(v: Vec<Entity>) -> (r: EntityList)
    ensures
        entity_list(r) == v@,
{
    EntityList { inner: SmallVec::from_vec(v) }
}

/// Relies on `SmallVec::from_vec`: the same elements in the same order.
#[verifier::external_body]
fn ranges_from_vec(v: Vec<Range<usize>>) -> (r: RangeList)
    ensures
        range_list(r) == v@,
{
    RangeList { inner: SmallVec::from_vec(v) }
}

/// Relies on `FixedBitSet::clear`: every bit unset.
#[verifier::external_body]
fn bitset_clear(b: &mut FixedBitSet)
    ensures
        bitset_members(*final(b)).is_empty(),
{
    b.clear()
}

impl RootList {
    /// Relies on `SmallVec::as_slice`: the held elements in order.
    #[verifier::external_body]
    pub(crate) fn to_vec(&self) -> (r: Vec<Entity>)
        ensures
            r@ == root_list(*self),
    {
        self.inner.as_slice().to_vec()
    }
}

impl EntityList {
    /// Relies on `SmallVec::as_slice`: the held elements in order.
    #[verifier::external_body]
    pub(crate) fn to_vec(&self) -> (r: Vec<Entity>)
        ensures
            r@ == entity_list(*self),
    {
        self.inner.as_slice().to_vec()
    }
}

impl RangeList {
    /// Relies on `SmallVec::as_slice`: the held elements in order.
    #[verifier::external_body]
    pub(crate) fn to_vec(&self) -> (r: Vec<Range<usize>>)
        ensures
            r@ == range_list(*self),
    {
        self.inner.as_slice().to_vec()
    }
}

/// A sibling waiting to be ordered: its sort key and its position in the snapshot.
#[derive(Clone, Copy, Debug, PartialEq, Eq, Structural)]
pub struct SortEntry {
    pub key: u64,
    pub node: usize,
}

/// Relies on `radsort::sort_by_key`: an ascending sort by `key` that keeps every
/// element.
#[verifier::external_body]
fn sort_by_key(v: &mut Vec<SortEntry>)
    ensures
        final(v)@.to_multiset() == old(v)@.to_multiset(),
        forall|i: int, j: int|
            0 <= i < j < final(v)@.len() ==> (#[trigger] final(v)@[i]).key <= (
            #[trigger] final(v)@[j]).key,
{
    radsort::sort_by_key(v, |e| e.key)
}

/// `a` is painted before `b` among siblings: it is farther away, or as far and
/// lower in slot index.
pub open spec fn paints_before(a: SceneNode, b: SceneNode) -> bool {
    a.depth > b.depth || (a.depth == b.depth && a.entity.index < b.entity.index)
}

/// The sort key of a node: the inverted depth key above the slot index.
pub open spec fn sort_key(n: SceneNode) -> u64 {
    ((u32::MAX - n.depth) as int * 0x1_0000_0000 + n.entity.index as int) as u64
}

/// Keys order nodes exactly as painting does.
pub proof fn lemma_sort_key_order(a: SceneNode, b: SceneNode)
    ensures
        sort_key(a) < sort_key(b) <==> paints_before(a, b),
        sort_key(a) == sort_key(b) <==> (a.depth == b.depth && a.entity.index == b.entity.index),
{
    let x = (u32::MAX - a.depth) as int;
    let y = (u32::MAX - b.depth) as int;
    let i = a.entity.index as int;
    let j = b.entity.index as int;
    assert(0 <= i < 0x1_0000_0000 && 0 <= j < 0x1_0000_0000);
    assert(0 <= x < 0x1_0000_0000 && 0 <= y < 0x1_0000_0000);
    assert(x * 0x1_0000_0000 + i < 0x1_0000_0000 * 0x1_0000_0000) by (nonlinear_arith)
        requires
            0 <= i < 0x1_0000_0000,
            0 <= x < 0x1_0000_0000,
    ;
    assert(y * 0x1_0000_0000 + j < 0x1_0000_0000 * 0x1_0000_0000) by (nonlinear_arith)
        requires
            0 <= j < 0x1_0000_0000,
            0 <= y < 0x1_0000_0000,
    ;
    assert(x < y ==> x * 0x1_0000_0000 + i < y * 0x1_0000_0000 + j) by (nonlinear_arith)
        requires
            0 <= i < 0x1_0000_0000,
            0 <= j,
    ;
    assert(y < x ==> y * 0x1_0000_0000 + j < x * 0x1_0000_0000 + i) by (nonlinear_arith)
        requires
            0 <= j < 0x1_0000_0000,
            0 <= i,
    ;
}

/// Order on entries: by key, then by position.
pub open spec fn entry_leq(a: SortEntry, b: SortEntry) -> bool {
    a.key < b.key || (a.key == b.key && a.node <= b.node)
}

pub open spec fn entry_order() -> spec_fn(SortEntry, SortEntry) -> bool {
    |a: SortEntry, b: SortEntry| entry_leq(a, b)
}

proof fn lemma_entry_order_total()
    ensures
        total_ordering(entry_order()),
{
}

/// The entries of a sibling group, in group order.
pub open spec fn entries_of(scene: &UiScene, g: Seq<usize>) -> Seq<SortEntry> {
    g.map_values(|k: usize| SortEntry { key: sort_key(scene.nodes@[k as int]), node: k })
}

/// A sibling group in paint order.
pub open spec fn sorted_group(scene: &UiScene, g: Seq<usize>) -> Seq<usize> {
    entries_of(scene, g).sort_by(entry_order()).map_values(|e: SortEntry| e.node)
}

/// Orders a sibling group for painting.
fn sorted_members(scene: &UiScene, group: &Vec<usize>) -> (r: Vec<usize>)
    requires
        scene.wf(),
        forall|i: int| 0 <= i < group@.len() ==> #[trigger] group@[i] < scene.len(),
    ensures
        r@ == sorted_group(scene, group@),
        r@.len() == group@.len(),
        forall|i: int| 0 <= i < r@.len() ==> group@.contains(#[trigger] r@[i]),
{
    let mut entries: Vec<SortEntry> = Vec::new();
    let mut i: usize = 0;
    while i < group.len()
        invariant
            i <= group@.len(),
            entries@ == entries_of(scene, group@.take(i as int)),
            forall|j: int| 0 <= j < group@.len() ==> #[trigger] group@[j] < scene.len(),
        decreases group@.len() - i,
    {
        let k = group[i];
        let node = &scene.nodes[k];
        let key: u64 = ((u32::MAX - node.depth) as u64) * 0x1_0000_0000 + (node.entity.index as u64);
        entries.push(SortEntry { key, node: k });
        assert(group@.take(i as int + 1) =~= group@.take(i as int).push(k));
        assert(entries@ =~= entries_of(scene, group@.take(i as int + 1)));
        i = i + 1;
    }
    assert(group@.take(group@.len() as int) =~= group@);
    let ghost before = entries@;
    sort_by_key(&mut entries);
    proof {
        let after = entries@;
        let spec_sorted = before.sort_by(entry_order());
        lemma_entry_order_total();
        before.lemma_sort_by_ensures(entry_order());
        assert forall|e: SortEntry| after.contains(e) implies e.key == sort_key(
            scene.nodes@[e.node as int],
        ) && e.node < scene.len() by {
            assert(after.to_multiset().count(e) > 0);
            assert(before.to_multiset().count(e) > 0);
            assert(before.contains(e));
            let j = choose|j: int| 0 <= j < before.len() && before[j] == e;
            assert(group@[j] < scene.len());
        }
        assert forall|a: int, b: int| 0 <= a < b < after.len() implies #[trigger] entry_order()(
            after[a],
            after[b],
        ) by {
            assert(after.contains(after[a]));
            assert(after.contains(after[b]));
            assert(after[a].key <= after[b].key);
            let na = scene.nodes@[after[a].node as int];
            let nb = scene.nodes@[after[b].node as int];
            lemma_sort_key_order(na, nb);
            if after[a].key == after[b].key && after[a].node != after[b].node {
                assert(na.entity.index != nb.entity.index);
            }
        }
        assert(sorted_by(after, entry_order()));
        vstd::seq_lib::lemma_sorted_unique(after, spec_sorted, entry_order());
        assert(after.len() == before.len()) by {
            assert(after.to_multiset().len() == before.to_multiset().len());
        }
    }
    let mut out: Vec<usize> = Vec::new();
    let mut j: usize = 0;
    while j < entries.len()
        invariant
            j <= entries@.len(),
            out@ == entries@.take(j as int).map_values(|e: SortEntry| e.node),
        decreases entries@.len() - j,
    {
        out.push(entries[j].node);
        assert(entries@.take(j as int + 1) =~= entries@.take(j as int).push(entries@[j as int]));
        assert(out@ =~= entries@.take(j as int + 1).map_values(|e: SortEntry| e.node));
        j = j + 1;
    }
    assert(entries@.take(entries@.len() as int) =~= entries@);
    proof {
        assert forall|i: int| 0 <= i < out@.len() implies group@.contains(#[trigger] out@[i]) by {
            let e = entries@[i];
            assert(entries@.contains(e));
            assert(entries@.to_multiset().count(e) > 0);
            assert(before.contains(e));
            let j = choose|j: int| 0 <= j < before.len() && before[j] == e;
            assert(group@[j] == out@[i]);
        }
    }
    out
}

proof fn lemma_sorted_group_len(scene: &UiScene, g: Seq<usize>)
    ensures
        sorted_group(scene, g).len() == g.len(),
{
    lemma_entry_order_total();
    let e = entries_of(scene, g);
    e.lemma_sort_by_ensures(entry_order());
    assert(e.sort_by(entry_order()).to_multiset().len() == e.to_multiset().len());
}

/// The paint-order sequence of the subtree at `k`: `k` itself, then the subtree
/// of each child, children in paint order.
pub open spec fn flatten_node(scene: &UiScene, k: int) -> Seq<usize>
    decreases scene.len() - k, 1int, 0int,
{
    if 0 <= k < scene.len() {
        seq![k as usize] + flatten_list(scene, k, sorted_group(scene, scene.children_of(k)))
    } else {
        Seq::empty()
    }
}

/// The subtrees of the nodes of `s` (children of `k`), one after the other.
pub open spec fn flatten_list(scene: &UiScene, k: int, s: Seq<usize>) -> Seq<usize>
    decreases scene.len() - k, 0int, s.len(),
{
    if s.len() == 0 {
        Seq::empty()
    } else {
        flatten_list(scene, k, s.drop_last()) + (if k < s.last() < scene.len() {
            flatten_node(scene, s.last() as int)
        } else {
            Seq::empty()
        })
    }
}

/// The subtrees of the roots in `s`, one after the other.
pub open spec fn flatten_roots(scene: &UiScene, s: Seq<usize>) -> Seq<usize>
    decreases s.len(),
{
    if s.len() == 0 {
        Seq::empty()
    } else {
        flatten_roots(scene, s.drop_last()) + flatten_node(scene, s.last() as int)
    }
}

proof fn lemma_node_bounded(scene: &UiScene, k: int)
    ensures
        forall|i: int|
            0 <= i < flatten_node(scene, k).len() ==> #[trigger] flatten_node(scene, k)[i]
                < scene.len(),
    decreases scene.len() - k, 1int, 0int,
{
    if 0 <= k < scene.len() {
        let rest = flatten_list(scene, k, sorted_group(scene, scene.children_of(k)));
        lemma_list_bounded(scene, k, sorted_group(scene, scene.children_of(k)));
        let f = flatten_node(scene, k);
        assert forall|i: int| 0 <= i < f.len() implies #[trigger] f[i] < scene.len() by {
            if i > 0 {
                assert(f[i] == rest[i - 1]);
            }
        }
    }
}

proof fn lemma_list_bounded(scene: &UiScene, k: int, s: Seq<usize>)
    ensures
        forall|i: int|
            0 <= i < flatten_list(scene, k, s).len() ==> #[trigger] flatten_list(scene, k, s)[i]
                < scene.len(),
    decreases scene.len() - k, 0int, s.len(),
{
    if s.len() > 0 {
        let a = flatten_list(scene, k, s.drop_last());
        let b = if k < s.last() < scene.len() {
            flatten_node(scene, s.last() as int)
        } else {
            Seq::empty()
        };
        lemma_list_bounded(scene, k, s.drop_last());
        if k < s.last() < scene.len() {
            lemma_node_bounded(scene, s.last() as int);
        }
        let f = flatten_list(scene, k, s);
        assert(f == a + b);
        assert forall|i: int| 0 <= i < f.len() implies #[trigger] f[i] < scene.len() by {
            if i < a.len() {
                assert(f[i] == a[i]);
            } else {
                assert(f[i] == b[i - a.len()]);
            }
        }
    }
}

proof fn lemma_roots_bounded(scene: &UiScene, s: Seq<usize>)
    ensures
        forall|i: int|
            0 <= i < flatten_roots(scene, s).len() ==> #[trigger] flatten_roots(scene, s)[i]
                < scene.len(),
    decreases s.len(),
{
    if s.len() > 0 {
        let a = flatten_roots(scene, s.drop_last());
        let b = flatten_node(scene, s.last() as int);
        lemma_roots_bounded(scene, s.drop_last());
        lemma_node_bounded(scene, s.last() as int);
        let f = flatten_roots(scene, s);
        assert(f == a + b);
        assert forall|i: int| 0 <= i < f.len() implies #[trigger] f[i] < scene.len() by {
            if i < a.len() {
                assert(f[i] == a[i]);
            } else {
                assert(f[i] == b[i - a.len()]);
            }
        }
    }
}

pub open spec fn total(s: Seq<usize>) -> int
    decreases s.len(),
{
    if s.len() == 0 {
        0
    } else {
        total(s.drop_last()) + s.last()
    }
}

proof fn lemma_total_prefix(s: Seq<usize>, i: int)
    requires
        0 <= i <= s.len(),
    ensures
        0 <= total(s.take(i)) <= total(s),
    decreases s.len(),
{
    if s.len() > 0 {
        if i == s.len() {
            assert(s.take(i) =~= s);
            lemma_total_prefix(s.drop_last(), i - 1);
            assert(s.drop_last().take(i - 1) =~= s.drop_last());
        } else {
            lemma_total_prefix(s.drop_last(), i);
            assert(s.drop_last().take(i) =~= s.take(i));
        }
    }
}

/// The sizes of the non-empty sibling groups inside the subtree of `k`, in the
/// order a paint-order walk reaches them: `k`'s own children first, then the
/// groups inside each child's subtree.
pub open spec fn sizes_node(scene: &UiScene, k: int) -> Seq<usize>
    decreases scene.len() - k, 1int, 0int,
{
    if 0 <= k < scene.len() && scene.children_of(k).len() > 0 {
        seq![scene.children_of(k).len() as usize] + sizes_list(
            scene,
            k,
            sorted_group(scene, scene.children_of(k)),
        )
    } else {
        Seq::empty()
    }
}

/// The group sizes inside the subtrees of the nodes of `s` (children of `k`).
pub open spec fn sizes_list(scene: &UiScene, k: int, s: Seq<usize>) -> Seq<usize>
    decreases scene.len() - k, 0int, s.len(),
{
    if s.len() == 0 {
        Seq::empty()
    } else {
        sizes_list(scene, k, s.drop_last()) + (if k < s.last() < scene.len() {
            sizes_node(scene, s.last() as int)
        } else {
            Seq::empty()
        })
    }
}

/// The group sizes inside the subtrees of the roots in `s`.
pub open spec fn sizes_in_roots(scene: &UiScene, s: Seq<usize>) -> Seq<usize>
    decreases s.len(),
{
    if s.len() == 0 {
        Seq::empty()
    } else {
        sizes_in_roots(scene, s.drop_last()) + sizes_node(scene, s.last() as int)
    }
}

/// The group sizes of a viewport whose ordered roots are `s`: the root group (when
/// there is one), then the groups below the roots.
pub open spec fn sizes_of_roots(scene: &UiScene, s: Seq<usize>) -> Seq<usize> {
    if s.len() == 0 {
        Seq::empty()
    } else {
        seq![s.len() as usize] + sizes_in_roots(scene, s)
    }
}

/// One range per group size, laid out one after another from 0.
pub open spec fn ranges_of(sizes: Seq<usize>) -> Seq<Range<usize>>
    decreases sizes.len(),
{
    if sizes.len() == 0 {
        Seq::empty()
    } else {
        ranges_of(sizes.drop_last()).push(
            Range { start: total(sizes.drop_last()) as usize, end: total(sizes) as usize },
        )
    }
}

/// Appends the subtree of `k` in paint order, and the size of each non-empty
/// sibling group inside it as the group is reached.
fn push_node(scene: &UiScene, k: usize, order: &mut Vec<usize>, sizes: &mut Vec<usize>)
    requires
        scene.wf(),
        k < scene.len(),
    ensures
        final(order)@ == old(order)@ + flatten_node(scene, k as int),
        total(final(sizes)@) == total(old(sizes)@) + flatten_node(scene, k as int).len() - 1,
        final(sizes)@ == old(sizes)@ + sizes_node(scene, k as int),
    decreases scene.len() - k,
{
    order.push(k);
    let children = &scene.nodes[k].children;
    let ghost base = order@;
    let ghost sorted = sorted_group(scene, scene.children_of(k as int));
    if children.len() == 0 {
        proof {
            lemma_sorted_group_len(scene, scene.children_of(k as int));
        }
        assert(sorted.len() == 0);
        assert(flatten_list(scene, k as int, sorted) =~= Seq::empty());
        assert(flatten_node(scene, k as int) =~= seq![k]);
        assert(order@ =~= old(order)@ + flatten_node(scene, k as int));
        assert(sizes@ =~= old(sizes)@ + sizes_node(scene, k as int));
        return;
    }
    proof {
        assert forall|i: int| 0 <= i < children@.len() implies #[trigger] children@[i]
            < scene.len() by {
            assert(scene.children_of(k as int)[i] == children@[i]);
        }
    }
    let members = sorted_members(scene, children);
    let m = members.len();
    sizes.push(m);
    let ghost sizes0 = sizes@;
    assert(total(sizes0) == total(old(sizes)@) + m) by {
        assert(sizes0.drop_last() =~= old(sizes)@);
    }
    let mut i: usize = 0;
    while i < members.len()
        invariant
            scene.wf(),
            k < scene.len(),
            members@ == sorted,
            m == members@.len(),
            i <= m,
            base == old(order)@.push(k),
            forall|j: int| 0 <= j < m ==> k < #[trigger] members@[j] < scene.len(),
            order@ == base + flatten_list(scene, k as int, members@.take(i as int)),
            total(sizes@) == total(sizes0) + flatten_list(scene, k as int, members@.take(i as int)).len()
                - i,
            sizes@ == sizes0 + sizes_list(scene, k as int, members@.take(i as int)),
            sizes0 == old(sizes)@.push(m),
            m == children@.len(),
            children@ == scene.children_of(k as int),
        decreases m - i,
    {
        let c = members[i];
        let ghost before = order@;
        let ghost sizes_before = sizes@;
        push_node(scene, c, order, sizes);
        proof {
            let t1 = members@.take(i as int + 1);
            assert(t1.drop_last() =~= members@.take(i as int));
            assert(t1.last() == c);
            assert(flatten_list(scene, k as int, t1) == flatten_list(
                scene,
                k as int,
                members@.take(i as int),
            ) + flatten_node(scene, c as int));
            assert(order@ =~= base + flatten_list(scene, k as int, t1));
            assert(sizes_list(scene, k as int, t1) == sizes_list(
                scene,
                k as int,
                members@.take(i as int),
            ) + sizes_node(scene, c as int));
            assert(sizes@ =~= sizes0 + sizes_list(scene, k as int, t1));
        }
        i = i + 1;
    }
    proof {
        assert(members@.take(m as int) =~= members@);
        assert(flatten_node(scene, k as int) == seq![k] + flatten_list(scene, k as int, sorted));
        assert(order@ =~= old(order)@ + flatten_node(scene, k as int));
        assert(sizes_node(scene, k as int) == seq![m] + sizes_list(scene, k as int, sorted));
        assert(sizes@ =~= old(sizes)@ + sizes_node(scene, k as int));
    }
}


/// Appends the subtrees of the roots in paint order, with the size of each
/// non-empty sibling group as the group is reached.
fn push_roots(scene: &UiScene, roots: &Vec<usize>, order: &mut Vec<usize>, sizes: &mut Vec<usize>)
    requires
        scene.wf(),
        forall|i: int| 0 <= i < roots@.len() ==> #[trigger] roots@[i] < scene.len(),
    ensures
        final(order)@ == old(order)@ + flatten_roots(scene, sorted_group(scene, roots@)),
        total(final(sizes)@) == total(old(sizes)@) + flatten_roots(
            scene,
            sorted_group(scene, roots@),
        ).len(),
        final(sizes)@ == old(sizes)@ + sizes_of_roots(scene, sorted_group(scene, roots@)),
{
    let ghost sorted = sorted_group(scene, roots@);
    if roots.len() == 0 {
        proof {
            lemma_sorted_group_len(scene, roots@);
        }
        assert(order@ =~= old(order)@ + flatten_roots(scene, sorted));
        assert(sizes@ =~= old(sizes)@ + sizes_of_roots(scene, sorted));
        return;
    }
    let members = sorted_members(scene, roots);
    let m = members.len();
    sizes.push(m);
    let ghost sizes0 = sizes@;
    assert(total(sizes0) == total(old(sizes)@) + m) by {
        assert(sizes0.drop_last() =~= old(sizes)@);
    }
    assert(forall|j: int| 0 <= j < m ==> #[trigger] members@[j] < scene.len()) by {
        assert forall|j: int| 0 <= j < m implies #[trigger] members@[j] < scene.len() by {
            assert(roots@.contains(members@[j]));
        }
    }
    let mut i: usize = 0;
    while i < members.len()
        invariant
            scene.wf(),
            members@ == sorted,
            m == members@.len(),
            i <= m,
            forall|j: int| 0 <= j < m ==> #[trigger] members@[j] < scene.len(),
            order@ == old(order)@ + flatten_roots(scene, members@.take(i as int)),
            total(sizes@) == total(sizes0) + flatten_roots(scene, members@.take(i as int)).len() - i,
            sizes@ == sizes0 + sizes_in_roots(scene, members@.take(i as int)),
            sizes0 == old(sizes)@.push(m),
        decreases m - i,
    {
        let c = members[i];
        push_node(scene, c, order, sizes);
        proof {
            let t1 = members@.take(i as int + 1);
            assert(t1.drop_last() =~= members@.take(i as int));
            assert(t1.last() == c);
            assert(order@ =~= old(order)@ + flatten_roots(scene, t1));
            assert(sizes@ =~= sizes0 + sizes_in_roots(scene, t1));
        }
        i = i + 1;
    }
    assert(members@.take(m as int) =~= members@);
    assert(sizes@ =~= old(sizes)@ + sizes_of_roots(scene, sorted));
}

/// The range table is a run of adjacent ranges from 0 to `n`.
pub open spec fn ranges_tile(r: Seq<Range<usize>>, n: int) -> bool {
    &&& forall|i: int| 0 <= i < r.len() ==> (#[trigger] r[i]).start <= r[i].end
    &&& forall|i: int| 0 < i < r.len() ==> (#[trigger] r[i]).start == r[i - 1].end
    &&& r.len() == 0 ==> n == 0
    &&& r.len() > 0 ==> r[0].start == 0 && r.last().end == n
}

/// Lays the groups out one after another.
fn ranges_from_sizes(sizes: &Vec<usize>) -> (r: Vec<Range<usize>>)
    requires
        total(sizes@) <= usize::MAX,
    ensures
        ranges_tile(r@, total(sizes@)),
        r@.len() == sizes@.len(),
        forall|i: int| 0 <= i < r@.len() ==> (#[trigger] r@[i]).end - r@[i].start == sizes@[i],
        r@ == ranges_of(sizes@),
{
    let mut out: Vec<Range<usize>> = Vec::new();
    let mut start: usize = 0;
    let mut i: usize = 0;
    while i < sizes.len()
        invariant
            i <= sizes@.len(),
            total(sizes@) <= usize::MAX,
            start == total(sizes@.take(i as int)),
            out@.len() == i,
            ranges_tile(out@, start as int),
            forall|j: int| 0 <= j < i ==> (#[trigger] out@[j]).end - out@[j].start == sizes@[j],
            out@ == ranges_of(sizes@.take(i as int)),
        decreases sizes@.len() - i,
    {
        proof {
            let t1 = sizes@.take(i as int + 1);
            assert(t1.drop_last() =~= sizes@.take(i as int));
            lemma_total_prefix(sizes@, i as int + 1);
        }
        let end = start + sizes[i];
        out.push(Range { start, end });
        proof {
            let t1 = sizes@.take(i as int + 1);
            assert(total(t1) == total(sizes@.take(i as int)) + sizes@[i as int]);
            assert(out@ =~= ranges_of(t1));
        }
        start = end;
        i = i + 1;
    }
    assert(sizes@.take(sizes@.len() as int) =~= sizes@);
    out
}

/// The positions of the visible bits named by `v` (a bitset cannot hold the
/// position `usize::MAX`, which only a 32-bit target could name).
pub open spec fn visible_set(v: Seq<u32>) -> Set<usize> {
    Set::new(|b: usize| b < usize::MAX && exists|j: int| 0 <= j < v.len() && v[j] as usize == b)
}

/// The roots among the first `n` nodes of the snapshot whose slot is visible, in
/// snapshot order.
pub open spec fn visible_roots(scene: &UiScene, vis: Set<usize>, n: int) -> Seq<usize>
    decreases n,
{
    if n <= 0 {
        Seq::empty()
    } else {
        let rest = visible_roots(scene, vis, n - 1);
        let node = scene.nodes@[n - 1];
        if !node.has_parent && vis.contains(node.entity.index as usize) {
            rest.push((n - 1) as usize)
        } else {
            rest
        }
    }
}

/// The snapshot positions of one viewport's paint order.
pub open spec fn paint_order(scene: &UiScene, vis: Set<usize>) -> Seq<usize> {
    flatten_roots(scene, sorted_group(scene, visible_roots(scene, vis, scene.len() as int)))
}

pub open spec fn entities_at(scene: &UiScene, order: Seq<usize>) -> Seq<Entity> {
    order.map_values(|k: usize| scene.nodes@[k as int].entity)
}

/// One viewport's paint order.
#[derive(Debug)]
pub struct UiStack {
    /// Slots of the entities visible in this viewport.
    pub bitset: FixedBitSet,
    /// The visible roots, in snapshot order.
    pub roots: RootList,
    /// Every ordered entity, back to front; the paint rank of `entities[i]` is `i`.
    pub entities: EntityList,
    /// One range per non-empty sibling group, in the order the groups were
    /// reached; together they cover the sequence.
    pub ranges: RangeList,
}

/// `st` is the stack of a viewport whose visible slots are `vis`.
pub open spec fn stack_of(scene: &UiScene, vis: Set<usize>, st: UiStack) -> bool {
    &&& bitset_members(st.bitset) == vis
    &&& root_list(st.roots) == entities_at(scene, visible_roots(scene, vis, scene.len() as int))
    &&& entity_list(st.entities) == entities_at(scene, paint_order(scene, vis))
    &&& ranges_tile(range_list(st.ranges), entity_list(st.entities).len() as int)
    &&& range_list(st.ranges) == ranges_of(
        sizes_of_roots(scene, sorted_group(scene, visible_roots(scene, vis, scene.len() as int))),
    )
}

impl UiStack {
    /// Orders one viewport: marks the visible slots, picks the visible roots, and
    /// flattens every sibling group back to front into one sequence with its range
    /// table. Nothing is built when no slot is visible.
    pub fn build(scene: &UiScene, visible: &[u32]) -> (r: Option<UiStack>)
        requires
            scene.wf(),
        ensures
            r is None <==> visible_set(visible@).is_empty(),
            r matches Some(st) ==> stack_of(scene, visible_set(visible@), st),
    {
        let ghost vis = visible_set(visible@);
        let mut bits = bitset_new();
        let mut i: usize = 0;
        while i < visible.len()
            invariant
                i <= visible@.len(),
                bitset_members(bits) == visible_set(visible@.take(i as int)),
            decreases visible@.len() - i,
        {
            let b = visible[i] as usize;
            let ghost prev = visible_set(visible@.take(i as int));
            if b < usize::MAX {
                bitset_grow_and_insert(&mut bits, b);
            }
            proof {
                let t1 = visible@.take(i as int + 1);
                assert(t1[i as int] == visible@[i as int]);
                assert forall|x: usize| #[trigger] visible_set(t1).contains(x) == (if b < usize::MAX {
                    prev.insert(b)
                } else {
                    prev
                }).contains(x) by {
                    if visible_set(t1).contains(x) {
                        let j = choose|j: int| 0 <= j < t1.len() && t1[j] as usize == x;
                        if j < i {
                            assert(visible@.take(i as int)[j] == t1[j]);
                        }
                    }
                    if prev.contains(x) {
                        let j = choose|j: int|
                            0 <= j < visible@.take(i as int).len() && visible@.take(
                                i as int,
                            )[j] as usize == x;
                        assert(t1[j] == visible@.take(i as int)[j]);
                    }
                }
                assert(bitset_members(bits) =~= visible_set(t1));
            }
            i = i + 1;
        }
        assert(visible@.take(visible@.len() as int) =~= visible@);
        if bitset_is_clear(&bits) {
            return None;
        }
        let mut roots: Vec<usize> = Vec::new();
        let mut k: usize = 0;
        while k < scene.nodes.len()
            invariant
                k <= scene.len(),
                bitset_members(bits) == vis,
                roots@ == visible_roots(scene, vis, k as int),
                forall|j: int| 0 <= j < roots@.len() ==> #[trigger] roots@[j] < k,
            decreases scene.len() - k,
        {
            let node = &scene.nodes[k];
            if !node.has_parent && bitset_contains(&bits, node.entity.index as usize) {
                roots.push(k);
            }
            k = k + 1;
        }
        let mut order: Vec<usize> = Vec::new();
        let mut sizes: Vec<usize> = Vec::new();
        push_roots(scene, &roots, &mut order, &mut sizes);
        let n = order.len();
        assert(order@ == paint_order(scene, vis));
        proof {
            lemma_roots_bounded(scene, sorted_group(scene, roots@));
        }
        let ranges = ranges_from_sizes(&sizes);
        let mut entities: Vec<Entity> = Vec::new();
        let mut j: usize = 0;
        while j < order.len()
            invariant
                j <= order@.len(),
                order@ == paint_order(scene, vis),
                entities@ == entities_at(scene, order@.take(j as int)),
                forall|x: int| 0 <= x < order@.len() ==> #[trigger] order@[x] < scene.len(),
            decreases order@.len() - j,
        {
            entities.push(scene.nodes[order[j]].entity);
            assert(order@.take(j as int + 1) =~= order@.take(j as int).push(order@[j as int]));
            assert(entities@ =~= entities_at(scene, order@.take(j as int + 1)));
            j = j + 1;
        }
        assert(order@.take(order@.len() as int) =~= order@);
        let mut root_entities: Vec<Entity> = Vec::new();
        let mut j: usize = 0;
        while j < roots.len()
            invariant
                j <= roots@.len(),
                root_entities@ == entities_at(scene, roots@.take(j as int)),
                forall|x: int| 0 <= x < roots@.len() ==> #[trigger] roots@[x] < scene.len(),
            decreases roots@.len() - j,
        {
            root_entities.push(scene.nodes[roots[j]].entity);
            assert(roots@.take(j as int + 1) =~= roots@.take(j as int).push(roots@[j as int]));
            assert(root_entities@ =~= entities_at(scene, roots@.take(j as int + 1)));
            j = j + 1;
        }
        assert(roots@.take(roots@.len() as int) =~= roots@);
        Some(
            UiStack {
                bitset: bits,
                roots: roots_from_vec(root_entities),
                entities: entities_from_vec(entities),
                ranges: ranges_from_vec(ranges),
            },
        )
    }

    /// The visible roots, in snapshot order.
    pub fn roots(&self) -> (r: Vec<Entity>)
        ensures
            r@ == root_list(self.roots),
    {
        self.roots.to_vec()
    }

    /// Every ordered entity, back to front.
    pub fn entities(&self) -> (r: Vec<Entity>)
        ensures
            r@ == entity_list(self.entities),
    {
        self.entities.to_vec()
    }

    /// Each ordered entity with its paint rank (stack index): the rank rises by one
    /// along the back-to-front sequence, from 0.
    pub fn ranks(&self) -> (r: Vec<(Entity, usize)>)
        ensures
            r@.len() == entity_list(self.entities).len(),
            forall|i: int| 0 <= i < r@.len() ==> #[trigger] r@[i] == (entity_list(self.entities)[i], i as usize),
    {
        let ents = self.entities();
        let mut out: Vec<(Entity, usize)> = Vec::new();
        let mut i: usize = 0;
        while i < ents.len()
            invariant
                ents@ == entity_list(self.entities),
                i <= ents@.len(),
                out@.len() == i,
                forall|j: int| 0 <= j < i ==> #[trigger] out@[j] == (ents@[j], j as usize),
            decreases ents@.len() - i,
        {
            out.push((ents[i], i));
            i = i + 1;
        }
        out
    }

    /// The range table.
    pub fn ranges(&self) -> (r: Vec<Range<usize>>)
        ensures
            r@ == range_list(self.ranges),
    {
        self.ranges.to_vec()
    }

    /// Whether the slot is visible in this viewport.
    pub fn is_visible(&self, slot: usize) -> (r: bool)
        ensures
            r == bitset_members(self.bitset).contains(slot),
    {
        bitset_contains(&self.bitset, slot)
    }

    /// Empties the stack.
    pub fn clear(&mut self)
        ensures
            bitset_members(final(self).bitset).is_empty(),
            root_list(final(self).roots).len() == 0,
            entity_list(final(self).entities).len() == 0,
            range_list(final(self).ranges).len() == 0,
    {
        bitset_clear(&mut self.bitset);
        self.roots = roots_from_vec(Vec::new());
        self.entities = entities_from_vec(Vec::new());
        self.ranges = ranges_from_vec(Vec::new());
    }
}

/// The slices of `ents` that the ranges of `r` cut out, joined in order.
pub open spec fn joined_slices(ents: Seq<Entity>, r: Seq<Range<usize>>) -> Seq<Entity>
    decreases r.len(),
{
    if r.len() == 0 {
        Seq::empty()
    } else {
        joined_slices(ents, r.drop_last()) + ents.subrange(r.last().start as int, r.last().end as int)
    }
}

proof fn lemma_joined_prefix(ents: Seq<Entity>, r: Seq<Range<usize>>, n: int)
    requires
        ranges_tile(r, n),
        n <= ents.len(),
    ensures
        joined_slices(ents, r) == ents.subrange(0, n),
    decreases r.len(),
{
    if r.len() == 0 {
        assert(ents.subrange(0, 0) =~= Seq::<Entity>::empty());
    } else {
        let rest = r.drop_last();
        let s = r.last().start as int;
        assert(s <= r.last().end);
        assert(ranges_tile(rest, s)) by {
            if rest.len() > 0 {
                assert(rest.last() == r[r.len() - 2]);
                assert(r[r.len() - 1].start == r[r.len() - 2].end);
            }
        }
        lemma_joined_prefix(ents, rest, s);
        assert(ents.subrange(0, s) + ents.subrange(s, n) =~= ents.subrange(0, n));
    }
}

/// Joining the slices that a stack's range table cuts out of its flattened
/// sequence gives back exactly that sequence.
pub proof fn lemma_ranges_rebuild_sequence(st: UiStack)
    requires
        ranges_tile(range_list(st.ranges), entity_list(st.entities).len() as int),
    ensures
        joined_slices(entity_list(st.entities), range_list(st.ranges)) == entity_list(st.entities),
{
    let ents = entity_list(st.entities);
    lemma_joined_prefix(ents, range_list(st.ranges), ents.len() as int);
    assert(ents.subrange(0, ents.len() as int) =~= ents);
}

proof fn lemma_entries_nodup(scene: &UiScene, g: Seq<usize>)
    requires
        g.no_duplicates(),
    ensures
        entries_of(scene, g).no_duplicates(),
{
    let e = entries_of(scene, g);
    assert forall|i: int, j: int| 0 <= i < e.len() && 0 <= j < e.len() && i != j implies e[i] != e[j] by {
        assert(e[i].node == g[i] && e[j].node == g[j]);
    }
}

/// The paint order of a sibling group does not depend on the order the group is
/// listed in: two listings of the same positions give the same order.
pub proof fn lemma_group_order_independent(scene: &UiScene, g1: Seq<usize>, g2: Seq<usize>)
    requires
        g1.no_duplicates(),
        g2.no_duplicates(),
        forall|x: usize| g1.contains(x) <==> g2.contains(x),
    ensures
        sorted_group(scene, g1) == sorted_group(scene, g2),
{
    let e1 = entries_of(scene, g1);
    let e2 = entries_of(scene, g2);
    lemma_entries_nodup(scene, g1);
    lemma_entries_nodup(scene, g2);
    e1.lemma_multiset_has_no_duplicates();
    e2.lemma_multiset_has_no_duplicates();
    assert forall|x: SortEntry| e1.contains(x) implies e2.contains(x) by {
        let i = choose|i: int| 0 <= i < e1.len() && e1[i] == x;
        assert(g1.contains(g1[i]));
        let j = choose|j: int| 0 <= j < g2.len() && g2[j] == g1[i];
        assert(e2[j] == x);
    }
    assert forall|x: SortEntry| e2.contains(x) implies e1.contains(x) by {
        let i = choose|i: int| 0 <= i < e2.len() && e2[i] == x;
        assert(g2.contains(g2[i]));
        let j = choose|j: int| 0 <= j < g1.len() && g1[j] == g2[i];
        assert(e1[j] == x);
    }
    assert forall|x: SortEntry| e1.to_multiset().count(x) == e2.to_multiset().count(x) by {
        if e1.contains(x) {
            assert(e1.to_multiset().contains(x));
            assert(e2.to_multiset().contains(x));
        } else {
            assert(!e1.to_multiset().contains(x));
            assert(!e2.to_multiset().contains(x));
        }
    }
    assert(e1.to_multiset() =~= e2.to_multiset());
    lemma_entry_order_total();
    e1.lemma_sort_by_ensures(entry_order());
    e2.lemma_sort_by_ensures(entry_order());
    vstd::seq_lib::lemma_sorted_unique(e1.sort_by(entry_order()), e2.sort_by(entry_order()), entry_order());
}

/// Within every sibling group the paint order puts farther nodes first and breaks
/// ties by ascending slot index; it is a rearrangement of the group's nodes. So the order
/// is fixed by depth keys and slot indices alone.
pub proof fn lemma_group_paint_order(scene: &UiScene, g: Seq<usize>)
    requires
        scene.wf(),
        g.no_duplicates(),
        forall|i: int| 0 <= i < g.len() ==> #[trigger] g[i] < scene.len(),
    ensures
        sorted_group(scene, g).len() == g.len(),
        sorted_group(scene, g).no_duplicates(),
        forall|i: int| 0 <= i < g.len() ==> g.contains(#[trigger] sorted_group(scene, g)[i]),
        forall|i: int, j: int|
            0 <= i < j < sorted_group(scene, g).len() ==> paints_before(
                scene.nodes@[sorted_group(scene, g)[i] as int],
                scene.nodes@[sorted_group(scene, g)[j] as int],
            ),
{
    let e = entries_of(scene, g);
    let sorted = e.sort_by(entry_order());
    lemma_entry_order_total();
    e.lemma_sort_by_ensures(entry_order());
    let out = sorted_group(scene, g);
    assert(out == sorted.map_values(|x: SortEntry| x.node));
    assert(e.no_duplicates()) by {
        assert forall|i: int, j: int| 0 <= i < e.len() && 0 <= j < e.len() && i != j implies e[i]
            != e[j] by {
            assert(e[i].node == g[i] && e[j].node == g[j]);
        }
    }
    e.lemma_multiset_has_no_duplicates();
    sorted.lemma_multiset_has_no_duplicates_conv();
    assert forall|x: SortEntry| sorted.contains(x) implies x.key == sort_key(
        scene.nodes@[x.node as int],
    ) && x.node < scene.len() && g.contains(x.node) by {
        assert(sorted.to_multiset().count(x) > 0);
        assert(e.contains(x));
        let j = choose|j: int| 0 <= j < e.len() && e[j] == x;
        assert(g[j] == x.node);
    }
    assert forall|i: int, j: int| 0 <= i < j < out.len() implies paints_before(
        scene.nodes@[out[i] as int],
        scene.nodes@[out[j] as int],
    ) by {
        assert(sorted.contains(sorted[i]));
        assert(sorted.contains(sorted[j]));
        assert(entry_order()(sorted[i], sorted[j]));
        let a = scene.nodes@[sorted[i].node as int];
        let b = scene.nodes@[sorted[j].node as int];
        lemma_sort_key_order(a, b);
        if sorted[i].key == sorted[j].key {
            assert(sorted[i] != sorted[j]);
            assert(a.entity.index != b.entity.index);
        }
    }
    lemma_sorted_group_len(scene, g);
    assert forall|i: int| 0 <= i < out.len() implies g.contains(#[trigger] out[i]) by {
        assert(sorted.contains(sorted[i]));
    }
    assert forall|i: int, j: int| 0 <= i < out.len() && 0 <= j < out.len() && i != j implies out[i]
        != out[j] by {
        assert(sorted.contains(sorted[i]));
        assert(sorted.contains(sorted[j]));
        if out[i] == out[j] {
            lemma_sort_key_order(scene.nodes@[out[i] as int], scene.nodes@[out[j] as int]);
            assert(sorted[i].key == sorted[j].key);
        }
    }
}

} // verus!
