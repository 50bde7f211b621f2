//! The flex-layout solver (taffy's `TaffyTree`) as seen by the verified code: which
//! nodes are alive, their child lists, their parent links and their solved boxes.
//!
//! A node's context is the key of its measurement provider; the providers
//! themselves live with the caller.
use vstd::prelude::*;
use taffy::{NodeId, Style, TaffyError, TaffyTree};

use crate::geometry::LayoutBox;

verus! {

#[verifier::external_type_specification]
#[verifier::external_body]
#[verifier::reject_recursive_types(NodeContext)]
pub struct ExTaffyTree<NodeContext>(TaffyTree<NodeContext>);

#[verifier::external_type_specification]
#[verifier::external_body]
pub struct ExStyle(Style);

#[verifier::external_type_specification]
#[verifier::external_body]
pub struct ExTaffyError(TaffyError);

/// The live nodes of a solver tree, each with its ordered child list.
pub uninterp spec fn solver_children(t: TaffyTree<u64>) -> Map<u64, Seq<u64>>;

/// The parent link of each live node that has one.
pub uninterp spec fn solver_parent(t: TaffyTree<u64>) -> Map<u64, u64>;

/// The style of each live node.
pub uninterp spec fn solver_styles(t: TaffyTree<u64>) -> Map<u64, Style>;

/// The measurement key of each live node, if it has one.
pub uninterp spec fn solver_contexts(t: TaffyTree<u64>) -> Map<u64, Option<u64>>;

/// The copy of a style that its `Clone` makes.
pub uninterp spec fn style_copy(s: Style) -> Style;

/// The box that the last computation left on each live node.
pub uninterp spec fn solver_layouts(t: TaffyTree<u64>) -> Map<u64, LayoutBox>;

/// Following parent links from `n` reaches a node without a parent within `fuel`
/// steps, and no node on the way (`n` included) is in `avoid`.
pub open spec fn chain_avoids(par: Map<u64, u64>, n: u64, avoid: Seq<u64>, fuel: nat) -> bool
    decreases fuel,
{
    !avoid.contains(n) && (!par.contains_key(n) || (fuel > 0 && chain_avoids(
        par,
        par[n],
        avoid,
        (fuel - 1) as nat,
    )))
}

/// The links of a solver tree are sound: child lists name live nodes, each listed
/// child links back to the node that lists it and only there, no list repeats a
/// node, and parent links never form a cycle.
pub open spec fn links_sound(ch: Map<u64, Seq<u64>>, par: Map<u64, u64>) -> bool {
    &&& forall|p: u64, i: int|
        #![trigger ch[p][i]]
        ch.contains_key(p) && 0 <= i < ch[p].len() ==> ch.contains_key(ch[p][i])
            && par.contains_key(ch[p][i]) && par[ch[p][i]] == p
    &&& forall|p: u64| #[trigger] ch.contains_key(p) ==> ch[p].no_duplicates()
    &&& forall|c: u64| #[trigger]
        par.contains_key(c) ==> ch.contains_key(c) && ch.contains_key(par[c]) && ch[par[c]].contains(
            c,
        )
    &&& forall|n: u64| #[trigger]
        ch.contains_key(n) ==> exists|k: nat| chain_avoids(par, n, Seq::empty(), k)
}

pub open spec fn solver_sound(t: TaffyTree<u64>) -> bool {
    links_sound(solver_children(t), solver_parent(t))
}

/// Relies on `TaffyTree::new`: a tree with no nodes.
#[verifier::external_body]
pub(crate) fn solver_new() -> (r: TaffyTree<u64>)
    ensures
        solver_children(r).dom().is_empty(),
        solver_parent(r).dom().is_empty(),
{
    TaffyTree::new()
}

/// Relies on `TaffyTree::new_leaf`: a fresh node with no children and no parent,
/// every other node untouched.
#[verifier::external_body]
pub(crate) fn solver_new_leaf(t: &mut TaffyTree<u64>, style: Style) -> (r: Result<u64, TaffyError>)
    ensures
        r is Ok,
        r matches Ok(id) ==> {
            &&& !solver_children(*old(t)).contains_key(id)
            &&& solver_children(*final(t)) == solver_children(*old(t)).insert(id, Seq::empty())
            &&& solver_parent(*final(t)) == solver_parent(*old(t))
            &&& solver_styles(*final(t)) == solver_styles(*old(t)).insert(id, style)
            &&& solver_contexts(*final(t)) == solver_contexts(*old(t)).insert(id, None)
        },
{
    t.new_leaf(style).map(|id| u64::from(id))
}

/// Relies on `TaffyTree::new_leaf_with_context`: as `new_leaf`, the node also
/// carrying `context`.
#[verifier::external_body]
pub(crate) fn solver_new_leaf_with_context(t: &mut TaffyTree<u64>, style: Style, context: u64) -> (r:
    Result<u64, TaffyError>)
    ensures
        r is Ok,
        r matches Ok(id) ==> {
            &&& !solver_children(*old(t)).contains_key(id)
            &&& solver_children(*final(t)) == solver_children(*old(t)).insert(id, Seq::empty())
            &&& solver_parent(*final(t)) == solver_parent(*old(t))
            &&& solver_styles(*final(t)) == solver_styles(*old(t)).insert(id, style)
            &&& solver_contexts(*final(t)) == solver_contexts(*old(t)).insert(id, Some(context))
        },
{
    t.new_leaf_with_context(style, context).map(|id| u64::from(id))
}

/// Relies on `TaffyTree::set_style`: only the node's style changes. It indexes the
/// node (a panic if it is not live) and marks it and its ancestors dirty (which
/// only ends when the parent links have no cycle).
#[verifier::external_body]
pub(crate) fn solver_set_style(t: &mut TaffyTree<u64>, id: u64, style: Style) -> (r: Result<
    (),
    TaffyError,
>)
    requires
        solver_children(*old(t)).contains_key(id),
        solver_sound(*old(t)),
    ensures
        r is Ok,
        solver_children(*final(t)) == solver_children(*old(t)),
        solver_parent(*final(t)) == solver_parent(*old(t)),
        solver_styles(*final(t)) == solver_styles(*old(t)).insert(id, style),
        solver_contexts(*final(t)) == solver_contexts(*old(t)),
{
    t.set_style(NodeId::from(id), style)
}

/// Relies on `TaffyTree::set_node_context`: only the node's context changes; same
/// indexing and dirty-marking as `set_style`.
#[verifier::external_body]
pub(crate) fn solver_set_node_context(t: &mut TaffyTree<u64>, id: u64, context: Option<u64>) -> (r:
    Result<(), TaffyError>)
    requires
        solver_children(*old(t)).contains_key(id),
        solver_sound(*old(t)),
    ensures
        r is Ok,
        solver_children(*final(t)) == solver_children(*old(t)),
        solver_parent(*final(t)) == solver_parent(*old(t)),
        solver_styles(*final(t)) == solver_styles(*old(t)),
        solver_contexts(*final(t)) == solver_contexts(*old(t)).insert(id, context),
{
    t.set_node_context(NodeId::from(id), context)
}

/// Relies on `TaffyTree::set_children`: the parent's list becomes `children`, each
/// child is detached from its previous parent and linked to this one, and the old
/// children lose their link. It indexes every node involved and marks the parent's
/// chain dirty, so the parent and the children must be live, the list must not
/// repeat a node (a repeat fails the lookup in the previous parent), and the new
/// links must not close a cycle. Clearing a list touches no other list.
#[verifier::external_body]
pub(crate) fn solver_set_children(t: &mut TaffyTree<u64>, parent: u64, children: &[u64]) -> (r:
    Result<(), TaffyError>)
    requires
        solver_sound(*old(t)),
        solver_children(*old(t)).contains_key(parent),
        forall|i: int|
            0 <= i < children@.len() ==> solver_children(*old(t)).contains_key(#[trigger] children@[i]),
        children@.no_duplicates(),
        exists|k: nat| chain_avoids(solver_parent(*old(t)), parent, children@, k),
    ensures
        r is Ok,
        solver_sound(*final(t)),
        solver_children(*final(t)).dom() == solver_children(*old(t)).dom(),
        solver_children(*final(t))[parent] == children@,
        children@.len() == 0 ==> solver_children(*final(t)) == solver_children(*old(t)).insert(
            parent,
            Seq::empty(),
        ),
        forall|q: u64|
            q != parent && #[trigger] solver_children(*old(t)).contains_key(q) ==> solver_children(
                *final(t),
            )[q] == solver_children(*old(t))[q].filter(|x: u64| !children@.contains(x)),
        solver_styles(*final(t)) == solver_styles(*old(t)),
        solver_contexts(*final(t)) == solver_contexts(*old(t)),
        solver_parent(*final(t)).contains_key(parent) == solver_parent(*old(t)).contains_key(parent),
        solver_parent(*final(t)).contains_key(parent) ==> solver_parent(*final(t))[parent]
            == solver_parent(*old(t))[parent],
{
    let ids: Vec<NodeId> = children.iter().map(|c| NodeId::from(*c)).collect();
    t.set_children(NodeId::from(parent), &ids)
}

/// Relies on `TaffyTree::remove`: the node leaves the tree, its parent's list
/// drops it and its children lose their link. It indexes the node and its
/// children, which must be live.
#[verifier::external_body]
pub(crate) fn solver_remove(t: &mut TaffyTree<u64>, id: u64) -> (r: Result<u64, TaffyError>)
    requires
        solver_sound(*old(t)),
        solver_children(*old(t)).contains_key(id),
    ensures
        r is Ok,
        r->Ok_0 == id,
        solver_sound(*final(t)),
        solver_children(*final(t)).dom() == solver_children(*old(t)).dom().remove(id),
        forall|q: u64| #[trigger]
            solver_children(*final(t)).contains_key(q) ==> solver_children(*final(t))[q]
                == solver_children(*old(t))[q].filter(|x: u64| x != id),
        forall|q: u64| #[trigger]
            solver_children(*final(t)).contains_key(q) ==> solver_styles(*final(t))[q]
                == solver_styles(*old(t))[q] && solver_contexts(*final(t))[q] == solver_contexts(
                *old(t),
            )[q],
{
    t.remove(NodeId::from(id)).map(|n| u64::from(n))
}

/// Relies on `TaffyTree::remove_child`: the child leaves its parent's list and
/// loses its parent link; nothing else changes. It indexes the parent, finds the
/// child in its list (sound links put it there) and marks the parent's chain
/// dirty.
#[verifier::external_body]
pub(crate) fn solver_remove_child(t: &mut TaffyTree<u64>, parent: u64, child: u64) -> (r: Result<
    u64,
    TaffyError,
>)
    requires
        solver_sound(*old(t)),
        solver_parent(*old(t)).contains_key(child),
        solver_parent(*old(t))[child] == parent,
    ensures
        r is Ok,
        solver_sound(*final(t)),
        !solver_parent(*final(t)).contains_key(child),
        solver_children(*final(t)).dom() == solver_children(*old(t)).dom(),
        forall|q: u64|
            q != parent && #[trigger] solver_children(*old(t)).contains_key(q) ==> solver_children(
                *final(t),
            )[q] == solver_children(*old(t))[q],
        solver_children(*final(t))[parent] == solver_children(*old(t))[parent].filter(
            |x: u64| x != child,
        ),
        solver_styles(*final(t)) == solver_styles(*old(t)),
        solver_contexts(*final(t)) == solver_contexts(*old(t)),
{
    t.remove_child(NodeId::from(parent), NodeId::from(child)).map(|n| u64::from(n))
}

/// Relies on `TaffyTree::parent`: the node's parent link. It indexes the node.
#[verifier::external_body]
pub(crate) fn solver_parent_of(t: &TaffyTree<u64>, id: u64) -> (r: Option<u64>)
    requires
        solver_children(*t).contains_key(id),
    ensures
        r == (if solver_parent(*t).contains_key(id) {
            Some(solver_parent(*t)[id])
        } else {
            None
        }),
{
    t.parent(NodeId::from(id)).map(|p| u64::from(p))
}

/// Relies on `TaffyTree::layout`: the node's last solved box (rounding is on, so
/// every value is a whole pixel). It indexes the node.
#[verifier::external_body]
pub(crate) fn solver_layout(t: &TaffyTree<u64>, id: u64) -> (r: Result<LayoutBox, TaffyError>)
    requires
        solver_children(*t).contains_key(id),
    ensures
        r is Ok,
        r->Ok_0 == solver_layouts(*t)[id],
{
    t.layout(NodeId::from(id)).map(
        |l|
            LayoutBox {
                x: l.location.x as i32,
                y: l.location.y as i32,
                width: l.size.width as i32,
                height: l.size.height as i32,
                border_top: l.border.top as i32,
                border_right: l.border.right as i32,
                border_bottom: l.border.bottom as i32,
                border_left: l.border.left as i32,
            },
    )
}

/// Relies on `Style::DEFAULT`: the solver's default style.
#[verifier::external_body]
pub(crate) fn default_style() -> (r: Style) {
    Style::DEFAULT
}

/// Relies on `Style`'s derived `Clone`: the copy depends on the style alone.
#[verifier::external_body]
pub(crate) fn clone_style(s: &Style) -> (r: Style)
    ensures
        r == style_copy(*s),
{
    s.clone()
}

} // verus!
