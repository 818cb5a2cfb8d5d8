//! The scene tree as the contracts see it: a map from the live handles of the node
//! pool to the nodes' views, and the changes that linking and unlinking make to it.

use vstd::prelude::*;
use crate::scene::node::{Node, NodeKind, NodeView};
use crate::physics::RigidBody;
use crate::scene::visibility::lemma_siblings_disjoint;
use crate::utils::pool::{
    Handle, Pool, PoolRecord, slot_live, slot_get, slot_issued, generations_grow, lemma_issued_grow,
};

verus! {

/// The live nodes of a pool, by handle.
pub open spec fn graph_of(v: Seq<PoolRecord<Node>>) -> Map<Handle, NodeView> {
    Map::new(|h: Handle| slot_live(v, h), |h: Handle| slot_get(v, h)@)
}

/// The slots of two pools have the same generations and the same occupancy, so the
/// same handles are live and the same handles can never become live.
pub open spec fn same_slots<T, U>(a: Seq<PoolRecord<T>>, b: Seq<PoolRecord<U>>) -> bool {
    &&& a.len() == b.len()
    &&& forall|i: int|
        0 <= i < a.len() ==> (#[trigger] a[i]).generation == b[i].generation && (a[i].payload is Some
            <==> b[i].payload is Some)
}

/// The slots of two pools have the same generations; the second may hold fewer objects.
pub open spec fn same_generations<T, U>(a: Seq<PoolRecord<T>>, b: Seq<PoolRecord<U>>) -> bool {
    &&& a.len() == b.len()
    &&& forall|i: int| 0 <= i < a.len() ==> (#[trigger] a[i]).generation == b[i].generation
}

/// Emptying a live slot removes only that handle's entry.
pub proof fn lemma_graph_clear(v: Seq<PoolRecord<Node>>, h: Handle)
    requires
        slot_live(v, h),
    ensures
        graph_of(v.update(h.index as int, PoolRecord { generation: h.generation, payload: None }))
            == graph_of(v).remove(h),
        same_generations(v, v.update(h.index as int, PoolRecord { generation: h.generation, payload: None })),
{
    let w = v.update(h.index as int, PoolRecord { generation: h.generation, payload: None });
    assert(graph_of(w) =~= graph_of(v).remove(h));
}

/// The first position of `h` in `s`.
pub open spec fn first_index(s: Seq<Handle>, h: Handle) -> Option<int>
    decreases s.len(),
{
    if s.len() == 0 {
        None
    } else if s[0] == h {
        Some(0)
    } else {
        match first_index(s.drop_first(), h) {
            Some(i) => Some(i + 1),
            None => None,
        }
    }
}

/// `g` with `h` detached from its parent: `h`'s parent becomes none, and the first
/// occurrence of `h` among the parent's children is removed.
pub open spec fn unlink_graph(g: Map<Handle, NodeView>, h: Handle) -> Map<Handle, NodeView> {
    if g.contains_key(h) {
        let p = g[h].parent;
        let g1 = g.insert(h, NodeView { parent: Handle::spec_none(), ..g[h] });
        if g1.contains_key(p) {
            match first_index(g1[p].children, h) {
                Some(i) => g1.insert(p, NodeView { children: g1[p].children.remove(i), ..g1[p] }),
                None => g1,
            }
        } else {
            g1
        }
    } else {
        g
    }
}

/// Detaching a live node `h` clears its parent, keeps its children, removes one entry from
/// the children of a live parent that lists it, and changes no other node.
pub proof fn lemma_unlink_fields(g: Map<Handle, NodeView>, h: Handle)
    requires
        g.contains_key(h),
    ensures
        ({
            let g2 = unlink_graph(g, h);
            let op = g[h].parent;
            &&& g2[h].parent == Handle::spec_none()
            &&& op != h ==> g2[h].children == g[h].children
            &&& g.contains_key(op) && op != h && g[op].children.contains(h) ==> g2[op].children.len() + 1
                == g[op].children.len()
            &&& forall|x: Handle| #[trigger] g.contains_key(x) && x != op && x != h ==> g2[x] == g[x]
            &&& g2.dom() == g.dom()
        }),
{
    let op = g[h].parent;
    let g1 = g.insert(h, NodeView { parent: Handle::spec_none(), ..g[h] });
    if g1.contains_key(op) {
        lemma_first_index(g1[op].children, h);
        if op != h && g[op].children.contains(h) {
            let k = choose|k: int| 0 <= k < g[op].children.len() && g[op].children[k] == h;
            assert(g1[op].children[k] == h);
        }
    }
    assert(unlink_graph(g, h).dom() =~= g.dom());
}

/// `g` with `child` detached from its parent and then attached to `parent`: the
/// child's parent becomes `parent`, and, where `parent` is live, `child` is appended
/// to its children. Nothing changes when `child` is not live.
pub open spec fn link_graph(g: Map<Handle, NodeView>, child: Handle, parent: Handle) -> Map<
    Handle,
    NodeView,
> {
    let g1 = unlink_graph(g, child);
    if g1.contains_key(child) {
        let g2 = g1.insert(child, NodeView { parent, ..g1[child] });
        if g2.contains_key(parent) {
            g2.insert(parent, NodeView { children: g2[parent].children.push(child), ..g2[parent] })
        } else {
            g2
        }
    } else {
        g1
    }
}

/// Replacing the object in a live slot changes only that handle's entry.
pub proof fn lemma_graph_update(v: Seq<PoolRecord<Node>>, h: Handle, n: Node)
    requires
        slot_live(v, h),
    ensures
        graph_of(v.update(h.index as int, PoolRecord { generation: h.generation, payload: Some(n) }))
            == graph_of(v).insert(h, n@),
        same_slots(v, v.update(h.index as int, PoolRecord { generation: h.generation, payload: Some(n) })),
{
    let w = v.update(h.index as int, PoolRecord { generation: h.generation, payload: Some(n) });
    assert(graph_of(w) =~= graph_of(v).insert(h, n@));
}

/// Replacing the object in a live slot changes only that handle's entry, whatever the
/// new object is.
pub proof fn lemma_graph_update_any(v: Seq<PoolRecord<Node>>, h: Handle)
    requires
        slot_live(v, h),
    ensures
        forall|n: Node|
            #[trigger] graph_of(v.update(h.index as int, PoolRecord { generation: h.generation, payload: Some(n) }))
                == graph_of(v).insert(h, n@),
{
    assert forall|n: Node|
        #[trigger] graph_of(v.update(h.index as int, PoolRecord { generation: h.generation, payload: Some(n) }))
            == graph_of(v).insert(h, n@) by {
        lemma_graph_update(v, h, n);
    }
}

/// Pools with the same slots have the same live handles.
pub proof fn lemma_same_slots_live<T, U>(a: Seq<PoolRecord<T>>, b: Seq<PoolRecord<U>>)
    requires
        same_slots(a, b),
    ensures
        forall|h: Handle| #[trigger] slot_live(a, h) == slot_live(b, h),
{
    assert forall|h: Handle| #[trigger] slot_live(a, h) == slot_live(b, h) by {
        if h.index < a.len() {
            assert(a[h.index as int].generation == b[h.index as int].generation);
        }
    }
}

/// `first_index` finds the first occurrence.
pub proof fn lemma_first_index(s: Seq<Handle>, h: Handle)
    ensures
        match first_index(s, h) {
            Some(i) => 0 <= i < s.len() && s[i] == h && forall|j: int| 0 <= j < i ==> s[j] != h,
            None => forall|j: int| 0 <= j < s.len() ==> s[j] != h,
        },
    decreases s.len(),
{
    if s.len() > 0 && s[0] != h {
        lemma_first_index(s.drop_first(), h);
        match first_index(s.drop_first(), h) {
            Some(i) => {
                assert(s[i + 1] == s.drop_first()[i]);
                assert forall|j: int| 0 <= j < i + 1 implies s[j] != h by {
                    if j > 0 {
                        assert(s[j] == s.drop_first()[j - 1]);
                    }
                }
            },
            None => {
                assert forall|j: int| 0 <= j < s.len() implies s[j] != h by {
                    if j > 0 {
                        assert(s[j] == s.drop_first()[j - 1]);
                    }
                }
            },
        }
    }
}

/// Linking and unlinking keep the set of nodes and change only parents and children.
pub proof fn lemma_link_keeps_nodes(g: Map<Handle, NodeView>, child: Handle, parent: Handle)
    ensures
        unlink_graph(g, child).dom() == g.dom(),
        link_graph(g, child, parent).dom() == g.dom(),
        forall|h: Handle|
            #[trigger] g.contains_key(h) ==> same_payload(unlink_graph(g, child)[h], g[h])
                && same_payload(link_graph(g, child, parent)[h], g[h]),
{
    let g1 = unlink_graph(g, child);
    assert(g1.dom() =~= g.dom());
    assert(link_graph(g, child, parent).dom() =~= g.dom());
}

/// Two node views agree on everything but their links.
pub open spec fn same_payload(a: NodeView, b: NodeView) -> bool {
    &&& a.name == b.name
    &&& a.kind == b.kind
    &&& a.visibility == b.visibility
    &&& a.global_visibility == b.global_visibility
    &&& a.body == b.body
}

/// `rank` falls from every live node to each handle among its children, so following
/// children always ends.
pub open spec fn ranked_by(g: Map<Handle, NodeView>, rank: spec_fn(Handle) -> nat) -> bool {
    forall|p: Handle, i: int|
        g.contains_key(p) && 0 <= i < g[p].children.len() ==> rank(#[trigger] g[p].children[i]) < rank(p)
}

/// No live node is its own descendant.
pub open spec fn acyclic(g: Map<Handle, NodeView>) -> bool {
    exists|rank: spec_fn(Handle) -> nat| ranked_by(g, rank)
}

/// A ranking of an acyclic graph.
pub open spec fn rank_of(g: Map<Handle, NodeView>) -> spec_fn(Handle) -> nat {
    choose|rank: spec_fn(Handle) -> nat| ranked_by(g, rank)
}

/// The number of children of `h`, or 0 where `h` is not live.
pub open spec fn child_count(g: Map<Handle, NodeView>, h: Handle) -> int {
    if g.contains_key(h) {
        g[h].children.len() as int
    } else {
        0
    }
}

/// The first node, in depth-first pre-order from `h` with children in order, whose
/// name is `name`; none if there is no such node.
pub open spec fn find_in(g: Map<Handle, NodeView>, rank: spec_fn(Handle) -> nat, h: Handle, name: Seq<char>) -> Handle
    decreases rank(h), child_count(g, h) + 1,
{
    if !g.contains_key(h) {
        Handle::spec_none()
    } else if g[h].name == name {
        h
    } else {
        find_in_children(g, rank, h, name, 0)
    }
}

/// The first match of `find_in` among the children of `h` from position `i` on.
pub open spec fn find_in_children(
    g: Map<Handle, NodeView>,
    rank: spec_fn(Handle) -> nat,
    h: Handle,
    name: Seq<char>,
    i: int,
) -> Handle
    decreases rank(h), child_count(g, h) - i,
{
    if !ranked_by(g, rank) || !g.contains_key(h) || i < 0 || i >= g[h].children.len() {
        Handle::spec_none()
    } else {
        let r = find_in(g, rank, g[h].children[i], name);
        if !r.spec_is_none() {
            r
        } else {
            find_in_children(g, rank, h, name, i + 1)
        }
    }
}

/// The nodes reachable from `h` through children, `h` included where it is live.
pub open spec fn subtree(g: Map<Handle, NodeView>, rank: spec_fn(Handle) -> nat, h: Handle) -> Set<Handle>
    decreases rank(h), child_count(g, h) + 1,
{
    if !g.contains_key(h) {
        Set::empty()
    } else {
        set![h] + subtree_prefix(g, rank, h, child_count(g, h))
    }
}

/// The nodes reachable from the first `k` children of `h`.
pub open spec fn subtree_prefix(g: Map<Handle, NodeView>, rank: spec_fn(Handle) -> nat, h: Handle, k: int) -> Set<
    Handle,
>
    decreases rank(h), k,
{
    if !ranked_by(g, rank) || !g.contains_key(h) || k <= 0 || k > g[h].children.len() {
        Set::empty()
    } else {
        subtree_prefix(g, rank, h, k - 1) + subtree(g, rank, g[h].children[k - 1])
    }
}

/// Every live child of a node in `s` is in `s`.
pub open spec fn closed_under_children(g: Map<Handle, NodeView>, s: Set<Handle>) -> bool {
    forall|p: Handle, i: int|
        s.contains(p) && g.contains_key(p) && 0 <= i < g[p].children.len() && g.contains_key(
            #[trigger] g[p].children[i],
        ) ==> s.contains(g[p].children[i])
}

/// The bodies of the nodes of `s`.
pub open spec fn bodies_of(g: Map<Handle, NodeView>, s: Set<Handle>) -> Set<Handle> {
    Set::new(|b: Handle| exists|d: Handle| #[trigger] s.contains(d) && g.contains_key(d) && g[d].body == b)
}

/// A subtree holds live nodes of rank at most its root's, and holds every live child
/// of its nodes.
pub proof fn lemma_subtree_shape(g: Map<Handle, NodeView>, rank: spec_fn(Handle) -> nat, h: Handle)
    requires
        ranked_by(g, rank),
    ensures
        forall|d: Handle| #[trigger] subtree(g, rank, h).contains(d) ==> g.contains_key(d) && rank(d) <= rank(h),
        closed_under_children(g, subtree(g, rank, h)),
    decreases rank(h), child_count(g, h) + 1,
{
    if g.contains_key(h) {
        lemma_subtree_prefix_shape(g, rank, h, child_count(g, h));
        let s = subtree(g, rank, h);
        let pre = subtree_prefix(g, rank, h, child_count(g, h));
        assert forall|p: Handle, i: int|
            s.contains(p) && g.contains_key(p) && 0 <= i < g[p].children.len() && g.contains_key(
                #[trigger] g[p].children[i],
            ) implies s.contains(g[p].children[i]) by {
            if p == h {
                lemma_subtree_prefix_holds_child(g, rank, h, child_count(g, h), i);
            } else {
                assert(pre.contains(p));
            }
        }
    }
}

/// The subtrees of the first `k` children of `h` hold live nodes of rank below `h`'s,
/// and every live child of their nodes.
pub proof fn lemma_subtree_prefix_shape(g: Map<Handle, NodeView>, rank: spec_fn(Handle) -> nat, h: Handle, k: int)
    requires
        ranked_by(g, rank),
    ensures
        forall|d: Handle|
            #[trigger] subtree_prefix(g, rank, h, k).contains(d) ==> g.contains_key(d) && rank(d) < rank(h),
        closed_under_children(g, subtree_prefix(g, rank, h, k)),
    decreases rank(h), k,
{
    if g.contains_key(h) && 0 < k <= g[h].children.len() {
        let c = g[h].children[k - 1];
        assert(rank(c) < rank(h));
        lemma_subtree_prefix_shape(g, rank, h, k - 1);
        lemma_subtree_shape(g, rank, c);
        let a = subtree_prefix(g, rank, h, k - 1);
        let b = subtree(g, rank, c);
        assert(subtree_prefix(g, rank, h, k) == a + b);
        assert forall|p: Handle, i: int|
            (a + b).contains(p) && g.contains_key(p) && 0 <= i < g[p].children.len() && g.contains_key(
                #[trigger] g[p].children[i],
            ) implies (a + b).contains(g[p].children[i]) by {
            if a.contains(p) {
                assert(a.contains(g[p].children[i]));
            } else {
                assert(b.contains(g[p].children[i]));
            }
        }
    }
}

/// Each live child among the first `k` children of `h` lies in their subtrees.
pub proof fn lemma_subtree_prefix_holds_child(
    g: Map<Handle, NodeView>,
    rank: spec_fn(Handle) -> nat,
    h: Handle,
    k: int,
    i: int,
)
    requires
        ranked_by(g, rank),
        g.contains_key(h),
        0 <= i < k <= g[h].children.len(),
        g.contains_key(g[h].children[i]),
    ensures
        subtree_prefix(g, rank, h, k).contains(g[h].children[i]),
    decreases k,
{
    if i < k - 1 {
        lemma_subtree_prefix_holds_child(g, rank, h, k - 1, i);
    } else {
        let c = g[h].children[i];
        assert(subtree(g, rank, c).contains(c));
    }
}

/// Removing nodes keeps a ranking.
pub proof fn lemma_ranked_remove(g: Map<Handle, NodeView>, rank: spec_fn(Handle) -> nat, s: Set<Handle>)
    requires
        ranked_by(g, rank),
    ensures
        ranked_by(g.remove_keys(s), rank),
{
    let g2 = g.remove_keys(s);
    assert forall|p: Handle, i: int|
        g2.contains_key(p) && 0 <= i < g2[p].children.len() implies rank(#[trigger] g2[p].children[i]) < rank(p) by {
        assert(g2[p] == g[p]);
        assert(rank(g[p].children[i]) < rank(p));
    }
}

/// A set closed under children that holds `h` holds `h`'s subtree.
pub proof fn lemma_subtree_within(g: Map<Handle, NodeView>, rank: spec_fn(Handle) -> nat, s: Set<Handle>, h: Handle)
    requires
        ranked_by(g, rank),
        closed_under_children(g, s),
        g.contains_key(h) ==> s.contains(h),
    ensures
        subtree(g, rank, h).subset_of(s),
    decreases rank(h), child_count(g, h) + 1,
{
    if g.contains_key(h) {
        lemma_subtree_prefix_within(g, rank, s, h, child_count(g, h));
    }
}

pub proof fn lemma_subtree_prefix_within(
    g: Map<Handle, NodeView>,
    rank: spec_fn(Handle) -> nat,
    s: Set<Handle>,
    h: Handle,
    k: int,
)
    requires
        ranked_by(g, rank),
        closed_under_children(g, s),
        g.contains_key(h) ==> s.contains(h),
    ensures
        subtree_prefix(g, rank, h, k).subset_of(s),
    decreases rank(h), k,
{
    if g.contains_key(h) && 0 < k <= g[h].children.len() {
        let c = g[h].children[k - 1];
        assert(rank(c) < rank(h));
        lemma_subtree_prefix_within(g, rank, s, h, k - 1);
        lemma_subtree_within(g, rank, s, c);
    }
}

/// Removing a set closed under children removes exactly that set from each subtree.
pub proof fn lemma_subtree_remove(g: Map<Handle, NodeView>, rank: spec_fn(Handle) -> nat, s: Set<Handle>, h: Handle)
    requires
        ranked_by(g, rank),
        closed_under_children(g, s),
    ensures
        subtree(g.remove_keys(s), rank, h) == subtree(g, rank, h).difference(s),
    decreases rank(h), child_count(g, h) + 1,
{
    let g2 = g.remove_keys(s);
    lemma_ranked_remove(g, rank, s);
    if !g.contains_key(h) {
        assert(subtree(g, rank, h) =~= Set::empty());
        assert(subtree(g2, rank, h) =~= subtree(g, rank, h).difference(s));
    } else if s.contains(h) {
        lemma_subtree_within(g, rank, s, h);
        assert(subtree(g2, rank, h) =~= subtree(g, rank, h).difference(s));
    } else {
        assert(g2[h] == g[h]);
        lemma_subtree_prefix_remove(g, rank, s, h, child_count(g, h));
        assert(subtree(g2, rank, h) =~= subtree(g, rank, h).difference(s));
    }
}

pub proof fn lemma_subtree_prefix_remove(
    g: Map<Handle, NodeView>,
    rank: spec_fn(Handle) -> nat,
    s: Set<Handle>,
    h: Handle,
    k: int,
)
    requires
        ranked_by(g, rank),
        closed_under_children(g, s),
        g.contains_key(h),
        !s.contains(h),
    ensures
        subtree_prefix(g.remove_keys(s), rank, h, k) == subtree_prefix(g, rank, h, k).difference(s),
    decreases rank(h), k,
{
    let g2 = g.remove_keys(s);
    lemma_ranked_remove(g, rank, s);
    assert(g2[h] == g[h]);
    if 0 < k <= g[h].children.len() {
        let c = g[h].children[k - 1];
        assert(rank(c) < rank(h));
        lemma_subtree_prefix_remove(g, rank, s, h, k - 1);
        lemma_subtree_remove(g, rank, s, c);
        assert(subtree_prefix(g2, rank, h, k) =~= subtree_prefix(g, rank, h, k).difference(s));
    } else {
        assert(subtree_prefix(g2, rank, h, k) =~= subtree_prefix(g, rank, h, k).difference(s));
    }
}

/// The bodies of a union, one part of it looked up in a graph from which the other
/// part was removed.
pub proof fn lemma_bodies_step(
    g0: Map<Handle, NodeView>,
    a: Set<Handle>,
    sub: Set<Handle>,
    removed: Set<Handle>,
)
    requires
        removed.subset_of(a),
    ensures
        forall|b: Handle|
            #[trigger] bodies_of(g0, a + sub).contains(b) == (bodies_of(g0, a).contains(b) || bodies_of(
                g0.remove_keys(removed),
                sub.difference(removed),
            ).contains(b)),
{
    let g1 = g0.remove_keys(removed);
    let sub1 = sub.difference(removed);
    assert forall|b: Handle|
        #[trigger] bodies_of(g0, a + sub).contains(b) == (bodies_of(g0, a).contains(b) || bodies_of(
            g1,
            sub1,
        ).contains(b)) by {
        if bodies_of(g0, a + sub).contains(b) {
            let d = choose|d: Handle| #[trigger] (a + sub).contains(d) && g0.contains_key(d) && g0[d].body == b;
            if a.contains(d) {
                assert(a.contains(d) && g0.contains_key(d) && g0[d].body == b);
            } else {
                assert(sub1.contains(d) && g1.contains_key(d) && g1[d].body == b);
            }
        }
        if bodies_of(g0, a).contains(b) {
            let d = choose|d: Handle| #[trigger] a.contains(d) && g0.contains_key(d) && g0[d].body == b;
            assert((a + sub).contains(d) && g0.contains_key(d) && g0[d].body == b);
        }
        if bodies_of(g1, sub1).contains(b) {
            let d = choose|d: Handle| #[trigger] sub1.contains(d) && g1.contains_key(d) && g1[d].body == b;
            assert((a + sub).contains(d) && g0.contains_key(d) && g0[d].body == b);
        }
    }
}

/// The order in which a depth-first traversal with a stack visits handles from `h`:
/// `h` itself, then the children's traversals from the last child to the first.
pub open spec fn visits(g: Map<Handle, NodeView>, rank: spec_fn(Handle) -> nat, h: Handle) -> Seq<Handle>
    decreases rank(h), child_count(g, h) + 1,
{
    if !g.contains_key(h) {
        seq![h]
    } else {
        seq![h] + visits_children(g, rank, h, child_count(g, h))
    }
}

/// The traversals of children `k - 1` down to 0 of `h`.
pub open spec fn visits_children(g: Map<Handle, NodeView>, rank: spec_fn(Handle) -> nat, h: Handle, k: int) -> Seq<
    Handle,
>
    decreases rank(h), k,
{
    if !ranked_by(g, rank) || !g.contains_key(h) || k <= 0 || k > g[h].children.len() {
        seq![]
    } else {
        visits(g, rank, g[h].children[k - 1]) + visits_children(g, rank, h, k - 1)
    }
}

/// The traversals still due for a stack of handles, its top (last) entry first.
pub open spec fn stack_visits(g: Map<Handle, NodeView>, rank: spec_fn(Handle) -> nat, st: Seq<Handle>) -> Seq<Handle>
    decreases st.len(),
{
    if st.len() == 0 {
        seq![]
    } else {
        visits(g, rank, st.last()) + stack_visits(g, rank, st.drop_last())
    }
}

/// One visit of the transform update: a live node's global visibility becomes its own
/// visibility and, where its parent is live, the parent's global visibility.
pub open spec fn apply_visit(g: Map<Handle, NodeView>, h: Handle) -> Map<Handle, NodeView> {
    if g.contains_key(h) {
        let p = g[h].parent;
        let pv = if g.contains_key(p) {
            g[p].global_visibility
        } else {
            true
        };
        g.insert(h, NodeView { global_visibility: pv && g[h].visibility, ..g[h] })
    } else {
        g
    }
}

/// The visits in order.
pub open spec fn fold_visits(g: Map<Handle, NodeView>, s: Seq<Handle>) -> Map<Handle, NodeView>
    decreases s.len(),
{
    if s.len() == 0 {
        g
    } else {
        fold_visits(apply_visit(g, s[0]), s.drop_first())
    }
}

/// Two graphs have the same nodes, links, names, kinds, visibility and bodies; only
/// global visibility may differ.
pub open spec fn same_links(a: Map<Handle, NodeView>, b: Map<Handle, NodeView>) -> bool {
    &&& a.dom() == b.dom()
    &&& forall|h: Handle|
        #[trigger] a.contains_key(h) ==> {
            &&& a[h].parent == b[h].parent
            &&& a[h].children == b[h].children
            &&& a[h].visibility == b[h].visibility
            &&& a[h].name == b[h].name
            &&& a[h].kind == b[h].kind
            &&& a[h].body == b[h].body
        }
}

/// Pushing the first `k` children of `h` onto a stack puts their traversals, last
/// child first, ahead of the stack's own.
pub proof fn lemma_stack_push_children(
    g: Map<Handle, NodeView>,
    rank: spec_fn(Handle) -> nat,
    h: Handle,
    st: Seq<Handle>,
    k: int,
)
    requires
        ranked_by(g, rank),
        g.contains_key(h),
        0 <= k <= g[h].children.len(),
    ensures
        stack_visits(g, rank, st + g[h].children.take(k)) == visits_children(g, rank, h, k) + stack_visits(g, rank, st),
    decreases k,
{
    let cs = g[h].children;
    if k == 0 {
        assert(st + cs.take(0) =~= st);
        assert(visits_children(g, rank, h, 0) + stack_visits(g, rank, st) =~= stack_visits(g, rank, st));
    } else {
        lemma_stack_push_children(g, rank, h, st, k - 1);
        let s2 = st + cs.take(k);
        assert(s2.last() == cs[k - 1]);
        assert(s2.drop_last() =~= st + cs.take(k - 1));
        assert(stack_visits(g, rank, s2) =~= visits_children(g, rank, h, k) + stack_visits(g, rank, st));
    }
}

/// Folding a sequence that starts with `h` visits `h` first.
pub proof fn lemma_fold_first(g: Map<Handle, NodeView>, h: Handle, rest: Seq<Handle>)
    ensures
        fold_visits(g, seq![h] + rest) == fold_visits(apply_visit(g, h), rest),
{
    assert((seq![h] + rest).drop_first() =~= rest);
}

/// A visit changes only global visibility.
pub proof fn lemma_apply_visit_same_links(g: Map<Handle, NodeView>, g0: Map<Handle, NodeView>, h: Handle)
    requires
        same_links(g, g0),
    ensures
        same_links(apply_visit(g, h), g0),
{
    assert(apply_visit(g, h).dom() =~= g.dom());
}

/// The number of live handles among the first `k` children of `h`.
pub open spec fn live_count(g: Map<Handle, NodeView>, h: Handle, k: int) -> nat
    decreases k,
{
    if k <= 0 || !g.contains_key(h) || k > g[h].children.len() {
        0
    } else {
        live_count(g, h, k - 1) + if g.contains_key(g[h].children[k - 1]) {
            1nat
        } else {
            0nat
        }
    }
}

/// The body `db` of a copy stands for the body `sb` of the copied node: a body with the
/// same value where `sb` is a live body, none otherwise.
pub open spec fn body_copied(sp: Pool<RigidBody>, dp: Pool<RigidBody>, sb: Handle, db: Handle) -> bool {
    if sp.live(sb) {
        dp.live(db) && dp.get(db) == sp.get(sb)
    } else {
        db == Handle::spec_none()
    }
}

/// Node `c` of `dst`, with the nodes of `f`, is a copy of the tree below node `h` of
/// `src`: `c` has `h`'s name, kind and visibility and a copy of its body, and its
/// children are, in order, copies (with `c` as parent) of `h`'s live children, each
/// built from nodes of `f` other than `c`.
pub open spec fn copied(
    src: Map<Handle, NodeView>,
    sp: Pool<RigidBody>,
    dst: Map<Handle, NodeView>,
    dp: Pool<RigidBody>,
    rank: spec_fn(Handle) -> nat,
    h: Handle,
    c: Handle,
    f: Set<Handle>,
) -> bool
    decreases rank(h),
{
    &&& ranked_by(src, rank)
    &&& src.contains_key(h)
    &&& dst.contains_key(c)
    &&& f.contains(c)
    &&& dst[c].name == src[h].name
    &&& dst[c].kind == src[h].kind
    &&& dst[c].visibility == src[h].visibility
    &&& dst[c].global_visibility == src[h].global_visibility
    &&& body_copied(sp, dp, src[h].body, dst[c].body)
    &&& dst[c].children.len() == live_count(src, h, src[h].children.len() as int)
    &&& forall|i: int|
        0 <= i < src[h].children.len() && src.contains_key(#[trigger] src[h].children[i]) ==> {
            let x = dst[c].children[live_count(src, h, i) as int];
            &&& x != c
            &&& f.contains(x)
            &&& dst.contains_key(x)
            &&& dst[x].parent == c
            &&& copied(src, sp, dst, dp, rank, src[h].children[i], x, f.remove(c))
        }
}

/// `b` is `a` with possibly another parent.
pub open spec fn same_but_parent(a: NodeView, b: NodeView) -> bool {
    b == NodeView { parent: b.parent, ..a }
}

/// The live bodies of `dp` stay live, with the same value, in `dp2`.
pub open spec fn bodies_kept(dp: Pool<RigidBody>, dp2: Pool<RigidBody>) -> bool {
    forall|b: Handle| #[trigger] dp.live(b) ==> dp2.live(b) && dp2.get(b) == dp.get(b)
}

/// A copy stays a copy while its own nodes stay as they are, its top node's parent
/// aside, and while bodies are only added.
pub proof fn lemma_copied_frame(
    src: Map<Handle, NodeView>,
    sp: Pool<RigidBody>,
    dst: Map<Handle, NodeView>,
    dp: Pool<RigidBody>,
    dst2: Map<Handle, NodeView>,
    dp2: Pool<RigidBody>,
    rank: spec_fn(Handle) -> nat,
    h: Handle,
    c: Handle,
    f: Set<Handle>,
)
    requires
        copied(src, sp, dst, dp, rank, h, c, f),
        forall|x: Handle| #[trigger] f.contains(x) && x != c ==> dst2.contains_key(x) && dst2[x] == dst[x],
        dst2.contains_key(c),
        same_but_parent(dst[c], dst2[c]),
        bodies_kept(dp, dp2),
    ensures
        copied(src, sp, dst2, dp2, rank, h, c, f),
    decreases rank(h),
{
    assert forall|i: int|
        0 <= i < src[h].children.len() && src.contains_key(#[trigger] src[h].children[i]) implies {
            let x = dst2[c].children[live_count(src, h, i) as int];
            &&& x != c
            &&& f.contains(x)
            &&& dst2.contains_key(x)
            &&& dst2[x].parent == c
            &&& copied(src, sp, dst2, dp2, rank, src[h].children[i], x, f.remove(c))
        } by {
        let x = dst[c].children[live_count(src, h, i) as int];
        assert(dst2[c].children == dst[c].children);
        assert(rank(src[h].children[i]) < rank(h));
        lemma_copied_frame(src, sp, dst, dp, dst2, dp2, rank, src[h].children[i], x, f.remove(c));
    }
}

/// A copy built from the nodes of `f` is built from the nodes of any larger set.
pub proof fn lemma_copied_grow(
    src: Map<Handle, NodeView>,
    sp: Pool<RigidBody>,
    dst: Map<Handle, NodeView>,
    dp: Pool<RigidBody>,
    rank: spec_fn(Handle) -> nat,
    h: Handle,
    c: Handle,
    f: Set<Handle>,
    f2: Set<Handle>,
)
    requires
        copied(src, sp, dst, dp, rank, h, c, f),
        f.subset_of(f2),
    ensures
        copied(src, sp, dst, dp, rank, h, c, f2),
    decreases rank(h),
{
    assert forall|i: int|
        0 <= i < src[h].children.len() && src.contains_key(#[trigger] src[h].children[i]) implies {
            let x = dst[c].children[live_count(src, h, i) as int];
            &&& x != c
            &&& f2.contains(x)
            &&& dst.contains_key(x)
            &&& dst[x].parent == c
            &&& copied(src, sp, dst, dp, rank, src[h].children[i], x, f2.remove(c))
        } by {
        let x = dst[c].children[live_count(src, h, i) as int];
        assert(rank(src[h].children[i]) < rank(h));
        lemma_copied_grow(src, sp, dst, dp, rank, src[h].children[i], x, f.remove(c), f2.remove(c));
    }
}

/// The number of nodes a copy of the tree below `h` has: one per way of reaching a
/// node from `h`.
pub open spec fn copy_count(g: Map<Handle, NodeView>, rank: spec_fn(Handle) -> nat, h: Handle) -> nat
    decreases rank(h), child_count(g, h) + 1,
{
    if !g.contains_key(h) {
        0
    } else {
        1 + copy_count_prefix(g, rank, h, child_count(g, h))
    }
}

/// The number of nodes of the copies of the first `k` children of `h`.
pub open spec fn copy_count_prefix(g: Map<Handle, NodeView>, rank: spec_fn(Handle) -> nat, h: Handle, k: int) -> nat
    decreases rank(h), k,
{
    if !ranked_by(g, rank) || !g.contains_key(h) || k <= 0 || k > g[h].children.len() {
        0
    } else {
        copy_count_prefix(g, rank, h, k - 1) + copy_count(g, rank, g[h].children[k - 1])
    }
}

/// The copies of more children have more nodes.
pub proof fn lemma_copy_count_prefix_mono(g: Map<Handle, NodeView>, rank: spec_fn(Handle) -> nat, h: Handle, k: int, n: int)
    requires
        ranked_by(g, rank),
        g.contains_key(h),
        0 <= k <= n <= g[h].children.len(),
    ensures
        copy_count_prefix(g, rank, h, k) <= copy_count_prefix(g, rank, h, n),
    decreases n - k,
{
    if k < n {
        lemma_copy_count_prefix_mono(g, rank, h, k, n - 1);
    }
}

/// Node `x` of `dst` has the name, kind and visibility of node `d` of `src`, and a copy
/// of its body.
pub open spec fn copied_node(
    src: Map<Handle, NodeView>,
    sp: Pool<RigidBody>,
    dst: Map<Handle, NodeView>,
    dp: Pool<RigidBody>,
    d: Handle,
    x: Handle,
) -> bool {
    &&& src.contains_key(d)
    &&& dst.contains_key(x)
    &&& dst[x].name == src[d].name
    &&& dst[x].kind == src[d].kind
    &&& dst[x].visibility == src[d].visibility
    &&& dst[x].global_visibility == src[d].global_visibility
    &&& body_copied(sp, dp, src[d].body, dst[x].body)
}

/// Linking a fresh, unlinked node under `root`.
pub proof fn lemma_link_new(g: Map<Handle, NodeView>, c: Handle, nv: NodeView, root: Handle)
    requires
        !g.contains_key(c),
        !g.contains_key(Handle::spec_none()),
        c != Handle::spec_none(),
        nv.parent == Handle::spec_none(),
        root != c,
    ensures
        ({
            let g2 = link_graph(g.insert(c, nv), c, root);
            &&& g2.dom() == g.dom().insert(c)
            &&& g2[c] == NodeView { parent: root, ..nv }
            &&& forall|x: Handle| #[trigger] g.contains_key(x) && x != root ==> g2[x] == g[x]
            &&& g.contains_key(root) ==> g2[root] == NodeView { children: g[root].children.push(c), ..g[root] }
        }),
{
    let g1 = g.insert(c, nv);
    assert(NodeView { parent: Handle::spec_none(), ..g1[c] } == nv);
    assert(g1.insert(c, nv) =~= g1);
    assert(unlink_graph(g1, c) == g1);
    let g2 = link_graph(g1, c, root);
    assert(g2.dom() =~= g.dom().insert(c));
}

/// Moving a node `child`, attached to `rp`, under another node `parent`.
pub proof fn lemma_link_move(g: Map<Handle, NodeView>, child: Handle, parent: Handle, rp: Handle)
    requires
        g.contains_key(child),
        g.contains_key(parent),
        child != parent,
        g[child].parent == rp,
        rp != child,
        rp != parent,
    ensures
        ({
            let g2 = link_graph(g, child, parent);
            &&& g2.dom() == g.dom()
            &&& g2[child] == NodeView { parent, ..g[child] }
            &&& g2[parent] == NodeView { children: g[parent].children.push(child), ..g[parent] }
            &&& forall|x: Handle|
                #[trigger] g.contains_key(x) && x != rp && x != child && x != parent ==> g2[x] == g[x]
            &&& g.contains_key(rp) ==> g2[rp] == NodeView { children: g2[rp].children, ..g[rp] }
        }),
{
    let g1 = unlink_graph(g, child);
    lemma_link_keeps_nodes(g, child, parent);
    let g2 = link_graph(g, child, parent);
    assert(g2.dom() =~= g.dom());
}

/// The nodes reachable from the first `k` children of `h` are those of the children's
/// subtrees.
pub proof fn lemma_subtree_prefix_member(g: Map<Handle, NodeView>, rank: spec_fn(Handle) -> nat, h: Handle, k: int)
    requires
        ranked_by(g, rank),
        g.contains_key(h),
        0 <= k <= g[h].children.len(),
    ensures
        forall|d: Handle|
            #[trigger] subtree_prefix(g, rank, h, k).contains(d) <==> exists|j: int|
                0 <= j < k && #[trigger] subtree(g, rank, g[h].children[j]).contains(d),
    decreases k,
{
    if k > 0 {
        lemma_subtree_prefix_member(g, rank, h, k - 1);
        assert forall|d: Handle|
            #[trigger] subtree_prefix(g, rank, h, k).contains(d) <==> exists|j: int|
                0 <= j < k && #[trigger] subtree(g, rank, g[h].children[j]).contains(d) by {
            assert(subtree_prefix(g, rank, h, k) == subtree_prefix(g, rank, h, k - 1) + subtree(
                g,
                rank,
                g[h].children[k - 1],
            ));
            if subtree(g, rank, g[h].children[k - 1]).contains(d) {
                assert(0 <= k - 1 < k && subtree(g, rank, g[h].children[k - 1]).contains(d));
            }
            if subtree_prefix(g, rank, h, k - 1).contains(d) {
                let j = choose|j: int| 0 <= j < k - 1 && #[trigger] subtree(g, rank, g[h].children[j]).contains(d);
                assert(0 <= j < k && subtree(g, rank, g[h].children[j]).contains(d));
            }
            if exists|j: int| 0 <= j < k && #[trigger] subtree(g, rank, g[h].children[j]).contains(d) {
                let j = choose|j: int| 0 <= j < k && #[trigger] subtree(g, rank, g[h].children[j]).contains(d);
                if j < k - 1 {
                    assert(subtree_prefix(g, rank, h, k - 1).contains(d));
                }
            }
        }
    }
}

/// What `find_in` returns: none exactly when no node reachable from `h` has the name,
/// else a reachable node with that name.
pub proof fn lemma_find_in(g: Map<Handle, NodeView>, rank: spec_fn(Handle) -> nat, h: Handle, name: Seq<char>)
    requires
        ranked_by(g, rank),
        !g.contains_key(Handle::spec_none()),
    ensures
        ({
            let r = find_in(g, rank, h, name);
            &&& !r.spec_is_none() ==> subtree(g, rank, h).contains(r) && g.contains_key(r) && g[r].name == name
            &&& r.spec_is_none() ==> forall|d: Handle| #[trigger] subtree(g, rank, h).contains(d) ==> g[d].name != name
        }),
    decreases rank(h), child_count(g, h) + 1,
{
    if g.contains_key(h) && g[h].name != name {
        lemma_find_in_children(g, rank, h, name, 0);
        lemma_subtree_prefix_member(g, rank, h, child_count(g, h));
        let r = find_in(g, rank, h, name);
        if !r.spec_is_none() {
            let j = choose|j: int|
                0 <= j < g[h].children.len() && subtree(g, rank, g[h].children[j]).contains(r);
            assert(subtree_prefix(g, rank, h, child_count(g, h)).contains(r));
        } else {
            assert forall|d: Handle| #[trigger] subtree(g, rank, h).contains(d) implies g[d].name != name by {
                if d != h {
                    assert(subtree_prefix(g, rank, h, child_count(g, h)).contains(d));
                    let j = choose|j: int|
                        0 <= j < child_count(g, h) && #[trigger] subtree(g, rank, g[h].children[j]).contains(d);
                }
            }
        }
    } else if g.contains_key(h) {
        assert(!h.spec_is_none());
    }
}

/// The search among the children of `h` from position `i` on returns what the search
/// below the first child from there on with a match returns.
proof fn lemma_find_in_children_first(
    g: Map<Handle, NodeView>,
    rank: spec_fn(Handle) -> nat,
    h: Handle,
    name: Seq<char>,
    i: int,
)
    requires
        ranked_by(g, rank),
        g.contains_key(h),
        0 <= i,
    ensures
        ({
            let r = find_in_children(g, rank, h, name, i);
            !r.spec_is_none() ==> exists|k: int|
                #![trigger g[h].children[k]]
                i <= k < g[h].children.len() && r == find_in(g, rank, g[h].children[k], name) && forall|m: int|
                    i <= m < k ==> (#[trigger] find_in(g, rank, g[h].children[m], name)).spec_is_none()
        }),
    decreases g[h].children.len() - i,
{
    if i < g[h].children.len() {
        lemma_find_in_children_first(g, rank, h, name, i + 1);
        let r = find_in_children(g, rank, h, name, i);
        if !r.spec_is_none() && find_in(g, rank, g[h].children[i], name).spec_is_none() {
            let k = choose|k: int|
                #![trigger g[h].children[k]]
                i + 1 <= k < g[h].children.len() && r == find_in(g, rank, g[h].children[k], name) && forall|m: int|
                    i + 1 <= m < k ==> (#[trigger] find_in(g, rank, g[h].children[m], name)).spec_is_none();
            assert forall|m: int| i <= m < k implies (#[trigger] find_in(g, rank, g[h].children[m], name)).spec_is_none() by {}
        }
    }
}

/// The search by name returns the first node with the name in depth-first pre-order from
/// `h`, children in order: `h` itself where it has the name; otherwise no node above the
/// result has the name, and nothing below an earlier sibling of a node on the way down
/// to the result has it.
pub proof fn lemma_find_in_first(g: Map<Handle, NodeView>, rank: spec_fn(Handle) -> nat, h: Handle, name: Seq<char>)
    requires
        ranked_by(g, rank),
        consistent(g),
        !g.contains_key(Handle::spec_none()),
    ensures
        g.contains_key(h) && g[h].name == name ==> find_in(g, rank, h, name) == h,
        ({
            let r = find_in(g, rank, h, name);
            &&& !r.spec_is_none() ==> forall|d: Handle|
                #[trigger] subtree(g, rank, h).contains(d) && d != r && subtree(g, rank, d).contains(r) ==> g[d].name
                    != name
            &&& !r.spec_is_none() ==> forall|d: Handle, i: int, j: int, e: Handle|
                #![trigger subtree(g, rank, h).contains(d), subtree(g, rank, g[d].children[j]).contains(r), subtree(g, rank, g[d].children[i]).contains(e)]
                subtree(g, rank, h).contains(d) && g.contains_key(d) && 0 <= i < j < g[d].children.len() && subtree(
                    g,
                    rank,
                    g[d].children[j],
                ).contains(r) && subtree(g, rank, g[d].children[i]).contains(e) ==> g[e].name != name
        }),
    decreases rank(h),
{
    let r = find_in(g, rank, h, name);
    if !g.contains_key(h) {
        return;
    }
    lemma_subtree_shape(g, rank, h);
    lemma_subtree_prefix_shape(g, rank, h, child_count(g, h));
    lemma_subtree_prefix_member(g, rank, h, child_count(g, h));
    if g[h].name == name {
        assert forall|d: Handle|
            #[trigger] subtree(g, rank, h).contains(d) && d != r && subtree(g, rank, d).contains(r) implies g[d].name
                != name by {
            assert(subtree_prefix(g, rank, h, child_count(g, h)).contains(d));
            lemma_subtree_shape(g, rank, d);
        }
        assert forall|d: Handle, i: int, j: int, e: Handle|
            #![trigger subtree(g, rank, h).contains(d), subtree(g, rank, g[d].children[j]).contains(r), subtree(g, rank, g[d].children[i]).contains(e)]
            subtree(g, rank, h).contains(d) && g.contains_key(d) && 0 <= i < j < g[d].children.len() && subtree(
                g,
                rank,
                g[d].children[j],
            ).contains(r) && subtree(g, rank, g[d].children[i]).contains(e) implies g[e].name != name by {
            lemma_subtree_shape(g, rank, g[d].children[j]);
            assert(rank(g[d].children[j]) < rank(d));
        }
        return;
    }
    lemma_find_in_children_first(g, rank, h, name, 0);
    if r.spec_is_none() {
        return;
    }
    let k = choose|k: int|
        #![trigger g[h].children[k]]
        0 <= k < g[h].children.len() && r == find_in(g, rank, g[h].children[k], name) && forall|m: int|
            0 <= m < k ==> (#[trigger] find_in(g, rank, g[h].children[m], name)).spec_is_none();
    let ck = g[h].children[k];
    assert(rank(ck) < rank(h));
    lemma_find_in(g, rank, ck, name);
    lemma_find_in_first(g, rank, ck, name);
    assert(subtree(g, rank, ck).contains(r));
    // A node of `h`'s subtree other than `h` lies below some child; where the result lies
    // below it too, that child is `ck`.
    assert forall|d: Handle|
        #[trigger] subtree(g, rank, h).contains(d) && d != h && subtree(g, rank, d).contains(r) implies subtree(
            g,
            rank,
            ck,
        ).contains(d) by {
        assert(subtree_prefix(g, rank, h, child_count(g, h)).contains(d));
        let m = choose|m: int| 0 <= m < child_count(g, h) && #[trigger] subtree(g, rank, g[h].children[m]).contains(d);
        lemma_subtree_shape(g, rank, g[h].children[m]);
        lemma_subtree_within(g, rank, subtree(g, rank, g[h].children[m]), d);
        assert(subtree(g, rank, g[h].children[m]).contains(r));
        if m != k {
            lemma_siblings_disjoint(g, rank, h, m, k, r);
        }
    }
    assert forall|d: Handle|
        #[trigger] subtree(g, rank, h).contains(d) && d != r && subtree(g, rank, d).contains(r) implies g[d].name
            != name by {
        if d != h {
            assert(subtree(g, rank, ck).contains(d));
        }
    }
    assert forall|d: Handle, i: int, j: int, e: Handle|
        #![trigger subtree(g, rank, h).contains(d), subtree(g, rank, g[d].children[j]).contains(r), subtree(g, rank, g[d].children[i]).contains(e)]
        subtree(g, rank, h).contains(d) && g.contains_key(d) && 0 <= i < j < g[d].children.len() && subtree(
            g,
            rank,
            g[d].children[j],
        ).contains(r) && subtree(g, rank, g[d].children[i]).contains(e) implies g[e].name != name by {
        let cj = g[d].children[j];
        lemma_subtree_shape(g, rank, d);
        lemma_subtree_within(g, rank, subtree(g, rank, d), cj);
        if d == h {
            if j != k {
                lemma_siblings_disjoint(g, rank, h, j, k, r);
            }
            let ci = g[h].children[i];
            assert((find_in(g, rank, ci, name)).spec_is_none());
            lemma_find_in(g, rank, ci, name);
        } else {
            assert(subtree(g, rank, ck).contains(d));
        }
    }
}

/// What `find_in_children` returns: none exactly when no node reachable from the
/// children from `i` on has the name, else such a node with that name.
pub proof fn lemma_find_in_children(
    g: Map<Handle, NodeView>,
    rank: spec_fn(Handle) -> nat,
    h: Handle,
    name: Seq<char>,
    i: int,
)
    requires
        ranked_by(g, rank),
        !g.contains_key(Handle::spec_none()),
        g.contains_key(h),
        0 <= i,
    ensures
        ({
            let r = find_in_children(g, rank, h, name, i);
            &&& !r.spec_is_none() ==> g.contains_key(r) && g[r].name == name && exists|j: int|
                i <= j < g[h].children.len() && #[trigger] subtree(g, rank, g[h].children[j]).contains(r)
            &&& r.spec_is_none() ==> forall|j: int, d: Handle|
                i <= j < g[h].children.len() && #[trigger] subtree(g, rank, g[h].children[j]).contains(d)
                    ==> g[d].name != name
        }),
    decreases rank(h), child_count(g, h) - i,
{
    if i < g[h].children.len() {
        let c = g[h].children[i];
        assert(rank(c) < rank(h));
        lemma_find_in(g, rank, c, name);
        lemma_find_in_children(g, rank, h, name, i + 1);
        let r = find_in_children(g, rank, h, name, i);
        if r.spec_is_none() {
            assert forall|j: int, d: Handle|
                i <= j < g[h].children.len() && #[trigger] subtree(g, rank, g[h].children[j]).contains(d) implies g[d].name
                != name by {
                if j == i {
                } else {
                }
            }
        }
    }
}

/// Any two rankings of a graph give the same nodes reachable from a node.
pub proof fn lemma_subtree_rank_free(g: Map<Handle, NodeView>, r1: spec_fn(Handle) -> nat, r2: spec_fn(Handle) -> nat, h: Handle)
    requires
        ranked_by(g, r1),
        ranked_by(g, r2),
    ensures
        subtree(g, r1, h) == subtree(g, r2, h),
    decreases r1(h), child_count(g, h) + 1,
{
    if g.contains_key(h) {
        lemma_subtree_prefix_rank_free(g, r1, r2, h, child_count(g, h));
    }
}

pub proof fn lemma_subtree_prefix_rank_free(
    g: Map<Handle, NodeView>,
    r1: spec_fn(Handle) -> nat,
    r2: spec_fn(Handle) -> nat,
    h: Handle,
    k: int,
)
    requires
        ranked_by(g, r1),
        ranked_by(g, r2),
    ensures
        subtree_prefix(g, r1, h, k) == subtree_prefix(g, r2, h, k),
    decreases r1(h), k,
{
    if g.contains_key(h) && 0 < k <= g[h].children.len() {
        assert(r1(g[h].children[k - 1]) < r1(h));
        lemma_subtree_prefix_rank_free(g, r1, r2, h, k - 1);
        lemma_subtree_rank_free(g, r1, r2, g[h].children[k - 1]);
    }
}

/// Any two rankings of a graph give the same traversal order from a node.
pub proof fn lemma_visits_rank_free(g: Map<Handle, NodeView>, r1: spec_fn(Handle) -> nat, r2: spec_fn(Handle) -> nat, h: Handle)
    requires
        ranked_by(g, r1),
        ranked_by(g, r2),
    ensures
        visits(g, r1, h) == visits(g, r2, h),
    decreases r1(h), child_count(g, h) + 1,
{
    if g.contains_key(h) {
        lemma_visits_children_rank_free(g, r1, r2, h, child_count(g, h));
    }
}

pub proof fn lemma_visits_children_rank_free(
    g: Map<Handle, NodeView>,
    r1: spec_fn(Handle) -> nat,
    r2: spec_fn(Handle) -> nat,
    h: Handle,
    k: int,
)
    requires
        ranked_by(g, r1),
        ranked_by(g, r2),
    ensures
        visits_children(g, r1, h, k) == visits_children(g, r2, h, k),
    decreases r1(h), k,
{
    if g.contains_key(h) && 0 < k <= g[h].children.len() {
        assert(r1(g[h].children[k - 1]) < r1(h));
        lemma_visits_children_rank_free(g, r1, r2, h, k - 1);
        lemma_visits_rank_free(g, r1, r2, g[h].children[k - 1]);
    }
}

/// Any two rankings of a graph give the same size of a copy of the tree below a node.
pub proof fn lemma_copy_count_rank_free(g: Map<Handle, NodeView>, r1: spec_fn(Handle) -> nat, r2: spec_fn(Handle) -> nat, h: Handle)
    requires
        ranked_by(g, r1),
        ranked_by(g, r2),
    ensures
        copy_count(g, r1, h) == copy_count(g, r2, h),
    decreases r1(h), child_count(g, h) + 1,
{
    if g.contains_key(h) {
        lemma_copy_count_prefix_rank_free(g, r1, r2, h, child_count(g, h));
    }
}

pub proof fn lemma_copy_count_prefix_rank_free(
    g: Map<Handle, NodeView>,
    r1: spec_fn(Handle) -> nat,
    r2: spec_fn(Handle) -> nat,
    h: Handle,
    k: int,
)
    requires
        ranked_by(g, r1),
        ranked_by(g, r2),
    ensures
        copy_count_prefix(g, r1, h, k) == copy_count_prefix(g, r2, h, k),
    decreases r1(h), k,
{
    if g.contains_key(h) && 0 < k <= g[h].children.len() {
        assert(r1(g[h].children[k - 1]) < r1(h));
        lemma_copy_count_prefix_rank_free(g, r1, r2, h, k - 1);
        lemma_copy_count_rank_free(g, r1, r2, g[h].children[k - 1]);
    }
}

/// Any two rankings of a graph give the same result of a search by name.
pub proof fn lemma_find_in_rank_free(
    g: Map<Handle, NodeView>,
    r1: spec_fn(Handle) -> nat,
    r2: spec_fn(Handle) -> nat,
    h: Handle,
    name: Seq<char>,
)
    requires
        ranked_by(g, r1),
        ranked_by(g, r2),
    ensures
        find_in(g, r1, h, name) == find_in(g, r2, h, name),
    decreases r1(h), child_count(g, h) + 1,
{
    if g.contains_key(h) && g[h].name != name {
        lemma_find_in_children_rank_free(g, r1, r2, h, name, 0);
    }
}

pub proof fn lemma_find_in_children_rank_free(
    g: Map<Handle, NodeView>,
    r1: spec_fn(Handle) -> nat,
    r2: spec_fn(Handle) -> nat,
    h: Handle,
    name: Seq<char>,
    i: int,
)
    requires
        ranked_by(g, r1),
        ranked_by(g, r2),
    ensures
        find_in_children(g, r1, h, name, i) == find_in_children(g, r2, h, name, i),
    decreases r1(h), child_count(g, h) - i,
{
    if g.contains_key(h) && 0 <= i < g[h].children.len() {
        assert(r1(g[h].children[i]) < r1(h));
        lemma_find_in_rank_free(g, r1, r2, g[h].children[i], name);
        lemma_find_in_children_rank_free(g, r1, r2, h, name, i + 1);
    }
}

/// Parent and child links agree: a live node whose parent is live is among the
/// parent's children, a live child of a live node has that node as parent, and no live
/// handle appears twice among a node's children.
pub open spec fn consistent(g: Map<Handle, NodeView>) -> bool {
    &&& forall|n: Handle|
        #[trigger] g.contains_key(n) && g.contains_key(g[n].parent) ==> g[g[n].parent].children.contains(n)
    &&& forall|p: Handle, i: int|
        g.contains_key(p) && 0 <= i < g[p].children.len() && g.contains_key(#[trigger] g[p].children[i])
            ==> g[g[p].children[i]].parent == p
    &&& forall|p: Handle, i: int, j: int|
        g.contains_key(p) && 0 <= i < j < g[p].children.len() && g.contains_key(#[trigger] g[p].children[i])
            ==> g[p].children[i] != #[trigger] g[p].children[j]
}

/// A closed part of a consistent graph is consistent.
pub proof fn lemma_consistent_region(g: Map<Handle, NodeView>, r: Map<Handle, NodeView>)
    requires
        consistent(g),
        is_region(g, r),
    ensures
        consistent(r),
{
    assert forall|n: Handle| #[trigger] r.contains_key(n) && r.contains_key(r[n].parent) implies r[r[n].parent].children.contains(n) by {
        assert(g.contains_key(n) && g.contains_key(g[n].parent));
    }
    assert forall|p: Handle, i: int|
        r.contains_key(p) && 0 <= i < r[p].children.len() && r.contains_key(#[trigger] r[p].children[i])
            implies r[r[p].children[i]].parent == p by {
        assert(g.contains_key(p) && g.contains_key(g[p].children[i]));
    }
    assert forall|p: Handle, i: int, j: int|
        r.contains_key(p) && 0 <= i < j < r[p].children.len() && r.contains_key(#[trigger] r[p].children[i])
            implies r[p].children[i] != #[trigger] r[p].children[j] by {
        assert(g.contains_key(p) && g.contains_key(g[p].children[i]));
    }
}

/// Removing nodes keeps the links consistent.
pub proof fn lemma_consistent_remove(g: Map<Handle, NodeView>, s: Set<Handle>)
    requires
        consistent(g),
    ensures
        consistent(g.remove_keys(s)),
{
    let g2 = g.remove_keys(s);
    assert forall|n: Handle| #[trigger] g2.contains_key(n) && g2.contains_key(g2[n].parent) implies g2[g2[n].parent].children.contains(n) by {
        assert(g2[n] == g[n]);
    }
    assert forall|p: Handle, i: int|
        g2.contains_key(p) && 0 <= i < g2[p].children.len() && g2.contains_key(#[trigger] g2[p].children[i])
            implies g2[g2[p].children[i]].parent == p by {
        assert(g2[p] == g[p]);
    }
    assert forall|p: Handle, i: int, j: int|
        g2.contains_key(p) && 0 <= i < j < g2[p].children.len() && g2.contains_key(#[trigger] g2[p].children[i])
            implies g2[p].children[i] != #[trigger] g2[p].children[j] by {
        assert(g2[p] == g[p]);
    }
}

/// Detaching a node keeps the links consistent, and detaches it completely: no live
/// node keeps it among its children.
pub proof fn lemma_consistent_unlink(g: Map<Handle, NodeView>, h: Handle)
    requires
        consistent(g),
        !g.contains_key(Handle::spec_none()),
    ensures
        consistent(unlink_graph(g, h)),
        forall|p: Handle| #[trigger] unlink_graph(g, h).contains_key(p) && g.contains_key(h) ==> !unlink_graph(
            g,
            h,
        )[p].children.contains(h),
{
    let g2 = unlink_graph(g, h);
    lemma_link_keeps_nodes(g, h, h);
    if g.contains_key(h) {
        let p = g[h].parent;
        let g1 = g.insert(h, NodeView { parent: Handle::spec_none(), ..g[h] });
        if g1.contains_key(p) {
            assert(g[p].children.contains(h));
            let k = choose|k: int| 0 <= k < g[p].children.len() && g[p].children[k] == h;
            lemma_first_index(g1[p].children, h);
            let fi = first_index(g1[p].children, h);
            assert(fi is Some);
            let i = fi->0;
            let cs = g1[p].children;
            assert(g1[p].children == g[p].children || p == h);
            // the child list of p in g2
            assert forall|a: int| 0 <= a < cs.len() && a != i && g.contains_key(#[trigger] cs[a]) implies cs[a] != h by {
                if p == h {
                    assert(cs == g[h].children);
                } else {
                    assert(cs == g[p].children);
                }
                if a < i {
                } else {
                    if cs[a] == h {
                        assert(g.contains_key(cs[i]));
                    }
                }
            }
        }
        assert forall|n: Handle| #[trigger] g2.contains_key(n) && g2.contains_key(g2[n].parent) implies g2[g2[n].parent].children.contains(n) by {
            if n != h {
                let q = g[n].parent;
                assert(g2[n].parent == q);
                assert(g[q].children.contains(n));
                let a = choose|a: int| 0 <= a < g[q].children.len() && g[q].children[a] == n;
                if g1.contains_key(p) && q == p {
                    let i = first_index(g1[p].children, h)->0;
                    let cs = g1[p].children;
                    assert(cs == g[q].children || p == h);
                    if p == h {
                        assert(cs == g[h].children);
                    }
                    if a < i {
                        assert(g2[q].children[a] == n);
                    } else {
                        assert(a != i);
                        assert(g2[q].children[a - 1] == n);
                    }
                } else {
                    assert(g2[q].children == g[q].children);
                }
            }
        }
        assert forall|q: Handle, a: int|
            g2.contains_key(q) && 0 <= a < g2[q].children.len() && g2.contains_key(#[trigger] g2[q].children[a])
                implies g2[g2[q].children[a]].parent == q by {
            if g1.contains_key(p) && q == p {
                let i = first_index(g1[p].children, h)->0;
                let cs = g1[p].children;
                if p == h {
                    assert(cs == g[h].children);
                }
                let b = if a < i { a } else { a + 1 };
                assert(g2[q].children[a] == cs[b]);
                assert(b != i);
                assert(cs[b] != h);
                assert(g[cs[b]].parent == q);
            } else {
                assert(g2[q].children == g[q].children);
                let x = g[q].children[a];
                if x == h {
                    assert(g[h].parent == q);
                    assert(g1.contains_key(p));
                }
            }
        }
        assert forall|q: Handle, a: int, b: int|
            g2.contains_key(q) && 0 <= a < b < g2[q].children.len() && g2.contains_key(#[trigger] g2[q].children[a])
                implies g2[q].children[a] != #[trigger] g2[q].children[b] by {
            if g1.contains_key(p) && q == p {
                let i = first_index(g1[p].children, h)->0;
                let cs = g1[p].children;
                if p == h {
                    assert(cs == g[h].children);
                }
                let a1 = if a < i { a } else { a + 1 };
                let b1 = if b < i { b } else { b + 1 };
                assert(g2[q].children[a] == cs[a1]);
                assert(g2[q].children[b] == cs[b1]);
                assert(a1 < b1);
            } else {
                assert(g2[q].children == g[q].children);
            }
        }
        assert forall|q: Handle| #[trigger] g2.contains_key(q) implies !g2[q].children.contains(h) by {
            if g2[q].children.contains(h) {
                let a = choose|a: int| 0 <= a < g2[q].children.len() && g2[q].children[a] == h;
                if g1.contains_key(p) && q == p {
                    let i = first_index(g1[p].children, h)->0;
                    let cs = g1[p].children;
                    if p == h {
                        assert(cs == g[h].children);
                    }
                    let a1 = if a < i { a } else { a + 1 };
                    assert(g2[q].children[a] == cs[a1]);
                    assert(a1 != i);
                } else {
                    assert(g2[q].children == g[q].children);
                    assert(g[h].parent == q);
                }
            }
        }
    }
}

/// Attaching a node keeps the links consistent.
pub proof fn lemma_consistent_link(g: Map<Handle, NodeView>, child: Handle, parent: Handle)
    requires
        consistent(g),
        !g.contains_key(Handle::spec_none()),
    ensures
        consistent(link_graph(g, child, parent)),
{
    lemma_consistent_unlink(g, child);
    let g1 = unlink_graph(g, child);
    lemma_link_keeps_nodes(g, child, parent);
    if g1.contains_key(child) {
        let g2 = g1.insert(child, NodeView { parent, ..g1[child] });
        let g3 = link_graph(g, child, parent);
        assert forall|n: Handle| #[trigger] g3.contains_key(n) && g3.contains_key(g3[n].parent) implies g3[g3[n].parent].children.contains(n) by {
            if n == child {
                assert(g3[parent].children == g2[parent].children.push(child));
                assert(g3[parent].children[g2[parent].children.len() as int] == child);
            } else {
                let q = g1[n].parent;
                assert(g3[n].parent == q);
                assert(g1[q].children.contains(n));
                let a = choose|a: int| 0 <= a < g1[q].children.len() && g1[q].children[a] == n;
                assert(g2[q].children == g1[q].children);
                if g2.contains_key(parent) && q == parent {
                    assert(g3[q].children[a] == n);
                } else {
                    assert(g3[q].children == g1[q].children);
                }
            }
        }
        assert forall|q: Handle, a: int|
            g3.contains_key(q) && 0 <= a < g3[q].children.len() && g3.contains_key(#[trigger] g3[q].children[a])
                implies g3[g3[q].children[a]].parent == q by {
            assert(g2[q].children == g1[q].children);
            if g2.contains_key(parent) && q == parent && a == g1[q].children.len() {
                assert(g3[q].children[a] == child);
            } else {
                assert(g3[q].children[a] == g1[q].children[a]);
                let x = g1[q].children[a];
                if x == child {
                    assert(g1[q].children.contains(child));
                }
                assert(g1[x].parent == q);
            }
        }
        assert forall|q: Handle, a: int, b: int|
            g3.contains_key(q) && 0 <= a < b < g3[q].children.len() && g3.contains_key(#[trigger] g3[q].children[a])
                implies g3[q].children[a] != #[trigger] g3[q].children[b] by {
            assert(g2[q].children == g1[q].children);
            if g2.contains_key(parent) && q == parent && b == g1[q].children.len() {
                assert(g3[q].children[a] == g1[q].children[a]);
                if g1[q].children[a] == child {
                    assert(g1[q].children.contains(child));
                }
            } else {
                assert(g3[q].children[a] == g1[q].children[a]);
                assert(g3[q].children[b] == g1[q].children[b]);
            }
        }
    }
}

/// Detaching a node only drops entries from child lists.
pub proof fn lemma_unlink_children_sub(g: Map<Handle, NodeView>, h: Handle)
    ensures
        forall|q: Handle, a: int|
            #[trigger] unlink_graph(g, h).contains_key(q) && 0 <= a < unlink_graph(g, h)[q].children.len() ==> g.contains_key(q)
                && g[q].children.contains(#[trigger] unlink_graph(g, h)[q].children[a]),
{
    let g2 = unlink_graph(g, h);
    lemma_link_keeps_nodes(g, h, h);
    assert forall|q: Handle, a: int| #[trigger] g2.contains_key(q) && 0 <= a < g2[q].children.len() implies g.contains_key(q)
        && g[q].children.contains(#[trigger] g2[q].children[a]) by {
        if g.contains_key(h) {
            let p = g[h].parent;
            let g1 = g.insert(h, NodeView { parent: Handle::spec_none(), ..g[h] });
            assert(g1[q].children == g[q].children);
            if g1.contains_key(p) && q == p && first_index(g1[p].children, h) is Some {
                let i = first_index(g1[p].children, h)->0;
                lemma_first_index(g1[p].children, h);
                let b = if a < i { a } else { a + 1 };
                assert(g2[q].children[a] == g[q].children[b]);
            } else {
                assert(g2[q].children == g[q].children);
                assert(g2[q].children[a] == g[q].children[a]);
            }
        } else {
            assert(g2[q].children[a] == g[q].children[a]);
        }
    }
}

/// Detaching a node keeps the graph acyclic.
pub proof fn lemma_acyclic_unlink(g: Map<Handle, NodeView>, h: Handle)
    requires
        acyclic(g),
    ensures
        acyclic(unlink_graph(g, h)),
{
    let r = rank_of(g);
    let g2 = unlink_graph(g, h);
    lemma_unlink_children_sub(g, h);
    assert forall|q: Handle, a: int| g2.contains_key(q) && 0 <= a < g2[q].children.len() implies r(
        #[trigger] g2[q].children[a],
    ) < r(q) by {
        let b = choose|b: int| 0 <= b < g[q].children.len() && g[q].children[b] == g2[q].children[a];
        assert(r(g[q].children[b]) < r(q));
    }
    assert(ranked_by(g2, r));
}

/// Attaching a node under a node that is not reachable from it keeps the graph acyclic.
pub proof fn lemma_acyclic_link(g: Map<Handle, NodeView>, child: Handle, parent: Handle)
    requires
        acyclic(g),
        !subtree(g, rank_of(g), child).contains(parent),
    ensures
        acyclic(link_graph(g, child, parent)),
{
    let r = rank_of(g);
    let g1 = unlink_graph(g, child);
    let g3 = link_graph(g, child, parent);
    lemma_unlink_children_sub(g, child);
    lemma_link_keeps_nodes(g, child, parent);
    let s = subtree(g, r, child);
    lemma_subtree_shape(g, r, child);
    let t = s + Set::new(|x: Handle| exists|y: Handle| s.contains(y) && g.contains_key(y) && #[trigger] g[y].children.contains(x));
    let k = r(child) + 1;
    let r2 = |x: Handle| if t.contains(x) { r(x) } else { (r(x) + k) as nat };
    if g1.contains_key(child) {
        let g2 = g1.insert(child, NodeView { parent, ..g1[child] });
        assert(s.contains(child));
        if g2.contains_key(parent) {
            assert(!t.contains(parent)) by {
                if t.contains(parent) && !s.contains(parent) {
                    let y = choose|y: Handle| s.contains(y) && g.contains_key(y) && #[trigger] g[y].children.contains(parent);
                    let b = choose|b: int| 0 <= b < g[y].children.len() && g[y].children[b] == parent;
                    assert(g.contains_key(g[y].children[b]));
                }
            }
        }
        assert forall|q: Handle, a: int| g3.contains_key(q) && 0 <= a < g3[q].children.len() implies r2(
            #[trigger] g3[q].children[a],
        ) < r2(q) by {
            assert(g2[q].children == g1[q].children);
            if g2.contains_key(parent) && q == parent && a == g1[q].children.len() {
                assert(g3[q].children[a] == child);
            } else {
                assert(g3[q].children[a] == g1[q].children[a]);
                let x = g1[q].children[a];
                assert(g[q].children.contains(x));
                let b = choose|b: int| 0 <= b < g[q].children.len() && g[q].children[b] == x;
                assert(r(g[q].children[b]) < r(q));
                if t.contains(q) {
                    if !s.contains(q) {
                        let y = choose|y: Handle| s.contains(y) && g.contains_key(y) && #[trigger] g[y].children.contains(q);
                        let c = choose|c: int| 0 <= c < g[y].children.len() && g[y].children[c] == q;
                        assert(g.contains_key(g[y].children[c]));
                    }
                    assert(s.contains(q));
                    assert(t.contains(x));
                }
            }
        }
        assert(ranked_by(g3, r2));
    } else {
        assert forall|q: Handle, a: int| g3.contains_key(q) && 0 <= a < g3[q].children.len() implies r(
            #[trigger] g3[q].children[a],
        ) < r(q) by {
            let b = choose|b: int| 0 <= b < g[q].children.len() && g[q].children[b] == g3[q].children[a];
            assert(r(g[q].children[b]) < r(q));
        }
        assert(ranked_by(g3, r));
    }
}

/// No live node refers to `c`, as parent or child.
pub open spec fn unreferenced(g: Map<Handle, NodeView>, c: Handle) -> bool {
    forall|n: Handle| #[trigger] g.contains_key(n) ==> g[n].parent != c && !g[n].children.contains(c)
}

/// Adding an unlinked node without children that nothing refers to keeps the graph
/// consistent and acyclic.
pub proof fn lemma_insert_fresh(g: Map<Handle, NodeView>, c: Handle, nv: NodeView)
    requires
        !g.contains_key(c),
        unreferenced(g, c),
        !g.contains_key(nv.parent),
        nv.parent != c,
        nv.children.len() == 0,
    ensures
        consistent(g) ==> consistent(g.insert(c, nv)),
        acyclic(g) ==> acyclic(g.insert(c, nv)),
{
    let g2 = g.insert(c, nv);
    if consistent(g) {
        assert forall|n: Handle| #[trigger] g2.contains_key(n) && g2.contains_key(g2[n].parent) implies g2[g2[n].parent].children.contains(n) by {
            if n != c {
                assert(g[n].parent != c);
            }
        }
        assert forall|p: Handle, i: int|
            g2.contains_key(p) && 0 <= i < g2[p].children.len() && g2.contains_key(#[trigger] g2[p].children[i])
                implies g2[g2[p].children[i]].parent == p by {
            if g2[p].children[i] == c {
                assert(g[p].children.contains(c));
            }
        }
    }
    if acyclic(g) {
        let r = rank_of(g);
        assert forall|p: Handle, i: int| g2.contains_key(p) && 0 <= i < g2[p].children.len() implies r(
            #[trigger] g2[p].children[i],
        ) < r(p) by {
            assert(p != c);
        }
        assert(ranked_by(g2, r));
    }
}

/// Adding a node without children keeps the graph acyclic, whatever refers to it.
pub proof fn lemma_acyclic_insert_leaf(g: Map<Handle, NodeView>, c: Handle, nv: NodeView)
    requires
        acyclic(g),
        nv.children.len() == 0,
    ensures
        acyclic(g.insert(c, nv)),
{
    let r = rank_of(g);
    let g2 = g.insert(c, nv);
    let r2 = |x: Handle| if x == c { 0nat } else { (r(x) + 1) as nat };
    assert forall|p: Handle, i: int| g2.contains_key(p) && 0 <= i < g2[p].children.len() implies r2(
        #[trigger] g2[p].children[i],
    ) < r2(p) by {
        assert(p != c);
        assert(g2[p] == g[p]);
        assert(r(g[p].children[i]) < r(p));
    }
    assert(ranked_by(g2, r2));
}

/// Removing nodes keeps the graph acyclic.
pub proof fn lemma_acyclic_remove(g: Map<Handle, NodeView>, s: Set<Handle>)
    requires
        acyclic(g),
    ensures
        acyclic(g.remove_keys(s)),
{
    lemma_ranked_remove(g, rank_of(g), s);
}

/// Every parent and child that the node view names is issued by the pool `v`.
pub open spec fn view_links_issued<T>(v: Seq<PoolRecord<T>>, nv: NodeView) -> bool {
    &&& slot_issued(v, nv.parent)
    &&& forall|i: int| 0 <= i < nv.children.len() ==> slot_issued(v, #[trigger] nv.children[i])
}

/// Every live node of `g` names only handles issued by the pool `v`, so no node refers
/// to a handle that a later spawn returns.
pub open spec fn links_issued<T>(v: Seq<PoolRecord<T>>, g: Map<Handle, NodeView>) -> bool {
    forall|n: Handle| #[trigger] g.contains_key(n) ==> view_links_issued(v, g[n])
}

/// Issued links stay issued while generations grow.
pub proof fn lemma_links_issued_grow<T, U>(a: Seq<PoolRecord<T>>, b: Seq<PoolRecord<U>>, g: Map<Handle, NodeView>)
    requires
        generations_grow(a, b),
        links_issued(a, g),
    ensures
        links_issued(b, g),
{
    assert forall|n: Handle| #[trigger] g.contains_key(n) implies view_links_issued(b, g[n]) by {
        lemma_issued_grow(a, b, g[n].parent);
        assert forall|i: int| 0 <= i < g[n].children.len() implies slot_issued(b, #[trigger] g[n].children[i]) by {
            lemma_issued_grow(a, b, g[n].children[i]);
        }
    }
}

/// Detaching a node keeps the links issued.
pub proof fn lemma_links_issued_unlink<T>(v: Seq<PoolRecord<T>>, g: Map<Handle, NodeView>, h: Handle)
    requires
        links_issued(v, g),
    ensures
        links_issued(v, unlink_graph(g, h)),
{
    let g2 = unlink_graph(g, h);
    lemma_unlink_children_sub(g, h);
    lemma_link_keeps_nodes(g, h, h);
    assert forall|n: Handle| #[trigger] g2.contains_key(n) implies view_links_issued(v, g2[n]) by {
        assert(g.contains_key(n));
        assert(g2[n].parent == g[n].parent || g2[n].parent == Handle::spec_none());
        assert forall|i: int| 0 <= i < g2[n].children.len() implies slot_issued(v, #[trigger] g2[n].children[i]) by {
            let x = g2[n].children[i];
            assert(g[n].children.contains(x));
            let j = choose|j: int| 0 <= j < g[n].children.len() && g[n].children[j] == x;
            assert(slot_issued(v, g[n].children[j]));
        }
    }
}

/// Attaching a live node to an issued parent keeps the links issued.
pub proof fn lemma_links_issued_link<T>(v: Seq<PoolRecord<T>>, g: Map<Handle, NodeView>, child: Handle, parent: Handle)
    requires
        links_issued(v, g),
        slot_issued(v, parent),
        g.contains_key(child) ==> slot_issued(v, child),
    ensures
        links_issued(v, link_graph(g, child, parent)),
{
    let g1 = unlink_graph(g, child);
    lemma_links_issued_unlink(v, g, child);
    lemma_link_keeps_nodes(g, child, parent);
    let g3 = link_graph(g, child, parent);
    if g1.contains_key(child) {
        let g2 = g1.insert(child, NodeView { parent, ..g1[child] });
        assert forall|n: Handle| #[trigger] g3.contains_key(n) implies view_links_issued(v, g3[n]) by {
            assert(view_links_issued(v, g1[n]));
            if g2.contains_key(parent) && n == parent {
                assert forall|i: int| 0 <= i < g3[n].children.len() implies slot_issued(
                    v,
                    #[trigger] g3[n].children[i],
                ) by {
                    if i < g2[n].children.len() {
                        assert(g3[n].children[i] == g2[n].children[i]);
                        assert(g2[n].children == g1[n].children);
                    }
                }
            }
        }
    }
}

/// `r` is a closed part of `g`: some of its live nodes, as they are in `g`, together
/// with every live child of each of them.
pub open spec fn is_region(g: Map<Handle, NodeView>, r: Map<Handle, NodeView>) -> bool {
    &&& r.dom().subset_of(g.dom())
    &&& forall|x: Handle| #[trigger] r.contains_key(x) ==> r[x] == g[x]
    &&& closed_under_children(g, r.dom())
}

/// The nodes reachable from `h` through children lists have no cycle: some closed part
/// of `g` that holds `h` can be ranked.
pub open spec fn acyclic_below(g: Map<Handle, NodeView>, h: Handle) -> bool {
    exists|r: Map<Handle, NodeView>| #[trigger] is_region(g, r) && r.contains_key(h) && acyclic(r)
}

/// A closed, ranked part of `g` holding `h`, where there is one.
pub open spec fn region_below(g: Map<Handle, NodeView>, h: Handle) -> Map<Handle, NodeView> {
    choose|r: Map<Handle, NodeView>| #[trigger] is_region(g, r) && r.contains_key(h) && acyclic(r)
}

/// The part below `h` is a closed, ranked part of `g` holding `h`.
pub proof fn lemma_region_below(g: Map<Handle, NodeView>, h: Handle)
    requires
        acyclic_below(g, h),
    ensures
        is_region(g, region_below(g, h)),
        region_below(g, h).contains_key(h),
        acyclic(region_below(g, h)),
        ranked_by(region_below(g, h), rank_of(region_below(g, h))),
{
}

/// A graph with no cycle at all has none below any live node.
pub proof fn lemma_acyclic_below(g: Map<Handle, NodeView>, h: Handle)
    requires
        acyclic(g),
        g.contains_key(h),
    ensures
        acyclic_below(g, h),
{
    assert(is_region(g, g));
}

/// The part of `g` below `h`: the nodes reachable from `h` through children lists, where
/// `h` is live and they have no cycle; nothing where `h` is not live.
pub open spec fn part_below(g: Map<Handle, NodeView>, h: Handle) -> Map<Handle, NodeView> {
    if g.contains_key(h) {
        let r = region_below(g, h);
        r.restrict(subtree(r, rank_of(r), h))
    } else {
        Map::empty()
    }
}

/// The nodes reachable from `h` through children lists: `h` (where it is live) and,
/// recursively, the live children of each of them.
pub open spec fn nodes_below(g: Map<Handle, NodeView>, h: Handle) -> Set<Handle> {
    subtree(part_below(g, h), rank_of(part_below(g, h)), h)
}

/// Where the part below a live `h` is acyclic, `part_below` is a closed, ranked part of
/// `g` that holds exactly the nodes below `h`.
pub proof fn lemma_part_below(g: Map<Handle, NodeView>, h: Handle)
    requires
        g.contains_key(h) ==> acyclic_below(g, h),
    ensures
        is_region(g, part_below(g, h)),
        g.contains_key(h) ==> part_below(g, h).contains_key(h),
        ranked_by(part_below(g, h), rank_of(part_below(g, h))),
        part_below(g, h).dom() == nodes_below(g, h),
{
    if g.contains_key(h) {
        lemma_region_below(g, h);
        let r = region_below(g, h);
        let rk = rank_of(r);
        let t = subtree(r, rk, h);
        let p = r.restrict(t);
        lemma_subtree_shape(r, rk, h);
        lemma_restrict_below(r, rk, t, h);
        assert(ranked_by(p, rk));
        assert(ranked_by(p, rank_of(p)));
        lemma_subtree_rank_free(p, rank_of(p), rk, h);
        assert forall|q: Handle, i: int|
            p.dom().contains(q) && g.contains_key(q) && 0 <= i < g[q].children.len() && g.contains_key(
                #[trigger] g[q].children[i],
            ) implies p.dom().contains(g[q].children[i]) by {
            assert(r.contains_key(q) && r[q] == g[q]);
            assert(r.dom().contains(g[q].children[i]));
        }
        assert(p.dom() =~= t);
    } else {
        let e = Map::<Handle, NodeView>::empty();
        assert(is_region(g, e));
        let r0 = |x: Handle| 0nat;
        assert(ranked_by(e, r0));
        assert(subtree(e, rank_of(e), h) =~= Set::empty());
        assert(e.dom() =~= Set::empty());
    }
}

/// Removing the same nodes from a graph and a closed part of it leaves a closed part.
pub proof fn lemma_region_remove(g: Map<Handle, NodeView>, r: Map<Handle, NodeView>, s: Set<Handle>)
    requires
        is_region(g, r),
    ensures
        is_region(g.remove_keys(s), r.remove_keys(s)),
{
    let g2 = g.remove_keys(s);
    let r2 = r.remove_keys(s);
    assert forall|p: Handle, i: int|
        r2.dom().contains(p) && g2.contains_key(p) && 0 <= i < g2[p].children.len() && g2.contains_key(
            #[trigger] g2[p].children[i],
        ) implies r2.dom().contains(g2[p].children[i]) by {
        assert(r.dom().contains(p) && g.contains_key(g[p].children[i]));
    }
}

/// Keeping only the nodes of a set closed under children that holds `h` changes neither
/// the nodes reachable from `h` nor the traversal from it.
pub proof fn lemma_restrict_below(g: Map<Handle, NodeView>, rank: spec_fn(Handle) -> nat, t: Set<Handle>, h: Handle)
    requires
        ranked_by(g, rank),
        closed_under_children(g, t),
        g.contains_key(h) ==> t.contains(h),
    ensures
        ranked_by(g.restrict(t), rank),
        subtree(g.restrict(t), rank, h) == subtree(g, rank, h),
        visits(g.restrict(t), rank, h) == visits(g, rank, h),
    decreases rank(h), child_count(g, h) + 1,
{
    let gr = g.restrict(t);
    assert(gr =~= g.remove_keys(g.dom().difference(t)));
    lemma_ranked_remove(g, rank, g.dom().difference(t));
    if g.contains_key(h) {
        assert(gr.contains_key(h) && gr[h] == g[h]);
        lemma_restrict_below_children(g, rank, t, h, child_count(g, h));
    } else {
        assert(!gr.contains_key(h));
    }
}

pub proof fn lemma_restrict_below_children(
    g: Map<Handle, NodeView>,
    rank: spec_fn(Handle) -> nat,
    t: Set<Handle>,
    h: Handle,
    k: int,
)
    requires
        ranked_by(g, rank),
        closed_under_children(g, t),
        g.contains_key(h),
        t.contains(h),
        0 <= k <= g[h].children.len(),
    ensures
        subtree_prefix(g.restrict(t), rank, h, k) == subtree_prefix(g, rank, h, k),
        visits_children(g.restrict(t), rank, h, k) == visits_children(g, rank, h, k),
    decreases rank(h), k,
{
    let gr = g.restrict(t);
    assert(gr =~= g.remove_keys(g.dom().difference(t)));
    lemma_ranked_remove(g, rank, g.dom().difference(t));
    assert(gr.contains_key(h) && gr[h] == g[h]);
    if k > 0 {
        let c = g[h].children[k - 1];
        assert(rank(c) < rank(h));
        lemma_restrict_below_children(g, rank, t, h, k - 1);
        lemma_restrict_below(g, rank, t, c);
    }
}

/// The last camera, in depth-first pre-order from `h` with children in order (a node
/// before the nodes below it), among the nodes reachable from `h`.
pub open spec fn last_camera(g: Map<Handle, NodeView>, rank: spec_fn(Handle) -> nat, h: Handle) -> Option<Handle>
    decreases rank(h), child_count(g, h) + 1,
{
    if !g.contains_key(h) {
        None
    } else {
        match last_camera_children(g, rank, h, child_count(g, h)) {
            Some(x) => Some(x),
            None => if g[h].kind == NodeKind::Camera {
                Some(h)
            } else {
                None
            },
        }
    }
}

/// The last camera, in pre-order, below the first `k` children of `h`.
pub open spec fn last_camera_children(g: Map<Handle, NodeView>, rank: spec_fn(Handle) -> nat, h: Handle, k: int) -> Option<
    Handle,
>
    decreases rank(h), k,
{
    if !ranked_by(g, rank) || !g.contains_key(h) || k <= 0 || k > g[h].children.len() {
        None
    } else {
        match last_camera(g, rank, g[h].children[k - 1]) {
            Some(x) => Some(x),
            None => last_camera_children(g, rank, h, k - 1),
        }
    }
}

/// The last camera is a live camera below `h`; where there is none, no node below `h`
/// is a camera.
pub proof fn lemma_last_camera(g: Map<Handle, NodeView>, rank: spec_fn(Handle) -> nat, h: Handle)
    requires
        ranked_by(g, rank),
    ensures
        match last_camera(g, rank, h) {
            Some(x) => subtree(g, rank, h).contains(x) && g.contains_key(x) && g[x].kind == NodeKind::Camera,
            None => forall|x: Handle|
                #[trigger] subtree(g, rank, h).contains(x) && g.contains_key(x) ==> g[x].kind != NodeKind::Camera,
        },
    decreases rank(h), child_count(g, h) + 1,
{
    if g.contains_key(h) {
        let n = child_count(g, h);
        lemma_last_camera_children(g, rank, h, n);
        let st = subtree(g, rank, h);
        assert(st == set![h] + subtree_prefix(g, rank, h, n));
        match last_camera_children(g, rank, h, n) {
            Some(x) => {
                assert(st.contains(x));
            },
            None => {
                if g[h].kind == NodeKind::Camera {
                    assert(st.contains(h));
                } else {
                    assert forall|x: Handle| #[trigger] st.contains(x) && g.contains_key(x) implies g[x].kind
                        != NodeKind::Camera by {
                        if x != h {
                            assert(subtree_prefix(g, rank, h, n).contains(x));
                        }
                    }
                }
            },
        }
    }
}

pub proof fn lemma_last_camera_children(g: Map<Handle, NodeView>, rank: spec_fn(Handle) -> nat, h: Handle, k: int)
    requires
        ranked_by(g, rank),
        g.contains_key(h),
        0 <= k <= g[h].children.len(),
    ensures
        match last_camera_children(g, rank, h, k) {
            Some(x) => subtree_prefix(g, rank, h, k).contains(x) && g.contains_key(x) && g[x].kind
                == NodeKind::Camera,
            None => forall|x: Handle|
                #[trigger] subtree_prefix(g, rank, h, k).contains(x) && g.contains_key(x) ==> g[x].kind
                    != NodeKind::Camera,
        },
    decreases rank(h), k,
{
    if k > 0 {
        let c = g[h].children[k - 1];
        assert(rank(c) < rank(h));
        lemma_last_camera_children(g, rank, h, k - 1);
        lemma_last_camera(g, rank, c);
        let pre = subtree_prefix(g, rank, h, k - 1);
        let sub = subtree(g, rank, c);
        assert(subtree_prefix(g, rank, h, k) == pre + sub);
        match last_camera(g, rank, c) {
            Some(x) => {
                assert(sub.contains(x));
            },
            None => {
                match last_camera_children(g, rank, h, k - 1) {
                    Some(x) => {
                        assert(pre.contains(x));
                    },
                    None => {
                        assert forall|x: Handle| #[trigger] (pre + sub).contains(x) && g.contains_key(x) implies g[x].kind
                            != NodeKind::Camera by {
                            if pre.contains(x) {
                            } else {
                                assert(sub.contains(x));
                            }
                        }
                    },
                }
            },
        }
    }
}

} // verus!
