//! The scene: a pool of nodes linked into a tree under a root node, the animations
//! that drive nodes, and the rigid bodies that nodes are attached to.

pub mod animation;
pub mod graph;
pub mod visibility;
pub mod node;

use vstd::prelude::*;
use crate::physics::Physics;
use crate::scene::animation::Animation;
use crate::scene::graph::{
    graph_of, same_slots, first_index, unlink_graph, lemma_unlink_fields, link_graph, lemma_graph_update,
    lemma_same_slots_live, lemma_first_index, lemma_link_keeps_nodes, lemma_graph_update_any, ranked_by, acyclic, rank_of, find_in,
    find_in_children, lemma_find_in_first, subtree, subtree_prefix, bodies_of, same_generations,
    lemma_graph_clear, lemma_subtree_shape, lemma_subtree_prefix_shape, lemma_ranked_remove,
    lemma_subtree_remove, lemma_subtree_prefix_member, child_count, lemma_bodies_step, visits,
    visits_children, stack_visits, apply_visit, fold_visits, same_links, lemma_stack_push_children,
    lemma_fold_first, lemma_apply_visit_same_links, live_count, body_copied, copied,
    bodies_kept, lemma_copied_frame, lemma_copied_grow, copy_count, copy_count_prefix,
    lemma_copy_count_prefix_mono, copied_node, lemma_link_new, lemma_link_move, same_payload, lemma_find_in,
    consistent, lemma_consistent_region, lemma_consistent_remove, lemma_consistent_unlink, lemma_consistent_link, unreferenced,
    lemma_insert_fresh, lemma_acyclic_unlink, lemma_acyclic_link, lemma_acyclic_remove, lemma_acyclic_insert_leaf,
    links_issued, view_links_issued, is_region, acyclic_below, region_below, lemma_region_below,
    part_below, nodes_below, lemma_part_below, lemma_region_remove, lemma_restrict_below, closed_under_children, last_camera,
    last_camera_children, lemma_last_camera, lemma_last_camera_children, lemma_links_issued_grow, lemma_links_issued_unlink, lemma_links_issued_link,
};
use crate::scene::node::{Node, NodeKind, NodeView};
use crate::scene::visibility::{expected_visibility, lemma_visits_tree, lemma_siblings_disjoint};
use crate::utils::pool::{Handle, Pool, PoolRecord, lemma_key_injective, slot_issued, generations_grow};
use crate::physics::RigidBody;
use std::collections::HashMap;

verus! {

broadcast use vstd::std_specs::hash::group_hash_axioms;

pub struct Scene {
    /// Every node lies in this pool; user code reaches a node through its handle.
    nodes: Pool<Node>,
    /// The node to which every node added to the scene is attached.
    root: Handle,
    animations: Pool<Animation>,
    physics: Physics,
    /// Work list of the tree traversal.
    stack: Vec<Handle>,
    active_camera: Handle,
}

/// The view of a freshly made node of the given kind.
pub open spec fn new_node_view(kind: NodeKind) -> NodeView {
    NodeView {
        name: Seq::empty(),
        kind,
        parent: Handle::spec_none(),
        children: Seq::empty(),
        visibility: true,
        global_visibility: true,
        body: Handle::spec_none(),
    }
}

/// The first `i` children of `h` in `src` that are live have their copies, in order,
/// among the children of `c` in `dst`: each new (not in `d0`), attached to `c`, and a
/// copy built from the nodes of the matching set of `fs`, which are new and not `c`.
pub open spec fn children_copied(
    src: Map<Handle, NodeView>,
    sp: Pool<RigidBody>,
    dst: Map<Handle, NodeView>,
    dp: Pool<RigidBody>,
    rank: spec_fn(Handle) -> nat,
    h: Handle,
    c: Handle,
    i: int,
    d0: Map<Handle, NodeView>,
    fs: Seq<Set<Handle>>,
) -> bool {
    &&& fs.len() >= i
    &&& dst[c].children.len() == live_count(src, h, i)
    &&& forall|j: int|
        0 <= j < i && src.contains_key(#[trigger] src[h].children[j]) ==> {
            let x = dst[c].children[live_count(src, h, j) as int];
            &&& x != c
            &&& !d0.contains_key(x)
            &&& dst.contains_key(x)
            &&& dst[x].parent == c
            &&& fs[j].subset_of(dst.dom().difference(d0.dom()).remove(c))
            &&& copied(src, sp, dst, dp, rank, src[h].children[j], x, fs[j])
        }
}

/// The handles of the keys that `mapping` holds for the nodes of `s` point to copies
/// of those nodes.
pub open spec fn mapping_covers(
    src: Map<Handle, NodeView>,
    sp: Pool<RigidBody>,
    dst: Map<Handle, NodeView>,
    dp: Pool<RigidBody>,
    mapping: Map<u64, Handle>,
    s: Set<Handle>,
) -> bool {
    forall|d: Handle|
        #[trigger] s.contains(d) ==> mapping.contains_key(d.spec_key()) && copied_node(
            src,
            sp,
            dst,
            dp,
            d,
            mapping[d.spec_key()],
        )
}

/// `mapping` differs from `old` only at keys of the nodes of `s`.
pub open spec fn mapping_frame(mapping: Map<u64, Handle>, old: Map<u64, Handle>, s: Set<Handle>) -> bool {
    &&& forall|k: u64|
        #[trigger] mapping.contains_key(k) ==> old.contains_key(k) || exists|d: Handle|
            s.contains(d) && d.spec_key() == k
    &&& forall|k: u64|
        #[trigger] old.contains_key(k) && !(exists|d: Handle| s.contains(d) && d.spec_key() == k)
            ==> mapping.contains_key(k) && mapping[k] == old[k]
}

/// Every node of `a` is in `b` with the same name, kind, visibility and body.
pub open spec fn payloads_kept(a: Map<Handle, NodeView>, b: Map<Handle, NodeView>) -> bool {
    &&& a.dom().subset_of(b.dom())
    &&& forall|x: Handle| #[trigger] a.contains_key(x) ==> same_payload(b[x], a[x])
}

/// Copies of nodes stay copies while nodes keep their payloads and bodies are only added.
pub proof fn lemma_mapping_covers_kept(
    src: Map<Handle, NodeView>,
    sp: Pool<RigidBody>,
    dn: Map<Handle, NodeView>,
    dp: Pool<RigidBody>,
    dn2: Map<Handle, NodeView>,
    dp2: Pool<RigidBody>,
    m: Map<u64, Handle>,
    s: Set<Handle>,
)
    requires
        mapping_covers(src, sp, dn, dp, m, s),
        payloads_kept(dn, dn2),
        bodies_kept(dp, dp2),
    ensures
        mapping_covers(src, sp, dn2, dp2, m, s),
{
    assert forall|d: Handle| #[trigger] s.contains(d) implies m.contains_key(d.spec_key()) && copied_node(
        src,
        sp,
        dn2,
        dp2,
        d,
        m[d.spec_key()],
    ) by {
        let x = m[d.spec_key()];
        assert(dn.contains_key(x));
        assert(same_payload(dn2[x], dn[x]));
    }
}

/// One more child of `h` handled: its copy, where it is live, appended to `c`'s
/// children.
pub proof fn lemma_children_copied_step(
    g: Map<Handle, NodeView>,
    sp: Pool<RigidBody>,
    rank: spec_fn(Handle) -> nat,
    h: Handle,
    c: Handle,
    i: int,
    d0: Map<Handle, NodeView>,
    fs: Seq<Set<Handle>>,
    dn: Map<Handle, NodeView>,
    dp: Pool<RigidBody>,
    dn3: Map<Handle, NodeView>,
    dp3: Pool<RigidBody>,
    dch: Handle,
    fi: Set<Handle>,
    oroot: Handle,
)
    requires
        ranked_by(g, rank),
        g.contains_key(h),
        0 <= i < g[h].children.len(),
        children_copied(g, sp, dn, dp, rank, h, c, i, d0, fs),
        fs.len() == i,
        dn.contains_key(c),
        !d0.contains_key(c),
        d0.dom().subset_of(dn.dom()),
        dn.contains_key(oroot) ==> d0.contains_key(oroot),
        dn.dom().subset_of(dn3.dom()),
        forall|x: Handle| #[trigger] dn.contains_key(x) && x != oroot && x != c ==> dn3[x] == dn[x],
        bodies_kept(dp, dp3),
        !g.contains_key(g[h].children[i]) ==> dn3[c].children == dn[c].children,
        g.contains_key(g[h].children[i]) ==> {
            &&& dn3[c].children == dn[c].children.push(dch)
            &&& !dn.contains_key(dch)
            &&& dn3.contains_key(dch)
            &&& dn3[dch].parent == c
            &&& fi.subset_of(dn3.dom().difference(dn.dom()))
            &&& copied(g, sp, dn3, dp3, rank, g[h].children[i], dch, fi)
        },
    ensures
        children_copied(g, sp, dn3, dp3, rank, h, c, i + 1, d0, fs.push(fi)),
{
    let fs2 = fs.push(fi);
    assert forall|j: int|
        0 <= j < i + 1 && g.contains_key(#[trigger] g[h].children[j]) implies {
            let x = dn3[c].children[live_count(g, h, j) as int];
            &&& x != c
            &&& !d0.contains_key(x)
            &&& dn3.contains_key(x)
            &&& dn3[x].parent == c
            &&& fs2[j].subset_of(dn3.dom().difference(d0.dom()).remove(c))
            &&& copied(g, sp, dn3, dp3, rank, g[h].children[j], x, fs2[j])
        } by {
        if j < i {
            lemma_live_count_mono(g, h, j + 1, i);
            let x = dn[c].children[live_count(g, h, j) as int];
            assert(dn3[c].children[live_count(g, h, j) as int] == x);
            assert(x != oroot);
            assert(fs2[j] == fs[j]);
            assert forall|y: Handle| #[trigger] fs[j].contains(y) && y != x implies dn3.contains_key(y) && dn3[y]
                == dn[y] by {
                assert(y != oroot);
            }
            lemma_copied_frame(g, sp, dn, dp, dn3, dp3, rank, g[h].children[j], x, fs[j]);
        } else {
            assert(fs2[j] == fi);
            assert(dn3[c].children[live_count(g, h, j) as int] == dch);
        }
    }
}

/// The mapping after copying one more child: the child's subtree is covered on top of
/// what was covered before.
pub proof fn lemma_mapping_step(
    g: Map<Handle, NodeView>,
    sp: Pool<RigidBody>,
    rank: spec_fn(Handle) -> nat,
    s: Set<Handle>,
    sub: Set<Handle>,
    m0: Map<u64, Handle>,
    map1: Map<u64, Handle>,
    map2: Map<u64, Handle>,
    dn: Map<Handle, NodeView>,
    dp: Pool<RigidBody>,
    dn2: Map<Handle, NodeView>,
    dp2: Pool<RigidBody>,
)
    requires
        mapping_covers(g, sp, dn, dp, map1, s),
        mapping_frame(map1, m0, s),
        mapping_covers(g, sp, dn2, dp2, map2, sub),
        mapping_frame(map2, map1, sub),
        payloads_kept(dn, dn2),
        bodies_kept(dp, dp2),
    ensures
        mapping_covers(g, sp, dn2, dp2, map2, s + sub),
        mapping_frame(map2, m0, s + sub),
{
    lemma_mapping_covers_kept(g, sp, dn, dp, dn2, dp2, map1, s);
    assert forall|d: Handle| #[trigger] (s + sub).contains(d) implies map2.contains_key(d.spec_key())
        && copied_node(g, sp, dn2, dp2, d, map2[d.spec_key()]) by {
        if !sub.contains(d) {
            if exists|e: Handle| sub.contains(e) && e.spec_key() == d.spec_key() {
                let e = choose|e: Handle| sub.contains(e) && e.spec_key() == d.spec_key();
                lemma_key_injective(e, d);
            }
            assert(s.contains(d));
            assert(map1.contains_key(d.spec_key()));
        }
    }
    assert forall|k: u64| #[trigger] map2.contains_key(k) implies m0.contains_key(k) || exists|d: Handle|
        (s + sub).contains(d) && d.spec_key() == k by {
        if !(exists|e: Handle| sub.contains(e) && e.spec_key() == k) {
            assert(map1.contains_key(k));
            if !m0.contains_key(k) {
                let d = choose|d: Handle| s.contains(d) && d.spec_key() == k;
                assert((s + sub).contains(d) && d.spec_key() == k);
            }
        } else {
            let e = choose|e: Handle| sub.contains(e) && e.spec_key() == k;
            assert((s + sub).contains(e) && e.spec_key() == k);
        }
    }
    assert forall|k: u64|
        #[trigger] m0.contains_key(k) && !(exists|d: Handle| (s + sub).contains(d) && d.spec_key() == k)
            implies map2.contains_key(k) && map2[k] == m0[k] by {
        if exists|d: Handle| s.contains(d) && d.spec_key() == k {
            let d = choose|d: Handle| s.contains(d) && d.spec_key() == k;
            assert((s + sub).contains(d));
        }
        if exists|d: Handle| sub.contains(d) && d.spec_key() == k {
            let d = choose|d: Handle| sub.contains(d) && d.spec_key() == k;
            assert((s + sub).contains(d));
        }
    }
}

/// One round of copying the children of `h`: the copy `dch` of the `i`-th child, made
/// from `dn` into `dn2` and then, where the child is live, moved under `c` into `dn3`.
pub proof fn lemma_copy_iteration(
    g: Map<Handle, NodeView>,
    sp: Pool<RigidBody>,
    rank: spec_fn(Handle) -> nat,
    h: Handle,
    c: Handle,
    i: int,
    d0: Map<Handle, NodeView>,
    oroot: Handle,
    fs: Seq<Set<Handle>>,
    m0: Map<u64, Handle>,
    dn: Map<Handle, NodeView>,
    dp: Pool<RigidBody>,
    map1: Map<u64, Handle>,
    dn2: Map<Handle, NodeView>,
    dp2: Pool<RigidBody>,
    map2: Map<u64, Handle>,
    dn3: Map<Handle, NodeView>,
    dch: Handle,
)
    requires
        ranked_by(g, rank),
        g.contains_key(h),
        0 <= i < g[h].children.len(),
        dn.contains_key(c),
        !d0.contains_key(c),
        d0.dom().subset_of(dn.dom()),
        c != oroot,
        dn.contains_key(oroot) ==> d0.contains_key(oroot),
        children_copied(g, sp, dn, dp, rank, h, c, i, d0, fs),
        fs.len() == i,
        mapping_covers(g, sp, dn, dp, map1, set![h] + subtree_prefix(g, rank, h, i)),
        mapping_frame(map1, m0, set![h] + subtree_prefix(g, rank, h, i)),
        map1.contains_key(h.spec_key()),
        map1[h.spec_key()] == c,
        dch.spec_is_none() == !g.contains_key(g[h].children[i]),
        dch.spec_is_none() ==> dn2 == dn && dp2 == dp && map2 == map1,
        dn.dom().subset_of(dn2.dom()),
        dn2.contains_key(oroot) ==> dn.contains_key(oroot),
        forall|x: Handle| #[trigger] dn.contains_key(x) && x != oroot ==> dn2[x] == dn[x],
        dn.contains_key(oroot) ==> dn2[oroot] == (NodeView { children: dn2[oroot].children, ..dn[oroot] }),
        bodies_kept(dp, dp2),
        !dch.spec_is_none() ==> copied(g, sp, dn2, dp2, rank, g[h].children[i], dch, dn2.dom().difference(dn.dom()))
            && dn2[dch].parent == oroot,
        mapping_covers(g, sp, dn2, dp2, map2, subtree(g, rank, g[h].children[i])),
        mapping_frame(map2, map1, subtree(g, rank, g[h].children[i])),
        !dch.spec_is_none() ==> dn3 == link_graph(dn2, dch, c),
        dch.spec_is_none() ==> dn3 == dn2,
    ensures
        dn3.contains_key(c),
        d0.dom().subset_of(dn3.dom()),
        dn3.contains_key(oroot) ==> d0.contains_key(oroot),
        forall|x: Handle| #[trigger] dn.contains_key(x) && x != oroot && x != c ==> dn3[x] == dn[x],
        dn3[c] == (NodeView { children: dn3[c].children, ..dn[c] }),
        dn.contains_key(oroot) ==> dn3[oroot] == (NodeView { children: dn3[oroot].children, ..dn[oroot] }),
        dn2.dom().difference(dn.dom()).subset_of(dn3.dom().difference(d0.dom())),
        dn.dom().subset_of(dn3.dom()),
        children_copied(g, sp, dn3, dp2, rank, h, c, i + 1, d0, fs.push(dn2.dom().difference(dn.dom()))),
        mapping_covers(g, sp, dn3, dp2, map2, set![h] + subtree_prefix(g, rank, h, i + 1)),
        mapping_frame(map2, m0, set![h] + subtree_prefix(g, rank, h, i + 1)),
        map2.contains_key(h.spec_key()),
        map2[h.spec_key()] == c,
{
    let child = g[h].children[i];
    let sub = subtree(g, rank, child);
    let fi = dn2.dom().difference(dn.dom());
    if g.contains_key(child) {
        assert(fi.contains(dch));
        lemma_link_move(dn2, dch, c, oroot);
        lemma_link_keeps_nodes(dn2, dch, c);
        assert forall|x: Handle| #[trigger] fi.contains(x) && x != dch implies dn3.contains_key(x) && dn3[x]
            == dn2[x] by {
            assert(x != oroot);
            assert(x != c);
        }
        lemma_copied_frame(g, sp, dn2, dp2, dn3, dp2, rank, child, dch, fi);
    } else {
        lemma_link_keeps_nodes(dn2, c, c);
    }
    assert forall|x: Handle| #[trigger] dn.contains_key(x) && x != oroot && x != c implies dn3[x] == dn[x] by {
        assert(dn2[x] == dn[x]);
    }
    assert(payloads_kept(dn, dn3)) by {
        assert forall|x: Handle| #[trigger] dn.contains_key(x) implies same_payload(dn3[x], dn[x]) by {
            assert(same_payload(dn2[x], dn[x]));
        }
    }
    assert(payloads_kept(dn2, dn3)) by {
        assert forall|x: Handle| #[trigger] dn2.contains_key(x) implies same_payload(dn3[x], dn2[x]) by {}
    }
    lemma_children_copied_step(g, sp, rank, h, c, i, d0, fs, dn, dp, dn3, dp2, dch, fi, oroot);
    lemma_subtree_shape(g, rank, child);
    assert(!sub.contains(h));
    let s_i = set![h] + subtree_prefix(g, rank, h, i);
    assert(set![h] + subtree_prefix(g, rank, h, i + 1) =~= s_i + sub);
    lemma_mapping_covers_kept(g, sp, dn2, dp2, dn3, dp2, map2, sub);
    lemma_mapping_step(g, sp, rank, s_i, sub, m0, map1, map2, dn, dp, dn3, dp2);
    if exists|e: Handle| sub.contains(e) && e.spec_key() == h.spec_key() {
        let e = choose|e: Handle| sub.contains(e) && e.spec_key() == h.spec_key();
        lemma_key_injective(e, h);
    }
}

/// No handle of `f` occurs in `s`.
#[verifier::opaque]
pub open spec fn avoids(s: Seq<Handle>, f: Set<Handle>) -> bool {
    forall|x: Handle| #[trigger] f.contains(x) ==> !s.contains(x)
}

/// The children of the destination root after one more child copy: the copy, hung from
/// the root and then moved under `c`, leaves the root's children as they were.
pub proof fn lemma_root_children_step(
    d0: Map<Handle, NodeView>,
    dn: Map<Handle, NodeView>,
    dn2: Map<Handle, NodeView>,
    dn3: Map<Handle, NodeView>,
    oroot: Handle,
    c: Handle,
    dch: Handle,
)
    requires
        d0.dom().subset_of(dn.dom()),
        dn.dom().subset_of(dn2.dom()),
        dn.contains_key(c),
        !d0.contains_key(c),
        c != oroot,
        d0.contains_key(oroot) && avoids(d0[oroot].children, dn.dom().difference(d0.dom()))
            ==> dn[oroot].children == d0[oroot].children.push(c),
        !dch.spec_is_none() && dn.contains_key(oroot) && avoids(dn[oroot].children, dn2.dom().difference(dn.dom()))
            ==> dn2[oroot].children == dn[oroot].children.push(dch),
        dch.spec_is_none() ==> dn3 == dn,
        !dch.spec_is_none() ==> {
            &&& dn2.contains_key(dch)
            &&& !dn.contains_key(dch)
            &&& dn2[dch].parent == oroot
            &&& dn3 == link_graph(dn2, dch, c)
        },
    ensures
        d0.contains_key(oroot) && avoids(d0[oroot].children, dn3.dom().difference(d0.dom()))
            ==> dn3[oroot].children == d0[oroot].children.push(c),
{
    reveal(avoids);
    lemma_link_keeps_nodes(dn2, dch, c);
    if d0.contains_key(oroot) && avoids(d0[oroot].children, dn3.dom().difference(d0.dom())) {
        let s0 = d0[oroot].children;
        if dch.spec_is_none() {
            assert(dn.dom().difference(d0.dom()) =~= dn3.dom().difference(d0.dom()));
        } else {
            assert forall|x: Handle| #[trigger] dn.dom().difference(d0.dom()).contains(x) implies !s0.contains(x) by {
                assert(dn3.dom().difference(d0.dom()).contains(x));
            }
            assert(dn[oroot].children == s0.push(c));
            assert forall|x: Handle| #[trigger] dn2.dom().difference(dn.dom()).contains(x) implies !s0.push(c).contains(
                x,
            ) by {
                assert(dn3.dom().difference(d0.dom()).contains(x));
                assert(!s0.contains(x));
                if s0.push(c).contains(x) {
                    let k = choose|k: int| 0 <= k < s0.push(c).len() && s0.push(c)[k] == x;
                    if k < s0.len() {
                        assert(s0[k] == x);
                    }
                }
            }
            let s1 = s0.push(c).push(dch);
            assert(dn2[oroot].children == s1);
            assert(dn2.dom().difference(dn.dom()).contains(dch));
            assert(!s0.push(c).contains(dch));
            lemma_first_index(s1, dch);
            match first_index(s1, dch) {
                Some(j) => {
                    if j < s0.len() + 1 {
                        assert(s0.push(c)[j] == dch);
                    }
                    assert(j == s0.len() + 1);
                },
                None => {
                    assert(s1[s0.len() as int + 1] == dch);
                },
            }
            assert(dch != c);
            assert(dch != oroot);
            assert(s1.remove(s0.len() as int + 1) =~= s0.push(c));
        }
    }
}

/// Going from the pool `v0` with graph `g0` to the pool `v` with graph `g`,
/// generations only grew and every node added was not yet handed out by `v0`.
#[verifier::opaque]
pub open spec fn fresh_since(
    v0: Seq<PoolRecord<Node>>,
    g0: Map<Handle, NodeView>,
    v: Seq<PoolRecord<Node>>,
    g: Map<Handle, NodeView>,
) -> bool {
    &&& generations_grow(v0, v)
    &&& forall|x: Handle| #[trigger] g.dom().difference(g0.dom()).contains(x) ==> !slot_issued(v0, x)
}

/// Nothing added, nothing changed.
pub proof fn lemma_fresh_refl(v: Seq<PoolRecord<Node>>, g: Map<Handle, NodeView>)
    ensures
        fresh_since(v, g, v, g),
{
    reveal(fresh_since);
}

/// Adding one node that the pool had not handed out.
pub proof fn lemma_fresh_add(
    v0: Seq<PoolRecord<Node>>,
    g0: Map<Handle, NodeView>,
    v: Seq<PoolRecord<Node>>,
    g: Map<Handle, NodeView>,
    h: Handle,
)
    requires
        generations_grow(v0, v),
        g.dom() == g0.dom().insert(h),
        !slot_issued(v0, h),
    ensures
        fresh_since(v0, g0, v, g),
{
    reveal(fresh_since);
}

/// Freshness composes over one more child copy, and the move of that copy under `c`.
pub proof fn lemma_fresh_step(
    v0: Seq<PoolRecord<Node>>,
    g0: Map<Handle, NodeView>,
    vn: Seq<PoolRecord<Node>>,
    dn: Map<Handle, NodeView>,
    vn2: Seq<PoolRecord<Node>>,
    dn2: Map<Handle, NodeView>,
    vn3: Seq<PoolRecord<Node>>,
    dn3: Map<Handle, NodeView>,
    c: Handle,
    dch: Handle,
)
    requires
        fresh_since(v0, g0, vn, dn),
        fresh_since(vn, dn, vn2, dn2),
        g0.dom().subset_of(dn.dom()),
        dn.dom().subset_of(dn2.dom()),
        same_slots(vn2, vn3),
        dch.spec_is_none() ==> dn3 == dn2,
        !dch.spec_is_none() ==> dn3 == link_graph(dn2, dch, c),
    ensures
        fresh_since(v0, g0, vn3, dn3),
{
    reveal(fresh_since);
    lemma_link_keeps_nodes(dn2, dch, c);
    assert forall|x: Handle| #[trigger] dn3.dom().difference(g0.dom()).contains(x) implies !slot_issued(v0, x) by {
        if dn.dom().contains(x) {
            assert(dn.dom().difference(g0.dom()).contains(x));
        } else {
            assert(dn2.dom().difference(dn.dom()).contains(x));
            if slot_issued(v0, x) {
                crate::utils::pool::lemma_issued_grow(v0, vn, x);
            }
        }
    }
}

/// Where every link of the old graph was handed out, no added node was among the
/// old root's children.
pub proof fn lemma_fresh_avoids(
    v0: Seq<PoolRecord<Node>>,
    g0: Map<Handle, NodeView>,
    v: Seq<PoolRecord<Node>>,
    g: Map<Handle, NodeView>,
    root: Handle,
)
    requires
        fresh_since(v0, g0, v, g),
        links_issued(v0, g0),
        g0.contains_key(root),
    ensures
        avoids(g0[root].children, g.dom().difference(g0.dom())),
{
    reveal(fresh_since);
    reveal(avoids);
    assert forall|x: Handle| #[trigger] g.dom().difference(g0.dom()).contains(x) implies !g0[root].children.contains(
        x,
    ) by {
        assert(view_links_issued(v0, g0[root]));
        if g0[root].children.contains(x) {
            let i = choose|i: int| 0 <= i < g0[root].children.len() && g0[root].children[i] == x;
            assert(slot_issued(v0, g0[root].children[i]));
        }
    }
}

/// The active camera once the first `i` children of `h` are copied: the last copy of the
/// last camera below them, as the mapping records it; where there is none, the copy `c`
/// of `h` if `h` is a camera, else the camera from before.
pub open spec fn camera_after(
    g: Map<Handle, NodeView>,
    rank: spec_fn(Handle) -> nat,
    h: Handle,
    i: int,
    c: Handle,
    before: Handle,
    cam: Handle,
    map: Map<u64, Handle>,
) -> bool {
    match last_camera_children(g, rank, h, i) {
        Some(x) => map.contains_key(x.spec_key()) && cam == map[x.spec_key()],
        None => cam == (if g[h].kind == NodeKind::Camera {
            c
        } else {
            before
        }),
    }
}

/// One more child copied: its last camera, if any, becomes the active one.
pub proof fn lemma_camera_step(
    g: Map<Handle, NodeView>,
    rank: spec_fn(Handle) -> nat,
    h: Handle,
    i: int,
    c: Handle,
    before: Handle,
    cam1: Handle,
    map1: Map<u64, Handle>,
    cam2: Handle,
    map2: Map<u64, Handle>,
)
    requires
        ranked_by(g, rank),
        g.contains_key(h),
        0 <= i < g[h].children.len(),
        camera_after(g, rank, h, i, c, before, cam1, map1),
        match last_camera(g, rank, g[h].children[i]) {
            Some(y) => map2.contains_key(y.spec_key()) && cam2 == map2[y.spec_key()],
            None => cam2 == cam1,
        },
        mapping_frame(map2, map1, subtree(g, rank, g[h].children[i])),
    ensures
        camera_after(g, rank, h, i + 1, c, before, cam2, map2),
{
    let ch = g[h].children[i];
    assert(rank(ch) < rank(h));
    lemma_last_camera(g, rank, ch);
    lemma_last_camera_children(g, rank, h, i);
    if last_camera(g, rank, ch) is None {
        match last_camera_children(g, rank, h, i) {
            Some(x) => {
                if exists|d: Handle| subtree(g, rank, ch).contains(d) && d.spec_key() == x.spec_key() {
                    let d = choose|d: Handle| subtree(g, rank, ch).contains(d) && d.spec_key() == x.spec_key();
                    lemma_key_injective(d, x);
                    assert(subtree(g, rank, ch).contains(x) && g.contains_key(x));
                }
            },
            None => {},
        }
    }
}

/// Going from `d0` to `d`, exactly `n` nodes were added.
#[verifier::opaque]
pub open spec fn added_count(d0: Map<Handle, NodeView>, d: Map<Handle, NodeView>, n: nat) -> bool {
    &&& d.dom().difference(d0.dom()).finite()
    &&& d.dom().difference(d0.dom()).len() == n
}

/// Nothing added.
pub proof fn lemma_added_none(d: Map<Handle, NodeView>)
    ensures
        added_count(d, d, 0),
{
    reveal(added_count);
    assert(d.dom().difference(d.dom()) =~= Set::empty());
}

/// One node added.
pub proof fn lemma_added_one(d0: Map<Handle, NodeView>, d: Map<Handle, NodeView>, c: Handle)
    requires
        d.dom() == d0.dom().insert(c),
        !d0.contains_key(c),
    ensures
        added_count(d0, d, 1),
{
    reveal(added_count);
    assert(d.dom().difference(d0.dom()) =~= set![c]);
}

/// The nodes added in two stages, the second followed by a move of one of its nodes.
pub proof fn lemma_added_step(
    d0: Map<Handle, NodeView>,
    dn: Map<Handle, NodeView>,
    dn2: Map<Handle, NodeView>,
    dn3: Map<Handle, NodeView>,
    n1: nat,
    n2: nat,
    dch: Handle,
    c: Handle,
)
    requires
        added_count(d0, dn, n1),
        added_count(dn, dn2, n2),
        d0.dom().subset_of(dn.dom()),
        dn.dom().subset_of(dn2.dom()),
        dch.spec_is_none() ==> dn3 == dn2,
        !dch.spec_is_none() ==> dn3 == link_graph(dn2, dch, c),
    ensures
        added_count(d0, dn3, n1 + n2),
{
    reveal(added_count);
    lemma_link_keeps_nodes(dn2, dch, c);
    let a = dn.dom().difference(d0.dom());
    let b = dn2.dom().difference(dn.dom());
    assert(dn3.dom().difference(d0.dom()) =~= a + b);
    assert(a.disjoint(b));
    vstd::set_lib::lemma_set_disjoint_lens(a, b);
}

/// The mapping holds, at the key of each node of `s`, a node added going from `d0` to `d`.
#[verifier::opaque]
pub open spec fn mapped_to_new(
    map: Map<u64, Handle>,
    s: Set<Handle>,
    d0: Map<Handle, NodeView>,
    d: Map<Handle, NodeView>,
) -> bool {
    forall|x: Handle|
        #[trigger] s.contains(x) ==> map.contains_key(x.spec_key()) && d.dom().difference(d0.dom()).contains(
            map[x.spec_key()],
        )
}

/// Nothing to map.
pub proof fn lemma_mapped_empty(map: Map<u64, Handle>, d0: Map<Handle, NodeView>, d: Map<Handle, NodeView>)
    ensures
        mapped_to_new(map, Set::empty(), d0, d),
{
    reveal(mapped_to_new);
}

/// The node's own entry, to its fresh copy.
pub proof fn lemma_mapped_one(
    map: Map<u64, Handle>,
    h: Handle,
    c: Handle,
    d0: Map<Handle, NodeView>,
    d: Map<Handle, NodeView>,
)
    requires
        map.contains_key(h.spec_key()),
        map[h.spec_key()] == c,
        d.contains_key(c),
        !d0.contains_key(c),
    ensures
        mapped_to_new(map, set![h], d0, d),
{
    reveal(mapped_to_new);
}

/// The entries of one more child subtree come on top of the earlier ones.
pub proof fn lemma_mapped_step(
    map1: Map<u64, Handle>,
    map2: Map<u64, Handle>,
    s1: Set<Handle>,
    s2: Set<Handle>,
    d0: Map<Handle, NodeView>,
    dn: Map<Handle, NodeView>,
    dn2: Map<Handle, NodeView>,
    dn3: Map<Handle, NodeView>,
    dch: Handle,
    c: Handle,
)
    requires
        mapped_to_new(map1, s1, d0, dn),
        mapped_to_new(map2, s2, dn, dn2),
        mapping_frame(map2, map1, s2),
        d0.dom().subset_of(dn.dom()),
        dn.dom().subset_of(dn2.dom()),
        dch.spec_is_none() ==> dn3 == dn2,
        !dch.spec_is_none() ==> dn3 == link_graph(dn2, dch, c),
    ensures
        mapped_to_new(map2, s1 + s2, d0, dn3),
{
    reveal(mapped_to_new);
    lemma_link_keeps_nodes(dn2, dch, c);
    assert forall|x: Handle| #[trigger] (s1 + s2).contains(x) implies map2.contains_key(x.spec_key())
        && dn3.dom().difference(d0.dom()).contains(map2[x.spec_key()]) by {
        if s2.contains(x) {
            assert(dn2.dom().difference(dn.dom()).contains(map2[x.spec_key()]));
        } else {
            assert(s1.contains(x));
            if exists|d: Handle| s2.contains(d) && d.spec_key() == x.spec_key() {
                let d = choose|d: Handle| s2.contains(d) && d.spec_key() == x.spec_key();
                lemma_key_injective(d, x);
            }
            assert(map1.contains_key(x.spec_key()));
            assert(map2[x.spec_key()] == map1[x.spec_key()]);
            assert(dn.dom().difference(d0.dom()).contains(map1[x.spec_key()]));
        }
    }
}

/// Every node added going from `d0` to `d` that has a body has one of its own: a body
/// of `dp` that `dp0` did not hold, held by no other added node.
#[verifier::opaque]
pub open spec fn bodies_fresh(
    dp0: Pool<RigidBody>,
    d0: Map<Handle, NodeView>,
    dp: Pool<RigidBody>,
    d: Map<Handle, NodeView>,
) -> bool {
    &&& forall|x: Handle|
        #[trigger] d.dom().difference(d0.dom()).contains(x) && d[x].body != Handle::spec_none() ==> dp.live(
            d[x].body,
        ) && !dp0.live(d[x].body)
    &&& forall|x: Handle, y: Handle|
        #![trigger d.dom().difference(d0.dom()).contains(x), d.dom().difference(d0.dom()).contains(y)]
        d.dom().difference(d0.dom()).contains(x) && d.dom().difference(d0.dom()).contains(y) && x != y
            && d[x].body != Handle::spec_none() ==> d[x].body != d[y].body
}

/// No node added, nothing to say.
pub proof fn lemma_bodies_fresh_none(dp0: Pool<RigidBody>, d: Map<Handle, NodeView>, dp: Pool<RigidBody>)
    ensures
        bodies_fresh(dp0, d, dp, d),
{
    reveal(bodies_fresh);
}

/// One node added, with no body or with a body just made.
pub proof fn lemma_bodies_fresh_one(
    dp0: Pool<RigidBody>,
    d0: Map<Handle, NodeView>,
    dp: Pool<RigidBody>,
    d: Map<Handle, NodeView>,
    c: Handle,
)
    requires
        d.dom() == d0.dom().insert(c),
        !d0.contains_key(c),
        d[c].body != Handle::spec_none() ==> dp.live(d[c].body) && !dp0.live(d[c].body),
    ensures
        bodies_fresh(dp0, d0, dp, d),
{
    reveal(bodies_fresh);
    assert(d.dom().difference(d0.dom()) =~= set![c]);
}

/// Fresh bodies over one more child copy and the move of that copy under `c`.
pub proof fn lemma_bodies_fresh_step(
    dp0: Pool<RigidBody>,
    d0: Map<Handle, NodeView>,
    dpn: Pool<RigidBody>,
    dn: Map<Handle, NodeView>,
    dp2: Pool<RigidBody>,
    dn2: Map<Handle, NodeView>,
    dn3: Map<Handle, NodeView>,
    oroot: Handle,
    dch: Handle,
    c: Handle,
)
    requires
        bodies_fresh(dp0, d0, dpn, dn),
        bodies_fresh(dpn, dn, dp2, dn2),
        bodies_kept(dp0, dpn),
        bodies_kept(dpn, dp2),
        d0.dom().subset_of(dn.dom()),
        dn.dom().subset_of(dn2.dom()),
        dn.contains_key(oroot) ==> d0.contains_key(oroot),
        forall|x: Handle| #[trigger] dn.contains_key(x) && x != oroot ==> dn2[x] == dn[x],
        dch.spec_is_none() ==> dn3 == dn2,
        !dch.spec_is_none() ==> dn3 == link_graph(dn2, dch, c),
    ensures
        bodies_fresh(dp0, d0, dp2, dn3),
{
    reveal(bodies_fresh);
    lemma_link_keeps_nodes(dn2, dch, c);
    let a = dn.dom().difference(d0.dom());
    let b = dn2.dom().difference(dn.dom());
    let all = dn3.dom().difference(d0.dom());
    assert(all =~= a + b);
    assert forall|x: Handle| #[trigger] all.contains(x) implies dn3[x].body == dn2[x].body by {
        assert(dn2.contains_key(x));
        assert(same_payload(dn3[x], dn2[x]));
    }
    assert forall|x: Handle| #[trigger] a.contains(x) implies dn2[x].body == dn[x].body by {
        assert(x != oroot);
    }
    assert forall|x: Handle| #[trigger] all.contains(x) && dn3[x].body != Handle::spec_none() implies dp2.live(
        dn3[x].body,
    ) && !dp0.live(dn3[x].body) by {
        if a.contains(x) {
            assert(dn.dom().difference(d0.dom()).contains(x));
        } else {
            assert(b.contains(x));
            assert(dn2.dom().difference(dn.dom()).contains(x));
        }
    }
    assert forall|x: Handle, y: Handle|
        #![trigger all.contains(x), all.contains(y)]
        all.contains(x) && all.contains(y) && x != y && dn3[x].body != Handle::spec_none() implies dn3[x].body
            != dn3[y].body by {
        if a.contains(x) && a.contains(y) {
            assert(dn.dom().difference(d0.dom()).contains(x) && dn.dom().difference(d0.dom()).contains(y));
        } else if b.contains(x) && b.contains(y) {
            assert(dn2.dom().difference(dn.dom()).contains(x) && dn2.dom().difference(dn.dom()).contains(y));
        } else if a.contains(x) {
            assert(dn.dom().difference(d0.dom()).contains(x));
            assert(dn2.dom().difference(dn.dom()).contains(y));
            if dn3[y].body != Handle::spec_none() {
                assert(!dpn.live(dn3[y].body));
            }
        } else {
            assert(dn2.dom().difference(dn.dom()).contains(x));
            assert(dn.dom().difference(d0.dom()).contains(y));
            if dn3[y].body != Handle::spec_none() {
                assert(dpn.live(dn3[y].body));
            }
        }
    }
}

/// The copy that `map` records for node `n` of `g` has as its children, in order, the
/// copies that `map` records for `n`'s live children.
pub open spec fn node_mapped(g: Map<Handle, NodeView>, n: Handle, dst: Map<Handle, NodeView>, map: Map<u64, Handle>) -> bool {
    &&& map.contains_key(n.spec_key())
    &&& dst.contains_key(map[n.spec_key()])
    &&& dst[map[n.spec_key()]].children.len() == live_count(g, n, g[n].children.len() as int)
    &&& forall|j: int|
        0 <= j < g[n].children.len() && g.contains_key(#[trigger] g[n].children[j]) ==> map.contains_key(
            g[n].children[j].spec_key(),
        ) && dst[map[n.spec_key()]].children[live_count(g, n, j) as int] == map[g[n].children[j].spec_key()]
}

/// Every node of `s` is mapped as `node_mapped` says.
#[verifier::opaque]
pub open spec fn tree_mapped(g: Map<Handle, NodeView>, s: Set<Handle>, dst: Map<Handle, NodeView>, map: Map<u64, Handle>) -> bool {
    forall|n: Handle| #[trigger] s.contains(n) ==> node_mapped(g, n, dst, map)
}

/// The copies of the first `i` live children of `h` that `map` records are, in order,
/// the first children of `c`.
#[verifier::opaque]
pub open spec fn children_mapped(
    g: Map<Handle, NodeView>,
    h: Handle,
    i: int,
    dst: Map<Handle, NodeView>,
    c: Handle,
    map: Map<u64, Handle>,
) -> bool {
    forall|j: int|
        0 <= j < i && g.contains_key(#[trigger] g[h].children[j]) ==> {
            &&& map.contains_key(g[h].children[j].spec_key())
            &&& dst.contains_key(c)
            &&& live_count(g, h, j) < dst[c].children.len()
            &&& dst[c].children[live_count(g, h, j) as int] == map[g[h].children[j].spec_key()]
        }
}

/// Nothing mapped yet.
pub proof fn lemma_tree_mapped_empty(
    g: Map<Handle, NodeView>,
    h: Handle,
    dst: Map<Handle, NodeView>,
    c: Handle,
    map: Map<u64, Handle>,
)
    ensures
        tree_mapped(g, Set::empty(), dst, map),
        children_mapped(g, h, 0, dst, c, map),
{
    reveal(tree_mapped);
    reveal(children_mapped);
}

/// One more child of `h` copied and moved under the copy `c` of `h`: the mapping of the
/// nodes below the first `i + 1` children is in place.
pub proof fn lemma_tree_step(
    g: Map<Handle, NodeView>,
    rank: spec_fn(Handle) -> nat,
    h: Handle,
    i: int,
    c: Handle,
    oroot: Handle,
    d1: Map<Handle, NodeView>,
    map1: Map<u64, Handle>,
    dn: Map<Handle, NodeView>,
    map2: Map<u64, Handle>,
    dn2: Map<Handle, NodeView>,
    dn3: Map<Handle, NodeView>,
    dch: Handle,
)
    requires
        ranked_by(g, rank),
        consistent(g),
        g.contains_key(h),
        0 <= i < g[h].children.len(),
        tree_mapped(g, subtree_prefix(g, rank, h, i), dn, map1),
        children_mapped(g, h, i, dn, c, map1),
        mapped_to_new(map1, subtree_prefix(g, rank, h, i), d1, dn),
        d1.dom().subset_of(dn.dom()),
        d1.contains_key(c),
        dn.contains_key(oroot) ==> d1.contains_key(oroot),
        c != oroot,
        dn[c].children.len() == live_count(g, h, i),
        tree_mapped(g, subtree(g, rank, g[h].children[i]), dn2, map2),
        mapped_to_new(map2, subtree(g, rank, g[h].children[i]), dn, dn2),
        mapping_frame(map2, map1, subtree(g, rank, g[h].children[i])),
        dn.dom().subset_of(dn2.dom()),
        dn2.contains_key(oroot) ==> dn.contains_key(oroot),
        forall|x: Handle| #[trigger] dn.contains_key(x) && x != oroot ==> dn2[x] == dn[x],
        g.contains_key(g[h].children[i]) == !dch.spec_is_none(),
        dch.spec_is_none() ==> dn3 == dn2,
        !dch.spec_is_none() ==> {
            &&& map2.contains_key(g[h].children[i].spec_key())
            &&& map2[g[h].children[i].spec_key()] == dch
            &&& dn2.contains_key(dch)
            &&& !dn.contains_key(dch)
            &&& dn2[dch].parent == oroot
            &&& dn3 == link_graph(dn2, dch, c)
        },
    ensures
        tree_mapped(g, subtree_prefix(g, rank, h, i + 1), dn3, map2),
        children_mapped(g, h, i + 1, dn3, c, map2),
        dn3[c].children.len() == live_count(g, h, i + 1),
{
    reveal(tree_mapped);
    reveal(children_mapped);
    reveal(mapped_to_new);
    let ch = g[h].children[i];
    let pre = subtree_prefix(g, rank, h, i);
    let sub = subtree(g, rank, ch);
    assert(rank(ch) < rank(h));
    assert(subtree_prefix(g, rank, h, i + 1) == pre + sub);
    lemma_subtree_prefix_member(g, rank, h, i);
    assert(dn.contains_key(c));
    assert(dn2[c] == dn[c]);
    if !dch.spec_is_none() {
        assert(dch != c);
        assert(oroot != dch);
        lemma_link_move(dn2, dch, c, oroot);
    }
    // No node below the first `i` children lies below child `i`, so their entries stay.
    assert forall|x: Handle| #[trigger] pre.contains(x) implies !sub.contains(x) && map2.contains_key(x.spec_key())
        && map2[x.spec_key()] == map1[x.spec_key()] by {
        let j = choose|j: int| 0 <= j < i && #[trigger] subtree(g, rank, g[h].children[j]).contains(x);
        lemma_siblings_disjoint(g, rank, h, j, i, x);
        if exists|d: Handle| sub.contains(d) && d.spec_key() == x.spec_key() {
            let d = choose|d: Handle| sub.contains(d) && d.spec_key() == x.spec_key();
            lemma_key_injective(d, x);
        }
    }
    assert forall|n: Handle| #[trigger] (pre + sub).contains(n) implies node_mapped(g, n, dn3, map2) by {
        if pre.contains(n) {
            assert(node_mapped(g, n, dn, map1));
            let xn = map1[n.spec_key()];
            assert(dn.dom().difference(d1.dom()).contains(xn));
            assert(xn != c && xn != oroot);
            assert(dn3[xn] == dn[xn]);
            let j0 = choose|j: int| 0 <= j < i && #[trigger] subtree(g, rank, g[h].children[j]).contains(n);
            lemma_subtree_shape(g, rank, g[h].children[j0]);
            assert forall|j: int|
                0 <= j < g[n].children.len() && g.contains_key(#[trigger] g[n].children[j]) implies map2.contains_key(
                    g[n].children[j].spec_key(),
                ) && dn3[map2[n.spec_key()]].children[live_count(g, n, j) as int] == map2[g[n].children[j].spec_key()] by {
                let m = g[n].children[j];
                assert(subtree(g, rank, g[h].children[j0]).contains(m));
                assert(pre.contains(m));
            }
        } else {
            assert(sub.contains(n));
            assert(node_mapped(g, n, dn2, map2));
            let xn = map2[n.spec_key()];
            assert(dn2.dom().difference(dn.dom()).contains(xn));
            assert(xn != c && xn != oroot);
            assert(dn3[xn].children == dn2[xn].children);
        }
    }
    assert forall|j: int| 0 <= j < i + 1 && g.contains_key(#[trigger] g[h].children[j]) implies {
        &&& map2.contains_key(g[h].children[j].spec_key())
        &&& dn3.contains_key(c)
        &&& live_count(g, h, j) < dn3[c].children.len()
        &&& dn3[c].children[live_count(g, h, j) as int] == map2[g[h].children[j].spec_key()]
    } by {
        if j < i {
            let cj = g[h].children[j];
            lemma_subtree_shape(g, rank, cj);
            assert(subtree(g, rank, cj).contains(cj)) by {
                reveal_with_fuel(subtree, 1);
            }
            assert(pre.contains(cj));
            lemma_live_count_mono(g, h, j + 1, i);
        }
    }
}

/// The mapping of the tree below `h` is in place once all children are copied.
pub proof fn lemma_tree_finish(
    g: Map<Handle, NodeView>,
    rank: spec_fn(Handle) -> nat,
    h: Handle,
    c: Handle,
    dst: Map<Handle, NodeView>,
    map: Map<u64, Handle>,
)
    requires
        ranked_by(g, rank),
        g.contains_key(h),
        tree_mapped(g, subtree_prefix(g, rank, h, child_count(g, h)), dst, map),
        children_mapped(g, h, child_count(g, h), dst, c, map),
        map.contains_key(h.spec_key()),
        map[h.spec_key()] == c,
        dst.contains_key(c),
        dst[c].children.len() == live_count(g, h, child_count(g, h)),
    ensures
        tree_mapped(g, subtree(g, rank, h), dst, map),
{
    reveal(tree_mapped);
    reveal(children_mapped);
    let n = child_count(g, h);
    assert(subtree(g, rank, h) == set![h] + subtree_prefix(g, rank, h, n));
    assert forall|x: Handle| #[trigger] subtree(g, rank, h).contains(x) implies node_mapped(g, x, dst, map) by {
        if x == h {
            assert forall|j: int| 0 <= j < g[h].children.len() && g.contains_key(#[trigger] g[h].children[j]) implies map.contains_key(
                g[h].children[j].spec_key(),
            ) && dst[map[h.spec_key()]].children[live_count(g, h, j) as int] == map[g[h].children[j].spec_key()] by {}
        } else {
            assert(subtree_prefix(g, rank, h, n).contains(x));
        }
    }
}

/// Counting the live children of `n` gives the same in a closed part of `g` that holds `n`.
proof fn lemma_live_count_region(g: Map<Handle, NodeView>, r: Map<Handle, NodeView>, n: Handle, k: int)
    requires
        is_region(g, r),
        r.contains_key(n),
    ensures
        live_count(r, n, k) == live_count(g, n, k),
    decreases k,
{
    if k > 0 && k <= g[n].children.len() {
        lemma_live_count_region(g, r, n, k - 1);
        let m = g[n].children[k - 1];
        if g.contains_key(m) {
            assert(r.contains_key(m));
        }
    }
}

/// A node mapped as `node_mapped` says within a closed part of `g` is mapped so within `g`.
proof fn lemma_node_mapped_region(
    g: Map<Handle, NodeView>,
    r: Map<Handle, NodeView>,
    n: Handle,
    dst: Map<Handle, NodeView>,
    map: Map<u64, Handle>,
)
    requires
        is_region(g, r),
        r.contains_key(n),
        node_mapped(r, n, dst, map),
    ensures
        node_mapped(g, n, dst, map),
{
    lemma_live_count_region(g, r, n, g[n].children.len() as int);
    assert forall|j: int|
        0 <= j < g[n].children.len() && g.contains_key(#[trigger] g[n].children[j]) implies map.contains_key(
            g[n].children[j].spec_key(),
        ) && dst[map[n.spec_key()]].children[live_count(g, n, j) as int] == map[g[n].children[j].spec_key()] by {
        assert(r.contains_key(g[n].children[j]));
        lemma_live_count_region(g, r, n, j);
    }
}

/// The copy of `h` is complete once the copies of all its children are in place.
pub proof fn lemma_copy_finish(
    g: Map<Handle, NodeView>,
    sp: Pool<RigidBody>,
    rank: spec_fn(Handle) -> nat,
    h: Handle,
    c: Handle,
    d0: Map<Handle, NodeView>,
    fs: Seq<Set<Handle>>,
    dn: Map<Handle, NodeView>,
    dp: Pool<RigidBody>,
    cv: NodeView,
)
    requires
        ranked_by(g, rank),
        g.contains_key(h),
        dn.contains_key(c),
        !d0.contains_key(c),
        dn[c] == (NodeView { children: dn[c].children, ..cv }),
        cv.name == g[h].name,
        cv.kind == g[h].kind,
        cv.visibility == g[h].visibility,
        cv.global_visibility == g[h].global_visibility,
        body_copied(sp, dp, g[h].body, cv.body),
        children_copied(g, sp, dn, dp, rank, h, c, g[h].children.len() as int, d0, fs),
    ensures
        copied(g, sp, dn, dp, rank, h, c, dn.dom().difference(d0.dom())),
{
    let f = dn.dom().difference(d0.dom());
    assert forall|j: int| 0 <= j < g[h].children.len() && g.contains_key(#[trigger] g[h].children[j]) implies {
        let x = dn[c].children[live_count(g, h, j) as int];
        &&& x != c
        &&& f.contains(x)
        &&& dn.contains_key(x)
        &&& dn[x].parent == c
        &&& copied(g, sp, dn, dp, rank, g[h].children[j], x, f.remove(c))
    } by {
        let x = dn[c].children[live_count(g, h, j) as int];
        lemma_copied_grow(g, sp, dn, dp, rank, g[h].children[j], x, fs[j], f.remove(c));
    }
}

/// Among more children there are at least as many live ones.
pub proof fn lemma_live_count_mono(g: Map<Handle, NodeView>, h: Handle, k: int, n: int)
    requires
        g.contains_key(h),
        0 <= k <= n <= g[h].children.len(),
    ensures
        live_count(g, h, k) <= live_count(g, h, n),
    decreases n - k,
{
    if k < n {
        lemma_live_count_mono(g, h, k, n - 1);
    }
}

impl Default for Scene {
    /// A scene without any node, not even a root: its root handle is none.
    fn default() -> (s: Scene)
        ensures
            s.wf(),
            s.graph() == Map::<Handle, NodeView>::empty(),
            s.spec_nodes()@ == Seq::<PoolRecord<Node>>::empty(),
            s.spec_root() == Handle::spec_none(),
            s.spec_active_camera() == Handle::spec_none(),
            s.spec_animations()@ == Seq::<PoolRecord<Animation>>::empty(),
            s.spec_physics().spec_bodies()@.len() == 0,
            s.links_known(),
    {
        let s = Scene {
            nodes: Pool::new(),
            root: Handle::none(),
            physics: Physics::new(),
            stack: Vec::new(),
            animations: Pool::new(),
            active_camera: Handle::none(),
        };
        assert(s.graph() =~= Map::<Handle, NodeView>::empty());
        s
    }
}

impl Scene {
    pub closed spec fn spec_nodes(&self) -> Pool<Node> {
        self.nodes
    }

    pub closed spec fn spec_root(&self) -> Handle {
        self.root
    }

    pub closed spec fn spec_animations(&self) -> Pool<Animation> {
        self.animations
    }

    pub closed spec fn spec_physics(&self) -> Physics {
        self.physics
    }

    pub closed spec fn spec_active_camera(&self) -> Handle {
        self.active_camera
    }

    /// The live nodes, by handle.
    pub open spec fn graph(&self) -> Map<Handle, NodeView> {
        graph_of(self.spec_nodes()@)
    }

    /// Every parent and child that a live node names has been handed out by the node
    /// pool (or is none): no node refers to a handle that `add_node` may still return.
    pub open spec fn links_known(&self) -> bool {
        links_issued(self.spec_nodes()@, self.graph())
    }

    /// The pools are consistent.
    pub closed spec fn wf(&self) -> bool {
        &&& self.nodes.wf()
        &&& self.animations.wf()
        &&& self.physics.wf()
        &&& (self.nodes.live(self.root) || self.nodes.dead(self.root))
        &&& slot_issued(self.nodes@, self.active_camera)
    }

    /// In a well-formed scene the none handle names no node and no animation, and the
    /// root and the active camera are handles the node pool has handed out (or none).
    pub proof fn lemma_handles(&self)
        requires
            self.wf(),
        ensures
            !self.graph().contains_key(Handle::spec_none()),
            !self.spec_animations().live(Handle::spec_none()),
            slot_issued(self.spec_nodes()@, self.spec_root()),
            slot_issued(self.spec_nodes()@, self.spec_active_camera()),
    {
        self.nodes.lemma_generations_positive();
        self.animations.lemma_generations_positive();
    }

    /// A scene holding only its root, a base node.
    pub fn new() -> (s: Scene)
        ensures
            s.wf(),
            s.graph().dom() == set![s.spec_root()],
            s.graph()[s.spec_root()] == new_node_view(NodeKind::Base),
            s.spec_active_camera() == Handle::spec_none(),
            s.spec_animations()@ == Seq::<PoolRecord<Animation>>::empty(),
            s.spec_physics().spec_bodies()@.len() == 0,
            s.spec_nodes()@.len() == 1,
            consistent(s.graph()),
            acyclic(s.graph()),
            s.links_known(),
    {
        let mut nodes: Pool<Node> = Pool::new();
        let root = nodes.spawn(Node::new(NodeKind::Base));
        let s = Scene {
            nodes,
            stack: Vec::new(),
            root,
            animations: Pool::new(),
            physics: Physics::new(),
            active_camera: Handle::none(),
        };
        assert(s.graph().dom() =~= set![root]);
        proof {
            let r = |h: Handle| 0nat;
            assert(ranked_by(s.graph(), r));
        }
        s
    }

    /// Detaches the node from its parent: its parent becomes none, and it is removed
    /// from the parent's children. Nothing happens to a handle that is not live.
    pub fn unlink_node(&mut self, node_handle: Handle)
        requires
            old(self).wf(),
        ensures
            final(self).wf(),
            final(self).graph() == unlink_graph(old(self).graph(), node_handle),
            same_slots(old(self).spec_nodes()@, final(self).spec_nodes()@),
            old(self).graph().contains_key(node_handle) ==> final(self).graph()[node_handle].parent
                == Handle::spec_none(),
            old(self).graph().contains_key(node_handle) ==> ({
                let (g0, g) = (old(self).graph(), final(self).graph());
                let op = g0[node_handle].parent;
                &&& op != node_handle ==> g[node_handle].children == g0[node_handle].children
                &&& g0.contains_key(op) && op != node_handle && g0[op].children.contains(node_handle) ==> g[op].children.len()
                    + 1 == g0[op].children.len()
                &&& forall|x: Handle| #[trigger] g0.contains_key(x) && x != op && x != node_handle ==> g[x] == g0[x]
                &&& g.dom() == g0.dom()
            }),
            consistent(old(self).graph()) ==> consistent(final(self).graph()),
            consistent(old(self).graph()) && old(self).graph().contains_key(node_handle) ==> forall|p: Handle|
                #[trigger] final(self).graph().contains_key(p) ==> !final(self).graph()[p].children.contains(
                    node_handle,
                ),
            acyclic(old(self).graph()) ==> acyclic(final(self).graph()),
            old(self).links_known() ==> final(self).links_known(),
            final(self).spec_root() == old(self).spec_root(),
            final(self).spec_active_camera() == old(self).spec_active_camera(),
            final(self).spec_animations() == old(self).spec_animations(),
            final(self).spec_physics() == old(self).spec_physics(),
    {
        let ghost g0 = self.graph();
        let ghost v0 = self.nodes@;
        proof {
            if g0.contains_key(node_handle) {
                lemma_unlink_fields(g0, node_handle);
            }
        }
        proof {
            if links_issued(v0, g0) {
                lemma_links_issued_unlink(v0, g0, node_handle);
            }
        }
        let mut parent_handle: Handle = Handle::none();
        match self.nodes.borrow_mut(node_handle) {
            Some(node) => {
                parent_handle = node.parent;
                node.parent = Handle::none();
            },
            None => {},
        }
        let ghost v1 = self.nodes@;
        let ghost g1 = self.graph();
        proof {
            self.nodes.lemma_generations_positive();
            if g0.contains_key(node_handle) {
                lemma_graph_update(v0, node_handle, v1[node_handle.index as int].payload->0);
                assert(g1 == g0.insert(node_handle, NodeView { parent: Handle::spec_none(), ..g0[node_handle] }));
                assert(parent_handle == g0[node_handle].parent);
            } else {
                assert(v1 == v0);
                assert(!g1.contains_key(parent_handle));
            }
        }
        match self.nodes.borrow_mut(parent_handle) {
            Some(parent) => {
                let ghost before = parent@;
                let mut i: usize = 0;
                let mut found = false;
                let ghost cs = parent.children@;
                while i < parent.children.len() && !found
                    invariant
                        parent.children@ == cs,
                        i <= cs.len(),
                        found ==> i < cs.len() && cs[i as int] == node_handle,
                        forall|j: int| 0 <= j < i && !(found && j == i) ==> cs[j] != node_handle,
                    decreases cs.len() - i + (if found { 0int } else { 1int }),
                {
                    if parent.children[i] == node_handle {
                        found = true;
                    } else {
                        i = i + 1;
                    }
                }
                proof {
                    lemma_first_index(cs, node_handle);
                }
                if found {
                    assert(first_index(cs, node_handle) == Some(i as int));
                    parent.children.remove(i);
                    assert(parent@ == NodeView { children: cs.remove(i as int), ..before });
                } else {
                    assert(first_index(cs, node_handle) is None);
                    assert(parent@ == before);
                }
            },
            None => {},
        }
        proof {
            self.nodes.lemma_generations_positive();
            assert(!g0.contains_key(Handle::spec_none()));
            if consistent(g0) {
                lemma_consistent_unlink(g0, node_handle);
            }
            if acyclic(g0) {
                lemma_acyclic_unlink(g0, node_handle);
            }
            lemma_link_keeps_nodes(g0, node_handle, node_handle);
            let v2 = self.nodes@;
            if g1.contains_key(parent_handle) {
                lemma_graph_update(v1, parent_handle, v2[parent_handle.index as int].payload->0);
                assert(g1[parent_handle].children == v1[parent_handle.index as int].payload->0.children@);
            } else {
                assert(v2 == v1);
            }
            assert(self.graph() == unlink_graph(g0, node_handle));
            if acyclic(g0) {
                assert(acyclic(self.graph()));
            }
        }
    }

    /// Attaches the child to the parent: detaches it from its old parent, sets its
    /// parent, and appends it to the parent's children. Nothing happens when the child
    /// is not live; when only the parent is not live, the child is detached and its
    /// parent set all the same.
    pub fn link_nodes(&mut self, child_handle: Handle, parent_handle: Handle)
        requires
            old(self).wf(),
        ensures
            final(self).wf(),
            final(self).graph() == link_graph(old(self).graph(), child_handle, parent_handle),
            same_slots(old(self).spec_nodes()@, final(self).spec_nodes()@),
            old(self).graph().contains_key(child_handle) ==> final(self).graph()[child_handle].parent
                == parent_handle,
            old(self).graph().contains_key(child_handle) && old(self).graph().contains_key(parent_handle)
                ==> final(self).graph()[parent_handle].children.contains(child_handle),
            old(self).graph().contains_key(child_handle) && old(self).graph().contains_key(parent_handle) ==> ({
                let (g0, g) = (old(self).graph(), final(self).graph());
                let op = g0[child_handle].parent;
                &&& g[parent_handle].children.len() > 0
                &&& g[parent_handle].children.last() == child_handle
                &&& op != parent_handle && child_handle != parent_handle ==> g[parent_handle].children
                    == g0[parent_handle].children.push(child_handle)
                &&& g0.contains_key(op) && op != parent_handle && op != child_handle && g0[op].children.contains(
                    child_handle,
                ) ==> g[op].children.len() + 1 == g0[op].children.len()
                &&& forall|x: Handle|
                    #[trigger] g0.contains_key(x) && x != op && x != parent_handle && x != child_handle ==> g[x]
                        == g0[x]
                &&& g.dom() == g0.dom()
            }),
            consistent(old(self).graph()) ==> consistent(final(self).graph()),
            acyclic(old(self).graph()) && !subtree(old(self).graph(), rank_of(old(self).graph()), child_handle).contains(
                parent_handle,
            ) ==> acyclic(final(self).graph()),
            old(self).links_known() && slot_issued(old(self).spec_nodes()@, parent_handle)
                ==> final(self).links_known(),
            final(self).spec_root() == old(self).spec_root(),
            final(self).spec_active_camera() == old(self).spec_active_camera(),
            final(self).spec_animations() == old(self).spec_animations(),
            final(self).spec_physics() == old(self).spec_physics(),
    {
        let ghost g0 = self.graph();
        proof {
            if links_issued(self.nodes@, g0) && slot_issued(self.nodes@, parent_handle) {
                lemma_links_issued_link(self.nodes@, g0, child_handle, parent_handle);
            }
            self.nodes.lemma_generations_positive();
            assert(!g0.contains_key(Handle::spec_none()));
            if consistent(g0) {
                lemma_consistent_link(g0, child_handle, parent_handle);
            }
            if acyclic(g0) && !subtree(g0, rank_of(g0), child_handle).contains(parent_handle) {
                lemma_acyclic_link(g0, child_handle, parent_handle);
            }
            lemma_link_keeps_nodes(g0, child_handle, parent_handle);
        }
        self.unlink_node(child_handle);
        let ghost v1 = self.nodes@;
        let ghost g1 = self.graph();
        let mut linked = false;
        match self.nodes.borrow_mut(child_handle) {
            Some(child) => {
                child.parent = parent_handle;
                linked = true;
            },
            None => {},
        }
        let ghost v2 = self.nodes@;
        let ghost g2 = self.graph();
        proof {
            if g1.contains_key(child_handle) {
                lemma_graph_update(v1, child_handle, v2[child_handle.index as int].payload->0);
                assert(g2 == g1.insert(child_handle, NodeView { parent: parent_handle, ..g1[child_handle] }));
            } else {
                assert(v2 == v1);
            }
        }
        if linked {
            match self.nodes.borrow_mut(parent_handle) {
                Some(parent) => {
                    parent.children.push(child_handle);
                },
                None => {},
            }
            proof {
                let v3 = self.nodes@;
                if g2.contains_key(parent_handle) {
                    lemma_graph_update(v2, parent_handle, v3[parent_handle.index as int].payload->0);
                    let cs = g2[parent_handle].children;
                    assert(self.graph()[parent_handle].children[cs.len() as int] == child_handle);
                } else {
                    assert(v3 == v2);
                }
            }
        }
    }

    /// Puts the node into the scene, attached to the root, and returns its handle; a
    /// camera becomes the active camera.
    pub fn add_node(&mut self, node: Node) -> (handle: Handle)
        requires
            old(self).wf(),
            old(self).spec_nodes()@.len() < u32::MAX,
        ensures
            final(self).wf(),
            !old(self).graph().contains_key(handle),
            !old(self).spec_nodes().dead(handle),
            final(self).graph() == link_graph(
                old(self).graph().insert(handle, node@),
                handle,
                old(self).spec_root(),
            ),
            final(self).spec_active_camera() == if node.kind == NodeKind::Camera {
                handle
            } else {
                old(self).spec_active_camera()
            },
            final(self).spec_root() == old(self).spec_root(),
            final(self).spec_animations() == old(self).spec_animations(),
            final(self).spec_physics() == old(self).spec_physics(),
            final(self).spec_nodes()@.len() <= old(self).spec_nodes()@.len() + 1,
            consistent(old(self).graph()) && unreferenced(old(self).graph(), handle) && !old(
                self,
            ).graph().contains_key(node@.parent) && node@.parent != handle && node@.children.len() == 0
                ==> consistent(final(self).graph()),
            old(self).links_known() && view_links_issued(old(self).spec_nodes()@, node@) ==> unreferenced(
                old(self).graph(),
                handle,
            ) && node@.parent != handle && final(self).links_known(),
            !slot_issued(old(self).spec_nodes()@, handle),
            generations_grow(old(self).spec_nodes()@, final(self).spec_nodes()@),
            acyclic(old(self).graph()) && node@.children.len() == 0 ==> acyclic(final(self).graph()),
    {
        let ghost g0 = self.graph();
        let ghost nv = node@;
        proof {
            self.nodes.lemma_generations_positive();
            assert(!g0.contains_key(Handle::spec_none()));
        }
        let ghost v0 = self.nodes@;
        let handle = self.nodes.spawn(node);
        proof {
            assert(self.graph() =~= g0.insert(handle, nv));
            if links_issued(v0, g0) && view_links_issued(v0, nv) {
                let v1 = self.nodes@;
                lemma_links_issued_grow(v0, v1, g0);
                lemma_links_issued_grow(v0, v1, map![handle => nv]);
                assert(map![handle => nv].contains_key(handle));
                assert forall|n: Handle| #[trigger] g0.contains_key(n) implies g0[n].parent != handle
                    && !g0[n].children.contains(handle) by {
                    assert(view_links_issued(v0, g0[n]));
                    if g0[n].children.contains(handle) {
                        let i = choose|i: int| 0 <= i < g0[n].children.len() && g0[n].children[i] == handle;
                        assert(slot_issued(v0, g0[n].children[i]));
                    }
                }
                assert forall|n: Handle| #[trigger] self.graph().contains_key(n) implies view_links_issued(
                    v1,
                    self.graph()[n],
                ) by {
                    if n != handle {
                        assert(g0.contains_key(n));
                    }
                }
                assert(slot_issued(v0, self.root));
                crate::utils::pool::lemma_issued_grow(v0, v1, self.root);
            }
        }
        let root = self.root;
        proof {
            self.nodes.lemma_generations_positive();
        }
        self.link_nodes(handle, root);
        proof {
            lemma_link_keeps_nodes(g0.insert(handle, nv), handle, root);
            assert(self.graph().contains_key(handle));
            assert(self.graph()[handle].kind == nv.kind);
            let g1 = g0.insert(handle, nv);
            if unreferenced(g0, handle) && !g0.contains_key(nv.parent) && nv.parent != handle && nv.children.len() == 0 {
                lemma_insert_fresh(g0, handle, nv);
                assert(handle != Handle::spec_none());
                if consistent(g0) {
                    lemma_consistent_link(g1, handle, root);
                }
            }
            if acyclic(g0) && nv.children.len() == 0 {
                lemma_acyclic_insert_leaf(g0, handle, nv);
                assert(subtree_prefix(g1, rank_of(g1), handle, 0) =~= Set::empty());
                assert(subtree(g1, rank_of(g1), handle) =~= set![handle]);
                assert(root != handle);
                lemma_acyclic_link(g1, handle, root);
            }
        }
        let mut is_camera = false;
        match self.nodes.borrow(handle) {
            Some(n) => {
                match n.borrow_kind() {
                    NodeKind::Camera => {
                        is_camera = true;
                    },
                    _ => {},
                }
            },
            None => {},
        }
        if is_camera {
            self.active_camera = handle;
        }
        handle
    }

    pub fn get_nodes(&mut self) -> (nodes: &Pool<Node>)
        ensures
            *nodes == old(self).spec_nodes(),
            *final(self) == *old(self),
    {
        &self.nodes
    }

    /// The node pool, to be changed in place; the scene's other parts stay as they are.
    pub fn get_nodes_mut(&mut self) -> (nodes: &mut Pool<Node>)
        ensures
            *nodes == old(self).spec_nodes(),
            final(self).spec_nodes() == *final(nodes),
            final(self).spec_root() == old(self).spec_root(),
            final(self).spec_active_camera() == old(self).spec_active_camera(),
            final(self).spec_animations() == old(self).spec_animations(),
            final(self).spec_physics() == old(self).spec_physics(),
            final(nodes).wf() && (final(nodes).live(old(self).spec_root()) || final(nodes).dead(
                old(self).spec_root(),
            )) && slot_issued(final(nodes)@, old(self).spec_active_camera()) ==> (old(self).wf()
                ==> final(self).wf()),
    {
        &mut self.nodes
    }

    /// The active camera, if it is still in the scene.
    pub fn get_active_camera(&self) -> (r: Option<&Node>)
        ensures
            r is Some <==> self.graph().contains_key(self.spec_active_camera()),
            r matches Some(n) ==> n@ == self.graph()[self.spec_active_camera()],
    {
        self.nodes.borrow(self.active_camera)
    }

    pub fn get_node(&self, handle: Handle) -> (r: Option<&Node>)
        ensures
            r is Some <==> self.graph().contains_key(handle),
            r matches Some(n) ==> n@ == self.graph()[handle],
    {
        self.nodes.borrow(handle)
    }

    /// The node, if it is live, to be changed in place.
    pub fn get_node_mut(&mut self, handle: Handle) -> (r: Option<&mut Node>)
        requires
            old(self).wf(),
        ensures
            r is Some <==> old(self).graph().contains_key(handle),
            r matches Some(n) ==> n@ == old(self).graph()[handle] && final(self).graph()
                == old(self).graph().insert(handle, final(n)@),
            r is None ==> final(self).graph() == old(self).graph(),
            same_slots(old(self).spec_nodes()@, final(self).spec_nodes()@),
            r matches Some(n) ==> (old(self).links_known() && view_links_issued(old(self).spec_nodes()@, final(n)@)
                ==> final(self).links_known()),
            r is None ==> (old(self).links_known() ==> final(self).links_known()),
            final(self).wf(),
            final(self).spec_root() == old(self).spec_root(),
            final(self).spec_active_camera() == old(self).spec_active_camera(),
            final(self).spec_animations() == old(self).spec_animations(),
            final(self).spec_physics() == old(self).spec_physics(),
    {
        proof {
            if self.nodes.live(handle) {
                lemma_graph_update_any(self.nodes@, handle);
            }
        }
        self.nodes.borrow_mut(handle)
    }

    pub fn get_physics(&self) -> (p: &Physics)
        ensures
            *p == self.spec_physics(),
    {
        &self.physics
    }

    /// The rigid bodies, to be changed in place; the scene's other parts stay as they are.
    pub fn get_physics_mut(&mut self) -> (p: &mut Physics)
        ensures
            *p == old(self).spec_physics(),
            final(self).spec_physics() == *final(p),
            final(self).spec_nodes() == old(self).spec_nodes(),
            final(self).spec_root() == old(self).spec_root(),
            final(self).spec_active_camera() == old(self).spec_active_camera(),
            final(self).spec_animations() == old(self).spec_animations(),
            final(p).wf() ==> (old(self).wf() ==> final(self).wf()),
    {
        &mut self.physics
    }

    /// Puts the animation into the scene and returns its handle.
    pub fn add_animation(&mut self, animation: Animation) -> (handle: Handle)
        requires
            old(self).wf(),
            old(self).spec_animations()@.len() < u32::MAX,
        ensures
            final(self).wf(),
            !old(self).spec_animations().live(handle),
            final(self).spec_animations().live(handle),
            final(self).spec_animations().get(handle) == animation,
            forall|g: Handle|
                g != handle ==> (#[trigger] final(self).spec_animations().live(g)
                    == old(self).spec_animations().live(g) && (old(self).spec_animations().live(g)
                    ==> final(self).spec_animations().get(g) == old(self).spec_animations().get(g))),
            final(self).spec_nodes() == old(self).spec_nodes(),
            final(self).spec_root() == old(self).spec_root(),
            final(self).spec_active_camera() == old(self).spec_active_camera(),
            final(self).spec_physics() == old(self).spec_physics(),
    {
        self.animations.spawn(animation)
    }

    pub fn get_animation(&self, handle: Handle) -> (r: Option<&Animation>)
        ensures
            r is Some <==> self.spec_animations().live(handle),
            r matches Some(a) ==> *a == self.spec_animations().get(handle),
    {
        self.animations.borrow(handle)
    }

    /// The animation, if it is live, to be changed in place.
    pub fn get_animation_mut(&mut self, handle: Handle) -> (r: Option<&mut Animation>)
        requires
            old(self).wf(),
        ensures
            r is Some <==> old(self).spec_animations().live(handle),
            r matches Some(a) ==> *a == old(self).spec_animations().get(handle)
                && final(self).spec_animations()@ == old(self).spec_animations()@.update(
                handle.index as int,
                PoolRecord { generation: handle.generation, payload: Some(*final(a)) },
            ),
            r is None ==> final(self).spec_animations()@ == old(self).spec_animations()@,
            final(self).wf(),
            final(self).spec_nodes() == old(self).spec_nodes(),
            final(self).spec_root() == old(self).spec_root(),
            final(self).spec_active_camera() == old(self).spec_active_camera(),
            final(self).spec_physics() == old(self).spec_physics(),
    {
        self.animations.borrow_mut(handle)
    }

    pub fn get_animations(&self) -> (a: &Pool<Animation>)
        ensures
            *a == self.spec_animations(),
    {
        &self.animations
    }

    pub fn get_root(&self) -> (r: Handle)
        ensures
            r == self.spec_root(),
    {
        self.root
    }

    fn find_rec(
        &self,
        root_node: Handle,
        name: &String,
        Ghost(g): Ghost<Map<Handle, NodeView>>,
        Ghost(rank): Ghost<spec_fn(Handle) -> nat>,
    ) -> (r: Handle)
        requires
            is_region(self.graph(), g),
            ranked_by(g, rank),
            self.graph().contains_key(root_node) ==> g.contains_key(root_node),
        ensures
            r == find_in(g, rank, root_node, name@),
        decreases rank(root_node),
    {
        match self.nodes.borrow(root_node) {
            Some(node) => {
                if node.name == *name {
                    root_node
                } else {
                    let mut result: Handle = Handle::none();
                    let mut i: usize = 0;
                    while i < node.children.len() && result.is_none()
                        invariant
                            is_region(self.graph(), g),
                            ranked_by(g, rank),
                            g.contains_key(root_node),
                            node@ == g[root_node],
                            g[root_node].name != name@,
                            i <= node.children@.len(),
                            result.spec_is_none() ==> find_in(g, rank, root_node, name@)
                                == find_in_children(g, rank, root_node, name@, i as int),
                            !result.spec_is_none() ==> find_in(g, rank, root_node, name@) == result,
                        decreases node.children@.len() - i,
                    {
                        let child = node.children[i];
                        assert(rank(g[root_node].children[i as int]) < rank(root_node));
                        assert(self.graph().contains_key(child) ==> g.contains_key(child));
                        let child_handle = self.find_rec(child, name, Ghost(g), Ghost(rank));
                        if !child_handle.is_none() {
                            result = child_handle;
                        }
                        i = i + 1;
                    }
                    result
                }
            },
            None => {
                assert(!g.contains_key(root_node));
                Handle::none()
            },
        }
    }

    /// The first node, in depth-first pre-order from `root_node` with children in
    /// order, whose name is `name`; none if there is none, or if `root_node` is not live.
    /// Only the nodes below `root_node` need to be free of cycles.
    pub fn find_node_by_name(&self, root_node: Handle, name: &str) -> (r: Handle)
        requires
            self.wf(),
            self.graph().contains_key(root_node) ==> acyclic_below(self.graph(), root_node),
        ensures
            !self.graph().contains_key(root_node) ==> r.spec_is_none(),
            self.graph().contains_key(root_node) ==> ({
                let g = region_below(self.graph(), root_node);
                let rank = rank_of(g);
                &&& r == find_in(g, rank, root_node, name@)
                &&& !r.spec_is_none() ==> subtree(g, rank, root_node).contains(r) && self.graph().contains_key(r)
                    && self.graph()[r].name == name@
                &&& r.spec_is_none() ==> forall|d: Handle|
                    #[trigger] subtree(g, rank, root_node).contains(d) ==> self.graph()[d].name != name@
            }),
            self.graph().contains_key(root_node) && self.graph()[root_node].name == name@ ==> r == root_node,
            self.graph().contains_key(root_node) && consistent(self.graph()) && !r.spec_is_none() ==> ({
                let g = region_below(self.graph(), root_node);
                let rank = rank_of(g);
                &&& forall|d: Handle|
                    #[trigger] subtree(g, rank, root_node).contains(d) && d != r && subtree(g, rank, d).contains(r)
                        ==> self.graph()[d].name != name@
                &&& forall|d: Handle, i: int, j: int, e: Handle|
                    #![trigger subtree(g, rank, root_node).contains(d), subtree(g, rank, g[d].children[j]).contains(r), subtree(g, rank, g[d].children[i]).contains(e)]
                    subtree(g, rank, root_node).contains(d) && g.contains_key(d) && 0 <= i < j
                        < g[d].children.len() && subtree(g, rank, g[d].children[j]).contains(r) && subtree(
                        g,
                        rank,
                        g[d].children[i],
                    ).contains(e) ==> self.graph()[e].name != name@
            }),
    {
        let name = name.to_owned();
        if !self.nodes.is_valid_handle(root_node) {
            return Handle::none();
        }
        let ghost g = region_below(self.graph(), root_node);
        proof {
            self.nodes.lemma_generations_positive();
            assert(!self.graph().contains_key(Handle::spec_none()));
            lemma_region_below(self.graph(), root_node);
            assert(!g.contains_key(Handle::spec_none()));
            lemma_subtree_shape(g, rank_of(g), root_node);
            lemma_find_in(g, rank_of(g), root_node, name@);
            if consistent(self.graph()) {
                lemma_consistent_region(self.graph(), g);
                lemma_find_in_first(g, rank_of(g), root_node, name@);
            }
        }
        let r = self.find_rec(root_node, &name, Ghost(g), Ghost(rank_of(g)));
        proof {
            lemma_subtree_shape(g, rank_of(g), root_node);
            let rank = rank_of(g);
            assert forall|d: Handle, i: int, j: int, e: Handle|
                #![trigger subtree(g, rank, root_node).contains(d), subtree(g, rank, g[d].children[j]).contains(r), subtree(g, rank, g[d].children[i]).contains(e)]
                consistent(self.graph()) && !r.spec_is_none() && subtree(g, rank, root_node).contains(d) && g.contains_key(d)
                    && 0 <= i < j < g[d].children.len() && subtree(g, rank, g[d].children[j]).contains(r) && subtree(
                    g,
                    rank,
                    g[d].children[i],
                ).contains(e) implies self.graph()[e].name != name@ by {
                lemma_subtree_shape(g, rank, g[d].children[i]);
            }
        }
        r
    }

    fn remove_rec(
        &mut self,
        node_handle: Handle,
        Ghost(r): Ghost<Map<Handle, NodeView>>,
        Ghost(rank): Ghost<spec_fn(Handle) -> nat>,
    )
        requires
            old(self).wf(),
            is_region(old(self).graph(), r),
            ranked_by(r, rank),
            old(self).graph().contains_key(node_handle) ==> r.contains_key(node_handle),
        ensures
            final(self).wf(),
            final(self).graph() == old(self).graph().remove_keys(subtree(r, rank, node_handle)),
            same_generations(old(self).spec_nodes()@, final(self).spec_nodes()@),
            forall|b: Handle|
                #[trigger] final(self).spec_physics().spec_bodies().live(b) == (old(self).spec_physics().spec_bodies().live(b)
                    && !bodies_of(r, subtree(r, rank, node_handle)).contains(b)),
            forall|b: Handle|
                #[trigger] final(self).spec_physics().spec_bodies().live(b) ==> final(self).spec_physics().spec_bodies().get(b)
                    == old(self).spec_physics().spec_bodies().get(b),
            final(self).spec_root() == old(self).spec_root(),
            final(self).spec_active_camera() == old(self).spec_active_camera(),
            final(self).spec_animations() == old(self).spec_animations(),
        decreases rank(node_handle),
    {
        let ghost g0 = r;
        let ghost full0 = self.graph();
        let ghost v0 = self.nodes@;
        let ghost b0 = self.physics.spec_bodies();
        let mut children: Vec<Handle> = Vec::new();
        match self.nodes.borrow(node_handle) {
            Some(node) => {
                self.physics.remove_body(node.body);
                let mut j: usize = 0;
                while j < node.children.len()
                    invariant
                        j <= node.children@.len(),
                        children@ == node.children@.take(j as int),
                    decreases node.children@.len() - j,
                {
                    children.push(node.children[j]);
                    j = j + 1;
                    assert(children@ =~= node.children@.take(j as int));
                }
                assert(node.children@.take(node.children@.len() as int) =~= node.children@);
            },
            None => {},
        }
        let ghost removed_own: Set<Handle> = if g0.contains_key(node_handle) {
            set![g0[node_handle].body]
        } else {
            Set::empty()
        };
        let ghost own: Set<Handle> = if g0.contains_key(node_handle) {
            set![node_handle]
        } else {
            Set::empty()
        };
        proof {
            if g0.contains_key(node_handle) {
                assert(own.contains(node_handle));
                assert forall|b: Handle| #[trigger] bodies_of(g0, own).contains(b) == removed_own.contains(b) by {
                    if b == g0[node_handle].body {
                        assert(own.contains(node_handle) && g0.contains_key(node_handle) && g0[node_handle].body == b);
                    }
                }
            }
            assert(bodies_of(g0, own) =~= removed_own);
            assert(own + subtree_prefix(g0, rank, node_handle, 0) =~= own);
        }
        let mut k: usize = 0;
        while k < children.len()
            invariant
                self.wf(),
                ranked_by(g0, rank),
                g0 == r,
                is_region(full0, g0),
                full0 == old(self).graph(),
                full0.contains_key(node_handle) == g0.contains_key(node_handle),
                g0.contains_key(node_handle) ==> children@ == g0[node_handle].children,
                !g0.contains_key(node_handle) ==> children@.len() == 0,
                own == (if g0.contains_key(node_handle) { set![node_handle] } else { Set::<Handle>::empty() }),
                k <= children@.len(),
                self.graph() == full0.remove_keys(subtree_prefix(g0, rank, node_handle, k as int)),
                same_generations(v0, self.nodes@),
                forall|b: Handle|
                    #[trigger] self.physics.spec_bodies().live(b) == (b0.live(b) && !bodies_of(
                        g0,
                        own + subtree_prefix(g0, rank, node_handle, k as int),
                    ).contains(b)),
                forall|b: Handle|
                    #[trigger] self.physics.spec_bodies().live(b) ==> self.physics.spec_bodies().get(b)
                        == b0.get(b),
                self.root == old(self).root,
                self.active_camera == old(self).active_camera,
                self.animations == old(self).animations,
            decreases children@.len() - k,
        {
            let child = children[k];
            let ghost pre = subtree_prefix(g0, rank, node_handle, k as int);
            let ghost g1 = self.graph();
            let ghost p1 = self.physics.spec_bodies();
            proof {
                assert(rank(g0[node_handle].children[k as int]) < rank(node_handle));
                lemma_subtree_prefix_shape(g0, rank, node_handle, k as int);
                lemma_ranked_remove(g0, rank, pre);
                lemma_subtree_remove(g0, rank, pre, child);
                lemma_region_remove(full0, g0, pre);
                assert(g1 == full0.remove_keys(pre));
                assert(g1.contains_key(child) ==> g0.remove_keys(pre).contains_key(child));
            }
            self.remove_rec(child, Ghost(g0.remove_keys(pre)), Ghost(rank));
            proof {
                let sub = subtree(g0, rank, child);
                let next = subtree_prefix(g0, rank, node_handle, k + 1);
                assert(next == pre + sub);
                assert(self.graph() =~= full0.remove_keys(next));
                lemma_bodies_step(g0, own + pre, sub, pre);
                assert((own + pre) + sub =~= own + next);
                let gr1 = g0.remove_keys(pre);
                assert(subtree(gr1, rank, child) == sub.difference(pre));
                assert forall|b: Handle| #[trigger] self.physics.spec_bodies().live(b) == (b0.live(b)
                    && !bodies_of(g0, own + next).contains(b)) by {
                    assert(self.spec_physics().spec_bodies().live(b) == (p1.live(b) && !bodies_of(gr1, subtree(gr1, rank, child)).contains(b)));
                    assert(p1.live(b) == (b0.live(b) && !bodies_of(g0, own + pre).contains(b)));
                }
                assert forall|b: Handle| #[trigger] self.physics.spec_bodies().live(b) implies self.physics.spec_bodies().get(b)
                    == b0.get(b) by {
                    assert(self.spec_physics().spec_bodies().live(b));
                    assert(self.spec_physics().spec_bodies().get(b) == p1.get(b));
                    assert(p1.live(b));
                }
            }
            k = k + 1;
        }
        let ghost v1 = self.nodes@;
        proof {
            let pre = subtree_prefix(g0, rank, node_handle, child_count(g0, node_handle));
            assert(k == child_count(g0, node_handle));
            lemma_subtree_prefix_shape(g0, rank, node_handle, child_count(g0, node_handle));
            if g0.contains_key(node_handle) {
                assert(!pre.contains(node_handle));
                assert(graph_of(v1).contains_key(node_handle));
            }
        }
        self.nodes.free(node_handle);
        proof {
            let pre = subtree_prefix(g0, rank, node_handle, child_count(g0, node_handle));
            lemma_subtree_prefix_shape(g0, rank, node_handle, child_count(g0, node_handle));
            if g0.contains_key(node_handle) {
                assert(!pre.contains(node_handle));
                lemma_graph_clear(v1, node_handle);
                assert(own + pre == subtree(g0, rank, node_handle));
                assert(self.graph() =~= full0.remove_keys(subtree(g0, rank, node_handle)));
            } else {
                assert(subtree(g0, rank, node_handle) =~= Set::empty());
                assert(pre =~= Set::empty());
                assert(self.graph() =~= full0.remove_keys(subtree(g0, rank, node_handle)));
                assert(own + pre =~= subtree(g0, rank, node_handle));
            }
        }
    }

    /// Removes the node and, recursively, every node reachable from it through
    /// children, and their rigid bodies. The node stays among its parent's children.
    /// Only the nodes below the node need to be free of cycles; nothing happens to a
    /// handle that is not live.
    pub fn remove_node(&mut self, node_handle: Handle)
        requires
            old(self).wf(),
            old(self).graph().contains_key(node_handle) ==> acyclic_below(old(self).graph(), node_handle),
        ensures
            final(self).wf(),
            final(self).graph() == old(self).graph().remove_keys(nodes_below(old(self).graph(), node_handle)),
            !old(self).graph().contains_key(node_handle) ==> final(self).graph() == old(self).graph(),
            same_generations(old(self).spec_nodes()@, final(self).spec_nodes()@),
            forall|b: Handle|
                #[trigger] final(self).spec_physics().spec_bodies().live(b) == (old(self).spec_physics().spec_bodies().live(b)
                    && !bodies_of(old(self).graph(), nodes_below(old(self).graph(), node_handle)).contains(b)),
            forall|b: Handle|
                #[trigger] final(self).spec_physics().spec_bodies().live(b) ==> final(self).spec_physics().spec_bodies().get(b)
                    == old(self).spec_physics().spec_bodies().get(b),
            final(self).spec_root() == old(self).spec_root(),
            final(self).spec_active_camera() == old(self).spec_active_camera(),
            final(self).spec_animations() == old(self).spec_animations(),
            consistent(old(self).graph()) ==> consistent(final(self).graph()),
            acyclic(old(self).graph()) ==> acyclic(final(self).graph()),
            old(self).links_known() ==> final(self).links_known(),
    {
        let ghost g0 = self.graph();
        let ghost v0 = self.nodes@;
        let ghost part = part_below(g0, node_handle);
        let ghost below = nodes_below(g0, node_handle);
        proof {
            lemma_part_below(g0, node_handle);
            lemma_subtree_shape(part, rank_of(part), node_handle);
            if !g0.contains_key(node_handle) {
                assert(below =~= Set::empty());
            }
            if consistent(g0) {
                lemma_consistent_remove(g0, below);
            }
            if acyclic(g0) {
                lemma_acyclic_remove(g0, below);
            }
            assert forall|b: Handle| #[trigger] bodies_of(part, below).contains(b) == bodies_of(g0, below).contains(b) by {
                if bodies_of(g0, below).contains(b) {
                    let d = choose|d: Handle| #[trigger] below.contains(d) && g0.contains_key(d) && g0[d].body == b;
                    assert(part.contains_key(d));
                }
            }
            assert(bodies_of(part, below) =~= bodies_of(g0, below));
        }
        self.remove_rec(node_handle, Ghost(part), Ghost(rank_of(part)));
        proof {
            if links_issued(v0, g0) {
                lemma_links_issued_grow(v0, self.nodes@, g0);
            }
            if !g0.contains_key(node_handle) {
                assert(self.graph() =~= g0);
            }
        }
    }

    /// Recomputes global visibility down the tree from the root, with a depth-first
    /// traversal that visits a node and then its children from the last to the first:
    /// a visited node's global visibility becomes its own visibility and, where its
    /// parent is live, its parent's global visibility. Only the nodes below the root
    /// need to be free of cycles.
    pub fn update_nodes(&mut self)
        requires
            old(self).wf(),
            old(self).graph().contains_key(old(self).spec_root()) ==> acyclic_below(
                old(self).graph(),
                old(self).spec_root(),
            ),
        ensures
            final(self).wf(),
            final(self).graph() == fold_visits(
                old(self).graph(),
                visits(
                    part_below(old(self).graph(), old(self).spec_root()),
                    rank_of(part_below(old(self).graph(), old(self).spec_root())),
                    old(self).spec_root(),
                ),
            ),
            same_slots(old(self).spec_nodes()@, final(self).spec_nodes()@),
            final(self).spec_root() == old(self).spec_root(),
            final(self).spec_active_camera() == old(self).spec_active_camera(),
            final(self).spec_animations() == old(self).spec_animations(),
            final(self).spec_physics() == old(self).spec_physics(),
            same_links(final(self).graph(), old(self).graph()),
            acyclic(old(self).graph()) ==> acyclic(final(self).graph()),
            old(self).links_known() ==> final(self).links_known(),
            consistent(old(self).graph().restrict(nodes_below(old(self).graph(), old(self).spec_root()))) ==> {
                let g0 = old(self).graph();
                let g = final(self).graph();
                let below = nodes_below(g0, old(self).spec_root());
                &&& g0.contains_key(old(self).spec_root()) ==> g[old(self).spec_root()].global_visibility
                    == expected_visibility(g0, old(self).spec_root())
                &&& forall|x: Handle|
                    #[trigger] below.contains(x) && x != old(self).spec_root() ==> g[x].global_visibility
                        == expected_visibility(g, x)
                &&& forall|x: Handle| #[trigger] g0.contains_key(x) && !below.contains(x) ==> g[x] == g0[x]
                &&& forall|x: Handle|
                    #[trigger] below.contains(x) && x != old(self).spec_root() ==> g[x].global_visibility == (
                    g0[x].visibility && (g.contains_key(g[x].parent) ==> g[g[x].parent].global_visibility))
                &&& g0.contains_key(old(self).spec_root()) ==> g[old(self).spec_root()].global_visibility == (
                g0[old(self).spec_root()].visibility && (g0.contains_key(g0[old(self).spec_root()].parent)
                    ==> g0[g0[old(self).spec_root()].parent].global_visibility))
            },
    {
        let ghost g0 = self.graph();
        let ghost v0 = self.nodes@;
        let ghost part = part_below(g0, self.root);
        let ghost rank = rank_of(part);
        let ghost target = fold_visits(g0, visits(part, rank, self.root));
        proof {
            lemma_part_below(g0, self.root);
        }
        self.stack.clear();
        self.stack.push(self.root);
        proof {
            assert(self.stack@ =~= seq![self.root]);
            assert(self.stack@.drop_last() =~= Seq::<Handle>::empty());
            assert(stack_visits(part, rank, Seq::<Handle>::empty()) =~= Seq::<Handle>::empty());
            assert(stack_visits(part, rank, self.stack@) =~= visits(part, rank, self.root));
        }
        while self.stack.len() > 0
            invariant
                self.wf(),
                ranked_by(part, rank),
                is_region(g0, part),
                forall|k: int| 0 <= k < self.stack@.len() && #[trigger] g0.contains_key(self.stack@[k]) ==> part.contains_key(self.stack@[k]),
                same_links(self.graph(), g0),
                same_slots(v0, self.nodes@),
                fold_visits(self.graph(), stack_visits(part, rank, self.stack@)) == target,
                self.root == old(self).root,
                self.active_camera == old(self).active_camera,
                self.animations == old(self).animations,
                self.physics == old(self).physics,
            decreases stack_visits(part, rank, self.stack@).len(),
        {
            let ghost st = self.stack@;
            let ghost cur = self.graph();
            let handle = self.stack.pop().unwrap();
            let ghost rest = self.stack@;
            proof {
                assert(st.last() == handle);
                assert(st.drop_last() == rest);
                let vh = visits(part, rank, handle);
                assert(vh[0] == handle);
                assert(vh =~= seq![handle] + vh.drop_first());
                assert(stack_visits(part, rank, st) == vh + stack_visits(part, rank, rest));
                assert(vh + stack_visits(part, rank, rest) =~= seq![handle] + (vh.drop_first() + stack_visits(
                    part,
                    rank,
                    rest,
                )));
                assert(g0.contains_key(handle) ==> part.contains_key(handle));
                lemma_fold_first(cur, handle, vh.drop_first() + stack_visits(part, rank, rest));
                lemma_same_slots_live(v0, self.nodes@);
            }
            let mut parent_handle: Handle = Handle::none();
            match self.nodes.borrow(handle) {
                Some(node) => {
                    parent_handle = node.parent;
                },
                None => {},
            }
            proof {
                self.nodes.lemma_generations_positive();
                if cur.contains_key(handle) {
                    assert(parent_handle == cur[handle].parent);
                } else {
                    assert(!cur.contains_key(parent_handle));
                }
            }
            let mut parent_visibility = true;
            match self.nodes.borrow(parent_handle) {
                Some(parent) => {
                    parent_visibility = parent.global_visibility;
                },
                None => {},
            }
            assert(parent_visibility == if cur.contains_key(parent_handle) {
                cur[parent_handle].global_visibility
            } else {
                true
            });
            let ghost v1 = self.nodes@;
            proof {
                if cur.contains_key(handle) {
                    lemma_graph_update_any(v1, handle);
                }
            }
            match self.nodes.borrow_mut(handle) {
                Some(node) => {
                    let ghost nv0 = node@;
                    node.global_visibility = parent_visibility && node.visibility;
                    assert(node@ == NodeView { global_visibility: parent_visibility && nv0.visibility, ..nv0 });
                },
                None => {},
            }
            let ghost v2 = self.nodes@;
            proof {
                if cur.contains_key(handle) {
                    lemma_graph_update(v1, handle, v2[handle.index as int].payload->0);
                } else {
                    assert(v2 == v1);
                }
            }
            match self.nodes.borrow(handle) {
                Some(node) => {
                    let ghost cs = node.children@;
                    let mut j: usize = 0;
                    while j < node.children.len()
                        invariant
                            node.children@ == cs,
                            j <= cs.len(),
                            self.stack@ == rest + cs.take(j as int),
                            self.nodes@ == v2,
                            self.nodes.wf(),
                            self.animations.wf(),
                            self.physics.wf(),
                            self.root == old(self).root,
                            self.active_camera == old(self).active_camera,
                            self.animations == old(self).animations,
                            self.physics == old(self).physics,
                        decreases cs.len() - j,
                    {
                        self.stack.push(node.children[j]);
                        j = j + 1;
                        assert(self.stack@ =~= rest + cs.take(j as int));
                    }
                    assert(cs.take(cs.len() as int) =~= cs);
                },
                None => {},
            }
            proof {
                if cur.contains_key(handle) {
                    assert(self.graph() == apply_visit(cur, handle));
                    assert(part.contains_key(handle));
                    assert(cur[handle].children == g0[handle].children);
                    assert(g0[handle] == part[handle]);
                    lemma_stack_push_children(part, rank, handle, rest, child_count(part, handle));
                    assert(self.stack@ == rest + part[handle].children.take(child_count(part, handle)));
                    assert forall|k: int| 0 <= k < self.stack@.len() && #[trigger] g0.contains_key(self.stack@[k]) implies part.contains_key(
                        self.stack@[k],
                    ) by {
                        if k >= rest.len() {
                            let i = k - rest.len();
                            assert(self.stack@[k] == g0[handle].children[i]);
                        } else {
                            assert(self.stack@[k] == st[k]);
                        }
                    }
                    assert(visits(part, rank, handle).drop_first() =~= visits_children(part, rank, handle, child_count(part, handle)));
                } else {
                    assert(self.graph() == apply_visit(cur, handle));
                    assert(visits(part, rank, handle).drop_first() =~= Seq::<Handle>::empty());
                    assert(self.stack@ == rest);
                    assert(Seq::<Handle>::empty() + stack_visits(part, rank, rest) =~= stack_visits(part, rank, rest));
                    assert forall|k: int| 0 <= k < self.stack@.len() && #[trigger] g0.contains_key(self.stack@[k]) implies part.contains_key(
                        self.stack@[k],
                    ) by {
                        assert(self.stack@[k] == st[k]);
                    }
                }
                lemma_apply_visit_same_links(cur, g0, handle);
                assert(same_links(self.graph(), g0));
            }
        }
        proof {
            assert(stack_visits(part, rank, self.stack@) =~= Seq::<Handle>::empty());
            let t = subtree(part, rank, self.root);
            if consistent(g0.restrict(t)) {
                lemma_subtree_shape(part, rank, self.root);
                lemma_restrict_below(part, rank, t, self.root);
                let gr = part.restrict(t);
                assert(gr =~= g0.restrict(t));
                assert forall|p: Handle, i: int|
                    t.contains(p) && g0.contains_key(p) && 0 <= i < g0[p].children.len() && g0.contains_key(
                        #[trigger] g0[p].children[i],
                    ) implies t.contains(g0[p].children[i]) by {
                    assert(part.contains_key(p));
                    assert(part.dom().contains(g0[p].children[i]));
                }
                assert(closed_under_children(g0, gr.dom()));
                lemma_visits_tree(gr, rank, g0, self.root);
            }
            if acyclic(g0) {
                assert(ranked_by(self.graph(), rank_of(g0)));
            }
        }
    }

    #[verifier::rlimit(60)]
    #[verifier::spinoff_prover]
    fn copy_rec(
        &self,
        root_handle: Handle,
        dest_scene: &mut Scene,
        old_new_mapping: &mut HashMap<u64, Handle>,
        Ghost(src): Ghost<Map<Handle, NodeView>>,
        Ghost(rank): Ghost<spec_fn(Handle) -> nat>,
    ) -> (r: Handle)
        requires
            self.wf(),
            is_region(self.graph(), src),
            ranked_by(src, rank),
            self.graph().contains_key(root_handle) ==> src.contains_key(root_handle),
            old(dest_scene).wf(),
            old(dest_scene).spec_nodes()@.len() + copy_count(src, rank, root_handle) < u32::MAX,
            old(dest_scene).spec_physics().spec_bodies()@.len() + copy_count(src, rank, root_handle)
                < u32::MAX,
        ensures
            final(dest_scene).wf(),
            r.spec_is_none() == !src.contains_key(root_handle),
            r.spec_is_none() ==> *final(dest_scene) == *old(dest_scene) && final(old_new_mapping)@ == old(old_new_mapping)@,
            old(dest_scene).graph().dom().subset_of(final(dest_scene).graph().dom()),
            final(dest_scene).graph().contains_key(old(dest_scene).spec_root()) ==> old(dest_scene).graph().contains_key(
                old(dest_scene).spec_root(),
            ),
            forall|x: Handle|
                #[trigger] old(dest_scene).graph().contains_key(x) && x != old(dest_scene).spec_root()
                    ==> final(dest_scene).graph()[x] == old(dest_scene).graph()[x],
            old(dest_scene).graph().contains_key(old(dest_scene).spec_root()) ==> final(dest_scene).graph()[old(dest_scene).spec_root()] == (NodeView {
                children: final(dest_scene).graph()[old(dest_scene).spec_root()].children,
                ..old(dest_scene).graph()[old(dest_scene).spec_root()]
            }),
            bodies_kept(old(dest_scene).spec_physics().spec_bodies(), final(dest_scene).spec_physics().spec_bodies()),
            !r.spec_is_none() ==> ({
                &&& copied(
                    src,
                    self.spec_physics().spec_bodies(),
                    final(dest_scene).graph(),
                    final(dest_scene).spec_physics().spec_bodies(),
                    rank,
                    root_handle,
                    r,
                    final(dest_scene).graph().dom().difference(old(dest_scene).graph().dom()),
                )
                &&& final(dest_scene).graph()[r].parent == old(dest_scene).spec_root()
            }),
            !r.spec_is_none() && old(dest_scene).graph().contains_key(old(dest_scene).spec_root()) && avoids(
                old(dest_scene).graph()[old(dest_scene).spec_root()].children,
                final(dest_scene).graph().dom().difference(old(dest_scene).graph().dom()),
            ) ==> final(dest_scene).graph()[old(dest_scene).spec_root()].children == old(
                dest_scene,
            ).graph()[old(dest_scene).spec_root()].children.push(r),
            final(dest_scene).spec_root() == old(dest_scene).spec_root(),
            old(dest_scene).links_known() ==> final(dest_scene).links_known(),
            bodies_fresh(
                old(dest_scene).spec_physics().spec_bodies(),
                old(dest_scene).graph(),
                final(dest_scene).spec_physics().spec_bodies(),
                final(dest_scene).graph(),
            ),
            added_count(old(dest_scene).graph(), final(dest_scene).graph(), copy_count(src, rank, root_handle)),
            mapped_to_new(
                final(old_new_mapping)@,
                subtree(src, rank, root_handle),
                old(dest_scene).graph(),
                final(dest_scene).graph(),
            ),
            match last_camera(src, rank, root_handle) {
                Some(x) => final(old_new_mapping)@.contains_key(x.spec_key()) && final(dest_scene).spec_active_camera()
                    == final(old_new_mapping)@[x.spec_key()],
                None => final(dest_scene).spec_active_camera() == old(dest_scene).spec_active_camera(),
            },
            !r.spec_is_none() ==> final(old_new_mapping)@.contains_key(root_handle.spec_key())
                && final(old_new_mapping)@[root_handle.spec_key()] == r,
            fresh_since(
                old(dest_scene).spec_nodes()@,
                old(dest_scene).graph(),
                final(dest_scene).spec_nodes()@,
                final(dest_scene).graph(),
            ),
            final(dest_scene).spec_animations() == old(dest_scene).spec_animations(),
            final(dest_scene).spec_active_camera() == old(dest_scene).spec_active_camera() || final(dest_scene).graph().dom().difference(old(dest_scene).graph().dom()).contains(final(dest_scene).spec_active_camera()),
            final(dest_scene).spec_nodes()@.len() <= old(dest_scene).spec_nodes()@.len() + copy_count(
                src,
                rank,
                root_handle,
            ),
            final(dest_scene).spec_physics().spec_bodies()@.len() <= old(dest_scene).spec_physics().spec_bodies()@.len()
                + copy_count(src, rank, root_handle),
            mapping_covers(
                src,
                self.spec_physics().spec_bodies(),
                final(dest_scene).graph(),
                final(dest_scene).spec_physics().spec_bodies(),
                final(old_new_mapping)@,
                subtree(src, rank, root_handle),
            ),
            mapping_frame(final(old_new_mapping)@, old(old_new_mapping)@, subtree(src, rank, root_handle)),
            consistent(src) ==> tree_mapped(
                src,
                subtree(src, rank, root_handle),
                final(dest_scene).graph(),
                final(old_new_mapping)@,
            ),
        decreases rank(root_handle),
    {
        let ghost g = src;
        let ghost sp = self.physics.spec_bodies();
        let ghost d0 = dest_scene.graph();
        let ghost oroot = dest_scene.root;
        let ghost len0 = dest_scene.nodes@.len();
        let ghost blen0 = dest_scene.physics.spec_bodies()@.len();
        let ghost m0 = old_new_mapping@;
        match self.nodes.borrow(root_handle) {
            None => {
                proof {
                    lemma_bodies_fresh_none(
                        dest_scene.physics.spec_bodies(),
                        dest_scene.graph(),
                        dest_scene.physics.spec_bodies(),
                    );
                    lemma_mapped_empty(old_new_mapping@, dest_scene.graph(), dest_scene.graph());
                    assert(subtree(g, rank, root_handle) =~= Set::empty());
                    lemma_tree_mapped_empty(g, root_handle, dest_scene.graph(), root_handle, old_new_mapping@);
                    lemma_added_none(dest_scene.graph());
                    lemma_fresh_refl(dest_scene.nodes@, dest_scene.graph());
                    assert(subtree(g, rank, root_handle) =~= Set::empty());
                    assert(final(dest_scene).graph().dom().difference(d0.dom()) =~= Set::empty());
                }
                Handle::none()
            },
            Some(src_node) => {
                assert(src_node@ == g[root_handle]);
                let mut dest_node = src_node.make_copy();
                match self.physics.borrow_body(src_node.body) {
                    Some(src_body) => {
                        assert(copy_count(g, rank, root_handle) >= 1);
                        let ghost dp0 = dest_scene.physics.spec_bodies();
                        let b = dest_scene.physics.add_body(src_body.make_copy());
                        proof {
                            assert forall|x: Handle| #[trigger] dp0.live(x) implies dest_scene.physics.spec_bodies().live(x)
                                && dest_scene.physics.spec_bodies().get(x) == dp0.get(x) by {
                                if x == b {
                                    assert(!dp0.live(b));
                                }
                            }
                        }
                        dest_node.set_body(b);
                    },
                    None => {},
                }
                let ghost nv = dest_node@;
                let ghost dp1 = dest_scene.physics.spec_bodies();
                proof {
                    assert(bodies_kept(old(dest_scene).spec_physics().spec_bodies(), dp1));
                    assert(dp1@.len() <= blen0 + 1);
                    assert(body_copied(sp, dp1, g[root_handle].body, nv.body));
                    assert(nv.body != Handle::spec_none() ==> dp1.live(nv.body) && !old(
                        dest_scene,
                    ).spec_physics().spec_bodies().live(nv.body));
                    dest_scene.nodes.lemma_generations_positive();
                    assert(!d0.contains_key(Handle::spec_none()));
                    assert(copy_count(g, rank, root_handle) >= 1);
                }
                let dest_copy_handle = dest_scene.add_node(dest_node);
                let ghost c = dest_copy_handle;
                proof {
                    assert(c != oroot);
                    assert(c != Handle::spec_none());
                    lemma_link_new(d0, c, nv, oroot);
                    lemma_fresh_add(old(dest_scene).spec_nodes()@, d0, dest_scene.nodes@, dest_scene.graph(), c);
                    lemma_added_one(d0, dest_scene.graph(), c);
                    lemma_bodies_fresh_one(
                        old(dest_scene).spec_physics().spec_bodies(),
                        d0,
                        dest_scene.physics.spec_bodies(),
                        dest_scene.graph(),
                        c,
                    );
                }
                old_new_mapping.insert(root_handle.key(), dest_copy_handle);
                let ghost d1 = dest_scene.graph();
                let ghost cv = NodeView { parent: oroot, ..nv };
                let ghost mut fs: Seq<Set<Handle>> = Seq::empty();
                let mut i: usize = 0;
                proof {
                    lemma_key_injective(root_handle, root_handle);
                    assert(subtree_prefix(g, rank, root_handle, 0) =~= Set::empty());
                    assert(children_copied(g, sp, dest_scene.graph(), dest_scene.physics.spec_bodies(), rank, root_handle, c, 0, d0, fs));
                    lemma_mapped_one(old_new_mapping@, root_handle, c, d0, dest_scene.graph());
                    assert(set![root_handle] + subtree_prefix(g, rank, root_handle, 0) =~= set![root_handle]);
                    lemma_mapped_empty(old_new_mapping@, d1, d1);
                    lemma_tree_mapped_empty(g, root_handle, d1, c, old_new_mapping@);
                }
                while i < src_node.children.len()
                    invariant
                        src_node@ == g[root_handle],
                        g == src,
                        is_region(self.graph(), g),
                        sp == self.physics.spec_bodies(),
                        ranked_by(g, rank),
                        g.contains_key(root_handle),
                        i <= src_node.children@.len(),
                        dest_scene.wf(),
                        d0.dom().subset_of(dest_scene.graph().dom()),
                        dest_scene.graph().contains_key(c),
                        !d0.contains_key(c),
                        c != oroot,
                        dest_scene.graph().contains_key(oroot) ==> d0.contains_key(oroot),
                        forall|x: Handle|
                            #[trigger] d0.contains_key(x) && x != oroot ==> dest_scene.graph()[x] == d0[x],
                        d0.contains_key(oroot) ==> dest_scene.graph()[oroot] == (NodeView {
                            children: dest_scene.graph()[oroot].children,
                            ..d0[oroot]
                        }),
                        d0.contains_key(oroot) && avoids(d0[oroot].children, dest_scene.graph().dom().difference(d0.dom()))
                            ==> dest_scene.graph()[oroot].children == d0[oroot].children.push(c),
                        dest_scene.graph()[c] == (NodeView { children: dest_scene.graph()[c].children, ..cv }),
                        cv == (NodeView { parent: oroot, ..nv }),
                        body_copied(sp, dest_scene.physics.spec_bodies(), g[root_handle].body, nv.body),
                        nv.name == g[root_handle].name,
                        nv.kind == g[root_handle].kind,
                        nv.visibility == g[root_handle].visibility,
                        nv.global_visibility == g[root_handle].global_visibility,
                        children_copied(
                            g,
                            sp,
                            dest_scene.graph(),
                            dest_scene.physics.spec_bodies(),
                            rank,
                            root_handle,
                            c,
                            i as int,
                            d0,
                            fs,
                        ),
                        bodies_kept(old(dest_scene).spec_physics().spec_bodies(), dest_scene.physics.spec_bodies()),
                        dest_scene.root == oroot,
                        old(dest_scene).links_known() ==> dest_scene.links_known(),
                        bodies_fresh(
                            old(dest_scene).spec_physics().spec_bodies(),
                            d0,
                            dest_scene.physics.spec_bodies(),
                            dest_scene.graph(),
                        ),
                        added_count(d0, dest_scene.graph(), 1 + copy_count_prefix(g, rank, root_handle, i as int)),
                        mapped_to_new(
                            old_new_mapping@,
                            set![root_handle] + subtree_prefix(g, rank, root_handle, i as int),
                            d0,
                            dest_scene.graph(),
                        ),
                        camera_after(
                            g,
                            rank,
                            root_handle,
                            i as int,
                            c,
                            old(dest_scene).spec_active_camera(),
                            dest_scene.active_camera,
                            old_new_mapping@,
                        ),
                        fresh_since(old(dest_scene).spec_nodes()@, d0, dest_scene.nodes@, dest_scene.graph()),
                        dest_scene.animations == old(dest_scene).animations,
                        dest_scene.active_camera == old(dest_scene).active_camera || dest_scene.graph().dom().difference(
                            d0.dom(),
                        ).contains(dest_scene.active_camera),
                        dest_scene.nodes@.len() <= len0 + 1 + copy_count_prefix(g, rank, root_handle, i as int),
                        dest_scene.physics.spec_bodies()@.len() <= blen0 + 1 + copy_count_prefix(
                            g,
                            rank,
                            root_handle,
                            i as int,
                        ),
                        len0 == old(dest_scene).spec_nodes()@.len(),
                        blen0 == old(dest_scene).spec_physics().spec_bodies()@.len(),
                        len0 + copy_count(g, rank, root_handle) < u32::MAX,
                        blen0 + copy_count(g, rank, root_handle) < u32::MAX,
                        d0 == old(dest_scene).graph(),
                        oroot == old(dest_scene).spec_root(),
                        m0 == old(old_new_mapping)@,
                        mapping_covers(
                            g,
                            sp,
                            dest_scene.graph(),
                            dest_scene.physics.spec_bodies(),
                            old_new_mapping@,
                            set![root_handle] + subtree_prefix(g, rank, root_handle, i as int),
                        ),
                        mapping_frame(
                            old_new_mapping@,
                            m0,
                            set![root_handle] + subtree_prefix(g, rank, root_handle, i as int),
                        ),
                        old_new_mapping@.contains_key(root_handle.spec_key()),
                        old_new_mapping@[root_handle.spec_key()] == c,
                        self.wf(),
                        fs.len() == i,
                        c == dest_copy_handle,
                        d1.dom().subset_of(dest_scene.graph().dom()),
                        d1.contains_key(c),
                        dest_scene.graph().contains_key(oroot) ==> d1.contains_key(oroot),
                        mapped_to_new(
                            old_new_mapping@,
                            subtree_prefix(g, rank, root_handle, i as int),
                            d1,
                            dest_scene.graph(),
                        ),
                        consistent(g) ==> tree_mapped(
                            g,
                            subtree_prefix(g, rank, root_handle, i as int),
                            dest_scene.graph(),
                            old_new_mapping@,
                        ),
                        consistent(g) ==> children_mapped(
                            g,
                            root_handle,
                            i as int,
                            dest_scene.graph(),
                            c,
                            old_new_mapping@,
                        ),
                    decreases src_node.children@.len() - i,
                {
                    let src_child_handle = src_node.children[i];
                    let ghost dn = dest_scene.graph();
                    let ghost vn = dest_scene.nodes@;
                    let ghost dp = dest_scene.physics.spec_bodies();
                    let ghost map1 = old_new_mapping@;
                    let ghost cam1 = dest_scene.active_camera;
                    proof {
                        assert(rank(g[root_handle].children[i as int]) < rank(root_handle));
                        lemma_copy_count_prefix_mono(g, rank, root_handle, i + 1, child_count(g, root_handle));
                    }
                    assert(self.graph().contains_key(src_child_handle) ==> g.contains_key(src_child_handle));
                    let dest_child_handle = self.copy_rec(src_child_handle, dest_scene, old_new_mapping, Ghost(g), Ghost(rank));
                    let ghost dn2 = dest_scene.graph();
                    let ghost vn2 = dest_scene.nodes@;
                    let ghost dp2 = dest_scene.physics.spec_bodies();
                    let ghost fi = dn2.dom().difference(dn.dom());
                    proof {
                        if !dest_child_handle.spec_is_none() {
                            assert(fi.contains(dest_child_handle));
                            assert(dn2[dest_child_handle].parent == oroot);
                        }
                    }
                    if !dest_child_handle.is_none() {
                        dest_scene.link_nodes(dest_child_handle, dest_copy_handle);
                        assert(dest_scene.graph() == link_graph(dn2, dest_child_handle, c));
                    }
                    proof {
                        lemma_copy_iteration(
                            g,
                            sp,
                            rank,
                            root_handle,
                            c,
                            i as int,
                            d0,
                            oroot,
                            fs,
                            m0,
                            dn,
                            dp,
                            map1,
                            dn2,
                            dp2,
                            old_new_mapping@,
                            dest_scene.graph(),
                            dest_child_handle,
                        );
                        lemma_root_children_step(d0, dn, dn2, dest_scene.graph(), oroot, c, dest_child_handle);
                        lemma_added_step(
                            d0,
                            dn,
                            dn2,
                            dest_scene.graph(),
                            (1 + copy_count_prefix(g, rank, root_handle, i as int)) as nat,
                            copy_count(g, rank, src_child_handle),
                            dest_child_handle,
                            c,
                        );
                        lemma_mapped_step(
                            map1,
                            old_new_mapping@,
                            set![root_handle] + subtree_prefix(g, rank, root_handle, i as int),
                            subtree(g, rank, src_child_handle),
                            d0,
                            dn,
                            dn2,
                            dest_scene.graph(),
                            dest_child_handle,
                            c,
                        );
                        assert((set![root_handle] + subtree_prefix(g, rank, root_handle, i as int)) + subtree(
                            g,
                            rank,
                            src_child_handle,
                        ) == set![root_handle] + subtree_prefix(g, rank, root_handle, i + 1));
                        if consistent(g) {
                            lemma_tree_step(
                                g,
                                rank,
                                root_handle,
                                i as int,
                                c,
                                oroot,
                                d1,
                                map1,
                                dn,
                                old_new_mapping@,
                                dn2,
                                dest_scene.graph(),
                                dest_child_handle,
                            );
                        }
                        lemma_mapped_step(
                            map1,
                            old_new_mapping@,
                            subtree_prefix(g, rank, root_handle, i as int),
                            subtree(g, rank, src_child_handle),
                            d1,
                            dn,
                            dn2,
                            dest_scene.graph(),
                            dest_child_handle,
                            c,
                        );
                        lemma_bodies_fresh_step(
                            old(dest_scene).spec_physics().spec_bodies(),
                            d0,
                            dp,
                            dn,
                            dp2,
                            dn2,
                            dest_scene.graph(),
                            oroot,
                            dest_child_handle,
                            c,
                        );
                        lemma_camera_step(
                            g,
                            rank,
                            root_handle,
                            i as int,
                            c,
                            old(dest_scene).spec_active_camera(),
                            cam1,
                            map1,
                            dest_scene.active_camera,
                            old_new_mapping@,
                        );
                        lemma_fresh_step(
                            old(dest_scene).spec_nodes()@,
                            d0,
                            vn,
                            dn,
                            vn2,
                            dn2,
                            dest_scene.nodes@,
                            dest_scene.graph(),
                            c,
                            dest_child_handle,
                        );
                        fs = fs.push(fi);
                    }
                    i = i + 1;
                }
                proof {
                    assert(i == child_count(g, root_handle));
                    assert(last_camera(g, rank, root_handle) == match last_camera_children(g, rank, root_handle, i as int) {
                        Some(x) => Some(x),
                        None => if g[root_handle].kind == NodeKind::Camera {
                            Some(root_handle)
                        } else {
                            None
                        },
                    });
                    lemma_copy_finish(
                        g,
                        sp,
                        rank,
                        root_handle,
                        c,
                        d0,
                        fs,
                        dest_scene.graph(),
                        dest_scene.physics.spec_bodies(),
                        cv,
                    );
                    if consistent(g) {
                        lemma_tree_finish(g, rank, root_handle, c, dest_scene.graph(), old_new_mapping@);
                    }
                }
                dest_copy_handle
            },
        }
    }

    /// Copies the node and, recursively, the nodes below it into `dest_scene`: each copy
    /// has the name, kind and visibility of the node it copies, a copy of its rigid body if it has
    /// one, and copies of its live children, in order, as children. The copy of the
    /// node itself is attached to the root of `dest_scene`, at the end of the root's
    /// children where the links of `dest_scene` name only handles its pool has handed
    /// out (the copies below it pass through the root's children and leave them again).
    /// `old_new_mapping` gets, at the key of each copied node, the handle of (the last)
    /// copy made of it; where the links of `self` are consistent, the copy it records for
    /// each node has as children, in order, the copies it records for that node's live
    /// children. Every body copy is a new body of `dest_scene`, one per copied node.
    /// Returns none, and changes nothing, if the node is not live.
    pub fn copy_node(
        &self,
        root_handle: Handle,
        dest_scene: &mut Scene,
        old_new_mapping: &mut HashMap<u64, Handle>,
    ) -> (r: Handle)
        requires
            self.wf(),
            self.graph().contains_key(root_handle) ==> acyclic_below(self.graph(), root_handle),
            old(dest_scene).wf(),
            old(dest_scene).spec_nodes()@.len() + copy_count(part_below(self.graph(), root_handle), rank_of(part_below(self.graph(), root_handle)), root_handle) < u32::MAX,
            old(dest_scene).spec_physics().spec_bodies()@.len() + copy_count(part_below(self.graph(), root_handle), rank_of(part_below(self.graph(), root_handle)), root_handle)
                < u32::MAX,
        ensures
            final(dest_scene).wf(),
            r.spec_is_none() == !self.graph().contains_key(root_handle),
            r.spec_is_none() ==> *final(dest_scene) == *old(dest_scene) && final(old_new_mapping)@ == old(old_new_mapping)@,
            old(dest_scene).graph().dom().subset_of(final(dest_scene).graph().dom()),
            final(dest_scene).graph().contains_key(old(dest_scene).spec_root()) ==> old(dest_scene).graph().contains_key(
                old(dest_scene).spec_root(),
            ),
            forall|x: Handle|
                #[trigger] old(dest_scene).graph().contains_key(x) && x != old(dest_scene).spec_root()
                    ==> final(dest_scene).graph()[x] == old(dest_scene).graph()[x],
            old(dest_scene).graph().contains_key(old(dest_scene).spec_root()) ==> final(dest_scene).graph()[old(dest_scene).spec_root()] == (NodeView {
                children: final(dest_scene).graph()[old(dest_scene).spec_root()].children,
                ..old(dest_scene).graph()[old(dest_scene).spec_root()]
            }),
            bodies_kept(old(dest_scene).spec_physics().spec_bodies(), final(dest_scene).spec_physics().spec_bodies()),
            !r.spec_is_none() ==> ({
                &&& copied(
                    part_below(self.graph(), root_handle),
                    self.spec_physics().spec_bodies(),
                    final(dest_scene).graph(),
                    final(dest_scene).spec_physics().spec_bodies(),
                    rank_of(part_below(self.graph(), root_handle)),
                    root_handle,
                    r,
                    final(dest_scene).graph().dom().difference(old(dest_scene).graph().dom()),
                )
                &&& final(dest_scene).graph()[r].parent == old(dest_scene).spec_root()
            }),
            !r.spec_is_none() && old(dest_scene).graph().contains_key(old(dest_scene).spec_root()) && old(
                dest_scene,
            ).links_known() ==> final(dest_scene).graph()[old(dest_scene).spec_root()].children == old(
                dest_scene,
            ).graph()[old(dest_scene).spec_root()].children.push(r),
            final(dest_scene).spec_root() == old(dest_scene).spec_root(),
            old(dest_scene).links_known() ==> final(dest_scene).links_known(),
            forall|d: Handle|
                #[trigger] nodes_below(self.graph(), root_handle).contains(d) ==> final(old_new_mapping)@.contains_key(
                    d.spec_key(),
                ) && final(dest_scene).graph().dom().difference(old(dest_scene).graph().dom()).contains(
                    final(old_new_mapping)@[d.spec_key()],
                ),
            ({
                let created = final(dest_scene).graph().dom().difference(old(dest_scene).graph().dom());
                let fg = final(dest_scene).graph();
                let fdp = final(dest_scene).spec_physics().spec_bodies();
                let odp = old(dest_scene).spec_physics().spec_bodies();
                &&& forall|x: Handle|
                    #[trigger] created.contains(x) && fg[x].body != Handle::spec_none() ==> fdp.live(fg[x].body)
                        && !odp.live(fg[x].body)
                &&& forall|x: Handle, y: Handle|
                    #![trigger created.contains(x), created.contains(y)]
                    created.contains(x) && created.contains(y) && x != y && fg[x].body != Handle::spec_none()
                        ==> fg[x].body != fg[y].body
            }),
            final(dest_scene).graph().dom().difference(old(dest_scene).graph().dom()).finite(),
            final(dest_scene).graph().dom().difference(old(dest_scene).graph().dom()).len() == copy_count(
                part_below(self.graph(), root_handle),
                rank_of(part_below(self.graph(), root_handle)),
                root_handle,
            ),
            final(dest_scene).spec_animations() == old(dest_scene).spec_animations(),
            match last_camera(part_below(self.graph(), root_handle), rank_of(part_below(self.graph(), root_handle)), root_handle) {
                Some(x) => final(old_new_mapping)@.contains_key(x.spec_key()) && final(dest_scene).spec_active_camera()
                    == final(old_new_mapping)@[x.spec_key()],
                None => final(dest_scene).spec_active_camera() == old(dest_scene).spec_active_camera(),
            },
            !r.spec_is_none() ==> final(old_new_mapping)@.contains_key(root_handle.spec_key())
                && final(old_new_mapping)@[root_handle.spec_key()] == r,
            final(dest_scene).spec_nodes()@.len() <= old(dest_scene).spec_nodes()@.len() + copy_count(
                part_below(self.graph(), root_handle),
                rank_of(part_below(self.graph(), root_handle)),
                root_handle,
            ),
            final(dest_scene).spec_physics().spec_bodies()@.len() <= old(dest_scene).spec_physics().spec_bodies()@.len()
                + copy_count(part_below(self.graph(), root_handle), rank_of(part_below(self.graph(), root_handle)), root_handle),
            mapping_covers(
                part_below(self.graph(), root_handle),
                self.spec_physics().spec_bodies(),
                final(dest_scene).graph(),
                final(dest_scene).spec_physics().spec_bodies(),
                final(old_new_mapping)@,
                nodes_below(self.graph(), root_handle),
            ),
            mapping_frame(final(old_new_mapping)@, old(old_new_mapping)@, nodes_below(self.graph(), root_handle)),
            consistent(self.graph()) ==> forall|n: Handle|
                #[trigger] nodes_below(self.graph(), root_handle).contains(n) ==> node_mapped(
                    self.graph(),
                    n,
                    final(dest_scene).graph(),
                    final(old_new_mapping)@,
                ),
    {
        let ghost v0 = dest_scene.nodes@;
        let ghost g0 = dest_scene.graph();
        let ghost oroot = dest_scene.root;
        let ghost part = part_below(self.graph(), root_handle);
        proof {
            lemma_part_below(self.graph(), root_handle);
        }
        let r = self.copy_rec(root_handle, dest_scene, old_new_mapping, Ghost(part), Ghost(rank_of(part)));
        proof {
            reveal(added_count);
            reveal(mapped_to_new);
            reveal(bodies_fresh);
            if g0.contains_key(oroot) && links_issued(v0, g0) {
                lemma_fresh_avoids(v0, g0, dest_scene.nodes@, dest_scene.graph(), oroot);
            }
            if consistent(self.graph()) {
                lemma_consistent_region(self.graph(), part);
                reveal(tree_mapped);
                assert forall|n: Handle| #[trigger] nodes_below(self.graph(), root_handle).contains(n) implies node_mapped(
                    self.graph(),
                    n,
                    dest_scene.graph(),
                    old_new_mapping@,
                ) by {
                    assert(part.contains_key(n));
                    assert(node_mapped(part, n, dest_scene.graph(), old_new_mapping@));
                    lemma_node_mapped_region(self.graph(), part, n, dest_scene.graph(), old_new_mapping@);
                }
            }
        }
        r
    }
}

} // verus!
