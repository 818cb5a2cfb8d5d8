//! Global visibility after a traversal: in a consistent tree every node below the start
//! ends up visible exactly when it and its parent are.

use vstd::prelude::*;
use crate::scene::graph::{
    apply_visit, consistent, fold_visits, lemma_subtree_prefix_member, lemma_subtree_shape, ranked_by,
    same_links, subtree, subtree_prefix, child_count, visits, visits_children, lemma_apply_visit_same_links,
    closed_under_children,
};
use crate::scene::node::NodeView;
use crate::utils::pool::Handle;

verus! {

/// Folding a concatenation folds its parts in turn.
pub proof fn lemma_fold_concat(g: Map<Handle, NodeView>, a: Seq<Handle>, b: Seq<Handle>)
    ensures
        fold_visits(g, a + b) == fold_visits(fold_visits(g, a), b),
    decreases a.len(),
{
    if a.len() > 0 {
        assert((a + b).drop_first() =~= a.drop_first() + b);
        assert((a + b)[0] == a[0]);
        lemma_fold_concat(apply_visit(g, a[0]), a.drop_first(), b);
    } else {
        assert(a + b =~= b);
    }
}

/// In a consistent graph, the parent of a node below `c` is live and lies in `c`'s
/// subtree too.
pub proof fn lemma_parent_in_subtree(g: Map<Handle, NodeView>, rank: spec_fn(Handle) -> nat, c: Handle, x: Handle)
    requires
        ranked_by(g, rank),
        consistent(g),
        subtree(g, rank, c).contains(x),
        x != c,
    ensures
        g.contains_key(g[x].parent),
        subtree(g, rank, c).contains(g[x].parent),
        g[g[x].parent].children.contains(x),
    decreases rank(c),
{
    lemma_subtree_shape(g, rank, c);
    lemma_subtree_prefix_member(g, rank, c, child_count(g, c));
    assert(subtree_prefix(g, rank, c, child_count(g, c)).contains(x));
    let j = choose|j: int| 0 <= j < child_count(g, c) && #[trigger] subtree(g, rank, g[c].children[j]).contains(x);
    let cj = g[c].children[j];
    assert(rank(cj) < rank(c));
    lemma_subtree_shape(g, rank, cj);
    if x == cj {
        assert(g[cj].parent == c);
        assert(g[c].children[j] == x);
    } else {
        lemma_parent_in_subtree(g, rank, cj, x);
        let p = g[x].parent;
        assert(subtree(g, rank, cj).contains(p));
        assert(subtree_prefix(g, rank, c, child_count(g, c)).contains(p));
    }
}

/// In a consistent graph, the subtrees of two different children of a node share no
/// node.
pub proof fn lemma_siblings_disjoint(
    g: Map<Handle, NodeView>,
    rank: spec_fn(Handle) -> nat,
    h: Handle,
    i: int,
    j: int,
    y: Handle,
)
    requires
        ranked_by(g, rank),
        consistent(g),
        g.contains_key(h),
        0 <= i < g[h].children.len(),
        0 <= j < g[h].children.len(),
        i != j,
    ensures
        !(subtree(g, rank, g[h].children[i]).contains(y) && subtree(g, rank, g[h].children[j]).contains(y)),
    decreases rank(g[h].children[i]) - rank(y),
{
    if subtree(g, rank, g[h].children[i]).contains(y) && subtree(g, rank, g[h].children[j]).contains(y) {
        let ci = g[h].children[i];
        let cj = g[h].children[j];
        lemma_subtree_shape(g, rank, ci);
        lemma_subtree_shape(g, rank, cj);
        assert(rank(ci) < rank(h));
        assert(rank(cj) < rank(h));
        if y == ci || y == cj {
            assert(g.contains_key(ci) && g.contains_key(cj));
            if i < j {
                assert(ci != cj);
            } else {
                assert(g[h].children[j] != g[h].children[i]);
            }
            if y == ci {
                lemma_parent_in_subtree(g, rank, cj, ci);
                assert(g[ci].parent == h);
            } else {
                lemma_parent_in_subtree(g, rank, ci, cj);
                assert(g[cj].parent == h);
            }
        } else {
            lemma_parent_in_subtree(g, rank, ci, y);
            lemma_parent_in_subtree(g, rank, cj, y);
            let p = g[y].parent;
            let k = choose|k: int| 0 <= k < g[p].children.len() && g[p].children[k] == y;
            assert(rank(g[p].children[k]) < rank(p));
            lemma_siblings_disjoint(g, rank, h, i, j, p);
        }
    }
}

/// The global visibility that a visit gives `x` in `g`: its own visibility and, where its
/// parent is live, the parent's global visibility.
pub open spec fn expected_visibility(g: Map<Handle, NodeView>, x: Handle) -> bool {
    g[x].visibility && if g.contains_key(g[x].parent) {
        g[g[x].parent].global_visibility
    } else {
        true
    }
}

/// A traversal from `h` over a consistent tree leaves each node below `h` globally
/// visible exactly when it is visible itself and its live parent (if it has one) is
/// globally visible, after the traversal; `h` itself combines its own visibility with its
/// parent's global visibility from before.
pub proof fn lemma_traversal_visibility(
    g0: Map<Handle, NodeView>,
    rank: spec_fn(Handle) -> nat,
    g1: Map<Handle, NodeView>,
    h: Handle,
)
    requires
        ranked_by(g0, rank),
        consistent(g0),
        links_agree(g1, g0),
        g1.contains_key(h) ==> g0.contains_key(h),
    ensures
        ({
            let g = fold_visits(g1, visits(g0, rank, h));
            &&& g0.contains_key(h) ==> g[h].global_visibility == (g1[h].visibility && (g1.contains_key(g1[h].parent)
                ==> g1[g1[h].parent].global_visibility))
            &&& forall|x: Handle|
                #[trigger] subtree(g0, rank, h).contains(x) && x != h ==> g[x].global_visibility == (g[x].visibility
                    && (g.contains_key(g[x].parent) ==> g[g[x].parent].global_visibility))
        }),
{
    lemma_visits_tree(g0, rank, g1, h);
}

/// `g1` holds every node of `g0` with the same links and visibility, and every live
/// child of a node of `g0` is a node of `g0`.
pub open spec fn links_agree(g1: Map<Handle, NodeView>, g0: Map<Handle, NodeView>) -> bool {
    &&& g0.dom().subset_of(g1.dom())
    &&& forall|x: Handle|
        #[trigger] g0.contains_key(x) ==> {
            &&& g1[x].parent == g0[x].parent
            &&& g1[x].children == g0[x].children
            &&& g1[x].visibility == g0[x].visibility
        }
    &&& closed_under_children(g1, g0.dom())
}

/// Agreement carries over to a graph with the same links.
pub proof fn lemma_links_agree_same(g2: Map<Handle, NodeView>, g1: Map<Handle, NodeView>, g0: Map<Handle, NodeView>)
    requires
        same_links(g2, g1),
        links_agree(g1, g0),
    ensures
        links_agree(g2, g0),
{
    assert forall|x: Handle| #[trigger] g0.contains_key(x) implies {
        &&& g2[x].parent == g0[x].parent
        &&& g2[x].children == g0[x].children
        &&& g2[x].visibility == g0[x].visibility
    } by {
        assert(g1.contains_key(x));
    }
    assert forall|p: Handle, i: int|
        g0.dom().contains(p) && g2.contains_key(p) && 0 <= i < g2[p].children.len() && g2.contains_key(
            #[trigger] g2[p].children[i],
        ) implies g0.dom().contains(g2[p].children[i]) by {
        assert(g1.contains_key(p));
        assert(g1[p].children == g2[p].children);
        assert(g1.contains_key(g1[p].children[i]));
    }
}

/// Same links is transitive.
pub proof fn lemma_same_links_trans(a: Map<Handle, NodeView>, b: Map<Handle, NodeView>, c: Map<Handle, NodeView>)
    requires
        same_links(a, b),
        same_links(b, c),
    ensures
        same_links(a, c),
{
    assert forall|h: Handle| #[trigger] a.contains_key(h) implies {
        &&& a[h].parent == c[h].parent
        &&& a[h].children == c[h].children
        &&& a[h].visibility == c[h].visibility
        &&& a[h].name == c[h].name
        &&& a[h].kind == c[h].kind
        &&& a[h].body == c[h].body
    } by {
        assert(b.contains_key(h));
    }
}

/// The traversal from `h`, in a consistent graph: it changes only the nodes of `h`'s
/// subtree, gives `h` the visibility computed from the graph it starts on, and leaves
/// every other node of the subtree with the visibility computed from its parent.
pub proof fn lemma_visits_tree(
    g0: Map<Handle, NodeView>,
    rank: spec_fn(Handle) -> nat,
    g1: Map<Handle, NodeView>,
    h: Handle,
)
    requires
        ranked_by(g0, rank),
        consistent(g0),
        links_agree(g1, g0),
        g1.contains_key(h) ==> g0.contains_key(h),
    ensures
        ({
            let g = fold_visits(g1, visits(g0, rank, h));
            &&& same_links(g, g1)
            &&& forall|x: Handle|
                #[trigger] g1.contains_key(x) && !subtree(g0, rank, h).contains(x) ==> g[x] == g1[x]
            &&& g0.contains_key(h) ==> g[h].global_visibility == expected_visibility(g1, h)
            &&& forall|x: Handle|
                #[trigger] subtree(g0, rank, h).contains(x) && x != h ==> g[x].global_visibility
                    == expected_visibility(g, x)
        }),
    decreases rank(h), child_count(g0, h) + 1,
{
    let g = fold_visits(g1, visits(g0, rank, h));
    assert(same_links(g1, g1));
    if !g0.contains_key(h) {
        assert(visits(g0, rank, h) =~= seq![h]);
        assert(seq![h][0] == h);
        assert(seq![h].drop_first() =~= Seq::<Handle>::empty());
        assert(!g1.contains_key(h));
        assert(apply_visit(g1, h) == g1);
        assert(fold_visits(g1, Seq::<Handle>::empty()) == g1);
        assert(g == g1);
        assert(subtree(g0, rank, h) =~= Set::empty());
    } else {
        let n = child_count(g0, h);
        let vc = visits_children(g0, rank, h, n);
        let ga = apply_visit(g1, h);
        assert(visits(g0, rank, h) == seq![h] + vc);
        lemma_fold_concat(g1, seq![h], vc);
        assert(seq![h][0] == h);
        assert(seq![h].drop_first() =~= Seq::<Handle>::empty());
        assert(fold_visits(ga, Seq::<Handle>::empty()) == ga);
        assert(fold_visits(g1, seq![h]) == ga);
        lemma_apply_visit_same_links(g1, g1, h);
        lemma_links_agree_same(ga, g1, g0);
        lemma_visits_children_tree(g0, rank, ga, h, n);
        lemma_same_links_trans(g, ga, g1);
        lemma_subtree_prefix_shape_rank(g0, rank, h, n);
        assert forall|x: Handle| #[trigger] g1.contains_key(x) && !subtree(g0, rank, h).contains(x) implies g[x] == g1[x] by {
            assert(!subtree_prefix(g0, rank, h, n).contains(x));
            assert(x != h);
            assert(ga.contains_key(x));
        }
        assert forall|x: Handle| #[trigger] subtree(g0, rank, h).contains(x) && x != h implies g[x].global_visibility
            == expected_visibility(g, x) by {
            assert(subtree_prefix(g0, rank, h, n).contains(x));
        }
    }
}

/// Nodes below the children of `h` have rank below `h`'s, so `h` is not among them.
pub proof fn lemma_subtree_prefix_shape_rank(g: Map<Handle, NodeView>, rank: spec_fn(Handle) -> nat, h: Handle, k: int)
    requires
        ranked_by(g, rank),
    ensures
        !subtree_prefix(g, rank, h, k).contains(h),
{
    crate::scene::graph::lemma_subtree_prefix_shape(g, rank, h, k);
}

/// The traversals of the first `k` children of `h`, from the last to the first.
pub proof fn lemma_visits_children_tree(
    g0: Map<Handle, NodeView>,
    rank: spec_fn(Handle) -> nat,
    g1: Map<Handle, NodeView>,
    h: Handle,
    k: int,
)
    requires
        ranked_by(g0, rank),
        consistent(g0),
        links_agree(g1, g0),
        g0.contains_key(h),
        0 <= k <= g0[h].children.len(),
    ensures
        ({
            let g = fold_visits(g1, visits_children(g0, rank, h, k));
            &&& same_links(g, g1)
            &&& forall|x: Handle|
                #[trigger] g1.contains_key(x) && !subtree_prefix(g0, rank, h, k).contains(x) ==> g[x] == g1[x]
            &&& forall|x: Handle|
                #[trigger] subtree_prefix(g0, rank, h, k).contains(x) ==> g[x].global_visibility
                    == expected_visibility(g, x)
        }),
    decreases rank(h), k,
{
    let g = fold_visits(g1, visits_children(g0, rank, h, k));
    if k == 0 {
        assert(same_links(g1, g1));
        assert(visits_children(g0, rank, h, 0) =~= Seq::<Handle>::empty());
        assert(subtree_prefix(g0, rank, h, 0) =~= Set::empty());
    } else {
        let c = g0[h].children[k - 1];
        assert(rank(c) < rank(h));
        let vcc = visits(g0, rank, c);
        let rest = visits_children(g0, rank, h, k - 1);
        assert(visits_children(g0, rank, h, k) == vcc + rest);
        lemma_fold_concat(g1, vcc, rest);
        let g2 = fold_visits(g1, vcc);
        assert(g1[h].children == g0[h].children);
        assert(g1.contains_key(h));
        assert(g1.contains_key(c) ==> g0.contains_key(c));
        lemma_visits_tree(g0, rank, g1, c);
        lemma_links_agree_same(g2, g1, g0);
        lemma_visits_children_tree(g0, rank, g2, h, k - 1);
        lemma_same_links_trans(g, g2, g1);
        lemma_subtree_shape(g0, rank, c);
        lemma_subtree_prefix_member(g0, rank, h, k - 1);
        lemma_subtree_prefix_member(g0, rank, h, k);
        let pre = subtree_prefix(g0, rank, h, k - 1);
        let sub = subtree(g0, rank, c);
        assert(subtree_prefix(g0, rank, h, k) == pre + sub);
        assert(!sub.contains(h));
        lemma_subtree_prefix_shape_rank(g0, rank, h, k);
        assert forall|x: Handle| #[trigger] g1.contains_key(x) && !subtree_prefix(g0, rank, h, k).contains(x) implies g[x]
            == g1[x] by {
            assert(!pre.contains(x));
            assert(!sub.contains(x));
        }
        assert forall|y: Handle| #[trigger] sub.contains(y) implies !pre.contains(y) by {
            if pre.contains(y) {
                let j = choose|j: int| 0 <= j < k - 1 && #[trigger] subtree(g0, rank, g0[h].children[j]).contains(y);
                lemma_siblings_disjoint(g0, rank, h, j, k - 1, y);
            }
        }
        assert forall|x: Handle| #[trigger] subtree_prefix(g0, rank, h, k).contains(x) implies g[x].global_visibility
            == expected_visibility(g, x) by {
            if !pre.contains(x) {
                assert(sub.contains(x));
                assert(g[x] == g2[x]);
                if x == c {
                    assert(g0[c].parent == h);
                    assert(g[h] == g1[h]);
                    assert(g2[c].global_visibility == expected_visibility(g1, c));
                } else {
                    lemma_parent_in_subtree(g0, rank, c, x);
                    let p = g0[x].parent;
                    assert(sub.contains(p));
                    assert(!pre.contains(p));
                    assert(g[p] == g2[p]);
                }
            }
        }
    }
}

} // verus!
