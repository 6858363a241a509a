//! Reachability and cycle detection over a choice's routing graph.

use vstd::prelude::*;
use crate::powl::{ChoiceGraph, GNode};
use crate::relation::{is_walk, reaches, lemma_step_reaches, lemma_reaches_trans};

verus! {

/// The edge set a list of routing edges denotes.
pub open spec fn edge_set(edges: Seq<(GNode, GNode)>) -> Set<(GNode, GNode)> {
    Set::new(|e: (GNode, GNode)| edges.contains(e))
}

/// The routing graph has a cycle through a node reachable from `Start` (or through
/// `Start` itself).
pub open spec fn start_cycle(edges: Seq<(GNode, GNode)>) -> bool {
    exists|v: GNode|
        (v == GNode::Start || reaches(edge_set(edges), GNode::Start, v)) && #[trigger] reaches(
            edge_set(edges),
            v,
            v,
        )
}

/// Whether `w` is in `list`.
pub fn gnode_in(list: &Vec<GNode>, w: GNode) -> (res: bool)
    ensures
        res == list@.contains(w),
{
    let mut k: usize = 0;
    while k < list.len()
        invariant
            k <= list@.len(),
            forall|q: int| 0 <= q < k ==> list@[q] != w,
        decreases list@.len() - k,
    {
        if list[k] == w {
            return true;
        }
        k = k + 1;
    }
    false
}

/// The reached list holds only nodes reachable from `v` that are edge targets.
#[verifier::opaque]
spec fn reached_ok(e: Set<(GNode, GNode)>, v: GNode, vis: Seq<GNode>, pool: Seq<GNode>) -> bool {
    forall|w: GNode| vis.contains(w) ==> reaches(e, v, w) && pool.contains(w)
}

proof fn lemma_reached_push(e: Set<(GNode, GNode)>, v: GNode, vis: Seq<GNode>, pool: Seq<GNode>, b: GNode)
    requires
        reached_ok(e, v, vis, pool),
        reaches(e, v, b),
        pool.contains(b),
    ensures
        reached_ok(e, v, vis.push(b), pool),
        forall|w: GNode| vis.contains(w) ==> vis.push(b).contains(w),
{
    reveal(reached_ok);
    let t = vis.push(b);
    assert forall|w: GNode| t.contains(w) implies reaches(e, v, w) && pool.contains(w) by {
        if w != b {
            let j = choose|j: int| 0 <= j < t.len() && t[j] == w;
            assert(vis[j] == w);
            assert(vis.contains(w));
        }
    }
    assert forall|w: GNode| vis.contains(w) implies t.contains(w) by {
        let j = choose|j: int| 0 <= j < vis.len() && vis[j] == w;
        assert(t[j] == w);
    }
}

/// A walk's every node after the first is reached, once the reached set holds all direct
/// successors of the origin and is closed under successors.
proof fn lemma_walk_in_closed(e: Set<(GNode, GNode)>, vis: Seq<GNode>, v: GNode, s: Seq<GNode>, k: int)
    requires
        is_walk(e, s),
        s[0] == v,
        1 <= k < s.len(),
        forall|b: GNode| #[trigger] e.contains((v, b)) ==> vis.contains(b),
        forall|a: GNode, b: GNode| vis.contains(a) && #[trigger] e.contains((a, b)) ==> vis.contains(b),
    ensures
        vis.contains(s[k]),
    decreases k,
{
    assert(crate::relation::walk_step(e, s, 0));
    if k > 1 {
        lemma_walk_in_closed(e, vis, v, s, k - 1);
        assert(crate::relation::walk_step(e, s, k - 1));
    }
}

/// Every node reachable from `v` in one or more routing steps, each once.
pub fn reachable_from(edges: &Vec<(GNode, GNode)>, v: GNode) -> (res: Vec<GNode>)
    ensures
        forall|w: GNode| res@.contains(w) <==> reaches(edge_set(edges@), v, w),
{
    let ghost e = edge_set(edges@);
    let ghost pool = edges@.map_values(|x: (GNode, GNode)| x.1);
    let mut vis: Vec<GNode> = Vec::new();
    proof {
        reveal(reached_ok);
    }
    let mut k: usize = 0;
    while k < edges.len()
        invariant
            k <= edges@.len(),
            e == edge_set(edges@),
            pool == edges@.map_values(|x: (GNode, GNode)| x.1),
            vis@.no_duplicates(),
            reached_ok(e, v, vis@, pool),
            forall|q: int| 0 <= q < k && (#[trigger] edges@[q]).0 == v ==> vis@.contains(edges@[q].1),
        decreases edges@.len() - k,
    {
        let (a, b) = edges[k];
        if a == v && !gnode_in(&vis, b) {
            proof {
                assert(edges@.contains((a, b)));
                assert(e.contains((a, b)));
                lemma_step_reaches(e, v, b);
                assert(pool[k as int] == b);
                lemma_reached_push(e, v, vis@, pool, b);
            }
            vis.push(b);
            proof {
                assert(vis@[vis@.len() - 1] == b);
            }
        }
        k = k + 1;
    }
    let mut i: usize = 0;
    while i < vis.len()
        invariant
            i <= vis@.len(),
            e == edge_set(edges@),
            pool == edges@.map_values(|x: (GNode, GNode)| x.1),
            vis@.no_duplicates(),
            reached_ok(e, v, vis@, pool),
            forall|b: GNode| #[trigger] e.contains((v, b)) ==> vis@.contains(b),
            forall|q: int, b: GNode| 0 <= q < i && #[trigger] e.contains((vis@[q], b)) ==> vis@.contains(b),
        decreases edges@.len() - i,
    {
        proof {
            reveal(reached_ok);
            assert(vis@.to_set().subset_of(pool.to_set()));
            vis@.unique_seq_to_set();
            pool.lemma_cardinality_of_set();
            vstd::set_lib::lemma_len_subset(vis@.to_set(), pool.to_set());
        }
        let u = vis[i];
        let ghost start = vis@;
        let mut k: usize = 0;
        while k < edges.len()
            invariant
                i < vis@.len(),
                u == vis@[i as int],
                start.len() <= vis@.len(),
                forall|q: int| 0 <= q < start.len() ==> vis@[q] == start[q],
                k <= edges@.len(),
                e == edge_set(edges@),
                pool == edges@.map_values(|x: (GNode, GNode)| x.1),
                vis@.no_duplicates(),
                reached_ok(e, v, vis@, pool),
                forall|b: GNode| #[trigger] e.contains((v, b)) ==> vis@.contains(b),
                forall|q: int, b: GNode| 0 <= q < i && #[trigger] e.contains((vis@[q], b)) ==> vis@.contains(b),
                forall|q: int| 0 <= q < k && (#[trigger] edges@[q]).0 == u ==> vis@.contains(edges@[q].1),
            decreases edges@.len() - k,
        {
            let (a, b) = edges[k];
            if a == u && !gnode_in(&vis, b) {
                proof {
                    assert(edges@.contains((a, b)));
                    assert(e.contains((a, b)));
                    assert(vis@.contains(u));
                    reveal(reached_ok);
                    lemma_step_reaches(e, u, b);
                    lemma_reaches_trans(e, v, u, b);
                    assert(pool[k as int] == b);
                    lemma_reached_push(e, v, vis@, pool, b);
                }
                vis.push(b);
                proof {
                    assert(vis@[vis@.len() - 1] == b);
                }
            }
            k = k + 1;
        }
        proof {
            assert forall|q: int, b: GNode| 0 <= q < i + 1 && #[trigger] e.contains((vis@[q], b)) implies vis@.contains(b) by {
                if q == i {
                    let j = choose|j: int| 0 <= j < edges@.len() && edges@[j] == (vis@[q], b);
                    assert(edges@[j].0 == u);
                }
            }
        }
        i = i + 1;
    }
    proof {
        reveal(reached_ok);
        assert forall|w: GNode| reaches(e, v, w) implies vis@.contains(w) by {
            let s = choose|s: Seq<GNode>| #[trigger] is_walk(e, s) && s[0] == v && s.last() == w;
            assert forall|a: GNode, b: GNode| vis@.contains(a) && #[trigger] e.contains((a, b)) implies vis@.contains(b) by {
                let q = choose|q: int| 0 <= q < vis@.len() && vis@[q] == a;
            }
            lemma_walk_in_closed(e, vis@, v, s, s.len() - 1);
        }
    }
    vis
}

/// Whether the routing graph has a cycle reachable from `Start`.
pub fn choice_graph_has_cycle(graph: &ChoiceGraph) -> (res: bool)
    ensures
        res == start_cycle(graph.edges@),
{
    let ghost e = edge_set(graph.edges@);
    let from_start = reachable_from(&graph.edges, GNode::Start);
    if gnode_in(&from_start, GNode::Start) {
        return true;
    }
    let mut k: usize = 0;
    while k < from_start.len()
        invariant
            k <= from_start@.len(),
            e == edge_set(graph.edges@),
            forall|w: GNode| from_start@.contains(w) <==> reaches(e, GNode::Start, w),
            !reaches(e, GNode::Start, GNode::Start),
            forall|q: int| 0 <= q < k ==> !reaches(e, #[trigger] from_start@[q], from_start@[q]),
        decreases from_start@.len() - k,
    {
        let v = from_start[k];
        let back = reachable_from(&graph.edges, v);
        if gnode_in(&back, v) {
            proof {
                assert(from_start@.contains(v));
            }
            return true;
        }
        k = k + 1;
    }
    proof {
        assert forall|v: GNode| (v == GNode::Start || reaches(e, GNode::Start, v)) implies !#[trigger] reaches(e, v, v) by {
            if v != GNode::Start {
                assert(from_start@.contains(v));
                let q = choose|q: int| 0 <= q < from_start@.len() && from_start@[q] == v;
            }
        }
    }
    false
}

} // verus!
