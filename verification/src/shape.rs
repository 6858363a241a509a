//! The tree-native shape validator: a built model's leaves match the actions it was
//! built from, its parent-child closure is a tree, and every cyclic choice carries a
//! loop bound.

use vstd::prelude::*;
use std::collections::BTreeMap;
use crate::geometry::{
    GeometryState, LoopBound, POWLGeometryRefused, POWLModel, RefusalKind, build_powl_geometry, expected_refusal, model_of,
    refusal_state,
};
use crate::plan::Plan;
use crate::shape_laws::lemma_built_model_is_well_shaped;
use crate::turtle::{to_turtle, turtle_of};
use crate::powl::{Powl, SocketKind, WorkflowSocketId, node_at, sockets_of, socket_view, socket_views};
use crate::routing::{start_cycle, choice_graph_has_cycle};
use crate::text::owned;

verus! {

/// The outcome of a structural validation pass.
#[derive(Debug, PartialEq, Eq)]
pub struct ShapeReport {
    /// Leaf sockets.
    pub leaves: usize,
    /// Partial-order sockets.
    pub partial_orders: usize,
    /// Choice sockets.
    pub choices: usize,
    /// Direct parent-child edges: the sockets less one.
    pub child_bindings: usize,
    /// Cyclic choice sockets that carry a loop bound.
    pub bound_loops: usize,
    /// What was validated, in words.
    pub shape: &'static str,
}

/// How many sockets of `s` have kind `k`.
pub open spec fn count_kind(s: Seq<(Seq<usize>, SocketKind)>, k: SocketKind) -> nat
    decreases s.len(),
{
    if s.len() == 0 {
        0
    } else {
        count_kind(s.drop_last(), k) + if s.last().1 == k {
            1nat
        } else {
            0nat
        }
    }
}

/// Some loop-bound entry is keyed by socket `s`.
pub open spec fn has_bound(lb: Seq<(WorkflowSocketId, LoopBound)>, s: (Seq<usize>, SocketKind)) -> bool {
    exists|i: int| 0 <= i < lb.len() && socket_view(#[trigger] lb[i].0) == s
}

/// Socket `s` of `m` is a choice whose routing graph has a cycle.
pub open spec fn cyclic_choice_at(m: POWLModel, s: (Seq<usize>, SocketKind)) -> bool {
    s.1 == SocketKind::Choice && match node_at(m.root, s.0) {
        Some(Powl::Choice { graph, .. }) => start_cycle(graph.edges@),
        _ => false,
    }
}

/// How many sockets of `s` are cyclic choices of `m` with a loop bound.
pub open spec fn count_bound_loops(m: POWLModel, s: Seq<(Seq<usize>, SocketKind)>) -> nat
    decreases s.len(),
{
    if s.len() == 0 {
        0
    } else {
        count_bound_loops(m, s.drop_last()) + if cyclic_choice_at(m, s.last()) && has_bound(m.loop_bounds@, s.last()) {
            1nat
        } else {
            0nat
        }
    }
}

/// The model's shape is violated: its leaves are not its source actions, its closure is
/// not a tree over its sockets, or a cyclic choice has no loop bound.
pub open spec fn shape_violated(m: POWLModel) -> bool {
    let socks = sockets_of(m.root, Seq::empty());
    ||| count_kind(socks, SocketKind::Leaf) != m.source_action_count
    ||| m.closure.edges@.len() + 1 != socks.len()
    ||| exists|i: int| 0 <= i < socks.len() && cyclic_choice_at(m, #[trigger] socks[i]) && !has_bound(m.loop_bounds@, socks[i])
}

/// Whether `lb` has an entry keyed by `s`.
fn bound_present(lb: &Vec<(WorkflowSocketId, LoopBound)>, s: &WorkflowSocketId) -> (res: bool)
    ensures
        res == has_bound(lb@, socket_view(*s)),
{
    let mut k: usize = 0;
    while k < lb.len()
        invariant
            k <= lb@.len(),
            forall|q: int| 0 <= q < k ==> socket_view(#[trigger] lb@[q].0) != socket_view(*s),
        decreases lb@.len() - k,
    {
        if lb[k].0.kind == s.kind && same_path(&lb[k].0.path.segments, &s.path.segments) {
            proof {
                assert(socket_view(lb@[k as int].0) == socket_view(*s));
            }
            return true;
        }
        k = k + 1;
    }
    false
}

/// Whether two paths are the same.
fn same_path(a: &Vec<usize>, b: &Vec<usize>) -> (res: bool)
    ensures
        res == (a@ == b@),
{
    if a.len() != b.len() {
        return false;
    }
    let mut k: usize = 0;
    while k < a.len()
        invariant
            a@.len() == b@.len(),
            k <= a@.len(),
            forall|q: int| 0 <= q < k ==> a@[q] == b@[q],
        decreases a@.len() - k,
    {
        if a[k] != b[k] {
            return false;
        }
        k = k + 1;
    }
    proof {
        assert(a@ =~= b@);
    }
    true
}

/// A shape violation, raised at the hierarchy-built state.
fn violation(detail: &str) -> (res: POWLGeometryRefused)
    ensures
        res.kind() == RefusalKind::UnboundChildBinding,
        res.state() == GeometryState::HierarchyBuilt,
{
    POWLGeometryRefused::UnboundChildBinding { state: GeometryState::HierarchyBuilt, detail: owned(detail) }
}

/// Validates a model's structural shape and reports its socket counts.
pub fn validate_shape(model: &POWLModel) -> (res: Result<ShapeReport, POWLGeometryRefused>)
    ensures
        match res {
            Ok(r) => {
                let socks = sockets_of(model.root, Seq::empty());
                &&& !shape_violated(*model)
                &&& r.leaves == count_kind(socks, SocketKind::Leaf)
                &&& r.partial_orders == count_kind(socks, SocketKind::PartialOrder)
                &&& r.choices == count_kind(socks, SocketKind::Choice)
                &&& r.child_bindings == socks.len() - 1
                &&& r.bound_loops == count_bound_loops(*model, socks)
            },
            Err(e) => shape_violated(*model) && e.kind() == RefusalKind::UnboundChildBinding && e.state()
                == GeometryState::HierarchyBuilt,
        },
{
    let sockets = model.root.sockets();
    let ghost socks = sockets_of(model.root, Seq::empty());
    let mut leaves: usize = 0;
    let mut partial_orders: usize = 0;
    let mut choices: usize = 0;
    let mut k: usize = 0;
    while k < sockets.len()
        invariant
            socket_views(sockets@) == socks,
            socks == sockets_of(model.root, Seq::empty()),
            k <= sockets@.len(),
            leaves == count_kind(socks.take(k as int), SocketKind::Leaf),
            partial_orders == count_kind(socks.take(k as int), SocketKind::PartialOrder),
            choices == count_kind(socks.take(k as int), SocketKind::Choice),
            leaves <= k && partial_orders <= k && choices <= k,
        decreases sockets@.len() - k,
    {
        proof {
            assert(socks.take(k + 1).drop_last() =~= socks.take(k as int));
            assert(socks[k as int] == socket_view(sockets@[k as int]));
        }
        match sockets[k].kind {
            SocketKind::Leaf => leaves = leaves + 1,
            SocketKind::PartialOrder => partial_orders = partial_orders + 1,
            SocketKind::Choice => choices = choices + 1,
            SocketKind::ExternalCut => {},
        }
        k = k + 1;
    }
    proof {
        assert(socks.take(k as int) =~= socks);
    }
    if leaves != model.source_action_count {
        return Err(
            violation(
                "shape violation: the model's leaves are not its source actions; every action must become exactly one leaf",
            ),
        );
    }
    let total = sockets.len();
    let edges = model.closure.edges().len();
    if total == 0 || edges != total - 1 {
        return Err(
            violation("shape violation: the parent-child closure's edges are not the model's sockets less one"),
        );
    }
    let mut bound_loops: usize = 0;
    let mut j: usize = 0;
    while j < sockets.len()
        invariant
            socket_views(sockets@) == socks,
            socks == sockets_of(model.root, Seq::empty()),
            j <= sockets@.len(),
            bound_loops == count_bound_loops(*model, socks.take(j as int)),
            bound_loops <= j,
            forall|q: int| 0 <= q < j ==> !(cyclic_choice_at(*model, #[trigger] socks[q]) && !has_bound(model.loop_bounds@, socks[q])),
        decreases sockets@.len() - j,
    {
        let ghost s = socks[j as int];
        proof {
            assert(socks.take(j + 1).drop_last() =~= socks.take(j as int));
            assert(s == socket_view(sockets@[j as int]));
        }
        let mut counted = false;
        if sockets[j].kind == SocketKind::Choice {
            match model.root.socket_at(&sockets[j].path) {
                Some(Powl::Choice { graph, .. }) => {
                    let cyclic = choice_graph_has_cycle(graph);
                    let bound = bound_present(&model.loop_bounds, &sockets[j]);
                    if cyclic && !bound {
                        proof {
                            assert(cyclic_choice_at(*model, socks[j as int]));
                            assert(!has_bound(model.loop_bounds@, socks[j as int]));

                        }
                        return Err(
                            violation("shape violation: a choice socket has a cyclic routing graph with no loop bound"),
                        );
                    }
                    if cyclic && bound {
                        bound_loops = bound_loops + 1;
                        counted = true;
                    }
                },
                _ => {},
            }
        }
        proof {
            assert(counted == (cyclic_choice_at(*model, s) && has_bound(model.loop_bounds@, s)));
        }
        j = j + 1;
    }
    proof {
        assert(socks.take(j as int) =~= socks);
    }
    Ok(
        ShapeReport {
            leaves,
            partial_orders,
            choices,
            child_bindings: total - 1,
            bound_loops,
            shape: "tree-native structural validator: leaf count equals the source action count, closure edge count equals the socket count less one, every cyclic choice socket carries a loop bound",
        },
    )
}


/// The whole pipeline in one call: build the model, serialize it under `base_iri`, and
/// validate its shape.
pub fn manufacture_powl_v2(plan: &Plan, loop_bounds: &BTreeMap<usize, LoopBound>, base_iri: &str) -> (res: Result<
    (POWLModel, String, ShapeReport),
    POWLGeometryRefused,
>)
    ensures
        match res {
            Ok((m, t, r)) => {
                let socks = sockets_of(m.root, Seq::empty());
                &&& expected_refusal(*plan, loop_bounds@) is None
                &&& model_of(*plan, loop_bounds@, m)
                &&& t@ == turtle_of(m, base_iri@)
                &&& !shape_violated(m)
                &&& r.leaves == count_kind(socks, SocketKind::Leaf)
                &&& r.partial_orders == count_kind(socks, SocketKind::PartialOrder)
                &&& r.choices == count_kind(socks, SocketKind::Choice)
                &&& r.child_bindings == socks.len() - 1
                &&& r.bound_loops == count_bound_loops(m, socks)
            },
            Err(e) => expected_refusal(*plan, loop_bounds@) == Some(e.kind()) && e.state() == refusal_state(e.kind()),
        },
{
    let model = match build_powl_geometry(plan, loop_bounds) {
        Ok(m) => m,
        Err(e) => {
            return Err(e);
        },
    };
    let turtle = to_turtle(&model, base_iri);
    let report = match validate_shape(&model) {
        Ok(r) => r,
        Err(e) => {
            proof {
                lemma_built_model_is_well_shaped(*plan, loop_bounds@, model);
            }
            return Err(e);
        },
    };
    Ok((model, turtle, report))
}

} // verus!
