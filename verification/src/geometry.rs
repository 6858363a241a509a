//! POWL recursive process geometry: from a validated plan with per-action provenance to a
//! POWL 2.0 model (plan grouper, partial-order builder, choice-graph builder, hierarchy
//! builder and loop-bound binder), with a typed refusal for every way a plan can fail.

use vstd::prelude::*;
use std::collections::BTreeMap;
use crate::powl::{
    ChoiceGraph, GNode, Powl, SocketKind, SocketPath, WorkflowSocketId, ParentChildClosure, edge_views, edges_of,
};
use crate::relation::{
    closure_of, pair_set, pairs_below, pair_lt, sorted_pairs, contains_pair, transitive_closure, lemma_pair_set_push,
};
use crate::routing::{start_cycle, choice_graph_has_cycle};
use crate::text::{owned, push_decimal, push_str};
use crate::geometry_detail::{
    binding_what, blank_source_detail, closure_contradiction_detail, group_refusal_detail, precedes_refusal_detail, unit_contradiction_detail,
};
use crate::plan::{
    Plan, n_actions, members, loops, flat_only, group_well_formed, groups_invent_order, precedes_invent_order,
    action_order, contradicts, owners_ok, some_source_blank, group_owners, some_pair_invents_order, has_contradiction,
};
use crate::grouping::{
    Units, plan_units, units_ok, phase_start, unit_members, group_of, group_leader_of, leader, leader_count,
    unit_of, unit_count, lemma_group_leaders, lemma_leader_count_below, lemma_leader_count_nonneg, units_map, units_led, units_rows, units_groups,
};

verus! {

/// An iteration cap for a cyclic choice point; it must be at least one.
#[derive(Clone, Copy, Debug, PartialEq, Eq, Structural)]
pub struct LoopBound {
    pub max_iterations: u32,
}

/// The pipeline states at which a plan can be refused.
#[derive(Clone, Copy, Debug, PartialEq, Eq, Structural)]
pub enum GeometryState {
    /// Provenance, declared order and choice structure are validated and closed.
    OrderDerived,
    /// The tree, its parent-child closure and loop-bound coverage are validated.
    HierarchyBuilt,
}

impl GeometryState {
    /// The state's stable name.
    pub fn name(&self) -> (res: &'static str)
        ensures
            res@ == geometry_state_name(*self),
    {
        proof {
            reveal_strlit("ORDER_DERIVED");
            reveal_strlit("HIERARCHY_BUILT");
        }
        match self {
            GeometryState::OrderDerived => "ORDER_DERIVED",
            GeometryState::HierarchyBuilt => "HIERARCHY_BUILT",
        }
    }
}

/// The state's stable name.
pub open spec fn geometry_state_name(s: GeometryState) -> Seq<char> {
    match s {
        GeometryState::OrderDerived => seq!['O', 'R', 'D', 'E', 'R', '_', 'D', 'E', 'R', 'I', 'V', 'E', 'D'],
        GeometryState::HierarchyBuilt => seq![
            'H', 'I', 'E', 'R', 'A', 'R', 'C', 'H', 'Y', '_', 'B', 'U', 'I', 'L', 'T',
        ],
    }
}

/// Why a plan was refused.
#[derive(Debug)]
pub enum POWLGeometryRefused {
    /// Declared order that cannot be honoured without fabricating it: a `precedes` pair
    /// out of range or reflexive, a malformed choice group, or an order between two
    /// members of one choice group.
    InventedOrder { state: GeometryState, detail: String },
    /// The declared order contradicts itself, between actions or between the units
    /// built from them.
    LostPrecedence { state: GeometryState, detail: String },
    /// No actions, or an action without provenance.
    FlatOnlyProvenance { state: GeometryState, detail: String },
    /// A choice with no exit branch, a cyclic choice without a positive loop bound, or a
    /// built model whose leaves do not match the plan's actions.
    UnboundChildBinding { state: GeometryState, detail: String },
}

/// The four kinds of refusal.
#[derive(Clone, Copy, Debug, PartialEq, Eq, Structural)]
pub enum RefusalKind {
    InventedOrder,
    LostPrecedence,
    FlatOnlyProvenance,
    UnboundChildBinding,
}

impl POWLGeometryRefused {
    /// The refusal's kind.
    pub open spec fn kind(&self) -> RefusalKind {
        match self {
            POWLGeometryRefused::InventedOrder { .. } => RefusalKind::InventedOrder,
            POWLGeometryRefused::LostPrecedence { .. } => RefusalKind::LostPrecedence,
            POWLGeometryRefused::FlatOnlyProvenance { .. } => RefusalKind::FlatOnlyProvenance,
            POWLGeometryRefused::UnboundChildBinding { .. } => RefusalKind::UnboundChildBinding,
        }
    }

    /// The state the refusal was raised at.
    pub open spec fn state(&self) -> GeometryState {
        match self {
            POWLGeometryRefused::InventedOrder { state, .. } => *state,
            POWLGeometryRefused::LostPrecedence { state, .. } => *state,
            POWLGeometryRefused::FlatOnlyProvenance { state, .. } => *state,
            POWLGeometryRefused::UnboundChildBinding { state, .. } => *state,
        }
    }
}


/// A built model: the tree, its parent-child closure, the loop bounds attached to its
/// cyclic choices (keyed by socket, in socket order) and the number of actions it was
/// built from.
#[derive(Debug)]
pub struct POWLModel {
    pub root: Powl,
    pub closure: ParentChildClosure,
    pub loop_bounds: Vec<(WorkflowSocketId, LoopBound)>,
    pub source_action_count: usize,
}

/// The name of a refusal kind.
pub open spec fn refusal_kind_name(k: RefusalKind) -> Seq<char> {
    match k {
        RefusalKind::InventedOrder => seq!['I', 'n', 'v', 'e', 'n', 't', 'e', 'd', 'O', 'r', 'd', 'e', 'r'],
        RefusalKind::LostPrecedence => seq!['L', 'o', 's', 't', 'P', 'r', 'e', 'c', 'e', 'd', 'e', 'n', 'c', 'e'],
        RefusalKind::FlatOnlyProvenance => seq![
            'F', 'l', 'a', 't', 'O', 'n', 'l', 'y', 'P', 'r', 'o', 'v', 'e', 'n', 'a', 'n', 'c', 'e',
        ],
        RefusalKind::UnboundChildBinding => seq![
            'U', 'n', 'b', 'o', 'u', 'n', 'd', 'C', 'h', 'i', 'l', 'd', 'B', 'i', 'n', 'd', 'i', 'n', 'g',
        ],
    }
}

/// The prefix of every rendered refusal.
pub open spec fn refusal_prefix() -> Seq<char> {
    seq![
        'F', '1', '0', '_', 'P', 'O', 'W', 'L', '_', 'G', 'E', 'O', 'M', 'E', 'T', 'R', 'Y', '_', 'R', 'E', 'F', 'U', 'S', 'E',
        'D', '[',
    ]
}

impl POWLGeometryRefused {
    /// The refusal's detail text.
    pub open spec fn detail(&self) -> Seq<char> {
        match self {
            POWLGeometryRefused::InventedOrder { detail, .. } => detail@,
            POWLGeometryRefused::LostPrecedence { detail, .. } => detail@,
            POWLGeometryRefused::FlatOnlyProvenance { detail, .. } => detail@,
            POWLGeometryRefused::UnboundChildBinding { detail, .. } => detail@,
        }
    }

    /// Renders the refusal as `F10_POWL_GEOMETRY_REFUSED[<state>] <kind>: <detail>`.
    pub fn to_string(&self) -> (res: String)
        ensures
            res@ == refusal_prefix() + geometry_state_name(self.state()) + seq![']', ' '] + refusal_kind_name(self.kind())
                + seq![':', ' '] + self.detail(),
    {
        proof {
            reveal_strlit("F10_POWL_GEOMETRY_REFUSED[");
            reveal_strlit("] ");
            reveal_strlit(": ");
            reveal_strlit("InventedOrder");
            reveal_strlit("LostPrecedence");
            reveal_strlit("FlatOnlyProvenance");
            reveal_strlit("UnboundChildBinding");
        }
        let (kind, state, detail) = match self {
            POWLGeometryRefused::InventedOrder { state, detail } => ("InventedOrder", state, detail),
            POWLGeometryRefused::LostPrecedence { state, detail } => ("LostPrecedence", state, detail),
            POWLGeometryRefused::FlatOnlyProvenance { state, detail } => ("FlatOnlyProvenance", state, detail),
            POWLGeometryRefused::UnboundChildBinding { state, detail } => ("UnboundChildBinding", state, detail),
        };
        let mut out = owned("F10_POWL_GEOMETRY_REFUSED[");
        push_str(&mut out, state.name());
        push_str(&mut out, "] ");
        push_str(&mut out, kind);
        push_str(&mut out, ": ");
        push_str(&mut out, detail.as_str());
        out
    }
}

// ---------------------------------------------------------------------------------------
// The model a plan determines.
// ---------------------------------------------------------------------------------------

/// `node` is the activity leaf of action `a`.
pub open spec fn leaf_of(plan: Plan, node: Powl, a: int) -> bool {
    match node {
        Powl::Leaf(Some(label)) => label@ == plan.actions@[a].id@,
        _ => false,
    }
}

/// The order inside a phase over the positions of its actions `l`: the plan-required
/// order between two distinct positions.
pub open spec fn phase_order(plan: Plan, l: Seq<usize>) -> Set<(int, int)> {
    Set::new(
        |p: (int, int)|
            0 <= p.0 < l.len() && 0 <= p.1 < l.len() && p.0 != p.1 && action_order(plan).contains(
                (l[p.0] as int, l[p.1] as int),
            ),
    )
}

/// `node` is the node of the phase with actions `l`: the bare leaf of a one-action
/// phase, else a partial order over the actions' leaves with the plan-required order.
#[verifier::opaque]
pub open spec fn phase_node(plan: Plan, node: Powl, l: Seq<usize>) -> bool {
    if l.len() == 1 {
        leaf_of(plan, node, l[0] as int)
    } else {
        match node {
            Powl::PartialOrder { children, order } => {
                &&& children@.len() == l.len()
                &&& forall|k: int| 0 <= k < l.len() ==> leaf_of(plan, #[trigger] children@[k], l[k] as int)
                &&& sorted_pairs(order@)
                &&& pair_set(order@) == phase_order(plan, l)
            },
            _ => false,
        }
    }
}

/// The routing edges of a choice over `n` branches: `Start` to every branch, then every
/// branch to `Start` where it loops and to `End` where it exits, in ordered-set order.
pub open spec fn choice_edges(n: int, loops: Seq<usize>) -> Seq<(GNode, GNode)> {
    Seq::new(n as nat, |i: int| (GNode::Start, GNode::Child(i as usize))) + Seq::new(
        n as nat,
        |i: int|
            (
                GNode::Child(i as usize),
                if loops.contains(i as usize) {
                    GNode::Start
                } else {
                    GNode::End
                },
            ),
    )
}

/// `node` is the choice node of group `g`: one leaf per member, routed by `choice_edges`.
#[verifier::opaque]
pub open spec fn choice_node(plan: Plan, node: Powl, g: int) -> bool {
    match node {
        Powl::Choice { children, graph } => {
            &&& children@.len() == members(plan, g).len()
            &&& forall|k: int|
                0 <= k < members(plan, g).len() ==> leaf_of(plan, #[trigger] children@[k], members(plan, g)[k] as int)
            &&& graph.n == members(plan, g).len()
            &&& graph.edges@ == choice_edges(members(plan, g).len() as int, loops(plan, g))
        },
        _ => false,
    }
}

/// `node` is the node of the unit that leader `l` leads.
pub open spec fn unit_node(plan: Plan, node: Powl, l: int) -> bool {
    if phase_start(plan, l) {
        phase_node(plan, node, unit_members(plan, l))
    } else {
        choice_node(plan, node, group_of(plan, l))
    }
}

/// The order between units: unit `u` before unit `v` where some action of `u` is
/// plan-required before some action of `v`.
pub open spec fn unit_rel(plan: Plan) -> Set<(int, int)> {
    Set::new(
        |p: (int, int)|
            exists|i: int, j: int|
                #[trigger] action_order(plan).contains((i, j)) && unit_of(plan, i) != unit_of(plan, j) && p == (
                    unit_of(plan, i),
                    unit_of(plan, j),
                ),
    )
}

/// The routing graph of group `g` has a cycle.
pub open spec fn cyclic(plan: Plan, g: int) -> bool {
    start_cycle(choice_edges(members(plan, g).len() as int, loops(plan, g)))
}

/// Every branch of group `g` loops back: the choice can never be left.
pub open spec fn no_exit(plan: Plan, g: int) -> bool {
    forall|k: usize| k < members(plan, g).len() ==> #[trigger] loops(plan, g).contains(k)
}

/// Group `g` has a usable loop bound.
pub open spec fn bound_ok(bounds: Map<usize, LoopBound>, g: int) -> bool {
    bounds.contains_key(g as usize) && bounds[g as usize].max_iterations > 0
}

/// Choice group `g` has no exit, or is cyclic without a usable loop bound.
pub open spec fn group_unbound(plan: Plan, bounds: Map<usize, LoopBound>, g: int) -> bool {
    no_exit(plan, g) || (cyclic(plan, g) && !bound_ok(bounds, g))
}

/// Some choice group is unbound.
pub open spec fn binding_unbound(plan: Plan, bounds: Map<usize, LoopBound>) -> bool {
    exists|g: int| 0 <= g < plan.choice_groups@.len() && #[trigger] group_unbound(plan, bounds, g)
}

/// The refusal a plan earns, checked in pipeline order; `None` where it is built.
pub open spec fn expected_refusal(plan: Plan, bounds: Map<usize, LoopBound>) -> Option<RefusalKind> {
    if flat_only(plan) {
        Some(RefusalKind::FlatOnlyProvenance)
    } else if groups_invent_order(plan) || precedes_invent_order(plan) {
        Some(RefusalKind::InventedOrder)
    } else if contradicts(action_order(plan)) || contradicts(closure_of(unit_rel(plan))) {
        Some(RefusalKind::LostPrecedence)
    } else if binding_unbound(plan, bounds) {
        Some(RefusalKind::UnboundChildBinding)
    } else {
        None
    }
}

/// The state at which a refusal of kind `k` is raised.
pub open spec fn refusal_state(k: RefusalKind) -> GeometryState {
    match k {
        RefusalKind::UnboundChildBinding => GeometryState::HierarchyBuilt,
        _ => GeometryState::OrderDerived,
    }
}

/// The unit of choice group `g`.
pub open spec fn group_unit_of(plan: Plan, g: int) -> int {
    leader_count(plan, group_leader_of(plan, g))
}

/// The unit index a loop-bound entry's socket addresses.
pub open spec fn entry_unit(e: (WorkflowSocketId, LoopBound)) -> int {
    e.0.path.segments@[0] as int
}

/// Entry `e` binds the socket of a cyclic group's unit to that group's bound.
pub open spec fn entry_of_cyclic_group(plan: Plan, bounds: Map<usize, LoopBound>, e: (WorkflowSocketId, LoopBound)) -> bool {
    exists|g: int|
        0 <= g < plan.choice_groups@.len() && cyclic(plan, g) && #[trigger] group_unit_of(plan, g) == entry_unit(e) && e.1
            == bounds[g as usize]
}

/// Some entry of `lb` addresses unit `x`.
pub open spec fn has_entry_for(lb: Seq<(WorkflowSocketId, LoopBound)>, x: int) -> bool {
    exists|i: int| 0 <= i < lb.len() && entry_unit(#[trigger] lb[i]) == x
}

/// The attached loop bounds: one entry per cyclic group, keyed by the socket of the
/// group's unit under the root, in unit order, holding the group's bound.
pub open spec fn bounds_attached(plan: Plan, bounds: Map<usize, LoopBound>, lb: Seq<(WorkflowSocketId, LoopBound)>) -> bool {
    &&& forall|i: int|
        0 <= i < lb.len() ==> (#[trigger] lb[i]).0.kind == SocketKind::Choice && lb[i].0.path.segments@.len() == 1
    &&& forall|i: int, j: int| 0 <= i < j < lb.len() ==> entry_unit(#[trigger] lb[i]) < entry_unit(#[trigger] lb[j])
    &&& forall|i: int| 0 <= i < lb.len() ==> entry_of_cyclic_group(plan, bounds, #[trigger] lb[i])
    &&& forall|g: int|
        0 <= g < plan.choice_groups@.len() && #[trigger] cyclic(plan, g) ==> has_entry_for(lb, group_unit_of(plan, g))
}

/// `m` is the model of `plan`: a root partial order over the units in leader order,
/// each unit's node as `unit_node` says, ordered by the closure of `unit_rel`, with the
/// attached loop bounds.
pub open spec fn model_of(plan: Plan, bounds: Map<usize, LoopBound>, m: POWLModel) -> bool {
    &&& m.source_action_count == n_actions(plan)
    &&& match m.root {
        Powl::PartialOrder { children, order } => {
            &&& children@.len() == unit_count(plan)
            &&& forall|l: int|
                0 <= l < n_actions(plan) && #[trigger] leader(plan, l) ==> unit_node(plan, children@[leader_count(plan, l)], l)
            &&& sorted_pairs(order@)
            &&& pair_set(order@) == closure_of(unit_rel(plan))
        },
        _ => false,
    }
    &&& edge_views(m.closure.edges@) == edges_of(m.root, Seq::empty())
    &&& bounds_attached(plan, bounds, m.loop_bounds@)
}

// ---------------------------------------------------------------------------------------
// Node builders.
// ---------------------------------------------------------------------------------------

/// The activity leaf of action `a`.
fn leaf_for(plan: &Plan, a: usize) -> (res: Powl)
    requires
        a < n_actions(*plan),
    ensures
        leaf_of(*plan, res, a as int),
{
    Powl::Leaf(Some(plan.actions[a].id.clone()))
}

/// The leaves of the actions `l`, in order.
fn leaves_for(plan: &Plan, l: &Vec<usize>) -> (res: Vec<Powl>)
    requires
        forall|q: int| 0 <= q < l@.len() ==> #[trigger] l@[q] < n_actions(*plan),
    ensures
        res@.len() == l@.len(),
        forall|k: int| 0 <= k < l@.len() ==> leaf_of(*plan, #[trigger] res@[k], l@[k] as int),
{
    let mut res: Vec<Powl> = Vec::new();
    let mut k: usize = 0;
    while k < l.len()
        invariant
            k <= l@.len(),
            res@.len() == k,
            forall|q: int| 0 <= q < l@.len() ==> #[trigger] l@[q] < n_actions(*plan),
            forall|q: int| 0 <= q < k ==> leaf_of(*plan, #[trigger] res@[q], l@[q] as int),
        decreases l@.len() - k,
    {
        let leaf = leaf_for(plan, l[k]);
        res.push(leaf);
        k = k + 1;
    }
    res
}

/// The order inside the phase with actions `l`, as a sorted list of position pairs.
fn phase_order_pairs(plan: &Plan, l: &Vec<usize>, closure: &Vec<(usize, usize)>) -> (res: Vec<(usize, usize)>)
    requires
        pair_set(closure@) == action_order(*plan),
    ensures
        sorted_pairs(res@),
        pair_set(res@) == phase_order(*plan, l@),
{
    let ghost target = phase_order(*plan, l@);
    let mut res: Vec<(usize, usize)> = Vec::new();
    let mut i: usize = 0;
    while i < l.len()
        invariant
            i <= l@.len(),
            target == phase_order(*plan, l@),
            pair_set(closure@) == action_order(*plan),
            sorted_pairs(res@),
            forall|q: int| 0 <= q < res@.len() ==> (#[trigger] res@[q]).0 < i,
            forall|p: (int, int)| #[trigger] pair_set(res@).contains(p) <==> (target.contains(p) && p.0 < i),
        decreases l@.len() - i,
    {
        let mut j: usize = 0;
        while j < l.len()
            invariant
                i < l@.len(),
                j <= l@.len(),
                target == phase_order(*plan, l@),
                pair_set(closure@) == action_order(*plan),
                sorted_pairs(res@),
                forall|q: int| 0 <= q < res@.len() ==> pair_lt(#[trigger] res@[q], (i, j)),
                forall|q: int| 0 <= q < res@.len() ==> (#[trigger] res@[q]).0 <= i,
                forall|p: (int, int)|
                    #[trigger] pair_set(res@).contains(p) <==> (target.contains(p) && (p.0 < i || (p.0 == i && p.1 < j))),
            decreases l@.len() - j,
        {
            if i != j && contains_pair(closure, l[i], l[j]) {
                let ghost old_res = res@;
                res.push((i, j));
                proof {
                    lemma_pair_set_push(old_res, (i, j));
                    assert forall|a: int, b: int| 0 <= a < b < res@.len() implies pair_lt(#[trigger] res@[a], #[trigger] res@[b]) by {
                        if b == res@.len() - 1 {
                            assert(pair_lt(old_res[a], (i, j)));
                        } else {
                            assert(res@[a] == old_res[a] && res@[b] == old_res[b]);
                        }
                    }
                    assert forall|q: int| 0 <= q < res@.len() implies pair_lt(#[trigger] res@[q], (i, (j + 1) as usize)) by {
                        if q < old_res.len() {
                            assert(res@[q] == old_res[q]);
                        }
                    }
                }
            } else {
                proof {
                    assert forall|q: int| 0 <= q < res@.len() implies pair_lt(#[trigger] res@[q], (i, (j + 1) as usize)) by {}
                }
            }
            j = j + 1;
        }
        i = i + 1;
    }
    proof {
        assert(pair_set(res@) =~= target);
    }
    res
}

/// The node of the phase with actions `l`.
fn build_phase_node(plan: &Plan, l: &Vec<usize>, closure: &Vec<(usize, usize)>) -> (res: Powl)
    requires
        l@.len() >= 1,
        forall|q: int| 0 <= q < l@.len() ==> #[trigger] l@[q] < n_actions(*plan),
        pair_set(closure@) == action_order(*plan),
    ensures
        phase_node(*plan, res, l@),
{
    proof {
        reveal(phase_node);
    }
    if l.len() == 1 {
        return leaf_for(plan, l[0]);
    }
    let children = leaves_for(plan, l);
    let order = phase_order_pairs(plan, l, closure);
    Powl::PartialOrder { children, order }
}

/// Whether `i` is listed in `v`.
fn lists(v: &Vec<usize>, i: usize) -> (res: bool)
    ensures
        res == v@.contains(i),
{
    let mut k: usize = 0;
    while k < v.len()
        invariant
            k <= v@.len(),
            forall|q: int| 0 <= q < k ==> v@[q] != i,
        decreases v@.len() - k,
    {
        if v[k] == i {
            proof {
                assert(v@[k as int] == i);
            }
            return true;
        }
        k = k + 1;
    }
    false
}

/// The routing edges of a choice over `n` branches with loop branches `loops`.
fn build_choice_edges(n: usize, loops: &Vec<usize>) -> (res: Vec<(GNode, GNode)>)
    ensures
        res@ == choice_edges(n as int, loops@),
{
    let ghost first = Seq::new(n as nat, |i: int| (GNode::Start, GNode::Child(i as usize)));
    let ghost second = Seq::new(
        n as nat,
        |i: int|
            (
                GNode::Child(i as usize),
                if loops@.contains(i as usize) {
                    GNode::Start
                } else {
                    GNode::End
                },
            ),
    );
    let mut res: Vec<(GNode, GNode)> = Vec::new();
    let mut i: usize = 0;
    while i < n
        invariant
            i <= n,
            first == Seq::new(n as nat, |i: int| (GNode::Start, GNode::Child(i as usize))),
            res@ == first.take(i as int),
        decreases n - i,
    {
        res.push((GNode::Start, GNode::Child(i)));
        proof {
            assert(first.take(i + 1) =~= first.take(i as int).push(first[i as int]));
        }
        i = i + 1;
    }
    proof {
        assert(first.take(n as int) =~= first);
    }
    let mut j: usize = 0;
    while j < n
        invariant
            j <= n,
            second == Seq::new(
                n as nat,
                |i: int|
                    (
                        GNode::Child(i as usize),
                        if loops@.contains(i as usize) {
                            GNode::Start
                        } else {
                            GNode::End
                        },
                    ),
            ),
            res@ == first + second.take(j as int),
        decreases n - j,
    {
        let back = if lists(loops, j) {
            GNode::Start
        } else {
            GNode::End
        };
        res.push((GNode::Child(j), back));
        proof {
            assert(second.take(j + 1) =~= second.take(j as int).push(second[j as int]));
            assert(first + second.take(j + 1) =~= (first + second.take(j as int)).push(second[j as int]));
        }
        j = j + 1;
    }
    proof {
        assert(second.take(n as int) =~= second);
    }
    res
}

/// The choice node of group `g`.
fn build_choice_node(plan: &Plan, g: usize) -> (res: Powl)
    requires
        g < plan.choice_groups@.len(),
        group_well_formed(*plan, g as int),
    ensures
        choice_node(*plan, res, g as int),
{
    proof {
        reveal(choice_node);
    }
    let spec = &plan.choice_groups[g];
    let children = leaves_for(plan, &spec.members);
    let edges = build_choice_edges(spec.members.len(), &spec.loop_branches);
    Powl::Choice { children, graph: ChoiceGraph { n: spec.members.len(), edges } }
}

/// Whether the routing graph of group `g` has a cycle.
fn group_cyclic(plan: &Plan, g: usize) -> (res: bool)
    requires
        g < plan.choice_groups@.len(),
    ensures
        res == cyclic(*plan, g as int),
{
    let spec = &plan.choice_groups[g];
    let graph = ChoiceGraph { n: spec.members.len(), edges: build_choice_edges(spec.members.len(), &spec.loop_branches) };
    choice_graph_has_cycle(&graph)
}

/// Whether every branch of group `g` loops back.
fn group_no_exit(plan: &Plan, g: usize) -> (res: bool)
    requires
        g < plan.choice_groups@.len(),
    ensures
        res == no_exit(*plan, g as int),
{
    let spec = &plan.choice_groups[g];
    let mut k: usize = 0;
    while k < spec.members.len()
        invariant
            g < plan.choice_groups@.len(),
            spec == plan.choice_groups@[g as int],
            k <= members(*plan, g as int).len(),
            forall|q: usize| q < k ==> #[trigger] loops(*plan, g as int).contains(q),
        decreases members(*plan, g as int).len() - k,
    {
        if !lists(&spec.loop_branches, k) {
            proof {
                assert(!loops(*plan, g as int).contains(k));
            }
            return false;
        }
        k = k + 1;
    }
    true
}

/// The order between units, as a list of unit pairs.
fn unit_pairs(plan: &Plan, units: &Units, closure: &Vec<(usize, usize)>) -> (res: Vec<(usize, usize)>)
    requires
        units_ok(*plan, *units),
        pair_set(closure@) == action_order(*plan),
        pairs_below(closure@, n_actions(*plan)),
    ensures
        pair_set(res@) == unit_rel(*plan),
        pairs_below(res@, unit_count(*plan)),
{
    let mut res: Vec<(usize, usize)> = Vec::new();
    let mut q: usize = 0;
    while q < closure.len()
        invariant
            q <= closure@.len(),
            units_ok(*plan, *units),
            pair_set(closure@) == action_order(*plan),
            pairs_below(closure@, n_actions(*plan)),
            pairs_below(res@, unit_count(*plan)),
            forall|p: (int, int)|
                #[trigger] pair_set(res@).contains(p) <==> exists|r: int|
                    0 <= r < q && unit_of(*plan, #[trigger] closure@[r].0 as int) != unit_of(*plan, closure@[r].1 as int) && p == (
                        unit_of(*plan, closure@[r].0 as int),
                        unit_of(*plan, closure@[r].1 as int),
                    ),
        decreases closure@.len() - q,
    {
        let (i, j) = closure[q];
        proof {
            reveal(units_map);
        }
        let u = units.unit_of[i];
        let v = units.unit_of[j];
        let ghost old_res = res@;
        if u != v {
            res.push((u, v));
            proof {
                lemma_pair_set_push(old_res, (u, v));
            }
        }
        proof {
            assert forall|p: (int, int)|
                #[trigger] pair_set(res@).contains(p) <==> exists|r: int|
                    0 <= r < q + 1 && unit_of(*plan, #[trigger] closure@[r].0 as int) != unit_of(*plan, closure@[r].1 as int) && p == (
                        unit_of(*plan, closure@[r].0 as int),
                        unit_of(*plan, closure@[r].1 as int),
                    ) by {
                if pair_set(res@).contains(p) && !pair_set(old_res).contains(p) {
                    assert(closure@[q as int].0 == i);
                }
                if !pair_set(old_res).contains(p) && exists|r: int|
                    0 <= r < q + 1 && unit_of(*plan, #[trigger] closure@[r].0 as int) != unit_of(*plan, closure@[r].1 as int) && p == (
                        unit_of(*plan, closure@[r].0 as int),
                        unit_of(*plan, closure@[r].1 as int),
                    ) {
                    let r = choose|r: int|
                        0 <= r < q + 1 && unit_of(*plan, #[trigger] closure@[r].0 as int) != unit_of(*plan, closure@[r].1 as int) && p == (
                            unit_of(*plan, closure@[r].0 as int),
                            unit_of(*plan, closure@[r].1 as int),
                        );
                    assert(r == q);
                }
            }
            assert forall|k: int| 0 <= k < res@.len() implies (#[trigger] res@[k]).0 < unit_count(*plan) && res@[k].1 < unit_count(*plan) by {
                if k >= old_res.len() {
                    assert(res@[k] == (u, v));
                } else {
                    assert(res@[k] == old_res[k]);
                }
            }
        }
        q = q + 1;
    }
    proof {
        assert forall|p: (int, int)| pair_set(res@).contains(p) <==> #[trigger] unit_rel(*plan).contains(p) by {
            if pair_set(res@).contains(p) {
                let r = choose|r: int|
                    0 <= r < closure@.len() && unit_of(*plan, #[trigger] closure@[r].0 as int) != unit_of(*plan, closure@[r].1 as int) && p == (
                        unit_of(*plan, closure@[r].0 as int),
                        unit_of(*plan, closure@[r].1 as int),
                    );
                assert(pair_set(closure@).contains((closure@[r].0 as int, closure@[r].1 as int)));
                assert(action_order(*plan).contains((closure@[r].0 as int, closure@[r].1 as int)));
            }
            if unit_rel(*plan).contains(p) {
                let (i, j) = choose|i: int, j: int|
                    #[trigger] action_order(*plan).contains((i, j)) && unit_of(*plan, i) != unit_of(*plan, j) && p == (
                        unit_of(*plan, i),
                        unit_of(*plan, j),
                    );
                assert(pair_set(closure@).contains((i, j)));
                let r = choose|r: int| 0 <= r < closure@.len() && closure@[r].0 == i && closure@[r].1 == j;
                assert(unit_of(*plan, closure@[r].0 as int) != unit_of(*plan, closure@[r].1 as int));
            }
        }
        assert(pair_set(res@) =~= unit_rel(*plan));
    }
    res
}


// ---------------------------------------------------------------------------------------
// The pipeline.
// ---------------------------------------------------------------------------------------

/// A refusal of kind `kind`, raised at the state where that kind is raised.
fn refuse(kind: RefusalKind, detail: String) -> (res: POWLGeometryRefused)
    ensures
        res.kind() == kind,
        res.state() == refusal_state(kind),
{
    match kind {
        RefusalKind::InventedOrder => POWLGeometryRefused::InventedOrder { state: GeometryState::OrderDerived, detail },
        RefusalKind::LostPrecedence => POWLGeometryRefused::LostPrecedence { state: GeometryState::OrderDerived, detail },
        RefusalKind::FlatOnlyProvenance => POWLGeometryRefused::FlatOnlyProvenance {
            state: GeometryState::OrderDerived,
            detail,
        },
        RefusalKind::UnboundChildBinding => POWLGeometryRefused::UnboundChildBinding {
            state: GeometryState::HierarchyBuilt,
            detail,
        },
    }
}

/// A detail naming a choice group and what is wrong with it: `choice group `, the
/// group's index in decimal, then `what`.
fn group_detail(g: usize, what: &str) -> (res: String)
    ensures
        res@ == "choice group "@ + crate::text::decimal(g as nat) + what@,
{
    let mut s = owned("choice group ");
    push_decimal(&mut s, g);
    push_str(&mut s, what);
    s
}

/// `nodes[x]` is the node of unit `x` of `units`, for every `x` below `k`.
spec fn unit_nodes_upto(plan: Plan, units: Units, nodes: Seq<Powl>, k: int) -> bool {
    forall|x: int|
        0 <= x < k ==> match #[trigger] units.group@[x] {
            None => phase_node(plan, nodes[x], units.actions@[x]@),
            Some(g) => choice_node(plan, nodes[x], g as int),
        }
}

/// Unit by unit is leader by leader.
proof fn lemma_unit_nodes(plan: Plan, units: Units, nodes: Seq<Powl>)
    requires
        units_ok(plan, units),
        nodes.len() == unit_count(plan),
        unit_nodes_upto(plan, units, nodes, nodes.len() as int),
    ensures
        forall|l: int| 0 <= l < n_actions(plan) && #[trigger] leader(plan, l) ==> unit_node(plan, nodes[leader_count(plan, l)], l),
{
    assert forall|l: int| 0 <= l < n_actions(plan) && #[trigger] leader(plan, l) implies unit_node(plan, nodes[leader_count(plan, l)], l) by {
        reveal(units_led);
        reveal(units_groups);
        lemma_leader_count_below(plan, l);
        let x = leader_count(plan, l);
        assert(units.group@[x] == if phase_start(plan, l) {
            None
        } else {
            Some(group_of(plan, l) as usize)
        });
        if !phase_start(plan, l) {
            assert(plan.choice_groups@.len() == plan.choice_groups.len());
            assert(units.group@[x]->0 < plan.choice_groups@.len());
            assert(units.group@[x]->0 as int == group_of(plan, l));
        }
    }
}

/// The nodes of the units, in unit order.
fn build_unit_nodes(plan: &Plan, units: &Units, closure: &Vec<(usize, usize)>) -> (res: Vec<Powl>)
    requires
        !groups_invent_order(*plan),
        units_ok(*plan, *units),
        pair_set(closure@) == action_order(*plan),
    ensures
        res@.len() == unit_count(*plan),
        forall|l: int|
            0 <= l < n_actions(*plan) && #[trigger] leader(*plan, l) ==> unit_node(*plan, res@[leader_count(*plan, l)], l),
{
    let mut res: Vec<Powl> = Vec::new();
    let mut u: usize = 0;
    while u < units.actions.len()
        invariant
            !groups_invent_order(*plan),
            units_ok(*plan, *units),
            pair_set(closure@) == action_order(*plan),
            u <= units.actions@.len(),
            res@.len() == u,
            unit_nodes_upto(*plan, *units, res@, u as int),
        decreases units.actions@.len() - u,
    {
        proof {
            reveal(units_rows);
            reveal(units_groups);
            assert(units.actions@[u as int]@.len() >= 1);
        }
        let node = match units.group[u] {
            None => build_phase_node(plan, &units.actions[u], closure),
            Some(g) => {
                proof {
                    assert(group_well_formed(*plan, g as int));
                }
                build_choice_node(plan, g)
            },
        };
        let ghost old_res = res@;
        res.push(node);
        proof {
            assert forall|x: int|
                0 <= x < u + 1 implies match #[trigger] units.group@[x] {
                    None => phase_node(*plan, res@[x], units.actions@[x]@),
                    Some(g) => choice_node(*plan, res@[x], g as int),
                } by {
                if x < u {
                    assert(res@[x] == old_res[x]);
                } else {
                    assert(res@[x] == node);
                }
            }
        }
        u = u + 1;
    }
    proof {
        lemma_unit_nodes(*plan, *units, res@);
    }
    res
}

/// The loop bound supplied for group `g`, if any.
fn bound_for(loop_bounds: &BTreeMap<usize, LoopBound>, g: usize) -> (res: Option<LoopBound>)
    ensures
        match res {
            Some(b) => loop_bounds@.contains_key(g) && loop_bounds@[g] == b,
            None => !loop_bounds@.contains_key(g),
        },
{
    broadcast use vstd::std_specs::btree::group_btree_axioms, vstd::laws_cmp::group_laws_cmp;

    match loop_bounds.get(&g) {
        Some(b) => Some(*b),
        None => None,
    }
}

/// Checks every choice group for an exit branch and, where it is cyclic, a usable loop
/// bound; `None` where all pass, else the refusal.
fn check_bindings(plan: &Plan, loop_bounds: &BTreeMap<usize, LoopBound>, units: &Units) -> (res: Option<POWLGeometryRefused>)
    ensures
        res is None <==> !binding_unbound(*plan, loop_bounds@),
        res matches Some(e) ==> e.kind() == RefusalKind::UnboundChildBinding && e.state() == GeometryState::HierarchyBuilt,
{
    let mut g: usize = 0;
    while g < plan.choice_groups.len()
        invariant
            g <= plan.choice_groups@.len(),
            forall|h: int| 0 <= h < g ==> !#[trigger] group_unbound(*plan, loop_bounds@, h),
        decreases plan.choice_groups@.len() - g,
    {
        if group_no_exit(plan, g) {
            proof {
                assert(group_unbound(*plan, loop_bounds@, g as int));
            }
            let e = refuse(
                RefusalKind::UnboundChildBinding,
                group_detail(
                    g,
                    binding_what(units, g, " has no exit branch; every member routes back to start, which never terminates").as_str(),
                ),
            );
            return Some(e);
        }
        if group_cyclic(plan, g) {
            match bound_for(loop_bounds, g) {
                None => {
                    proof {
                        assert(group_unbound(*plan, loop_bounds@, g as int));
                    }
                    let e = refuse(
                        RefusalKind::UnboundChildBinding,
                        group_detail(
                            g,
                            binding_what(units, g, " has a cyclic routing graph but no LoopBound was supplied").as_str(),
                        ),
                    );
                    return Some(e);
                },
                Some(b) => {
                    if b.max_iterations == 0 {
                        proof {
                            assert(group_unbound(*plan, loop_bounds@, g as int));
                        }
                        let e = refuse(
                            RefusalKind::UnboundChildBinding,
                            group_detail(
                                g,
                                binding_what(
                                    units,
                                    g,
                                    " was given a LoopBound with max_iterations = 0, which is not a valid bound",
                                ).as_str(),
                            ),
                        );
                        return Some(e);
                    }
                    proof {
                        assert(bound_ok(loop_bounds@, g as int));
                    }
                },
            }
        }
        proof {
            assert(!no_exit(*plan, g as int) && (cyclic(*plan, g as int) ==> bound_ok(loop_bounds@, g as int)));
            assert forall|h: int| 0 <= h < g + 1 implies !#[trigger] group_unbound(*plan, loop_bounds@, h) by {
                if h == g {
                    assert(!no_exit(*plan, g as int));
                }
            }
        }
        g = g + 1;
    }
    None
}

/// The loop-bound entries of the cyclic groups' units, in unit order.
fn attach_bounds(plan: &Plan, units: &Units, loop_bounds: &BTreeMap<usize, LoopBound>, Ghost(owner): Ghost<Seq<Option<usize>>>) -> (res: Vec<(WorkflowSocketId, LoopBound)>)
    requires
        owners_ok(*plan, owner),
        !groups_invent_order(*plan),
        units_ok(*plan, *units),
        !binding_unbound(*plan, loop_bounds@),
    ensures
        bounds_attached(*plan, loop_bounds@, res@),
{
    let mut res: Vec<(WorkflowSocketId, LoopBound)> = Vec::new();
    let mut u: usize = 0;
    proof {
        assert forall|g: int| 0 <= g < plan.choice_groups@.len() implies #[trigger] group_unit_of(*plan, g) >= 0 by {
            lemma_leader_count_nonneg(*plan, group_leader_of(*plan, g));
        }
    }
    while u < units.actions.len()
        invariant
            owners_ok(*plan, owner),
            !groups_invent_order(*plan),
            units_ok(*plan, *units),
            !binding_unbound(*plan, loop_bounds@),
            u <= units.actions@.len(),
            forall|i: int|
                0 <= i < res@.len() ==> (#[trigger] res@[i]).0.kind == SocketKind::Choice && res@[i].0.path.segments@.len() == 1
                    && entry_unit(res@[i]) < u,
            forall|i: int, j: int| 0 <= i < j < res@.len() ==> entry_unit(#[trigger] res@[i]) < entry_unit(#[trigger] res@[j]),
            forall|i: int| 0 <= i < res@.len() ==> entry_of_cyclic_group(*plan, loop_bounds@, #[trigger] res@[i]),
            forall|g: int|
                0 <= g < plan.choice_groups@.len() && #[trigger] cyclic(*plan, g) && group_unit_of(*plan, g) < u ==> has_entry_for(
                    res@,
                    group_unit_of(*plan, g),
                ),
        decreases units.actions@.len() - u,
    {
        let ghost old_res = res@;
        if let Some(g) = units.group[u] {
            proof {
                assert(units.group@[u as int] == Some(g));
                assert(g < plan.choice_groups@.len() && units.group_unit@[g as int] == u) by {
                    reveal(units_groups);
                }
                assert(units.group_unit@[g as int] == group_unit_of(*plan, g as int)) by {
                    reveal(units_map);
                }
            }
            if group_cyclic(plan, g) {
                proof {
                    assert(!binding_unbound(*plan, loop_bounds@));
                    assert(0 <= g < plan.choice_groups@.len());
                    assert(!group_unbound(*plan, loop_bounds@, g as int));
                    assert(bound_ok(loop_bounds@, g as int));
                }
                let bound = match bound_for(loop_bounds, g) {
                    Some(b) => b,
                    None => LoopBound { max_iterations: 0 },
                };
                let path = SocketPath::root().child(u);
                res.push((WorkflowSocketId { path, kind: SocketKind::Choice }, bound));
                proof {
                    assert(units.group_unit@[g as int] == u);
                    assert forall|i: int| 0 <= i < res@.len() implies entry_of_cyclic_group(*plan, loop_bounds@, #[trigger] res@[i]) by {
                        if i < old_res.len() {
                            assert(res@[i] == old_res[i]);
                        } else {
                            assert(entry_unit(res@[i]) == u);
                            assert(group_unit_of(*plan, g as int) == entry_unit(res@[i]));
                            assert(res@[i].1 == loop_bounds@[g as usize]);
                            assert(0 <= g < plan.choice_groups@.len() && cyclic(*plan, g as int) && group_unit_of(*plan, g as int) == entry_unit(res@[i]) && res@[i].1 == loop_bounds@[(g as int) as usize]);
                        }
                    }
                    assert forall|i: int, j: int| 0 <= i < j < res@.len() implies entry_unit(#[trigger] res@[i]) < entry_unit(#[trigger] res@[j]) by {
                        if j == old_res.len() {
                            assert(res@[i] == old_res[i]);
                        } else {
                            assert(res@[i] == old_res[i] && res@[j] == old_res[j]);
                        }
                    }
                }
            }
        }
        proof {
            assert forall|h: int|
                0 <= h < plan.choice_groups@.len() && #[trigger] cyclic(*plan, h) && group_unit_of(*plan, h) < u + 1 implies has_entry_for(
                    res@,
                    group_unit_of(*plan, h),
                ) by {
                if group_unit_of(*plan, h) == u {
                    lemma_group_leaders(*plan, owner, h);
                    let l = group_leader_of(*plan, h);
                    assert(leader(*plan, l));
                    assert(units.group@[u as int] == Some(h as usize)) by {
                        reveal(units_led);
                    }
                    assert(plan.choice_groups@.len() == plan.choice_groups.len());
                    assert(entry_unit(res@[res@.len() - 1]) == u);
                } else {
                    assert(has_entry_for(old_res, group_unit_of(*plan, h)));
                    let i = choose|i: int| 0 <= i < old_res.len() && entry_unit(#[trigger] old_res[i]) == group_unit_of(*plan, h);
                    assert(res@[i] == old_res[i]);
                }
            }
            assert forall|i: int|
                0 <= i < res@.len() implies (#[trigger] res@[i]).0.kind == SocketKind::Choice && res@[i].0.path.segments@.len() == 1
                    && entry_unit(res@[i]) < u + 1 by {
                if i < old_res.len() {
                    assert(res@[i] == old_res[i]);
                }
            }
        }
        u = u + 1;
    }
    proof {
        assert forall|g: int|
            0 <= g < plan.choice_groups@.len() && #[trigger] cyclic(*plan, g) implies has_entry_for(res@, group_unit_of(*plan, g)) by {
            reveal(units_map);
            reveal(units_groups);
            assert(units.group_unit@[g] == group_unit_of(*plan, g));
            lemma_group_leaders(*plan, owner, g);
            lemma_leader_count_below(*plan, group_leader_of(*plan, g));
            assert(group_unit_of(*plan, g) < u);
        }
    }
    res
}

/// Runs the pipeline over `plan`: provenance and choice-group checks, order derivation,
/// plan grouping, the units' nodes, the root partial order and the loop-bound binder.
///
/// `loop_bounds` is keyed by choice-group index; a bound is required for every group
/// whose routing graph is cyclic and is ignored for the others.
pub fn build_powl_geometry(plan: &Plan, loop_bounds: &BTreeMap<usize, LoopBound>) -> (res: Result<POWLModel, POWLGeometryRefused>)
    ensures
        match res {
            Ok(m) => expected_refusal(*plan, loop_bounds@) is None && model_of(*plan, loop_bounds@, m),
            Err(e) => expected_refusal(*plan, loop_bounds@) == Some(e.kind()) && e.state() == refusal_state(e.kind()),
        },
{
    let n = plan.actions.len();
    if n == 0 {
        return Err(
            refuse(
                RefusalKind::FlatOnlyProvenance,
                owned("plan has zero actions; there is no action provenance to derive a process geometry from"),
            ),
        );
    }
    if some_source_blank(plan) {
        return Err(
            refuse(
                RefusalKind::FlatOnlyProvenance,
                blank_source_detail(plan),
            ),
        );
    }
    let owner = match group_owners(plan) {
        Some(owner) => owner,
        None => {
            return Err(
                refuse(
                    RefusalKind::InventedOrder,
                    group_refusal_detail(plan),
                ),
            );
        },
    };
    if some_pair_invents_order(plan, &owner) {
        return Err(
            refuse(
                RefusalKind::InventedOrder,
                precedes_refusal_detail(plan, &owner),
            ),
        );
    }
    proof {
        assert forall|k: int| 0 <= k < plan.precedes@.len() implies (#[trigger] plan.precedes@[k]).0 < n && plan.precedes@[k].1 < n by {
            assert(!crate::plan::pair_invents_order(*plan, plan.precedes@[k]));
        }
    }
    let closure = transitive_closure(n, &plan.precedes);
    if has_contradiction(&closure) {
        return Err(
            refuse(
                RefusalKind::LostPrecedence,
                closure_contradiction_detail(&closure),
            ),
        );
    }
    let units = plan_units(plan, &owner);
    let upairs = unit_pairs(plan, &units, &closure);
    let root_order = transitive_closure(units.actions.len(), &upairs);
    if has_contradiction(&root_order) {
        return Err(
            refuse(
                RefusalKind::LostPrecedence,
                unit_contradiction_detail(&units, &closure, &root_order),
            ),
        );
    }
    let children = build_unit_nodes(plan, &units, &closure);
    if let Some(e) = check_bindings(plan, loop_bounds, &units) {
        return Err(e);
    }
    let bounds = attach_bounds(plan, &units, loop_bounds, Ghost(owner@));
    let root = Powl::PartialOrder { children, order: root_order };
    let closure = root.parent_child_closure();
    Ok(POWLModel { root, closure, loop_bounds: bounds, source_action_count: n })
}

} // verus!
