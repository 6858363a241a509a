//! Growth manufacture: a plan tape becomes a child model, is grafted under a socket of
//! the parent model, and is projected into a plan for the geometry pipeline.

use vstd::prelude::*;
use std::collections::BTreeMap;
use crate::geometry::{
    LoopBound, POWLModel, RefusalKind, expected_refusal, geometry_state_name, model_of, refusal_kind_name, refusal_prefix,
    refusal_state,
};
use crate::growth::{DescentMeter, DescentReceipt, MFWGrowthRefused, descent_parts};
use crate::digest::{blake3_digest, combined_text, hex_lower};
use vstd::utf8::encode_utf8;
use crate::shape::{ShapeReport, manufacture_powl_v2, shape_violated};
use crate::turtle::turtle_of;
use crate::plan::{Plan, PlanAction};
use crate::powl::{
    ChoiceGraph, Powl, PowlView, SocketKind, WorkflowSocketId, copy_forest, copy_pairs, copy_edges, forest_view,
    lemma_forest_view, pview, socket_view, node_at,
};
use crate::relation::{closure_of, is_walk, pair_set, reaches, walk_step};
use crate::plan::{action_order, contradicts, flat_only, grouped, groups_invent_order, pair_invents_order, precedes_invent_order};
use crate::grouping::{last_phase_start, leader_count, phase_start, prev_ungrouped, source_of, ungrouped, unit_of};
use crate::geometry::{binding_unbound, unit_rel};
use crate::text::{blank, decimal, owned, push_decimal, push_str, white_space};

verus! {

// ---------------------------------------------------------------------------------------
// Socket addresses.
// ---------------------------------------------------------------------------------------

/// The name of a socket kind.
pub open spec fn kind_text(k: SocketKind) -> Seq<char> {
    match k {
        SocketKind::Leaf => "Leaf"@,
        SocketKind::PartialOrder => "PartialOrder"@,
        SocketKind::Choice => "Choice"@,
        SocketKind::ExternalCut => "ExternalCut"@,
    }
}

/// Each segment of a path as `/` and its decimal.
pub open spec fn path_text(segs: Seq<usize>) -> Seq<char>
    decreases segs.len(),
{
    if segs.len() == 0 {
        Seq::empty()
    } else {
        path_text(segs.drop_last()) + "/"@ + decimal(segs.last() as nat)
    }
}

/// A socket's address: `socket:`, its path (`/` for the root), `#` and its kind.
pub open spec fn socket_text(s: (Seq<usize>, SocketKind)) -> Seq<char> {
    "socket:"@ + (if s.0.len() == 0 {
        "/"@
    } else {
        path_text(s.0)
    }) + "#"@ + kind_text(s.1)
}

impl WorkflowSocketId {
    /// The socket's address, `socket:<path>#<kind>`.
    pub fn to_string(&self) -> (res: String)
        ensures
            res@ == socket_text(socket_view(*self)),
    {
        let mut out = owned("socket:");
        if self.path.segments.len() == 0 {
            push_str(&mut out, "/");
        } else {
            let ghost start = out@;
            let mut k: usize = 0;
            while k < self.path.segments.len()
                invariant
                    k <= self.path.segments@.len(),
                    out@ == start + path_text(self.path.segments@.take(k as int)),
                decreases self.path.segments@.len() - k,
            {
                push_str(&mut out, "/");
                push_decimal(&mut out, self.path.segments[k]);
                proof {
                    let t = self.path.segments@.take(k + 1);
                    assert(t.drop_last() =~= self.path.segments@.take(k as int));
                    assert(out@ =~= start + path_text(t));
                }
                k = k + 1;
            }
            proof {
                assert(self.path.segments@.take(k as int) =~= self.path.segments@);
            }
        }
        push_str(&mut out, "#");
        let kind = match self.kind {
            SocketKind::Leaf => "Leaf",
            SocketKind::PartialOrder => "PartialOrder",
            SocketKind::Choice => "Choice",
            SocketKind::ExternalCut => "ExternalCut",
        };
        push_str(&mut out, kind);
        proof {
            assert(out@ =~= socket_text(socket_view(*self)));
        }
        out
    }
}

// ---------------------------------------------------------------------------------------
// Grafting.
// ---------------------------------------------------------------------------------------

/// The model `v` with `c` added as the last child of the partial order at `path`, or
/// `None` where the path does not lead to a partial order.
pub open spec fn graft_view(v: PowlView, path: Seq<usize>, c: PowlView) -> Option<PowlView>
    decreases path.len(),
{
    if path.len() == 0 {
        match v {
            PowlView::PartialOrder(ch, ord) => Some(PowlView::PartialOrder(ch.push(c), ord)),
            _ => None,
        }
    } else {
        let i = path[0] as int;
        match v {
            PowlView::PartialOrder(ch, ord) => if i < ch.len() {
                match graft_view(ch[i], path.drop_first(), c) {
                    Some(g) => Some(PowlView::PartialOrder(ch.update(i, g), ord)),
                    None => None,
                }
            } else {
                None
            },
            PowlView::Choice(ch, n, edges) => if i < ch.len() {
                match graft_view(ch[i], path.drop_first(), c) {
                    Some(g) => Some(PowlView::Choice(ch.update(i, g), n, edges)),
                    None => None,
                }
            } else {
                None
            },
            PowlView::ExternalCut(region, p, r) => if i == 0 {
                match graft_view(*region, path.drop_first(), c) {
                    Some(g) => Some(PowlView::ExternalCut(Box::new(g), p, r)),
                    None => None,
                }
            } else {
                None
            },
            PowlView::Leaf(_) => None,
        }
    }
}

/// Why grafting at `path` below `v` is refused: the first place the path leaves the
/// model or ends at a node that is not a partial order.
pub open spec fn graft_failure(v: PowlView, path: Seq<usize>) -> Seq<char>
    decreases path.len(),
{
    if path.len() == 0 {
        match v {
            PowlView::Leaf(_) => "target is a Leaf, not a PartialOrder"@,
            PowlView::Choice(..) => "target is a Choice, not a PartialOrder"@,
            PowlView::ExternalCut(..) => "target is an ExternalCut, not a PartialOrder"@,
            PowlView::PartialOrder(..) => Seq::empty(),
        }
    } else {
        let i = path[0] as int;
        match v {
            PowlView::PartialOrder(ch, _) => if i < ch.len() {
                graft_failure(ch[i], path.drop_first())
            } else {
                "child index "@ + decimal(i as nat) + " out of range"@
            },
            PowlView::Choice(ch, _, _) => if i < ch.len() {
                graft_failure(ch[i], path.drop_first())
            } else {
                "child index "@ + decimal(i as nat) + " out of range"@
            },
            PowlView::ExternalCut(region, _, _) => if i == 0 {
                graft_failure(*region, path.drop_first())
            } else {
                "ExternalCut has no child index "@ + decimal(i as nat)
            },
            PowlView::Leaf(_) => "path descends past a Leaf"@,
        }
    }
}

/// `prefix`, `i` in decimal, then `suffix`.
fn index_reason(prefix: &str, i: usize, suffix: &str) -> (res: String)
    ensures
        res@ == prefix@ + decimal(i as nat) + suffix@,
{
    let mut out = owned(prefix);
    push_decimal(&mut out, i);
    push_str(&mut out, suffix);
    out
}

/// `node` with `child` grafted at `path[k..]`.
fn graft_at(node: &Powl, path: &Vec<usize>, k: usize, child: Powl) -> (res: Result<Powl, String>)
    requires
        k <= path@.len(),
    ensures
        match res {
            Ok(r) => graft_view(pview(*node), path@.skip(k as int), pview(child)) == Some(pview(r)),
            Err(reason) => graft_view(pview(*node), path@.skip(k as int), pview(child)) is None && reason@ == graft_failure(
                pview(*node),
                path@.skip(k as int),
            ),
        },
    decreases path@.len() - k,
{
    let ghost rest = path@.skip(k as int);
    if k == path.len() {
        proof {
            assert(rest.len() == 0);
        }
        return match node {
            Powl::PartialOrder { children, order } => {
                let mut cs = copy_forest(children);
                let ghost before = cs@;
                cs.push(child);
                proof {
                    lemma_forest_view(cs@, 0);
                    lemma_forest_view(before, 0);
                    lemma_forest_view(children@, 0);
                    assert(forest_view(cs@, 0) =~= forest_view(children@, 0).push(pview(child)));
                }
                Ok(Powl::PartialOrder { children: cs, order: copy_pairs(order) })
            },
            Powl::Leaf(_) => Err(owned("target is a Leaf, not a PartialOrder")),
            Powl::Choice { .. } => Err(owned("target is a Choice, not a PartialOrder")),
            Powl::ExternalCut { .. } => Err(owned("target is an ExternalCut, not a PartialOrder")),
        };
    }
    let i = path[k];
    proof {
        assert(rest[0] == i);
        assert(rest.drop_first() =~= path@.skip(k + 1));
    }
    match node {
        Powl::PartialOrder { children, order } => {
            if i >= children.len() {
                proof {
                    lemma_forest_view(children@, 0);
                }
                return Err(index_reason("child index ", i, " out of range"));
            }
            let updated = match graft_at(&children[i], path, k + 1, child) {
                Ok(g) => g,
                Err(reason) => {
                    proof {
                        lemma_forest_view(children@, 0);
                    }
                    return Err(reason);
                },
            };
            let mut cs = copy_forest(children);
            let ghost before = cs@;
            proof {
                lemma_forest_view(before, 0);
                lemma_forest_view(children@, 0);
            }
            cs.set(i, updated);
            proof {
                lemma_forest_view(cs@, 0);
                lemma_forest_view(before, 0);
                lemma_forest_view(children@, 0);
                assert(forest_view(cs@, 0) =~= forest_view(children@, 0).update(i as int, pview(updated)));
            }
            Ok(Powl::PartialOrder { children: cs, order: copy_pairs(order) })
        },
        Powl::Choice { children, graph } => {
            if i >= children.len() {
                proof {
                    lemma_forest_view(children@, 0);
                }
                return Err(index_reason("child index ", i, " out of range"));
            }
            let updated = match graft_at(&children[i], path, k + 1, child) {
                Ok(g) => g,
                Err(reason) => {
                    proof {
                        lemma_forest_view(children@, 0);
                    }
                    return Err(reason);
                },
            };
            let mut cs = copy_forest(children);
            let ghost before = cs@;
            proof {
                lemma_forest_view(before, 0);
                lemma_forest_view(children@, 0);
            }
            cs.set(i, updated);
            proof {
                lemma_forest_view(cs@, 0);
                lemma_forest_view(before, 0);
                lemma_forest_view(children@, 0);
                assert(forest_view(cs@, 0) =~= forest_view(children@, 0).update(i as int, pview(updated)));
            }
            Ok(Powl::Choice { children: cs, graph: ChoiceGraph { n: graph.n, edges: copy_edges(&graph.edges) } })
        },
        Powl::ExternalCut { region, projection, renderer } => {
            if i != 0 {
                let reason = index_reason("ExternalCut has no child index ", i, "");
                proof {
                    reveal_strlit("");
                    assert(reason@ =~= "ExternalCut has no child index "@ + decimal(i as nat));
                }
                return Err(reason);
            }
            match graft_at(region, path, k + 1, child) {
                Ok(g) => Ok(
                    Powl::ExternalCut { region: Box::new(g), projection: projection.clone(), renderer: renderer.clone() },
                ),
                Err(reason) => Err(reason),
            }
        },
        Powl::Leaf(_) => Err(owned("path descends past a Leaf")),
    }
}

/// Grafts `child` as a new last child, with no order to its siblings, of the partial
/// order at `at`'s path in `root`; refuses where the path leads elsewhere.
pub fn graft_child(root: &Powl, at: &WorkflowSocketId, child: Powl) -> (res: Result<Powl, MFWGrowthRefused>)
    ensures
        match res {
            Ok(r) => graft_view(pview(*root), at.path.segments@, pview(child)) == Some(pview(r)) && appended_at(
                *root,
                r,
                at.path.segments@,
                pview(child),
            ) && kept_beside(pview(*root), pview(r), at.path.segments@),
            Err(e) => graft_view(pview(*root), at.path.segments@, pview(child)) is None && (e matches MFWGrowthRefused::GraftRefused {
                socket,
                reason,
            } && socket@ == socket_text(socket_view(*at)) && reason@ == graft_failure(pview(*root), at.path.segments@)),
        },
{
    proof {
        assert(at.path.segments@.skip(0) =~= at.path.segments@);
    }
    let ghost cv = pview(child);
    match graft_at(root, &at.path.segments, 0, child) {
        Ok(r) => {
            proof {
                lemma_graft_appends(*root, at.path.segments@, cv, r);
                lemma_graft_keeps_the_rest(pview(*root), at.path.segments@, cv);
            }
            Ok(r)
        },
        Err(reason) => Err(MFWGrowthRefused::GraftRefused { socket: at.to_string(), reason }),
    }
}


// ---------------------------------------------------------------------------------------
// From a plan tape.
// ---------------------------------------------------------------------------------------

/// One op of a plan tape: its position, its action label, and the bitmask of the ops
/// that must complete before it is eligible.
#[derive(Debug, Clone)]
pub struct PlanTapeOp {
    pub index: u8,
    pub label: String,
    pub pred_mask: u64,
}

/// A plan tape: the ops of one plan, in plan order.
#[derive(Debug, Clone)]
pub struct PlanTape {
    pub ops: Vec<PlanTapeOp>,
}

/// The base IRI under which a growth plan's geometry is serialized.
pub const GROWTH_GEOMETRY_BASE_IRI: &'static str = "https://truex.io/ontology/mfw/f09-growth";

/// The child model of a non-empty tape: one activity leaf per op, in a total order.
pub open spec fn tape_child(ops: Seq<PlanTapeOp>) -> PowlView {
    PowlView::PartialOrder(
        Seq::new(ops.len(), |i: int| PowlView::Leaf(Some(ops[i].label@))),
        Seq::new((ops.len() - 1) as nat, |i: int| (i as usize, (i + 1) as usize)),
    )
}

/// Bit `b` of `mask` is set.
pub open spec fn mask_has(mask: u64, b: u64) -> bool {
    mask & (1u64 << b) != 0
}

/// `p` is the plan a tape projects to under `socket`: one action per op (its label, with
/// the socket's address as provenance), `(b, index)` for every set bit `b` of an op's
/// predecessor mask, and no choice groups.
pub open spec fn tape_plan(socket: (Seq<usize>, SocketKind), ops: Seq<PlanTapeOp>, p: Plan) -> bool {
    &&& p.actions@.len() == ops.len()
    &&& forall|k: int|
        0 <= k < ops.len() ==> (#[trigger] p.actions@[k]).id@ == ops[k].label@ && p.actions@[k].source@ == socket_text(
            socket,
        )
    &&& pair_set(p.precedes@) == tape_pairs(ops)
    &&& p.choice_groups@.len() == 0
}

/// The ordering a tape declares: `(b, index)` for every set bit `b` of an op's
/// predecessor mask.
pub open spec fn tape_pairs(ops: Seq<PlanTapeOp>) -> Set<(int, int)> {
    Set::new(
        |q: (int, int)|
            exists|k: int, b: u64| 0 <= k < ops.len() && b < 64 && #[trigger] mask_has(ops[k].pred_mask, b) && q == (b as int, ops[k].index as int),
    )
}

/// The geometry refusal a tape's plan earns: an empty tape has no provenance; a declared
/// pair that leaves the tape or orders an op before itself invents order; and declared
/// pairs that close into a cycle lose precedence.
pub open spec fn tape_geometry_refusal(ops: Seq<PlanTapeOp>) -> Option<RefusalKind> {
    let n = ops.len() as int;
    let r = tape_pairs(ops);
    if ops.len() == 0 {
        Some(RefusalKind::FlatOnlyProvenance)
    } else if exists|q: (int, int)| #[trigger] r.contains(q) && (q.0 >= n || q.1 >= n || q.0 == q.1) {
        Some(RefusalKind::InventedOrder)
    } else if contradicts(closure_of(r)) {
        Some(RefusalKind::LostPrecedence)
    } else {
        None
    }
}

/// With every action from one source and no choice groups, each open phase start is the
/// first action: the last phase start below any `k >= 1` is action 0.
proof fn lemma_single_phase(p: Plan, k: int)
    requires
        p.actions@.len() >= 1,
        p.choice_groups@.len() == 0,
        forall|i: int, j: int| 0 <= i < p.actions@.len() && 0 <= j < p.actions@.len() ==> source_of(p, i) == source_of(p, j),
        k >= 1,
    ensures
        last_phase_start(p, k) == 0,
    decreases k,
{
    if k - 1 == 0 {
        assert(ungrouped(p, 0));
        assert(prev_ungrouped(p, 0) == -1);
        assert(phase_start(p, 0));
    } else {
        if k - 1 < p.actions@.len() {
            assert(ungrouped(p, k - 2));
            assert(prev_ungrouped(p, k - 1) == k - 2);
            assert(source_of(p, k - 2) == source_of(p, k - 1));
        }
        assert(!phase_start(p, k - 1));
        lemma_single_phase(p, k - 1);
    }
}

/// The geometry pipeline refuses a tape's plan exactly as `tape_geometry_refusal` says.
pub proof fn lemma_tape_refusal(socket: (Seq<usize>, SocketKind), ops: Seq<PlanTapeOp>, p: Plan)
    requires
        tape_plan(socket, ops, p),
    ensures
        expected_refusal(p, Map::<usize, LoopBound>::empty()) == tape_geometry_refusal(ops),
{
    let n = ops.len() as int;
    let r = tape_pairs(ops);
    reveal_strlit("socket:");
    // Every action has the socket's address as its source, which is not blank.
    assert(socket_text(socket)[0] == 's');
    if ops.len() > 0 {
        assert forall|i: int| 0 <= i < p.actions@.len() implies !blank(#[trigger] p.actions@[i].source@) by {
            assert(p.actions@[i].source@ == socket_text(socket));
            assert(!white_space(p.actions@[i].source@[0]));
        }
    }
    assert(flat_only(p) == (ops.len() == 0));
    assert(!groups_invent_order(p));
    // A declared pair invents order exactly when it leaves the tape or is a self pair.
    assert(precedes_invent_order(p) == exists|q: (int, int)| #[trigger] r.contains(q) && (q.0 >= n || q.1 >= n || q.0 == q.1)) by {
        if precedes_invent_order(p) {
            let k = choose|k: int| 0 <= k < p.precedes@.len() && pair_invents_order(p, #[trigger] p.precedes@[k]);
            let q = (p.precedes@[k].0 as int, p.precedes@[k].1 as int);
            assert(pair_set(p.precedes@).contains(q));
        }
        if exists|q: (int, int)| #[trigger] r.contains(q) && (q.0 >= n || q.1 >= n || q.0 == q.1) {
            let q = choose|q: (int, int)| #[trigger] r.contains(q) && (q.0 >= n || q.1 >= n || q.0 == q.1);
            assert(pair_set(p.precedes@).contains(q));
            let k = choose|k: int| 0 <= k < p.precedes@.len() && p.precedes@[k].0 == q.0 && p.precedes@[k].1 == q.1;
            assert(pair_invents_order(p, p.precedes@[k]));
        }
    }
    assert(action_order(p) == closure_of(r));
    // One phase holds every action, so no pair crosses units.
    if ops.len() > 0 {
        assert forall|a: int| #[trigger] unit_of(p, a) == 0 by {
            assert(!grouped(p, a));
            if a + 1 >= 1 {
                lemma_single_phase(p, a + 1);
            }
            assert(leader_count(p, 0) == 0);
            assert(leader_count(p, -1) == 0);
        }
        assert(unit_rel(p) =~= Set::<(int, int)>::empty()) by {
            assert forall|q: (int, int)| !unit_rel(p).contains(q) by {
                if unit_rel(p).contains(q) {
                    let (i, j) = choose|i: int, j: int|
                        #[trigger] action_order(p).contains((i, j)) && unit_of(p, i) != unit_of(p, j) && q == (unit_of(p, i), unit_of(p, j));
                    assert(unit_of(p, i) == 0 && unit_of(p, j) == 0);
                }
            }
        }
        assert forall|q: (int, int)| !closure_of(unit_rel(p)).contains(q) by {
            if reaches(unit_rel(p), q.0, q.1) {
                let w = choose|w: Seq<(int)>| #[trigger] is_walk(unit_rel(p), w) && w[0] == q.0 && w.last() == q.1;
                assert(walk_step(unit_rel(p), w, 0));
            }
        }
        assert(!contradicts(closure_of(unit_rel(p))));
    }
    assert(!binding_unbound(p, Map::<usize, LoopBound>::empty()));
}

/// The child model of a plan tape: a total order over one leaf per op.
pub fn manufacture_child_powl(socket: &WorkflowSocketId, tape: &PlanTape) -> (res: Result<Powl, MFWGrowthRefused>)
    ensures
        match res {
            Ok(r) => tape.ops@.len() > 0 && pview(r) == tape_child(tape.ops@),
            Err(e) => tape.ops@.len() == 0 && (e matches MFWGrowthRefused::EmptyPlanTape { socket: s } && s@ == socket_text(
                socket_view(*socket),
            )),
        },
{
    let n = tape.ops.len();
    if n == 0 {
        return Err(MFWGrowthRefused::EmptyPlanTape { socket: socket.to_string() });
    }
    let mut children: Vec<Powl> = Vec::new();
    let mut order: Vec<(usize, usize)> = Vec::new();
    let mut k: usize = 0;
    while k < n
        invariant
            n == tape.ops@.len(),
            k <= n,
            children@.len() == k,
            forall|q: int| 0 <= q < k ==> pview(#[trigger] children@[q]) == PowlView::Leaf(Some(tape.ops@[q].label@)),
            order@ == Seq::new(if k == 0 { 0nat } else { (k - 1) as nat }, |i: int| (i as usize, (i + 1) as usize)),
        decreases n - k,
    {
        if k > 0 {
            order.push((k - 1, k));
        }
        children.push(Powl::Leaf(Some(tape.ops[k].label.clone())));
        proof {
            assert(order@ =~= Seq::new(k as nat, |i: int| (i as usize, (i + 1) as usize)));
        }
        k = k + 1;
    }
    let r = Powl::PartialOrder { children, order };
    proof {
        lemma_forest_view(children@, 0);
        assert(forest_view(children@, 0) =~= Seq::new(tape.ops@.len(), |i: int| PowlView::Leaf(Some(tape.ops@[i].label@))));
    }
    Ok(r)
}

/// The plan a tape projects to under `socket`.
pub fn pddl_tape_to_f10_plan(socket: &WorkflowSocketId, tape: &PlanTape) -> (res: Plan)
    ensures
        tape_plan(socket_view(*socket), tape.ops@, res),
{
    let source = socket.to_string();
    let mut actions: Vec<PlanAction> = Vec::new();
    let mut precedes: Vec<(usize, usize)> = Vec::new();
    let ghost target = Set::new(
        |q: (int, int)|
            exists|k: int, b: u64|
                0 <= k < tape.ops@.len() && b < 64 && #[trigger] mask_has(tape.ops@[k].pred_mask, b) && q == (
                    b as int,
                    tape.ops@[k].index as int,
                ),
    );
    let mut k: usize = 0;
    while k < tape.ops.len()
        invariant
            k <= tape.ops@.len(),
            source@ == socket_text(socket_view(*socket)),
            actions@.len() == k,
            forall|q: int|
                0 <= q < k ==> (#[trigger] actions@[q]).id@ == tape.ops@[q].label@ && actions@[q].source@ == source@,
            forall|q: (int, int)|
                #[trigger] pair_set(precedes@).contains(q) <==> exists|j: int, b: u64|
                    0 <= j < k && b < 64 && #[trigger] mask_has(tape.ops@[j].pred_mask, b) && q == (b as int, tape.ops@[j].index as int),
        decreases tape.ops@.len() - k,
    {
        let op = &tape.ops[k];
        actions.push(PlanAction { id: op.label.clone(), source: source.clone() });
        let mut bit: u64 = 0;
        while bit < 64
            invariant
                k < tape.ops@.len(),
                op == tape.ops@[k as int],
                bit <= 64,
                forall|q: (int, int)|
                    #[trigger] pair_set(precedes@).contains(q) <==> (exists|j: int, b: u64|
                        0 <= j < k && b < 64 && #[trigger] mask_has(tape.ops@[j].pred_mask, b) && q == (
                            b as int,
                            tape.ops@[j].index as int,
                        )) || (exists|b: u64| b < bit && #[trigger] mask_has(op.pred_mask, b) && q == (b as int, op.index as int)),
            decreases 64 - bit,
        {
            let has = op.pred_mask & (1u64 << bit) != 0;
            if has {
                let ghost before = precedes@;
                precedes.push((bit as usize, op.index as usize));
                proof {
                    crate::relation::lemma_pair_set_push(before, (bit as usize, op.index as usize));
                    assert(mask_has(op.pred_mask, bit));
                }
            }
            proof {
                assert forall|q: (int, int)|
                    #[trigger] pair_set(precedes@).contains(q) <==> (exists|j: int, b: u64|
                        0 <= j < k && b < 64 && #[trigger] mask_has(tape.ops@[j].pred_mask, b) && q == (
                            b as int,
                            tape.ops@[j].index as int,
                        )) || (exists|b: u64| b < bit + 1 && #[trigger] mask_has(op.pred_mask, b) && q == (b as int, op.index as int)) by {
                    if exists|b: u64| b < bit + 1 && #[trigger] mask_has(op.pred_mask, b) && q == (b as int, op.index as int) {
                        let b = choose|b: u64| b < bit + 1 && #[trigger] mask_has(op.pred_mask, b) && q == (b as int, op.index as int);
                        if b == bit {
                            assert(has);
                        }
                    }
                }
            }
            bit = bit + 1;
        }
        proof {
            assert forall|q: (int, int)|
                #[trigger] pair_set(precedes@).contains(q) <==> exists|j: int, b: u64|
                    0 <= j < k + 1 && b < 64 && #[trigger] mask_has(tape.ops@[j].pred_mask, b) && q == (b as int, tape.ops@[j].index as int) by {
                if exists|b: u64| b < 64 && #[trigger] mask_has(op.pred_mask, b) && q == (b as int, op.index as int) {
                    let b = choose|b: u64| b < 64 && #[trigger] mask_has(op.pred_mask, b) && q == (b as int, op.index as int);
                    assert(mask_has(tape.ops@[k as int].pred_mask, b));
                }
                if exists|j: int, b: u64| 0 <= j < k + 1 && b < 64 && #[trigger] mask_has(tape.ops@[j].pred_mask, b) && q == (b as int, tape.ops@[j].index as int) {
                    let (j, b) = choose|j: int, b: u64| 0 <= j < k + 1 && b < 64 && #[trigger] mask_has(tape.ops@[j].pred_mask, b) && q == (b as int, tape.ops@[j].index as int);
                    if j == k {
                        assert(mask_has(op.pred_mask, b));
                    }
                }
            }
        }
        k = k + 1;
    }
    proof {
        assert(pair_set(precedes@) =~= target);
    }
    Plan { actions, precedes, choice_groups: Vec::new() }
}


/// A geometry refusal of kind `k` with detail `d`, rendered as the refusal renders itself
/// at the state where that kind is raised.
pub open spec fn rendered_refusal(k: RefusalKind, d: Seq<char>) -> Seq<char> {
    refusal_prefix() + geometry_state_name(refusal_state(k)) + seq![']', ' '] + refusal_kind_name(k) + seq![':', ' '] + d
}

/// The reason a graft is refused with when the geometry pipeline refuses the tape's plan
/// with kind `k` and detail `d`.
pub open spec fn geometry_rejection(k: RefusalKind, d: Seq<char>) -> Seq<char> {
    "F10 POWL geometry pipeline rejected this plan tape's derived process geometry: "@ + rendered_refusal(k, d)
}

/// The geometry of a plan tape: its projected plan through the geometry pipeline, with
/// no loop bounds, serialized under the growth base IRI. Refused, naming the socket and
/// carrying the pipeline's rendered refusal, exactly where the tape's plan earns a
/// refusal.
pub fn project_growth_plan_geometry(socket: &WorkflowSocketId, tape: &PlanTape) -> (res: Result<
    (POWLModel, String, ShapeReport),
    MFWGrowthRefused,
>)
    ensures
        match res {
            Ok((m, t, r)) => tape_geometry_refusal(tape.ops@) is None && (exists|p: Plan|
                #[trigger] tape_plan(socket_view(*socket), tape.ops@, p) && model_of(p, Map::<usize, LoopBound>::empty(), m))
                && t@ == turtle_of(m, GROWTH_GEOMETRY_BASE_IRI@) && !shape_violated(m),
            Err(e) => e matches MFWGrowthRefused::GraftRefused { socket: s, reason } && s@ == socket_text(socket_view(*socket))
                && tape_geometry_refusal(tape.ops@) is Some && exists|d: Seq<char>|
                reason@ == #[trigger] geometry_rejection(tape_geometry_refusal(tape.ops@)->Some_0, d),
        },
        tape_geometry_refusal(tape.ops@) is None ==> res is Ok,
{
    let plan = pddl_tape_to_f10_plan(socket, tape);
    let bounds: BTreeMap<usize, LoopBound> = BTreeMap::new();
    proof {
        assert(bounds@ =~= Map::<usize, LoopBound>::empty());
    }
    match manufacture_powl_v2(&plan, &bounds, GROWTH_GEOMETRY_BASE_IRI) {
        Ok(t) => {
            proof {
                lemma_tape_refusal(socket_view(*socket), tape.ops@, plan);
                assert(tape_plan(socket_view(*socket), tape.ops@, plan) && model_of(
                    plan,
                    Map::<usize, LoopBound>::empty(),
                    t.0,
                ));
            }
            Ok(t)
        },
        Err(e) => {
            let mut reason = owned("F10 POWL geometry pipeline rejected this plan tape's derived process geometry: ");
            let rendered = e.to_string();
            push_str(&mut reason, rendered.as_str());
            proof {
                lemma_tape_refusal(socket_view(*socket), tape.ops@, plan);
                assert(tape_geometry_refusal(tape.ops@) == Some(e.kind()));
                assert(reason@ =~= geometry_rejection(e.kind(), e.detail()));
                assert(reason@ == geometry_rejection(tape_geometry_refusal(tape.ops@)->Some_0, e.detail()));
            }
            Err(MFWGrowthRefused::GraftRefused { socket: socket.to_string(), reason })
        },
    }
}

/// What a growth attempt manufactures: the parent model with the child grafted in, the
/// child's socket, and the child's canonical geometry with its Turtle and shape report.
#[derive(Debug)]
pub struct GrowthOutcome {
    pub new_root: Powl,
    pub child_socket: WorkflowSocketId,
    pub geometry: POWLModel,
    pub geometry_turtle: String,
    pub geometry_shape: ShapeReport,
}

/// Grafting into `v` at `path` lands on a partial order: in the grafted model the path
/// leads to a partial order with at least one child, the grafted one.
pub proof fn lemma_graft_lands(v: PowlView, path: Seq<usize>, c: PowlView, r: Powl)
    requires
        graft_view(v, path, c) == Some(pview(r)),
    ensures
        node_at(r, path) matches Some(Powl::PartialOrder { children, .. }) && children@.len() >= 1,
    decreases path.len(),
{
    if path.len() == 0 {
        match r {
            Powl::PartialOrder { children, .. } => {
                lemma_forest_view(children@, 0);
            },
            _ => {},
        }
    } else {
        let i = path[0] as int;
        match r {
            Powl::PartialOrder { children, .. } => {
                lemma_forest_view(children@, 0);
                match v {
                    PowlView::PartialOrder(ch, _) => {
                        let g = graft_view(ch[i], path.drop_first(), c)->Some_0;
                        assert(ch.update(i, g)[i] == g);
                        assert(forest_view(children@, 0)[i] == pview(children@[i]));
                        lemma_graft_lands(ch[i], path.drop_first(), c, children@[i]);
                    },
                    _ => {},
                }
            },
            Powl::Choice { children, .. } => {
                lemma_forest_view(children@, 0);
                match v {
                    PowlView::Choice(ch, _, _) => {
                        let g = graft_view(ch[i], path.drop_first(), c)->Some_0;
                        assert(ch.update(i, g)[i] == g);
                        assert(forest_view(children@, 0)[i] == pview(children@[i]));
                        lemma_graft_lands(ch[i], path.drop_first(), c, children@[i]);
                    },
                    _ => {},
                }
            },
            Powl::ExternalCut { region, .. } => {
                match v {
                    PowlView::ExternalCut(rg, _, _) => {
                        lemma_graft_lands(*rg, path.drop_first(), c, *region);
                    },
                    _ => {},
                }
            },
            Powl::Leaf(_) => {},
        }
    }
}

/// `r` is `root` with `c` appended to the children of the partial order at `path`: the
/// path leads to a partial order in both, with the same order pairs, and the children in
/// `r` are those in `root` followed by `c`.
pub open spec fn appended_at(root: Powl, r: Powl, path: Seq<usize>, c: PowlView) -> bool {
    node_at(root, path) matches Some(Powl::PartialOrder { children: before, order: order_before }) && node_at(r, path) matches Some(
        Powl::PartialOrder { children: after, order: order_after },
    ) && order_after@ == order_before@ && forest_view(after@, 0) == forest_view(before@, 0).push(c)
}

/// Along `path`, `w` keeps everything of `v` beside the path: at each node the path
/// passes through, the kind, the order pairs or routing, the labels of a cut and the
/// number of children are the same, and every child off the path is the same subtree.
pub open spec fn kept_beside(v: PowlView, w: PowlView, path: Seq<usize>) -> bool
    decreases path.len(),
{
    if path.len() == 0 {
        true
    } else {
        let i = path[0] as int;
        match (v, w) {
            (PowlView::PartialOrder(ch, ord), PowlView::PartialOrder(ch2, ord2)) => {
                &&& ord2 == ord
                &&& ch2.len() == ch.len()
                &&& 0 <= i < ch.len()
                &&& forall|j: int| 0 <= j < ch.len() && j != i ==> ch2[j] == ch[j]
                &&& kept_beside(ch[i], ch2[i], path.drop_first())
            },
            (PowlView::Choice(ch, n, edges), PowlView::Choice(ch2, n2, edges2)) => {
                &&& n2 == n
                &&& edges2 == edges
                &&& ch2.len() == ch.len()
                &&& 0 <= i < ch.len()
                &&& forall|j: int| 0 <= j < ch.len() && j != i ==> ch2[j] == ch[j]
                &&& kept_beside(ch[i], ch2[i], path.drop_first())
            },
            (PowlView::ExternalCut(region, proj, rend), PowlView::ExternalCut(region2, proj2, rend2)) => {
                &&& proj2 == proj
                &&& rend2 == rend
                &&& i == 0
                &&& kept_beside(*region, *region2, path.drop_first())
            },
            _ => false,
        }
    }
}

/// Grafting leaves the rest of the model alone: everything beside the path is kept.
pub proof fn lemma_graft_keeps_the_rest(v: PowlView, path: Seq<usize>, c: PowlView)
    requires
        graft_view(v, path, c) is Some,
    ensures
        kept_beside(v, graft_view(v, path, c)->Some_0, path),
    decreases path.len(),
{
    if path.len() > 0 {
        let i = path[0] as int;
        match v {
            PowlView::PartialOrder(ch, _) => {
                lemma_graft_keeps_the_rest(ch[i], path.drop_first(), c);
            },
            PowlView::Choice(ch, _, _) => {
                lemma_graft_keeps_the_rest(ch[i], path.drop_first(), c);
            },
            PowlView::ExternalCut(region, _, _) => {
                lemma_graft_keeps_the_rest(*region, path.drop_first(), c);
            },
            PowlView::Leaf(_) => {},
        }
    }
}

/// Grafting only appends: where a graft succeeds, the path leads to a partial order in
/// the model before and after, the order pairs there are the same, and the children after
/// are the children before followed by the grafted child.
pub proof fn lemma_graft_appends(root: Powl, path: Seq<usize>, c: PowlView, r: Powl)
    requires
        graft_view(pview(root), path, c) == Some(pview(r)),
    ensures
        appended_at(root, r, path, c),
    decreases path.len(),
{
    if path.len() > 0 {
        let i = path[0] as int;
        match root {
            Powl::PartialOrder { children, .. } => {
                lemma_forest_view(children@, 0);
                match r {
                    Powl::PartialOrder { children: rc, .. } => {
                        lemma_forest_view(rc@, 0);
                        let ch = forest_view(children@, 0);
                        let g = graft_view(ch[i], path.drop_first(), c)->Some_0;
                        assert(ch.update(i, g)[i] == g);
                        assert(forest_view(rc@, 0)[i] == pview(rc@[i]));
                        lemma_graft_appends(children@[i], path.drop_first(), c, rc@[i]);
                    },
                    _ => {},
                }
            },
            Powl::Choice { children, .. } => {
                lemma_forest_view(children@, 0);
                match r {
                    Powl::Choice { children: rc, .. } => {
                        lemma_forest_view(rc@, 0);
                        let ch = forest_view(children@, 0);
                        let g = graft_view(ch[i], path.drop_first(), c)->Some_0;
                        assert(ch.update(i, g)[i] == g);
                        assert(forest_view(rc@, 0)[i] == pview(rc@[i]));
                        lemma_graft_appends(children@[i], path.drop_first(), c, rc@[i]);
                    },
                    _ => {},
                }
            },
            Powl::ExternalCut { region, .. } => {
                match r {
                    Powl::ExternalCut { region: rr, .. } => {
                        lemma_graft_appends(*region, path.drop_first(), c, *rr);
                    },
                    _ => {},
                }
            },
            Powl::Leaf(_) => {},
        }
    }
}

/// Manufactures the child of a plan tape, gates it through the geometry pipeline, and
/// grafts it under `parent_socket` in `root`. Refused, naming the socket, where the tape
/// is empty, where the tape's plan earns a geometry refusal (carrying it rendered), and
/// where the socket's path does not lead to a partial order (saying where it goes wrong),
/// in that order; succeeds otherwise.
pub fn manufacture_and_bind_child(root: &Powl, parent_socket: &WorkflowSocketId, tape: &PlanTape) -> (res: Result<
    GrowthOutcome,
    MFWGrowthRefused,
>)
    ensures
        match res {
            Ok(o) => {
                &&& tape.ops@.len() > 0
                &&& tape_geometry_refusal(tape.ops@) is None
                &&& graft_view(pview(*root), parent_socket.path.segments@, tape_child(tape.ops@)) == Some(pview(o.new_root))
                &&& exists|p: Plan|
                    tape_plan(socket_view(*parent_socket), tape.ops@, p) && model_of(p, Map::<usize, LoopBound>::empty(), o.geometry)
                        && o.geometry_turtle@ == turtle_of(o.geometry, GROWTH_GEOMETRY_BASE_IRI@)
                &&& node_at(o.new_root, parent_socket.path.segments@) matches Some(Powl::PartialOrder { children, .. })
                    && socket_view(o.child_socket) == (
                    parent_socket.path.segments@.push((children@.len() - 1) as usize),
                    SocketKind::PartialOrder,
                )
            },
            Err(e) => {
                ||| tape.ops@.len() == 0 && (e matches MFWGrowthRefused::EmptyPlanTape { socket: s } && s@ == socket_text(
                    socket_view(*parent_socket),
                ))
                ||| tape.ops@.len() > 0 && tape_geometry_refusal(tape.ops@) is Some && (e matches MFWGrowthRefused::GraftRefused {
                    socket: s,
                    reason,
                } && s@ == socket_text(socket_view(*parent_socket)) && exists|d: Seq<char>|
                    reason@ == geometry_rejection(tape_geometry_refusal(tape.ops@)->Some_0, d))
                ||| tape.ops@.len() > 0 && tape_geometry_refusal(tape.ops@) is None && graft_view(
                    pview(*root),
                    parent_socket.path.segments@,
                    tape_child(tape.ops@),
                ) is None
                    && (e matches MFWGrowthRefused::GraftRefused { socket: s, reason } && s@ == socket_text(
                    socket_view(*parent_socket),
                ) && reason@ == graft_failure(pview(*root), parent_socket.path.segments@))
            },
        },
        tape_geometry_refusal(tape.ops@) is None && graft_view(
            pview(*root),
            parent_socket.path.segments@,
            tape_child(tape.ops@),
        ) is Some ==> res is Ok,
{
    let child = manufacture_child_powl(parent_socket, tape)?;
    let (geometry, geometry_turtle, geometry_shape) = match project_growth_plan_geometry(parent_socket, tape) {
        Ok(t) => t,
        Err(e) => {
            return Err(e);
        },
    };
    let ghost cv = pview(child);
    let new_root = graft_child(root, parent_socket, child)?;
    proof {
        lemma_graft_lands(pview(*root), parent_socket.path.segments@, cv, new_root);
    }
    let new_child_index = match new_root.socket_at(&parent_socket.path) {
        Some(Powl::PartialOrder { children, .. }) => {
            if children.len() == 0 {
                return Err(
                    MFWGrowthRefused::GraftRefused {
                        socket: parent_socket.to_string(),
                        reason: owned("the grafted node has no children right after the graft"),
                    },
                );
            }
            children.len() - 1
        },
        _ => {
            return Err(
                MFWGrowthRefused::GraftRefused {
                    socket: parent_socket.to_string(),
                    reason: owned("the grafted node is not a partial order right after the graft"),
                },
            );
        },
    };
    let child_socket = WorkflowSocketId { path: parent_socket.path.child(new_child_index), kind: SocketKind::PartialOrder };
    Ok(GrowthOutcome { new_root, child_socket, geometry, geometry_turtle, geometry_shape })
}


// ---------------------------------------------------------------------------------------
// Growth planning gates.
// ---------------------------------------------------------------------------------------

/// The semantic closure check at `socket`: refuses where evaluating its closure law
/// refused, and where the law already holds. `closed` is what evaluating the law answered;
/// `law` is the law's name.
pub fn semantic_closure_check(socket: &WorkflowSocketId, law: &'static str, closed: Result<bool, String>) -> (res: Result<
    (),
    MFWGrowthRefused,
>)
    ensures
        match closed {
            Err(e) => res == Err::<(), MFWGrowthRefused>(MFWGrowthRefused::ClosureCheckFailed(e)),
            Ok(true) => res matches Err(MFWGrowthRefused::ClosureAlreadySatisfied { socket: s, law: l }) && s@ == socket_text(
                socket_view(*socket),
            ) && l == law,
            Ok(false) => res is Ok,
        },
{
    match closed {
        Err(e) => Err(MFWGrowthRefused::ClosureCheckFailed(e)),
        Ok(true) => Err(MFWGrowthRefused::ClosureAlreadySatisfied { socket: socket.to_string(), law }),
        Ok(false) => Ok(()),
    }
}

/// What the gates found for one growth attempt: its socket, the planner's tape and the
/// sealed descent receipt.
#[derive(Debug)]
pub struct GrowthPlan {
    pub parent_socket: WorkflowSocketId,
    pub plan_tape: PlanTape,
    pub descent_receipt: DescentReceipt,
}

/// The digest a descent receipt seals over a socket, a budget and a depth.
pub open spec fn descent_digest(socket: (Seq<usize>, SocketKind), budget: nat, depth: nat) -> Seq<char> {
    hex_lower(blake3_digest(encode_utf8(combined_text(descent_parts(socket, budget, depth)))))
}

/// Runs the growth gates at `socket`, in order and stopping at the first refusal: the
/// socket must be reported blocked, its closure law must not hold yet, the planner must
/// have found a tape, and the meter must have budget left for one more descent step,
/// which it then takes. `closed` is what evaluating the closure law answered, and
/// `reachable` what the planner answered for the continuation goal.
pub fn plan_growth(
    socket_blocked: bool,
    socket: &WorkflowSocketId,
    law: &'static str,
    closed: Result<bool, String>,
    reachable: Result<PlanTape, String>,
    meter: &mut DescentMeter,
) -> (res: Result<GrowthPlan, MFWGrowthRefused>)
    ensures
        final(meter).spec_budget() == old(meter).spec_budget(),
        res is Ok ==> final(meter).spec_depth() == old(meter).spec_depth() + 1,
        res is Err ==> final(meter).spec_depth() == old(meter).spec_depth(),
        !socket_blocked ==> (res matches Err(MFWGrowthRefused::SocketNotBlocked { socket: s }) && s@ == socket_text(
            socket_view(*socket),
        )),
        socket_blocked && closed is Err ==> (res matches Err(MFWGrowthRefused::ClosureCheckFailed(e)) && e == closed->Err_0),
        socket_blocked && closed == Ok::<bool, String>(true) ==> (res matches Err(
            MFWGrowthRefused::ClosureAlreadySatisfied { socket: s, law: l },
        ) && s@ == socket_text(socket_view(*socket)) && l == law),
        socket_blocked && closed == Ok::<bool, String>(false) && reachable is Err ==> (res matches Err(
            MFWGrowthRefused::GoalUnreachable { reason },
        ) && reason == reachable->Err_0),
        socket_blocked && closed == Ok::<bool, String>(false) && reachable is Ok && old(meter).spec_depth() >= old(
            meter,
        ).spec_budget() ==> res == Err::<GrowthPlan, MFWGrowthRefused>(
            MFWGrowthRefused::DescentBudgetExhausted {
                budget: old(meter).spec_budget() as usize,
                depth: old(meter).spec_depth() as usize,
            },
        ),
        socket_blocked && closed == Ok::<bool, String>(false) && reachable is Ok && old(meter).spec_depth() < old(
            meter,
        ).spec_budget() ==> (res matches Ok(g) && {
            &&& socket_view(g.parent_socket) == socket_view(*socket)
            &&& g.plan_tape == reachable->Ok_0
            &&& socket_view(g.descent_receipt.parent_socket) == socket_view(*socket)
            &&& g.descent_receipt.budget == old(meter).spec_budget()
            &&& g.descent_receipt.depth_reached == old(meter).spec_depth() + 1
            &&& g.descent_receipt.digest@.len() == 64
            &&& g.descent_receipt.digest@ == descent_digest(
                socket_view(*socket),
                old(meter).spec_budget(),
                old(meter).spec_depth() + 1,
            )
        }),
{
    if !socket_blocked {
        return Err(MFWGrowthRefused::SocketNotBlocked { socket: socket.to_string() });
    }
    semantic_closure_check(socket, law, closed)?;
    let plan_tape = match reachable {
        Ok(t) => t,
        Err(reason) => {
            return Err(MFWGrowthRefused::GoalUnreachable { reason });
        },
    };
    match meter.descend() {
        Ok(_) => {},
        Err(e) => {
            return Err(e);
        },
    }
    let descent_receipt = DescentReceipt::seal(socket.copy(), meter);
    Ok(GrowthPlan { parent_socket: socket.copy(), plan_tape, descent_receipt })
}

} // verus!
