//! Local execution: the runtime's lifecycle states, its refusals, and the boundary of
//! which process geometries convert losslessly into a local execution tree.

use vstd::prelude::*;
use crate::powl::{ChoiceGraph, GNode, Powl};
use crate::routing::edge_set;
use crate::text::owned;

verus! {

/// The lifecycle states of the local runtime.
#[derive(Clone, Copy, Debug, PartialEq, Eq, Structural)]
pub enum BCINRLocalState {
    /// Before the compact state is encoded.
    Loaded,
    /// The tree is compiled into a tape.
    Encoded,
    /// Eligibility is being evaluated within a tick.
    Eligible,
    /// A tick fired and candidates remain pending.
    DependenciesReady,
    /// A transition is firing within a tick.
    Transitioning,
    /// No local transition is pending.
    LocalDone,
    /// A fired transition belongs to an external socket.
    ExternalSocket,
    /// Pending candidates could never fire.
    Refused,
}

/// Why local execution was refused.
#[derive(Debug, PartialEq, Eq)]
pub enum BCINRLocalExecutionRefused {
    /// The tree did not compile into a tape; the compiler's error, rendered.
    CompactStateEncodeFailed(String),
    /// A tick had pending candidates but fired none of them.
    EligibilityExhausted { check_mask: u64, done_mask: u64, tick: u32 },
    /// Telling local from external transitions is not available.
    ExternalSocketDetectionNotImplemented,
    /// The duplicate, replay and restart gate is not available.
    ConcurrencyRecoveryGateNotImplemented { correlation_key: String },
}

/// Why a geometry does not convert into a local execution tree.
#[derive(Debug, PartialEq, Eq)]
pub enum F10ToF11GeometryRefused {
    /// A choice whose routing graph is not a flat exclusive choice.
    NonFlatChoiceGraph {
        depth: usize,
        child_count: usize,
        graph_n: usize,
        edge_count: usize,
        expected_edge_count: usize,
    },
    /// An external cut, which has no local analog.
    ExternalCutNotLocal { depth: usize },
}

/// Always refuses: no classification of fired transitions as local or external exists,
/// so no fired transition is ever vouched for as local-only.
pub fn detect_external_socket(fired_mask: u64) -> (res: Result<(), BCINRLocalExecutionRefused>)
    ensures
        res == Err::<(), BCINRLocalExecutionRefused>(BCINRLocalExecutionRefused::ExternalSocketDetectionNotImplemented),
{
    Err(BCINRLocalExecutionRefused::ExternalSocketDetectionNotImplemented)
}

/// Always refuses, naming the correlation key: no duplicate, replay or restart gate
/// exists for local execution, so no request is ever vouched for as deduplicated.
pub fn admit_duplicate_or_stale(correlation_key: &str) -> (res: Result<(), BCINRLocalExecutionRefused>)
    ensures
        res matches Err(BCINRLocalExecutionRefused::ConcurrencyRecoveryGateNotImplemented { correlation_key: k })
            && k@ == correlation_key@,
{
    Err(BCINRLocalExecutionRefused::ConcurrencyRecoveryGateNotImplemented { correlation_key: owned(correlation_key) })
}

/// The edges of a flat exclusive choice over `n` children: `Start` to each child and
/// each child to `End`, nothing else.
pub open spec fn flat_edges(n: int) -> Set<(GNode, GNode)> {
    Set::new(
        |e: (GNode, GNode)|
            exists|i: usize| i < n && (e == (GNode::Start, GNode::Child(i)) || e == (GNode::Child(i), GNode::End)),
    )
}

/// `graph` is a flat exclusive choice over `child_count` children.
pub open spec fn flat_choice(graph: ChoiceGraph, child_count: int) -> bool {
    graph.n == child_count && edge_set(graph.edges@) == flat_edges(child_count)
}

/// Whether edge `e` is one of a flat choice's over `n` children.
fn is_flat_edge(e: (GNode, GNode), n: usize) -> (res: bool)
    ensures
        res == flat_edges(n as int).contains(e),
{
    match e {
        (GNode::Start, GNode::Child(i)) => {
            proof {
                if i < n {
                    assert(e == (GNode::Start, GNode::Child(i)));
                }
            }
            i < n
        },
        (GNode::Child(i), GNode::End) => {
            proof {
                if i < n {
                    assert(e == (GNode::Child(i), GNode::End));
                }
            }
            i < n
        },
        _ => false,
    }
}

/// Whether `edges` holds the edge `e`.
fn has_edge(edges: &Vec<(GNode, GNode)>, e: (GNode, GNode)) -> (res: bool)
    ensures
        res == edges@.contains(e),
{
    let mut k: usize = 0;
    while k < edges.len()
        invariant
            k <= edges@.len(),
            forall|q: int| 0 <= q < k ==> edges@[q] != e,
        decreases edges@.len() - k,
    {
        let (a, b) = edges[k];
        if a == e.0 && b == e.1 {
            proof {
                assert(edges@[k as int] == e);
            }
            return true;
        }
        k = k + 1;
    }
    false
}

/// Whether `graph` is exactly a flat exclusive choice over `child_count` children.
pub fn is_flat_exclusive_choice(graph: &ChoiceGraph, child_count: usize) -> (res: bool)
    ensures
        res == flat_choice(*graph, child_count as int),
{
    if graph.n != child_count {
        return false;
    }
    let mut k: usize = 0;
    while k < graph.edges.len()
        invariant
            k <= graph.edges@.len(),
            forall|q: int| 0 <= q < k ==> flat_edges(child_count as int).contains(#[trigger] graph.edges@[q]),
        decreases graph.edges@.len() - k,
    {
        if !is_flat_edge(graph.edges[k], child_count) {
            proof {
                assert(edge_set(graph.edges@).contains(graph.edges@[k as int]));
                assert(edge_set(graph.edges@) != flat_edges(child_count as int));
            }
            return false;
        }
        k = k + 1;
    }
    let mut i: usize = 0;
    while i < child_count
        invariant
            i <= child_count,
            forall|q: int| 0 <= q < graph.edges@.len() ==> flat_edges(child_count as int).contains(#[trigger] graph.edges@[q]),
            forall|j: usize| j < i ==> #[trigger] graph.edges@.contains((GNode::Start, GNode::Child(j))),
            forall|j: usize| j < i ==> #[trigger] graph.edges@.contains((GNode::Child(j), GNode::End)),
        decreases child_count - i,
    {
        if !has_edge(&graph.edges, (GNode::Start, GNode::Child(i))) {
            proof {
                assert(flat_edges(child_count as int).contains((GNode::Start, GNode::Child(i))));
                assert(!edge_set(graph.edges@).contains((GNode::Start, GNode::Child(i))));
            }
            return false;
        }
        if !has_edge(&graph.edges, (GNode::Child(i), GNode::End)) {
            proof {
                assert(flat_edges(child_count as int).contains((GNode::Child(i), GNode::End)));
                assert(!edge_set(graph.edges@).contains((GNode::Child(i), GNode::End)));
            }
            return false;
        }
        i = i + 1;
    }
    proof {
        assert forall|e: (GNode, GNode)| edge_set(graph.edges@).contains(e) <==> flat_edges(child_count as int).contains(e) by {
            if edge_set(graph.edges@).contains(e) {
                let q = choose|q: int| 0 <= q < graph.edges@.len() && graph.edges@[q] == e;
            }
            if flat_edges(child_count as int).contains(e) {
                let j = choose|j: usize|
                    j < child_count && (e == (GNode::Start, GNode::Child(j)) || e == (GNode::Child(j), GNode::End));
                assert(graph.edges@.contains((GNode::Child(j), GNode::End)));
            }
        }
        assert(edge_set(graph.edges@) =~= flat_edges(child_count as int));
    }
    true
}


// ---------------------------------------------------------------------------------------
// From a geometry to a local execution tree.
// ---------------------------------------------------------------------------------------

/// A local execution tree: an activity, a silent step, a partial order with its
/// precedence edges, or an exclusive choice.
#[derive(Debug)]
pub enum LocalAstNode {
    Atom(String),
    Silent,
    PartialOrder { children: Vec<LocalAstNode>, edges: Vec<(usize, usize)> },
    XorChoice(Vec<LocalAstNode>),
}

/// A local execution tree as plain values.
pub enum AstView {
    Atom(Seq<char>),
    Silent,
    PartialOrder(Seq<AstView>, Seq<(usize, usize)>),
    XorChoice(Seq<AstView>),
}

/// The plain values of a local execution tree.
pub open spec fn aview(a: LocalAstNode) -> AstView
    decreases a,
{
    match a {
        LocalAstNode::Atom(s) => AstView::Atom(s@),
        LocalAstNode::Silent => AstView::Silent,
        LocalAstNode::PartialOrder { children, edges } => AstView::PartialOrder(aforest(children@, 0), edges@),
        LocalAstNode::XorChoice(children) => AstView::XorChoice(aforest(children@, 0)),
    }
}

/// The plain values of the trees `cs[i..]`.
pub open spec fn aforest(cs: Seq<LocalAstNode>, i: int) -> Seq<AstView>
    decreases cs, cs.len() - i,
{
    if 0 <= i < cs.len() {
        seq![aview(cs[i])] + aforest(cs, i + 1)
    } else {
        Seq::empty()
    }
}

/// One level deeper (saturating).
pub open spec fn deeper(depth: usize) -> usize {
    if depth < usize::MAX {
        (depth + 1) as usize
    } else {
        depth
    }
}

/// Twice `n` (saturating).
pub open spec fn twice(n: usize) -> usize {
    if n <= usize::MAX / 2 {
        (n * 2) as usize
    } else {
        usize::MAX
    }
}

/// The local execution tree of `p` at socket depth `depth`, or the refusal of the first
/// node, in preorder, that has no lossless local form.
pub open spec fn local_tree(p: Powl, depth: usize) -> Result<AstView, F10ToF11GeometryRefused>
    decreases p,
{
    match p {
        Powl::Leaf(Some(label)) => Ok(AstView::Atom(label@)),
        Powl::Leaf(None) => Ok(AstView::Silent),
        Powl::PartialOrder { children, order } => match local_forest(children@, deeper(depth), 0) {
            Ok(cs) => Ok(AstView::PartialOrder(cs, order@)),
            Err(e) => Err(e),
        },
        Powl::Choice { children, graph } => if !flat_choice(graph, children@.len() as int) {
            Err(
                F10ToF11GeometryRefused::NonFlatChoiceGraph {
                    depth,
                    child_count: children@.len() as usize,
                    graph_n: graph.n,
                    edge_count: graph.edges@.len() as usize,
                    expected_edge_count: twice(children@.len() as usize),
                },
            )
        } else {
            match local_forest(children@, deeper(depth), 0) {
                Ok(cs) => Ok(AstView::XorChoice(cs)),
                Err(e) => Err(e),
            }
        },
        Powl::ExternalCut { .. } => Err(F10ToF11GeometryRefused::ExternalCutNotLocal { depth }),
    }
}

/// The local execution trees of `cs[i..]`, or the first refusal among them.
pub open spec fn local_forest(cs: Seq<Powl>, depth: usize, i: int) -> Result<Seq<AstView>, F10ToF11GeometryRefused>
    decreases cs, cs.len() - i,
{
    if 0 <= i < cs.len() {
        match local_tree(cs[i], depth) {
            Ok(a) => match local_forest(cs, depth, i + 1) {
                Ok(rest) => Ok(seq![a] + rest),
                Err(e) => Err(e),
            },
            Err(e) => Err(e),
        }
    } else {
        Ok(Seq::empty())
    }
}

/// Converts the trees `cs[i..]` at socket depth `depth`.
fn forest_to_ast(cs: &Vec<Powl>, depth: usize, i: usize) -> (res: Result<Vec<LocalAstNode>, F10ToF11GeometryRefused>)
    requires
        i <= cs@.len(),
    ensures
        match res {
            Ok(v) => local_forest(cs@, depth, i as int) == Ok::<Seq<AstView>, F10ToF11GeometryRefused>(aforest(v@, 0)),
            Err(e) => local_forest(cs@, depth, i as int) == Err::<Seq<AstView>, F10ToF11GeometryRefused>(e),
        },
    decreases cs@, cs@.len() - i,
{
    if i == cs.len() {
        let v: Vec<LocalAstNode> = Vec::new();
        proof {
            assert(aforest(v@, 0) =~= Seq::<AstView>::empty());
        }
        return Ok(v);
    }
    proof {
        assert(decreases_to!(cs@ => cs@[i as int]));
    }
    let head = powl_to_ast(&cs[i], depth)?;
    let rest = forest_to_ast(cs, depth, i + 1)?;
    let mut v: Vec<LocalAstNode> = Vec::new();
    v.push(head);
    let mut rest = rest;
    let ghost rest_view = aforest(rest@, 0);
    proof {
        lemma_aforest(rest@, 0);
    }
    let mut k: usize = 0;
    let n = rest.len();
    while k < n
        invariant
            n == rest@.len() + k,
            v@.len() == k + 1,
            aview(v@[0]) == aview(head),
            forall|q: int| 1 <= q <= k ==> #[trigger] aview(v@[q]) == rest_view[q - 1],
            forall|q: int| 0 <= q < rest@.len() ==> #[trigger] aview(rest@[q]) == rest_view[k + q],
            rest_view.len() == n,
        decreases n - k,
    {
        let ghost before = rest@;
        let x = rest.remove(0);
        proof {
            assert(aview(x) == rest_view[k as int]);
            assert forall|q: int| 0 <= q < rest@.len() implies #[trigger] aview(rest@[q]) == rest_view[k + 1 + q] by {
                assert(rest@[q] == before[q + 1]);
            }
        }
        v.push(x);
        k = k + 1;
    }
    proof {
        lemma_aforest(v@, 0);
        assert(aforest(v@, 0) =~= seq![aview(head)] + rest_view);
    }
    Ok(v)
}

/// The plain values of a list of trees, one per tree.
pub proof fn lemma_aforest(cs: Seq<LocalAstNode>, i: int)
    requires
        0 <= i <= cs.len(),
    ensures
        aforest(cs, i).len() == cs.len() - i,
        forall|k: int| 0 <= k < cs.len() - i ==> #[trigger] aforest(cs, i)[k] == aview(cs[i + k]),
    decreases cs.len() - i,
{
    if i < cs.len() {
        lemma_aforest(cs, i + 1);
        assert forall|k: int| 0 <= k < cs.len() - i implies #[trigger] aforest(cs, i)[k] == aview(cs[i + k]) by {
            if k > 0 {
                assert(aforest(cs, i)[k] == aforest(cs, i + 1)[k - 1]);
            }
        }
    }
}

/// Converts `node` at socket depth `depth`.
fn powl_to_ast(node: &Powl, depth: usize) -> (res: Result<LocalAstNode, F10ToF11GeometryRefused>)
    ensures
        match res {
            Ok(a) => local_tree(*node, depth) == Ok::<AstView, F10ToF11GeometryRefused>(aview(a)),
            Err(e) => local_tree(*node, depth) == Err::<AstView, F10ToF11GeometryRefused>(e),
        },
    decreases node,
{
    match node {
        Powl::Leaf(Some(label)) => Ok(LocalAstNode::Atom(label.clone())),
        Powl::Leaf(None) => Ok(LocalAstNode::Silent),
        Powl::PartialOrder { children, order } => {
            let d = if depth < usize::MAX { depth + 1 } else { depth };
            let cs = forest_to_ast(children, d, 0)?;
            Ok(LocalAstNode::PartialOrder { children: cs, edges: copy_order(order) })
        },
        Powl::Choice { children, graph } => {
            if !is_flat_exclusive_choice(graph, children.len()) {
                return Err(
                    F10ToF11GeometryRefused::NonFlatChoiceGraph {
                        depth,
                        child_count: children.len(),
                        graph_n: graph.n,
                        edge_count: graph.edges.len(),
                        expected_edge_count: if children.len() <= usize::MAX / 2 {
                            children.len() * 2
                        } else {
                            usize::MAX
                        },
                    },
                );
            }
            let d = if depth < usize::MAX { depth + 1 } else { depth };
            let cs = forest_to_ast(children, d, 0)?;
            Ok(LocalAstNode::XorChoice(cs))
        },
        Powl::ExternalCut { .. } => Err(F10ToF11GeometryRefused::ExternalCutNotLocal { depth }),
    }
}

/// A copy of an order.
fn copy_order(v: &Vec<(usize, usize)>) -> (res: Vec<(usize, usize)>)
    ensures
        res@ == v@,
{
    crate::powl::copy_pairs(v)
}

/// `a` renders `p` node for node: a labelled leaf as an activity with its label, a
/// silent leaf as a silent step, a partial order as a local partial order over the
/// renderings of its children with exactly its order pairs as edges, and a choice as an
/// exclusive choice over the renderings of its children. An external cut has no
/// rendering.
pub open spec fn renders(p: Powl, a: AstView) -> bool
    decreases p,
{
    match p {
        Powl::Leaf(Some(label)) => a == AstView::Atom(label@),
        Powl::Leaf(None) => a == AstView::Silent,
        Powl::PartialOrder { children, order } => match a {
            AstView::PartialOrder(cs, edges) => edges == order@ && cs.len() == children@.len() && renders_all(
                children@,
                cs,
                0,
            ),
            _ => false,
        },
        Powl::Choice { children, .. } => match a {
            AstView::XorChoice(cs) => cs.len() == children@.len() && renders_all(children@, cs, 0),
            _ => false,
        },
        Powl::ExternalCut { .. } => false,
    }
}

/// `as_[k]` renders `ps[k]` for every `k` from `i` on.
pub open spec fn renders_all(ps: Seq<Powl>, as_: Seq<AstView>, i: int) -> bool
    decreases ps, ps.len() - i,
{
    if 0 <= i < ps.len() {
        renders(ps[i], as_[i]) && renders_all(ps, as_, i + 1)
    } else {
        true
    }
}

/// The conversion is lossless: whatever tree it gives renders the geometry node for
/// node, every partial order keeping exactly its order pairs as edges.
pub proof fn lemma_local_tree_renders(p: Powl, depth: usize)
    ensures
        local_tree(p, depth) matches Ok(a) ==> renders(p, a),
    decreases p,
{
    match p {
        Powl::PartialOrder { children, .. } => {
            lemma_local_forest_renders(children@, deeper(depth), 0);
            if local_forest(children@, deeper(depth), 0) is Ok {
                let cs = local_forest(children@, deeper(depth), 0)->Ok_0;
                assert forall|k: int| 0 <= k < children@.len() implies renders(children@[k], #[trigger] cs[k]) by {
                    assert(cs[k - 0] == cs[k]);
                }
                lemma_renders_all_from(children@, cs, 0);
            }
        },
        Powl::Choice { children, .. } => {
            lemma_local_forest_renders(children@, deeper(depth), 0);
            if local_forest(children@, deeper(depth), 0) is Ok {
                let cs = local_forest(children@, deeper(depth), 0)->Ok_0;
                assert forall|k: int| 0 <= k < children@.len() implies renders(children@[k], #[trigger] cs[k]) by {
                    assert(cs[k - 0] == cs[k]);
                }
                lemma_renders_all_from(children@, cs, 0);
            }
        },
        _ => {},
    }
}

/// Every tree a forest converts to renders its source, position by position.
proof fn lemma_local_forest_renders(cs: Seq<Powl>, depth: usize, i: int)
    requires
        0 <= i <= cs.len(),
    ensures
        local_forest(cs, depth, i) matches Ok(v) ==> v.len() == cs.len() - i && forall|k: int|
            i <= k < cs.len() ==> renders(cs[k], #[trigger] v[k - i]),
    decreases cs, cs.len() - i,
{
    if i < cs.len() {
        lemma_local_tree_renders(cs[i], depth);
        lemma_local_forest_renders(cs, depth, i + 1);
        if local_forest(cs, depth, i) is Ok {
            let v = local_forest(cs, depth, i)->Ok_0;
            let a = local_tree(cs[i], depth)->Ok_0;
            let rest = local_forest(cs, depth, i + 1)->Ok_0;
            assert(v == seq![a] + rest);
            assert forall|k: int| i <= k < cs.len() implies renders(cs[k], #[trigger] v[k - i]) by {
                if k > i {
                    assert(v[k - i] == rest[k - (i + 1)]);
                }
            }
        }
    }
}

/// Position-by-position rendering is `renders_all`.
proof fn lemma_renders_all_from(ps: Seq<Powl>, as_: Seq<AstView>, i: int)
    requires
        0 <= i <= ps.len(),
        as_.len() == ps.len(),
        forall|k: int| i <= k < ps.len() ==> renders(ps[k], #[trigger] as_[k]),
    ensures
        renders_all(ps, as_, i),
    decreases ps.len() - i,
{
    if i < ps.len() {
        lemma_renders_all_from(ps, as_, i + 1);
    }
}

/// Converts a geometry into a local execution tree, for the shapes that convert
/// losslessly: leaves, partial orders and flat exclusive choices.
pub fn geometry_to_local_ast(root: &Powl) -> (res: Result<LocalAstNode, F10ToF11GeometryRefused>)
    ensures
        match res {
            Ok(a) => local_tree(*root, 0) == Ok::<AstView, F10ToF11GeometryRefused>(aview(a)) && renders(*root, aview(a)),
            Err(e) => local_tree(*root, 0) == Err::<AstView, F10ToF11GeometryRefused>(e),
        },
{
    proof {
        lemma_local_tree_renders(*root, 0);
    }
    powl_to_ast(root, 0)
}


// ---------------------------------------------------------------------------------------
// The tick state machine.
// ---------------------------------------------------------------------------------------

/// Before a tick: with nothing to check the runtime is done and no tick runs.
pub fn tick_precheck(check_mask: u64) -> (res: Option<BCINRLocalState>)
    ensures
        res == if check_mask == 0 {
            Some(BCINRLocalState::LocalDone)
        } else {
            None
        },
{
    if check_mask == 0 {
        Some(BCINRLocalState::LocalDone)
    } else {
        None
    }
}

/// The candidates pending before a tick: checked and not yet done.
pub fn pending_candidates(check_mask: u64, done_mask: u64) -> (res: u64)
    ensures
        res == check_mask & !done_mask,
{
    check_mask & !done_mask
}

/// After the scheduler fired `fired` out of `pending_before`: a tick that had pending
/// candidates and fired none is a deadlock, refused with the masks and tick after it;
/// otherwise the runtime is done when nothing is left to check, and has dependencies
/// ready when something is.
pub fn tick_outcome(pending_before: u64, fired: u64, check_after: u64, done_after: u64, tick_after: u32) -> (res: Result<
    BCINRLocalState,
    BCINRLocalExecutionRefused,
>)
    ensures
        fired == 0 && pending_before != 0 ==> res == Err::<BCINRLocalState, BCINRLocalExecutionRefused>(
            BCINRLocalExecutionRefused::EligibilityExhausted { check_mask: check_after, done_mask: done_after, tick: tick_after },
        ),
        !(fired == 0 && pending_before != 0) ==> res == Ok::<BCINRLocalState, BCINRLocalExecutionRefused>(
            if check_after == 0 {
                BCINRLocalState::LocalDone
            } else {
                BCINRLocalState::DependenciesReady
            },
        ),
{
    if fired == 0 && pending_before != 0 {
        return Err(
            BCINRLocalExecutionRefused::EligibilityExhausted { check_mask: check_after, done_mask: done_after, tick: tick_after },
        );
    }
    if check_after == 0 {
        Ok(BCINRLocalState::LocalDone)
    } else {
        Ok(BCINRLocalState::DependenciesReady)
    }
}

/// The state a refused tick leaves the runtime in.
pub fn state_after(outcome: &Result<BCINRLocalState, BCINRLocalExecutionRefused>) -> (res: BCINRLocalState)
    ensures
        res == match outcome {
            Ok(s) => *s,
            Err(_) => BCINRLocalState::Refused,
        },
{
    match outcome {
        Ok(s) => *s,
        Err(_) => BCINRLocalState::Refused,
    }
}

} // verus!
