//! MFW growth: the bounded-descent meter, the growth refusal taxonomy and the catalogs
//! that describe the growth pipeline.

use vstd::prelude::*;
use vstd::utf8::encode_utf8;
use crate::digest::{blake3_combined, blake3_digest, combined_text, hex_lower};
use crate::graft::socket_text;
use crate::powl::{SocketKind, WorkflowSocketId, socket_view};
use crate::text::{decimal, decimal_string, owned, push_decimal, push_str};

verus! {

/// Why a growth attempt was refused. Every variant names its offender.
#[derive(Debug, PartialEq, Eq)]
pub enum MFWGrowthRefused {
    /// Growth was attempted at a socket not reported blocked.
    SocketNotBlocked { socket: String },
    /// The socket's declared closure law already holds.
    ClosureAlreadySatisfied { socket: String, law: &'static str },
    /// The closure-law evaluation itself refused.
    ClosureCheckFailed(String),
    /// The planner found no plan for the continuation goal.
    GoalUnreachable { reason: String },
    /// The descent meter has no budget left.
    DescentBudgetExhausted { budget: usize, depth: usize },
    /// A stage that is not built was reached.
    NotYetImplemented { stage: &'static str, detail: &'static str },
    /// The residue state's admitted PDDL text failed to parse.
    ResidueMalformed { reason: String },
    /// The plan tape has no ops: there is nothing to manufacture.
    EmptyPlanTape { socket: String },
    /// The child cannot be grafted at the socket.
    GraftRefused { socket: String, reason: String },
}

/// A bounded-descent budget: at most `budget` descent steps, `depth` taken so far.
#[derive(Clone, Copy, Debug, PartialEq, Eq)]
pub struct DescentMeter {
    budget: usize,
    depth: usize,
}

impl DescentMeter {
    /// The configured budget.
    pub closed spec fn spec_budget(self) -> nat {
        self.budget as nat
    }

    /// The depth reached so far.
    pub closed spec fn spec_depth(self) -> nat {
        self.depth as nat
    }

    /// The depth never passes the budget.
    #[verifier::type_invariant]
    closed spec fn wf(self) -> bool {
        self.depth <= self.budget
    }

    /// A fresh meter with `budget` steps available and no depth reached.
    pub fn new(budget: usize) -> (res: Self)
        ensures
            res.spec_budget() == budget,
            res.spec_depth() == 0,
    {
        DescentMeter { budget, depth: 0 }
    }

    /// Takes one more descent step where budget remains, returning the new depth;
    /// refuses, unchanged, where the depth already equals the budget.
    pub fn descend(&mut self) -> (res: Result<usize, MFWGrowthRefused>)
        ensures
            final(self).spec_budget() == old(self).spec_budget(),
            old(self).spec_depth() < old(self).spec_budget() ==> {
                &&& final(self).spec_depth() == old(self).spec_depth() + 1
                &&& res == Ok::<usize, MFWGrowthRefused>((old(self).spec_depth() + 1) as usize)
            },
            old(self).spec_depth() >= old(self).spec_budget() ==> {
                &&& final(self).spec_depth() == old(self).spec_depth()
                &&& res == Err::<usize, MFWGrowthRefused>(
                    MFWGrowthRefused::DescentBudgetExhausted {
                        budget: old(self).spec_budget() as usize,
                        depth: old(self).spec_depth() as usize,
                    },
                )
            },
    {
        proof {
            use_type_invariant(&*self);
        }
        if self.depth >= self.budget {
            return Err(MFWGrowthRefused::DescentBudgetExhausted { budget: self.budget, depth: self.depth });
        }
        *self = DescentMeter { budget: self.budget, depth: self.depth + 1 };
        Ok(self.depth)
    }

    /// The configured budget.
    pub fn budget(&self) -> (res: usize)
        ensures
            res == self.spec_budget(),
    {
        self.budget
    }

    /// The depth reached so far.
    pub fn depth(&self) -> (res: usize)
        ensures
            res == self.spec_depth(),
    {
        self.depth
    }

    /// Steps left before `descend` refuses: the budget less the depth, which never passes
    /// the budget, so the depth and the remaining steps add up to the budget.
    pub fn remaining(&self) -> (res: usize)
        ensures
            self.spec_depth() <= self.spec_budget(),
            res == self.spec_budget() - self.spec_depth(),
    {
        proof {
            use_type_invariant(self);
        }
        if self.budget >= self.depth {
            self.budget - self.depth
        } else {
            0
        }
    }
}

/// The rendered text of a growth refusal.
pub open spec fn growth_refusal_text(e: MFWGrowthRefused) -> Seq<char> {
    match e {
        MFWGrowthRefused::SocketNotBlocked { socket } => "socket "@ + socket@
            + " is not blocked; MFW growth is only autonomic under a blocked socket"@,
        MFWGrowthRefused::ClosureAlreadySatisfied { socket, law } => "semantic closure at socket "@ + socket@
            + " already satisfies its declared "@ + law@ + " law; no child may be manufactured for already-closed truth"@,
        MFWGrowthRefused::ClosureCheckFailed(socket) => "closure check at socket "@ + socket@ + " could not be evaluated"@,
        MFWGrowthRefused::GoalUnreachable { reason } => "continuation goal is not reachable: "@ + reason@,
        MFWGrowthRefused::DescentBudgetExhausted { budget, depth } => "descent budget "@ + decimal(budget as nat)
            + " exhausted at depth "@ + decimal(depth as nat) + "; unbounded descent is refused"@,
        MFWGrowthRefused::NotYetImplemented { stage, detail } => "F09 stage `"@ + stage@
            + "` is HAND_WRITE_REQUIRED and not yet implemented (V12-009): "@ + detail@,
        MFWGrowthRefused::ResidueMalformed { reason } => "residue state PDDL text failed to parse: "@ + reason@,
        MFWGrowthRefused::EmptyPlanTape { socket } => "plan tape for socket "@ + socket@
            + " has zero ops; nothing to manufacture"@,
        MFWGrowthRefused::GraftRefused { socket, reason } => "cannot graft a child at socket "@ + socket@ + ": "@
            + reason@,
    }
}

impl MFWGrowthRefused {
    /// Renders the refusal, naming its offender.
    pub fn to_string(&self) -> (res: String)
        ensures
            res@ == growth_refusal_text(*self),
    {
        let mut out = String::new();
        match self {
            MFWGrowthRefused::SocketNotBlocked { socket } => {
                push_str(&mut out, "socket ");
                push_str(&mut out, socket.as_str());
                push_str(&mut out, " is not blocked; MFW growth is only autonomic under a blocked socket");
            },
            MFWGrowthRefused::ClosureAlreadySatisfied { socket, law } => {
                push_str(&mut out, "semantic closure at socket ");
                push_str(&mut out, socket.as_str());
                push_str(&mut out, " already satisfies its declared ");
                push_str(&mut out, law);
                push_str(&mut out, " law; no child may be manufactured for already-closed truth");
            },
            MFWGrowthRefused::ClosureCheckFailed(socket) => {
                push_str(&mut out, "closure check at socket ");
                push_str(&mut out, socket.as_str());
                push_str(&mut out, " could not be evaluated");
            },
            MFWGrowthRefused::GoalUnreachable { reason } => {
                push_str(&mut out, "continuation goal is not reachable: ");
                push_str(&mut out, reason.as_str());
            },
            MFWGrowthRefused::DescentBudgetExhausted { budget, depth } => {
                push_str(&mut out, "descent budget ");
                push_decimal(&mut out, *budget);
                push_str(&mut out, " exhausted at depth ");
                push_decimal(&mut out, *depth);
                push_str(&mut out, "; unbounded descent is refused");
            },
            MFWGrowthRefused::NotYetImplemented { stage, detail } => {
                push_str(&mut out, "F09 stage `");
                push_str(&mut out, stage);
                push_str(&mut out, "` is HAND_WRITE_REQUIRED and not yet implemented (V12-009): ");
                push_str(&mut out, detail);
            },
            MFWGrowthRefused::ResidueMalformed { reason } => {
                push_str(&mut out, "residue state PDDL text failed to parse: ");
                push_str(&mut out, reason.as_str());
            },
            MFWGrowthRefused::EmptyPlanTape { socket } => {
                push_str(&mut out, "plan tape for socket ");
                push_str(&mut out, socket.as_str());
                push_str(&mut out, " has zero ops; nothing to manufacture");
            },
            MFWGrowthRefused::GraftRefused { socket, reason } => {
                push_str(&mut out, "cannot graft a child at socket ");
                push_str(&mut out, socket.as_str());
                push_str(&mut out, ": ");
                push_str(&mut out, reason.as_str());
            },
        }
        proof {
            assert(out@ =~= growth_refusal_text(*self));
        }
        out
    }
}

/// One entry of the growth refusal catalog: a variant's name and what it enforces.
#[derive(Clone, Copy, Debug, PartialEq, Eq)]
pub struct RefusalCatalogEntry {
    pub name: &'static str,
    pub description: &'static str,
}

/// One stage of the growth provenance chain, with its position in the chain.
#[derive(Clone, Copy, Debug, PartialEq, Eq)]
pub struct ProvenanceStage {
    pub name: &'static str,
    pub chain_order: u32,
}

/// The names of the refusal variants, in catalog order.
pub open spec fn refusal_names() -> Seq<Seq<char>> {
    seq![
        seq!['S', 'o', 'c', 'k', 'e', 't', 'N', 'o', 't', 'B', 'l', 'o', 'c', 'k', 'e', 'd'],
        seq!['C', 'l', 'o', 's', 'u', 'r', 'e', 'A', 'l', 'r', 'e', 'a', 'd', 'y', 'S', 'a', 't', 'i', 's', 'f', 'i', 'e', 'd'],
        seq!['C', 'l', 'o', 's', 'u', 'r', 'e', 'C', 'h', 'e', 'c', 'k', 'F', 'a', 'i', 'l', 'e', 'd'],
        seq!['G', 'o', 'a', 'l', 'U', 'n', 'r', 'e', 'a', 'c', 'h', 'a', 'b', 'l', 'e'],
        seq!['D', 'e', 's', 'c', 'e', 'n', 't', 'B', 'u', 'd', 'g', 'e', 't', 'E', 'x', 'h', 'a', 'u', 's', 't', 'e', 'd'],
        seq!['N', 'o', 't', 'Y', 'e', 't', 'I', 'm', 'p', 'l', 'e', 'm', 'e', 'n', 't', 'e', 'd'],
        seq!['R', 'e', 's', 'i', 'd', 'u', 'e', 'M', 'a', 'l', 'f', 'o', 'r', 'm', 'e', 'd'],
        seq!['E', 'm', 'p', 't', 'y', 'P', 'l', 'a', 'n', 'T', 'a', 'p', 'e'],
        seq!['G', 'r', 'a', 'f', 't', 'R', 'e', 'f', 'u', 's', 'e', 'd'],
    ]
}

impl MFWGrowthRefused {
    /// The index of the variant in the refusal catalog.
    pub open spec fn catalog_index(&self) -> int {
        match self {
            MFWGrowthRefused::SocketNotBlocked { .. } => 0,
            MFWGrowthRefused::ClosureAlreadySatisfied { .. } => 1,
            MFWGrowthRefused::ClosureCheckFailed(..) => 2,
            MFWGrowthRefused::GoalUnreachable { .. } => 3,
            MFWGrowthRefused::DescentBudgetExhausted { .. } => 4,
            MFWGrowthRefused::NotYetImplemented { .. } => 5,
            MFWGrowthRefused::ResidueMalformed { .. } => 6,
            MFWGrowthRefused::EmptyPlanTape { .. } => 7,
            MFWGrowthRefused::GraftRefused { .. } => 8,
        }
    }

    /// The variant's name.
    pub fn variant_name(&self) -> (res: &'static str)
        ensures
            res@ == refusal_names()[self.catalog_index()],
    {
        proof {
            reveal_strlit("SocketNotBlocked");
            reveal_strlit("ClosureAlreadySatisfied");
            reveal_strlit("ClosureCheckFailed");
            reveal_strlit("GoalUnreachable");
            reveal_strlit("DescentBudgetExhausted");
            reveal_strlit("NotYetImplemented");
            reveal_strlit("ResidueMalformed");
            reveal_strlit("EmptyPlanTape");
            reveal_strlit("GraftRefused");
        }
        match self {
            MFWGrowthRefused::SocketNotBlocked { .. } => "SocketNotBlocked",
            MFWGrowthRefused::ClosureAlreadySatisfied { .. } => "ClosureAlreadySatisfied",
            MFWGrowthRefused::ClosureCheckFailed(..) => "ClosureCheckFailed",
            MFWGrowthRefused::GoalUnreachable { .. } => "GoalUnreachable",
            MFWGrowthRefused::DescentBudgetExhausted { .. } => "DescentBudgetExhausted",
            MFWGrowthRefused::NotYetImplemented { .. } => "NotYetImplemented",
            MFWGrowthRefused::ResidueMalformed { .. } => "ResidueMalformed",
            MFWGrowthRefused::EmptyPlanTape { .. } => "EmptyPlanTape",
            MFWGrowthRefused::GraftRefused { .. } => "GraftRefused",
        }
    }
}

/// The refusal catalog: one entry per refusal variant, named as the variant.
pub fn refusal_catalog() -> (res: Vec<RefusalCatalogEntry>)
    ensures
        res@.len() == refusal_names().len(),
        forall|i: int| 0 <= i < res@.len() ==> (#[trigger] res@[i]).name@ == refusal_names()[i],
{
    proof {
        reveal_strlit("SocketNotBlocked");
        reveal_strlit("ClosureAlreadySatisfied");
        reveal_strlit("ClosureCheckFailed");
        reveal_strlit("GoalUnreachable");
        reveal_strlit("DescentBudgetExhausted");
        reveal_strlit("NotYetImplemented");
        reveal_strlit("ResidueMalformed");
        reveal_strlit("EmptyPlanTape");
        reveal_strlit("GraftRefused");
    }
    let res = vec![
        RefusalCatalogEntry {
            name: "SocketNotBlocked",
            description: "growth is autonomic: it is only attempted under a blocked socket",
        },
        RefusalCatalogEntry {
            name: "ClosureAlreadySatisfied",
            description: "no child is manufactured for truth the socket's closure law already holds",
        },
        RefusalCatalogEntry {
            name: "ClosureCheckFailed",
            description: "the closure law could not be evaluated at the socket",
        },
        RefusalCatalogEntry {
            name: "GoalUnreachable",
            description: "no child is manufactured toward a goal the planner cannot reach",
        },
        RefusalCatalogEntry {
            name: "DescentBudgetExhausted",
            description: "descent is bounded: no step is taken past the budget",
        },
        RefusalCatalogEntry {
            name: "NotYetImplemented",
            description: "an unbuilt stage fails loudly instead of faking success",
        },
        RefusalCatalogEntry {
            name: "ResidueMalformed",
            description: "the residue state's admitted planning text must parse",
        },
        RefusalCatalogEntry {
            name: "EmptyPlanTape",
            description: "a plan with no steps grows no child",
        },
        RefusalCatalogEntry {
            name: "GraftRefused",
            description: "a child is grafted only where the parent model has a partial order to hold it",
        },
    ];
    proof {
        assert forall|i: int| 0 <= i < res@.len() implies (#[trigger] res@[i]).name@ == refusal_names()[i] by {}
    }
    res
}

/// The stage names of the provenance chain, in chain order.
pub open spec fn provenance_names() -> Seq<Seq<char>> {
    seq![
        seq!['P', 'a', 'r', 'e', 'n', 't', 'W', 'o', 'r', 'k', 'f', 'l', 'o', 'w'],
        seq!['B', 'l', 'o', 'c', 'k', 'e', 'd', 'S', 'o', 'c', 'k', 'e', 't'],
        seq!['R', 'e', 's', 'i', 'd', 'u', 'e', 'S', 't', 'a', 't', 'e'],
        seq!['C', 'o', 'n', 't', 'i', 'n', 'u', 'a', 't', 'i', 'o', 'n', 'G', 'o', 'a', 'l'],
        seq!['P', 'l', 'a', 'n', 'T', 'a', 'p', 'e'],
        seq!['C', 'h', 'i', 'l', 'd', 'W', 'o', 'r', 'k', 'f', 'l', 'o', 'w'],
        seq!['D', 'e', 's', 'c', 'e', 'n', 't', 'R', 'e', 'c', 'e', 'i', 'p', 't'],
        seq![
            'P', 'a', 'r', 'e', 'n', 't', 'C', 'l', 'o', 's', 'u', 'r', 'e', 'D', 'e', 'c', 'i', 's', 'i', 'o', 'n',
        ],
    ]
}

/// The provenance chain of a growth attempt, from the parent workflow to the parent's
/// closure decision; each stage carries its own position.
pub fn provenance_chain() -> (res: Vec<ProvenanceStage>)
    ensures
        res@.len() == provenance_names().len(),
        forall|i: int| 0 <= i < res@.len() ==> (#[trigger] res@[i]).name@ == provenance_names()[i] && res@[i].chain_order == i,
{
    proof {
        reveal_strlit("ParentWorkflow");
        reveal_strlit("BlockedSocket");
        reveal_strlit("ResidueState");
        reveal_strlit("ContinuationGoal");
        reveal_strlit("PlanTape");
        reveal_strlit("ChildWorkflow");
        reveal_strlit("DescentReceipt");
        reveal_strlit("ParentClosureDecision");
    }
    let res = vec![
        ProvenanceStage { name: "ParentWorkflow", chain_order: 0 },
        ProvenanceStage { name: "BlockedSocket", chain_order: 1 },
        ProvenanceStage { name: "ResidueState", chain_order: 2 },
        ProvenanceStage { name: "ContinuationGoal", chain_order: 3 },
        ProvenanceStage { name: "PlanTape", chain_order: 4 },
        ProvenanceStage { name: "ChildWorkflow", chain_order: 5 },
        ProvenanceStage { name: "DescentReceipt", chain_order: 6 },
        ProvenanceStage { name: "ParentClosureDecision", chain_order: 7 },
    ];
    proof {
        assert forall|i: int| 0 <= i < res@.len() implies (#[trigger] res@[i]).name@ == provenance_names()[i] && res@[i].chain_order == i by {}
    }
    res
}

/// A sealed receipt of one growth attempt's descent-budget state.
#[derive(Debug)]
pub struct DescentReceipt {
    /// The parent socket the descent happened under.
    pub parent_socket: WorkflowSocketId,
    /// The budget at seal time.
    pub budget: usize,
    /// The depth reached at seal time.
    pub depth_reached: usize,
    /// Lowercase hex of the combined BLAKE3 digest of the tag, the socket, the budget
    /// and the depth.
    pub digest: String,
}

/// The parts a descent receipt's digest combines.
pub open spec fn descent_parts(socket: (Seq<usize>, SocketKind), budget: nat, depth: nat) -> Seq<Seq<char>> {
    seq!["mfw:descent-receipt:v1"@, socket_text(socket), decimal(budget), decimal(depth)]
}

impl DescentReceipt {
    /// Seals a receipt over `parent_socket` and the meter's budget and depth.
    pub fn seal(parent_socket: WorkflowSocketId, meter: &DescentMeter) -> (res: DescentReceipt)
        ensures
            socket_view(res.parent_socket) == socket_view(parent_socket),
            res.budget == meter.spec_budget(),
            res.depth_reached == meter.spec_depth(),
            res.digest@ == hex_lower(
                blake3_digest(
                    encode_utf8(combined_text(descent_parts(socket_view(parent_socket), meter.spec_budget(), meter.spec_depth()))),
                ),
            ),
            res.digest@.len() == 64,
    {
        let parts = vec![
            owned("mfw:descent-receipt:v1"),
            parent_socket.to_string(),
            decimal_string(meter.budget()),
            decimal_string(meter.depth()),
        ];
        proof {
            assert(parts@.map_values(|p: String| p@) =~= descent_parts(
                socket_view(parent_socket),
                meter.spec_budget(),
                meter.spec_depth(),
            ));
        }
        let digest = blake3_combined(&parts);
        DescentReceipt { parent_socket, budget: meter.budget(), depth_reached: meter.depth(), digest }
    }
}


} // verus!
