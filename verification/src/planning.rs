//! Planning refusals: a planner error classified into "no admissible plan" or kept
//! verbatim, the projector's literal selection, and the plan validator's goal check.

use vstd::prelude::*;
use crate::projector::{AdmittedTriple, PDDL_DOMAIN_PREDICATE, PDDL_PROBLEM_PREDICATE, select_literal};
use crate::text::{decimal, owned, push_decimal, push_str};

verus! {

/// The kinds of planner error.
#[derive(Clone, Copy, Debug, PartialEq, Eq, Structural)]
pub enum PlannerErrorKind {
    ParseError,
    BoundExceeded,
    UnknownPredicate,
    EmptyGrounding,
    NoAdmittedPlan,
    AdmissionLoadError,
    StepDenied,
    GoalNotReached,
    ReceiptIntegrity,
    InvalidCaseId,
    NumericError,
    PlanningFailed,
    UnsupportedTrajectoryConstraint,
    FluentValuedDurationUnsupported,
}

/// A planner error: its kind and its rendered message.
#[derive(Debug, Clone, PartialEq, Eq)]
pub struct PlannerError {
    pub kind: PlannerErrorKind,
    pub message: String,
}

/// Why planning produced no admissible plan, or failed otherwise.
#[derive(Debug, Clone, PartialEq, Eq)]
pub enum Refusal {
    /// The planning surface admits no plan, or an admission check found none.
    NoAdmissiblePlan { stage: &'static str, reason: String },
    /// A planner error that is not a "no plan" condition, kept verbatim.
    Underlying { stage: &'static str, source: PlannerError },
}

/// The kinds that mean no plan is reachable.
pub open spec fn means_no_plan(k: PlannerErrorKind) -> bool {
    k == PlannerErrorKind::EmptyGrounding || k == PlannerErrorKind::NoAdmittedPlan || k == PlannerErrorKind::GoalNotReached
}

impl Refusal {
    /// Classifies a planner error raised at `stage`: an empty grounding, an exhausted
    /// search and an unreached goal mean no admissible plan (the error's message is the
    /// reason); every other error is kept as it is.
    pub fn from_pddl8(stage: &'static str, source: PlannerError) -> (res: Self)
        ensures
            means_no_plan(source.kind) ==> (res matches Refusal::NoAdmissiblePlan { stage: s, reason } && s == stage
                && reason@ == source.message@),
            !means_no_plan(source.kind) ==> res == (Refusal::Underlying { stage, source }),
    {
        match source.kind {
            PlannerErrorKind::EmptyGrounding | PlannerErrorKind::NoAdmittedPlan | PlannerErrorKind::GoalNotReached => {
                Refusal::NoAdmissiblePlan { stage, reason: source.message }
            },
            _ => Refusal::Underlying { stage, source },
        }
    }

    /// The stage that raised the refusal.
    pub fn stage(&self) -> (res: &'static str)
        ensures
            res == match self {
                Refusal::NoAdmissiblePlan { stage, .. } => *stage,
                Refusal::Underlying { stage, .. } => *stage,
            },
    {
        match self {
            Refusal::NoAdmissiblePlan { stage, .. } => *stage,
            Refusal::Underlying { stage, .. } => *stage,
        }
    }

    /// Renders the refusal: `NoAdmissiblePlan at <stage>: <reason>`, or `<stage>
    /// refused: <source>`.
    pub fn to_string(&self) -> (res: String)
        ensures
            res@ == match self {
                Refusal::NoAdmissiblePlan { stage, reason } => "NoAdmissiblePlan at "@ + stage@ + ": "@ + reason@,
                Refusal::Underlying { stage, source } => stage@ + " refused: "@ + source.message@,
            },
    {
        let mut out = String::new();
        match self {
            Refusal::NoAdmissiblePlan { stage, reason } => {
                push_str(&mut out, "NoAdmissiblePlan at ");
                push_str(&mut out, stage);
                push_str(&mut out, ": ");
                push_str(&mut out, reason.as_str());
            },
            Refusal::Underlying { stage, source } => {
                push_str(&mut out, stage);
                push_str(&mut out, " refused: ");
                push_str(&mut out, source.message.as_str());
            },
        }
        proof {
            assert(out@ =~= match self {
                Refusal::NoAdmissiblePlan { stage, reason } => "NoAdmissiblePlan at "@ + stage@ + ": "@ + reason@,
                Refusal::Underlying { stage, source } => stage@ + " refused: "@ + source.message@,
            });
        }
        out
    }
}

/// Some admitted fact has predicate `p`.
pub open spec fn has_predicate(graph: Seq<AdmittedTriple>, p: Seq<char>) -> bool {
    exists|i: int| 0 <= i < graph.len() && (#[trigger] graph[i]).predicate@ == p
}

/// The literal of the first fact with predicate `p`.
pub open spec fn first_literal(graph: Seq<AdmittedTriple>, p: Seq<char>, lit: Seq<char>) -> bool {
    exists|i: int|
        0 <= i < graph.len() && (#[trigger] graph[i]).predicate@ == p && lit == graph[i].object_literal@ && forall|j: int|
            0 <= j < i ==> (#[trigger] graph[j]).predicate@ != p
}

/// The problem projector's selection: the domain and problem texts the admitted graph
/// holds under the two planning predicates (the first of each), or a refusal naming
/// the one that is missing, the domain first.
pub fn project_literals<'a>(graph: &'a [AdmittedTriple]) -> (res: Result<(&'a str, &'a str), Refusal>)
    ensures
        match res {
            Ok((d, p)) => first_literal(graph@, PDDL_DOMAIN_PREDICATE@, d@) && first_literal(
                graph@,
                PDDL_PROBLEM_PREDICATE@,
                p@,
            ),
            Err(e) => (e matches Refusal::NoAdmissiblePlan { stage, .. } && stage@ == "ProblemProjector"@) && (
            !has_predicate(graph@, PDDL_DOMAIN_PREDICATE@) || !has_predicate(graph@, PDDL_PROBLEM_PREDICATE@)),
        },
{
    let domain = match select_literal(graph, PDDL_DOMAIN_PREDICATE) {
        Some(d) => d,
        None => {
            let mut reason = owned("no PDDL domain literal at <");
            push_str(&mut reason, PDDL_DOMAIN_PREDICATE);
            push_str(&mut reason, "> in admitted graph");
            return Err(Refusal::NoAdmissiblePlan { stage: "ProblemProjector", reason });
        },
    };
    let problem = match select_literal(graph, PDDL_PROBLEM_PREDICATE) {
        Some(p) => p,
        None => {
            let mut reason = owned("no PDDL problem literal at <");
            push_str(&mut reason, PDDL_PROBLEM_PREDICATE);
            push_str(&mut reason, "> in admitted graph");
            return Err(Refusal::NoAdmissiblePlan { stage: "ProblemProjector", reason });
        },
    };
    Ok((domain, problem))
}

/// The plan validator's verdict on an execution: admitted where the receipt records the
/// goal as reached, else no admissible plan, naming the admitted steps and the chain
/// hash.
pub fn check_goal_reached(goal_reached: bool, step_count: usize, chain_hash: &str) -> (res: Result<(), Refusal>)
    ensures
        goal_reached ==> res is Ok,
        !goal_reached ==> (res matches Err(Refusal::NoAdmissiblePlan { stage, reason }) && stage@ == "PlanValidator"@
            && reason@ == "execution completed ("@ + decimal(step_count as nat)
            + " step(s) admitted) but the goal was not reached; receipt chain_hash="@ + chain_hash@),
{
    if goal_reached {
        return Ok(());
    }
    let mut reason = owned("execution completed (");
    push_decimal(&mut reason, step_count);
    push_str(&mut reason, " step(s) admitted) but the goal was not reached; receipt chain_hash=");
    push_str(&mut reason, chain_hash);
    proof {
        assert(reason@ =~= "execution completed ("@ + decimal(step_count as nat)
            + " step(s) admitted) but the goal was not reached; receipt chain_hash="@ + chain_hash@);
    }
    Err(Refusal::NoAdmissiblePlan { stage: "PlanValidator", reason })
}

} // verus!
