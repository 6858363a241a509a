use multifractal_workflow::admission::AdmissionLedger;
use multifractal_workflow::contraction::{classes, ContractionState};
use multifractal_workflow::growth::{provenance_chain, refusal_catalog, DescentMeter, MFWGrowthRefused};
use multifractal_workflow::projector::{
    select_literal, AdmittedTriple, PDDL_DOMAIN_PREDICATE, PDDL_PROBLEM_PREDICATE,
};

const DOMAIN_TEXT: &str = r#"
(define (domain f08-test)
  (:requirements :strips)
  (:predicates (at ?x) (goal-reached))
  (:action move
    :parameters (?x)
    :precondition (at ?x)
    :effect (and (goal-reached))))
"#;
const PROBLEM_TEXT: &str = r#"
(define (problem f08-test-problem)
  (:domain f08-test)
  (:objects a)
  (:init (at a))
  (:goal (and (goal-reached))))
"#;

fn fixture_graph() -> Vec<AdmittedTriple> {
    vec![
        AdmittedTriple {
            subject: "urn:mfw:f08:test-snapshot".to_string(),
            predicate: PDDL_DOMAIN_PREDICATE.to_string(),
            object_literal: DOMAIN_TEXT.to_string(),
        },
        AdmittedTriple {
            subject: "urn:mfw:f08:test-snapshot".to_string(),
            predicate: PDDL_PROBLEM_PREDICATE.to_string(),
            object_literal: PROBLEM_TEXT.to_string(),
        },
    ]
}

#[test]
fn select_literal_finds_by_predicate() {
    let graph = fixture_graph();
    assert_eq!(select_literal(&graph, PDDL_DOMAIN_PREDICATE), Some(DOMAIN_TEXT));
    assert_eq!(select_literal(&graph, "urn:nope"), None);
}

#[test]
fn empty_ledger_reports_zero() {
    let ledger = AdmissionLedger::new();
    assert!(ledger.is_empty().unwrap());
}

#[test]
fn contraction_state_legal_transitions_match_the_generated_table() {
    assert!(ContractionState::is_legal_transition(
        ContractionState::Typed,
        ContractionState::Closed
    ));
    assert!(ContractionState::is_legal_transition(
        ContractionState::Contracted,
        ContractionState::Plannable
    ));
    assert!(ContractionState::is_legal_transition(
        ContractionState::Closed,
        ContractionState::Refused
    ));
    assert_eq!(
        ContractionState::transition_kind(ContractionState::Closed, ContractionState::Refused),
        Some("invalid")
    );
    assert_eq!(
        ContractionState::transition_kind(ContractionState::Shaped, ContractionState::Refused),
        Some("authority_or_conformance_failure")
    );
    assert!(
        !ContractionState::is_legal_transition(ContractionState::Typed, ContractionState::Plannable),
        "skipping every intermediate stage must not be a legal transition"
    );
}

#[test]
fn generated_vocab_lists_exactly_the_seven_d1_d7_classes() {
    let all = classes();
    assert_eq!(all.len(), 7);
    let labels: Vec<&str> = all.iter().map(|c| c.label).collect();
    for expected in [
        "TypedGraph",
        "ClosureGraph",
        "RefinementDelta",
        "ShapeReport",
        "AdmissibilityDecision",
        "ResidueGraph",
        "PlanningState",
    ] {
        assert!(
            labels.contains(&expected),
            "generated CLASSES missing {expected}, got {labels:?}"
        );
    }
}

#[test]
fn descent_meter_refuses_past_budget() {
    let mut meter = DescentMeter::new(2);
    assert_eq!(meter.remaining(), 2);
    assert_eq!(meter.descend(), Ok(1));
    assert_eq!(meter.descend(), Ok(2));
    assert_eq!(meter.remaining(), 0);
    assert_eq!(
        meter.descend(),
        Err(MFWGrowthRefused::DescentBudgetExhausted {
            budget: 2,
            depth: 2
        })
    );
}

#[test]
fn descent_meter_zero_budget_refuses_immediately() {
    let mut meter = DescentMeter::new(0);
    assert_eq!(
        meter.descend(),
        Err(MFWGrowthRefused::DescentBudgetExhausted {
            budget: 0,
            depth: 0
        })
    );
}

#[test]
fn refusal_catalog_matches_enum_variants() {
    let mut expected = vec![
        "ClosureAlreadySatisfied",
        "ClosureCheckFailed",
        "DescentBudgetExhausted",
        "EmptyPlanTape",
        "GoalUnreachable",
        "GraftRefused",
        "NotYetImplemented",
        "ResidueMalformed",
        "SocketNotBlocked",
    ];
    expected.sort_unstable();
    let mut actual: Vec<&str> = refusal_catalog().iter().map(|e| e.name).collect();
    actual.sort_unstable();
    assert_eq!(
        actual, expected,
        "the refusal catalog has drifted from MFWGrowthRefused's actual variants"
    );
}

#[test]
fn provenance_chain_is_eight_stages_in_order() {
    let chain = provenance_chain();
    assert_eq!(chain.len(), 8);
    for (i, stage) in chain.iter().enumerate() {
        assert_eq!(stage.chain_order as usize, i);
    }
    assert_eq!(chain[0].name, "ParentWorkflow");
    assert_eq!(chain[7].name, "ParentClosureDecision");
}
