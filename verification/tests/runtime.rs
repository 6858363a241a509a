use std::collections::BTreeMap;

use multifractal_workflow::datalog::{
    compare_residue, ClosureDigest, DatalogClosureRefused,
};
use multifractal_workflow::geometry::{build_powl_geometry, LoopBound};
use multifractal_workflow::plan::{ChoiceGroupSpec, Plan, PlanAction};
use multifractal_workflow::planning::{
    check_goal_reached, project_literals, PlannerError, PlannerErrorKind, Refusal,
};
use multifractal_workflow::powl::{ChoiceGraph, GNode, Powl};
use multifractal_workflow::projector::{AdmittedTriple, PDDL_DOMAIN_PREDICATE, PDDL_PROBLEM_PREDICATE};
use multifractal_workflow::runtime::{
    admit_duplicate_or_stale, detect_external_socket, geometry_to_local_ast,
    is_flat_exclusive_choice, tick_outcome, tick_precheck, BCINRLocalExecutionRefused,
    BCINRLocalState, F10ToF11GeometryRefused, LocalAstNode,
};

fn plan_action(id: &str, source: &str) -> PlanAction {
    PlanAction {
        id: id.to_string(),
        source: source.to_string(),
    }
}

#[test]
fn f11_detect_external_socket_always_refuses() {
    assert_eq!(
        detect_external_socket(0b1011),
        Err(BCINRLocalExecutionRefused::ExternalSocketDetectionNotImplemented)
    );
}

#[test]
fn f11_admit_duplicate_or_stale_always_refuses() {
    assert_eq!(
        admit_duplicate_or_stale("corr-key"),
        Err(BCINRLocalExecutionRefused::ConcurrencyRecoveryGateNotImplemented {
            correlation_key: "corr-key".to_string()
        })
    );
}

#[test]
fn f11_load_from_geometry_refuses_a_real_f10_cyclic_choice_graph() {
    let plan = Plan {
        actions: vec![plan_action("branch-a", "planner"), plan_action("branch-b", "planner")],
        precedes: vec![],
        choice_groups: vec![ChoiceGroupSpec {
            members: vec![0, 1],
            loop_branches: vec![0usize],
        }],
    };
    let bounds = BTreeMap::from([(0usize, LoopBound { max_iterations: 5 })]);
    let model = build_powl_geometry(&plan, &bounds).expect("a cyclic choice with a valid bound must build");
    let err = geometry_to_local_ast(&model.root)
        .err()
        .expect("a genuinely cyclic ChoiceGraph must be refused");
    assert_eq!(
        err,
        F10ToF11GeometryRefused::NonFlatChoiceGraph {
            depth: 1,
            child_count: 2,
            graph_n: 2,
            edge_count: 4,
            expected_edge_count: 4,
        }
    );
}

#[test]
fn f11_geometry_refuses_external_cut() {
    let cut = Powl::ExternalCut {
        region: Box::new(Powl::Leaf(Some("a".to_string()))),
        projection: "SELECT * WHERE { ?s ?p ?o }".to_string(),
        renderer: "tera-template".to_string(),
    };
    let err = geometry_to_local_ast(&cut).err().expect("Powl::ExternalCut must be refused");
    assert!(matches!(err, F10ToF11GeometryRefused::ExternalCutNotLocal { depth: 0 }));
}

#[test]
fn geometry_of_a_flat_choice_converts_to_an_exclusive_choice() {
    let plan = Plan {
        actions: vec![plan_action("branch-a", "planner"), plan_action("branch-b", "planner")],
        precedes: vec![],
        choice_groups: vec![ChoiceGroupSpec {
            members: vec![0, 1],
            loop_branches: vec![],
        }],
    };
    let model = build_powl_geometry(&plan, &BTreeMap::new()).expect("acyclic choice builds");
    let ast = geometry_to_local_ast(&model.root).expect("flat choice converts");
    let LocalAstNode::PartialOrder { children, edges } = ast else {
        panic!("root partial order");
    };
    assert!(edges.is_empty());
    let LocalAstNode::XorChoice(branches) = &children[0] else {
        panic!("the choice unit");
    };
    assert_eq!(branches.len(), 2);
    assert!(matches!(&branches[0], LocalAstNode::Atom(a) if a == "branch-a"));
}

#[test]
fn flat_choice_is_exactly_start_to_each_child_to_end() {
    let flat = ChoiceGraph {
        n: 2,
        edges: vec![
            (GNode::Start, GNode::Child(0)),
            (GNode::Start, GNode::Child(1)),
            (GNode::Child(0), GNode::End),
            (GNode::Child(1), GNode::End),
        ],
    };
    assert!(is_flat_exclusive_choice(&flat, 2));
    assert!(!is_flat_exclusive_choice(&flat, 3));
    let partial = ChoiceGraph {
        n: 2,
        edges: vec![(GNode::Start, GNode::Child(0)), (GNode::Child(0), GNode::End)],
    };
    assert!(!is_flat_exclusive_choice(&partial, 2));
}

#[test]
fn tick_decisions_follow_the_state_machine() {
    assert_eq!(tick_precheck(0), Some(BCINRLocalState::LocalDone));
    assert_eq!(tick_precheck(1), None);
    assert_eq!(tick_outcome(0b11, 0b01, 0b10, 0b01, 1), Ok(BCINRLocalState::DependenciesReady));
    assert_eq!(tick_outcome(0b10, 0b10, 0, 0b11, 2), Ok(BCINRLocalState::LocalDone));
    assert_eq!(
        tick_outcome(0b1, 0, 0b1, 0, 3),
        Err(BCINRLocalExecutionRefused::EligibilityExhausted {
            check_mask: 1,
            done_mask: 0,
            tick: 3
        })
    );
}

#[test]
fn stratifier_errors_are_classified_by_their_message() {
    let cycle = DatalogClosureRefused::from_add_rules_error(
        "pack",
        "Ruleset is not stratifiable: cycle through negation".to_string(),
    );
    assert!(matches!(cycle, DatalogClosureRefused::StratificationCycle { ref rule_pack_id, .. } if rule_pack_id == "pack"));
    let unsafe_rule =
        DatalogClosureRefused::from_add_rules_error("pack", "Rule 0 is unsafe: ?y unbound".to_string());
    assert!(matches!(unsafe_rule, DatalogClosureRefused::UnsafeRule { .. }));
    let other = DatalogClosureRefused::from_add_rules_error("pack", "predicate not found".to_string());
    assert_eq!(
        other.to_string(),
        "DatalogClosureRefused::Other[pack]: predicate not found"
    );
}

#[test]
fn test_closure_digest_deterministic_replay() {
    let a = ClosureDigest::compute(
        "pack",
        &vec!["<a> <p> <b>".to_string(), "<b> <p> <c>".to_string()],
    );
    let b = ClosureDigest::compute(
        "pack",
        &vec!["<b> <p> <c>".to_string(), "<a> <p> <b>".to_string()],
    );
    assert_eq!(a, b);
    assert_eq!(a.fact_count, 2);
    assert!(a.verify(&vec!["<b> <p> <c>".to_string(), "<a> <p> <b>".to_string()]));
    assert!(!a.verify(&vec!["<a> <p> <b>".to_string()]));
    let expected = blake3::hash(b"pack\x00<a> <p> <b>\n<b> <p> <c>\n");
    assert_eq!(a.digest, expected.as_bytes().to_vec());
}

#[test]
fn test_compare_residue_strips_closed_predicates() {
    let closure_predicates = vec![
        "<http://example.org/knows>".to_string(),
        "<http://example.org/knowsDerived>".to_string(),
    ];
    let planner_residue = vec![
        "http://example.org/knowsDerived".to_string(),
        "http://example.org/stillOpenWork".to_string(),
    ];
    let diff = compare_residue(&closure_predicates, &planner_residue);
    assert_eq!(diff.stripped, vec!["http://example.org/knowsDerived".to_string()]);
    assert_eq!(diff.remaining, vec!["http://example.org/stillOpenWork".to_string()]);
}

#[test]
fn empty_grounding_classifies_as_no_admissible_plan() {
    let r = Refusal::from_pddl8(
        "Planner",
        PlannerError {
            kind: PlannerErrorKind::EmptyGrounding,
            message: "grounding produced no applicable actions".to_string(),
        },
    );
    assert!(matches!(r, Refusal::NoAdmissiblePlan { stage: "Planner", .. }));
    assert_eq!(r.stage(), "Planner");
}

#[test]
fn parse_error_is_preserved_as_underlying_not_folded_into_no_admissible_plan() {
    let r = Refusal::from_pddl8(
        "ProblemProjector",
        PlannerError {
            kind: PlannerErrorKind::ParseError,
            message: "PDDL parse error: bad token".to_string(),
        },
    );
    assert!(matches!(
        r,
        Refusal::Underlying {
            stage: "ProblemProjector",
            source: PlannerError {
                kind: PlannerErrorKind::ParseError,
                ..
            }
        }
    ));
    assert_eq!(r.to_string(), "ProblemProjector refused: PDDL parse error: bad token");
}

#[test]
fn missing_domain_literal_refuses_no_admissible_plan() {
    let graph = vec![AdmittedTriple {
        subject: "s".to_string(),
        predicate: PDDL_PROBLEM_PREDICATE.to_string(),
        object_literal: "(define (problem p))".to_string(),
    }];
    let err = project_literals(&graph).expect_err("no domain literal must refuse");
    assert!(matches!(err, Refusal::NoAdmissiblePlan { stage: "ProblemProjector", .. }));
    let both = vec![
        AdmittedTriple {
            subject: "s".to_string(),
            predicate: PDDL_DOMAIN_PREDICATE.to_string(),
            object_literal: "D".to_string(),
        },
        graph[0].clone(),
    ];
    assert_eq!(project_literals(&both).unwrap(), ("D", "(define (problem p))"));
}

#[test]
fn empty_tape_against_unmet_goal_refuses_no_admissible_plan() {
    assert_eq!(check_goal_reached(true, 1, "h"), Ok(()));
    let err = check_goal_reached(false, 0, "abc").unwrap_err();
    assert_eq!(
        err,
        Refusal::NoAdmissiblePlan {
            stage: "PlanValidator",
            reason: "execution completed (0 step(s) admitted) but the goal was not reached; receipt chain_hash=abc".to_string(),
        }
    );
}

#[test]
fn no_admitted_plan_classifies_as_no_admissible_plan() {
    let r = Refusal::from_pddl8(
        "Planner",
        PlannerError {
            kind: PlannerErrorKind::NoAdmittedPlan,
            message: "no admitted plan".to_string(),
        },
    );
    assert!(matches!(r, Refusal::NoAdmissiblePlan { stage: "Planner", .. }));
}

#[test]
fn goal_not_reached_classifies_as_no_admissible_plan() {
    let r = Refusal::from_pddl8(
        "PlanValidator",
        PlannerError {
            kind: PlannerErrorKind::GoalNotReached,
            message: "goal not reached".to_string(),
        },
    );
    assert!(matches!(r, Refusal::NoAdmissiblePlan { stage: "PlanValidator", .. }));
}

#[test]
fn stage_accessor_matches_constructor_for_both_variants() {
    let a = Refusal::from_pddl8(
        "Planner",
        PlannerError {
            kind: PlannerErrorKind::EmptyGrounding,
            message: "grounding produced no applicable actions".to_string(),
        },
    );
    assert_eq!(a.stage(), "Planner");
    let b = Refusal::from_pddl8(
        "DomainResolver",
        PlannerError {
            kind: PlannerErrorKind::ParseError,
            message: "x".to_string(),
        },
    );
    assert_eq!(b.stage(), "DomainResolver");
}

#[test]
fn display_names_no_admissible_plan_explicitly() {
    let r = Refusal::NoAdmissiblePlan {
        stage: "ActionHookBinder",
        reason: "no hook registered for effect predicate 'painted'".to_string(),
    };
    let s = r.to_string();
    assert!(s.contains("NoAdmissiblePlan"));
    assert!(s.contains("ActionHookBinder"));
}

#[test]
fn missing_problem_literal_refuses_no_admissible_plan() {
    let graph = vec![AdmittedTriple {
        subject: "s".to_string(),
        predicate: PDDL_DOMAIN_PREDICATE.to_string(),
        object_literal: "(define (domain d))".to_string(),
    }];
    let err = project_literals(&graph).expect_err("no problem literal must refuse");
    assert!(matches!(err, Refusal::NoAdmissiblePlan { stage: "ProblemProjector", .. }));
}
