use std::collections::BTreeMap;

use multifractal_workflow::geometry::{
    build_powl_geometry, GeometryState, LoopBound, POWLGeometryRefused, POWLModel,
};
use multifractal_workflow::shape::{manufacture_powl_v2, validate_shape};
use multifractal_workflow::plan::{ChoiceGroupSpec, Plan, PlanAction};
use multifractal_workflow::powl::{ChoiceGraph, GNode, Powl, SocketKind};
use multifractal_workflow::routing::choice_graph_has_cycle;

fn action(id: &str, source: &str) -> PlanAction {
    PlanAction {
        id: id.to_string(),
        source: source.to_string(),
    }
}

fn no_bounds() -> BTreeMap<usize, LoopBound> {
    BTreeMap::new()
}

fn two_way_choice_plan(loop_back: bool) -> Plan {
    let mut loop_branches = Vec::new();
    if loop_back {
        loop_branches.push(0usize);
    }
    Plan {
        actions: vec![action("branch-a", "planner"), action("branch-b", "planner")],
        precedes: vec![],
        choice_groups: vec![ChoiceGroupSpec {
            members: vec![0, 1],
            loop_branches,
        }],
    }
}

#[test]
fn partial_order_builder_preserves_declared_order_and_retains_incomparability() {
    let plan = Plan {
        actions: vec![action("a0", "src"), action("a1", "src"), action("a2", "src")],
        precedes: vec![(0, 1)],
        choice_groups: vec![],
    };
    let model = build_powl_geometry(&plan, &no_bounds()).expect("valid plan");
    let Powl::PartialOrder { children, order } = &model.root else {
        panic!("expected root PartialOrder, got {:?}", model.root);
    };
    assert_eq!(children.len(), 1, "single phase, single top-level unit");
    let Powl::PartialOrder {
        order: phase_order, ..
    } = &children[0]
    else {
        panic!("expected the single unit to be the phase PartialOrder");
    };
    assert!(phase_order.contains(&(0, 1)));
    assert!(!phase_order.contains(&(0, 2)));
    assert!(!phase_order.contains(&(2, 0)));
    assert!(!phase_order.contains(&(1, 2)));
    assert!(order.is_empty(), "one unit: no root-level order to derive");
}

#[test]
fn plan_grouper_splits_phases_by_source_adjacency() {
    let plan = Plan {
        actions: vec![action("a0", "src-A"), action("a1", "src-A"), action("a2", "src-B")],
        precedes: vec![(0, 1), (1, 2)],
        choice_groups: vec![],
    };
    let model = build_powl_geometry(&plan, &no_bounds()).expect("valid plan");
    let Powl::PartialOrder { children, order } = &model.root else {
        panic!("expected root PartialOrder");
    };
    assert_eq!(children.len(), 2, "two source-adjacency phases");
    assert_eq!(order.len(), 1, "phase A before phase B, derived not invented");
    assert!(order.contains(&(0, 1)));
}

#[test]
fn flat_only_provenance_refuses_empty_plan() {
    let plan = Plan {
        actions: vec![],
        precedes: vec![],
        choice_groups: vec![],
    };
    let err = build_powl_geometry(&plan, &no_bounds()).unwrap_err();
    assert!(matches!(
        err,
        POWLGeometryRefused::FlatOnlyProvenance {
            state: GeometryState::OrderDerived,
            ..
        }
    ));
}

#[test]
fn flat_only_provenance_refuses_action_with_empty_source() {
    let plan = Plan {
        actions: vec![action("a0", "")],
        precedes: vec![],
        choice_groups: vec![],
    };
    let err = build_powl_geometry(&plan, &no_bounds()).unwrap_err();
    assert!(matches!(err, POWLGeometryRefused::FlatOnlyProvenance { .. }));
}

#[test]
fn invented_order_refuses_out_of_range_precedes() {
    let plan = Plan {
        actions: vec![action("a0", "src")],
        precedes: vec![(0, 5)],
        choice_groups: vec![],
    };
    let err = build_powl_geometry(&plan, &no_bounds()).unwrap_err();
    assert!(matches!(err, POWLGeometryRefused::InventedOrder { .. }));
}

#[test]
fn invented_order_refuses_precedes_within_same_choice_group() {
    let plan = Plan {
        actions: vec![action("a0", "src"), action("a1", "src")],
        precedes: vec![(0, 1)],
        choice_groups: vec![ChoiceGroupSpec {
            members: vec![0, 1],
            loop_branches: vec![],
        }],
    };
    let err = build_powl_geometry(&plan, &no_bounds()).unwrap_err();
    assert!(matches!(err, POWLGeometryRefused::InventedOrder { .. }));
}

#[test]
fn invented_order_refuses_single_member_choice_group() {
    let plan = Plan {
        actions: vec![action("a0", "src")],
        precedes: vec![],
        choice_groups: vec![ChoiceGroupSpec {
            members: vec![0],
            loop_branches: vec![],
        }],
    };
    let err = build_powl_geometry(&plan, &no_bounds()).unwrap_err();
    assert!(matches!(err, POWLGeometryRefused::InventedOrder { .. }));
}

#[test]
fn lost_precedence_refuses_direct_contradiction() {
    let plan = Plan {
        actions: vec![action("a0", "src"), action("a1", "src")],
        precedes: vec![(0, 1), (1, 0)],
        choice_groups: vec![],
    };
    let err = build_powl_geometry(&plan, &no_bounds()).unwrap_err();
    assert!(matches!(err, POWLGeometryRefused::LostPrecedence { .. }));
}

#[test]
fn lost_precedence_refuses_three_cycle() {
    let plan = Plan {
        actions: vec![action("a0", "src"), action("a1", "src"), action("a2", "src")],
        precedes: vec![(0, 1), (1, 2), (2, 0)],
        choice_groups: vec![],
    };
    let err = build_powl_geometry(&plan, &no_bounds()).unwrap_err();
    assert!(matches!(err, POWLGeometryRefused::LostPrecedence { .. }));
}

#[test]
fn choice_graph_builder_builds_acyclic_choice_without_a_bound() {
    let plan = two_way_choice_plan(false);
    let model = build_powl_geometry(&plan, &no_bounds()).expect("acyclic choice needs no bound");
    let Powl::PartialOrder { children, .. } = &model.root else {
        panic!("expected root PartialOrder");
    };
    assert_eq!(children.len(), 1);
    assert!(matches!(children[0], Powl::Choice { .. }));
    assert!(model.loop_bounds.is_empty());
}

#[test]
fn unbound_child_binding_refuses_cyclic_choice_without_loop_bound() {
    let plan = two_way_choice_plan(true);
    let err = build_powl_geometry(&plan, &no_bounds()).unwrap_err();
    assert!(matches!(
        err,
        POWLGeometryRefused::UnboundChildBinding {
            state: GeometryState::HierarchyBuilt,
            ..
        }
    ));
}

#[test]
fn unbound_child_binding_refuses_zero_max_iterations_bound() {
    let plan = two_way_choice_plan(true);
    let bounds = BTreeMap::from([(0usize, LoopBound { max_iterations: 0 })]);
    let err = build_powl_geometry(&plan, &bounds).unwrap_err();
    assert!(matches!(err, POWLGeometryRefused::UnboundChildBinding { .. }));
}

#[test]
fn unbound_child_binding_refuses_choice_group_with_no_exit_branch() {
    let plan = Plan {
        actions: vec![action("branch-a", "planner"), action("branch-b", "planner")],
        precedes: vec![],
        choice_groups: vec![ChoiceGroupSpec {
            members: vec![0, 1],
            loop_branches: vec![0, 1],
        }],
    };
    let bounds = BTreeMap::from([(0usize, LoopBound { max_iterations: 3 })]);
    let err = build_powl_geometry(&plan, &bounds).unwrap_err();
    assert!(matches!(err, POWLGeometryRefused::UnboundChildBinding { .. }));
}

#[test]
fn loop_bound_binder_attaches_bound_to_the_correct_choice_socket() {
    let plan = two_way_choice_plan(true);
    let bounds = BTreeMap::from([(0usize, LoopBound { max_iterations: 5 })]);
    let model = build_powl_geometry(&plan, &bounds).expect("cyclic choice with a bound");
    assert_eq!(model.loop_bounds.len(), 1);
    let (socket, bound) = model
        .loop_bounds
        .iter()
        .next()
        .expect("loop_bounds has exactly one entry, checked above");
    assert_eq!(socket.kind, SocketKind::Choice);
    assert_eq!(bound.max_iterations, 5);
}

#[test]
fn choice_graph_has_cycle_distinguishes_acyclic_from_cyclic() {
    let acyclic = ChoiceGraph {
        n: 1,
        edges: vec![(GNode::Start, GNode::Child(0)), (GNode::Child(0), GNode::End)],
    };
    assert!(!choice_graph_has_cycle(&acyclic));

    let cyclic = ChoiceGraph {
        n: 1,
        edges: vec![
            (GNode::Start, GNode::Child(0)),
            (GNode::Child(0), GNode::Start),
            (GNode::Child(0), GNode::End),
        ],
    };
    assert!(choice_graph_has_cycle(&cyclic));
}

#[test]
fn geometry_refused_display_names_state_and_kind() {
    let err = POWLGeometryRefused::LostPrecedence {
        state: GeometryState::OrderDerived,
        detail: "example".to_string(),
    };
    let rendered = err.to_string();
    assert!(rendered.contains("ORDER_DERIVED"));
    assert!(rendered.contains("LostPrecedence"));
    assert!(rendered.contains("example"));
}

#[test]
fn end_to_end_manufacture_powl_v2_produces_turtle_and_passes_shape_validation() {
    let plan = Plan {
        actions: vec![
            action("gather", "planner-A"),
            action("review", "planner-A"),
            action("retry", "planner-B"),
            action("approve", "planner-B"),
        ],
        precedes: vec![(0, 1)],
        choice_groups: vec![ChoiceGroupSpec {
            members: vec![2, 3],
            loop_branches: vec![0usize], // member 0 == action 2 ("retry")
        }],
    };
    let bounds = BTreeMap::from([(0usize, LoopBound { max_iterations: 3 })]);
    let (model, turtle, report) = manufacture_powl_v2(&plan, &bounds, "https://example.org/proc")
        .expect("well-formed plan with a bounded loop must manufacture");

    assert_eq!(report.leaves, 4);
    assert_eq!(report.choices, 1);
    assert_eq!(report.bound_loops, 1);
    assert_eq!(report.child_bindings, model.root.sockets().len() - 1);

    assert!(turtle.contains("a powl2:Model"));
    assert!(turtle.contains("a powl2:PartialOrder"));
    assert!(turtle.contains("a powl2:Choice"));
    assert!(turtle.contains("powl2:activityLabel \"gather\""));
    assert!(turtle.contains("powl2:activityLabel \"retry\""));
    assert!(turtle.contains("powl2:loopMaxIterations 3"));
    assert!(turtle.contains("powl2:routes"));
    assert!(turtle.contains("powl2:precedes"));
}

#[test]
fn manufacture_powl_v2_is_deterministic() {
    let plan = Plan {
        actions: vec![action("a0", "src"), action("a1", "src")],
        precedes: vec![(0, 1)],
        choice_groups: vec![],
    };
    let (_, turtle_a, _) =
        manufacture_powl_v2(&plan, &no_bounds(), "https://example.org/p").expect("ok");
    let (_, turtle_b, _) =
        manufacture_powl_v2(&plan, &no_bounds(), "https://example.org/p").expect("ok");
    assert_eq!(turtle_a, turtle_b);
}

#[test]
fn validate_shape_flags_a_hand_constructed_model_with_an_unbound_cycle() {
    let edges = vec![
        (GNode::Start, GNode::Child(0)),
        (GNode::Start, GNode::Child(1)),
        (GNode::Child(0), GNode::Start),
        (GNode::Child(1), GNode::End),
    ];
    let root = Powl::Choice {
        children: vec![
            Powl::Leaf(Some("x".to_string())),
            Powl::Leaf(Some("y".to_string())),
        ],
        graph: ChoiceGraph { n: 2, edges },
    };
    let closure = root.parent_child_closure();
    let model = POWLModel {
        root,
        closure,
        loop_bounds: vec![],
        source_action_count: 2,
    };
    let err = validate_shape(&model).unwrap_err();
    assert!(matches!(
        err,
        POWLGeometryRefused::UnboundChildBinding {
            state: GeometryState::HierarchyBuilt,
            ..
        }
    ));
}

fn refusal_detail(e: &POWLGeometryRefused) -> String {
    match e {
        POWLGeometryRefused::InventedOrder { detail, .. }
        | POWLGeometryRefused::LostPrecedence { detail, .. }
        | POWLGeometryRefused::FlatOnlyProvenance { detail, .. }
        | POWLGeometryRefused::UnboundChildBinding { detail, .. } => detail.clone(),
    }
}

#[test]
fn refusal_details_name_the_first_offender() {
    let blank = Plan {
        actions: vec![action("a0", "src"), action("a1", "  ")],
        precedes: vec![],
        choice_groups: vec![],
    };
    let e = build_powl_geometry(&blank, &no_bounds()).unwrap_err();
    assert_eq!(
        refusal_detail(&e),
        "action index 1 (\"a1\") has no provenance source; the plan's provenance is flat/undifferentiated, not recursively groupable"
    );

    let lonely = Plan {
        actions: vec![action("a0", "src"), action("a1", "src")],
        precedes: vec![],
        choice_groups: vec![ChoiceGroupSpec { members: vec![0], loop_branches: vec![] }],
    };
    let e = build_powl_geometry(&lonely, &no_bounds()).unwrap_err();
    assert_eq!(
        refusal_detail(&e),
        "choice group 0 has 1 member(s); a choice with < 2 alternatives is not a real decision"
    );

    let self_pair = Plan {
        actions: vec![action("a0", "src"), action("a1", "src")],
        precedes: vec![(1, 1), (0, 5)],
        choice_groups: vec![],
    };
    let e = build_powl_geometry(&self_pair, &no_bounds()).unwrap_err();
    assert_eq!(refusal_detail(&e), "precedes pair (0, 5) references an action index outside 0..2");

    let cycle = Plan {
        actions: vec![action("a0", "src"), action("a1", "src")],
        precedes: vec![(1, 0), (0, 1)],
        choice_groups: vec![],
    };
    let e = build_powl_geometry(&cycle, &no_bounds()).unwrap_err();
    assert_eq!(
        refusal_detail(&e),
        "plan-required order contradicts itself: both (0, 1) and (1, 0) are derivable from the declared precedes relation"
    );

    let e = build_powl_geometry(&two_way_choice_plan(true), &no_bounds()).unwrap_err();
    assert_eq!(
        refusal_detail(&e),
        "choice group 0 (socket socket:/0#Choice) has a cyclic routing graph but no LoopBound was supplied"
    );
}
