use multifractal_workflow::graft::{
    graft_child, manufacture_and_bind_child, manufacture_child_powl, pddl_tape_to_f10_plan,
    plan_growth, semantic_closure_check, PlanTape, PlanTapeOp,
};
use multifractal_workflow::growth::{DescentMeter, DescentReceipt, MFWGrowthRefused};
use multifractal_workflow::powl::{Powl, SocketKind, SocketPath, WorkflowSocketId};

fn root_partial_order_over(n: usize) -> Powl {
    let children = (0..n)
        .map(|i| Powl::Leaf(Some(format!("leaf-{i}"))))
        .collect();
    Powl::PartialOrder {
        children,
        order: vec![],
    }
}

fn root_socket() -> WorkflowSocketId {
    WorkflowSocketId {
        path: SocketPath::root(),
        kind: SocketKind::PartialOrder,
    }
}

/// The one-op tape a one-hop move plan projects to.
fn one_move_tape() -> PlanTape {
    PlanTape {
        ops: vec![PlanTapeOp {
            index: 0,
            label: "move l0 l1".to_string(),
            pred_mask: 0,
        }],
    }
}

#[test]
fn descent_receipt_digest_is_deterministic() {
    let mut m1 = DescentMeter::new(3);
    m1.descend().expect("descend");
    let mut m2 = DescentMeter::new(3);
    m2.descend().expect("descend");
    let r1 = DescentReceipt::seal(root_socket(), &m1);
    let r2 = DescentReceipt::seal(root_socket(), &m2);
    assert_eq!(r1.digest, r2.digest, "same inputs must yield the same digest");
    assert_eq!(r1.digest.len(), 64, "blake3 hex digest is 64 lowercase hex chars");
    assert!(r1.digest.chars().all(|c| c.is_ascii_hexdigit()));
}

#[test]
fn descent_receipt_digest_changes_with_depth() {
    let mut meter = DescentMeter::new(3);
    let r0 = DescentReceipt::seal(root_socket(), &meter);
    meter.descend().expect("descend");
    let r1 = DescentReceipt::seal(root_socket(), &meter);
    assert_ne!(r0.digest, r1.digest, "digest must depend on depth");
}

#[test]
fn descent_receipt_digest_is_the_length_prefixed_combination() {
    let meter = DescentMeter::new(3);
    let r = DescentReceipt::seal(root_socket(), &meter);
    let parts = ["mfw:descent-receipt:v1", "socket:/#PartialOrder", "3", "0"];
    let mut combined = String::new();
    for p in parts {
        combined.push_str(&format!("{:016x}:", p.len()));
        combined.push_str(p);
    }
    assert_eq!(r.digest, blake3::hash(combined.as_bytes()).to_hex().to_string());
    assert_eq!(r.budget, 3);
    assert_eq!(r.depth_reached, 0);
}

#[test]
fn socket_address_names_path_and_kind() {
    let s = WorkflowSocketId {
        path: SocketPath::root().child(2).child(10),
        kind: SocketKind::Choice,
    };
    assert_eq!(s.to_string(), "socket:/2/10#Choice");
    assert_eq!(root_socket().to_string(), "socket:/#PartialOrder");
}

#[test]
fn manufacture_and_bind_child_refuses_an_empty_plan_tape() {
    let root = root_partial_order_over(2);
    let err = manufacture_and_bind_child(&root, &root_socket(), &PlanTape { ops: Vec::new() })
        .expect_err("empty tape must refuse, never manufacture a placeholder child");
    assert!(matches!(err, MFWGrowthRefused::EmptyPlanTape { .. }));
}

#[test]
fn manufacture_and_bind_child_refuses_an_unresolvable_socket() {
    let socket = WorkflowSocketId {
        path: SocketPath::root().child(99),
        kind: SocketKind::Leaf,
    };
    let root = root_partial_order_over(2);
    let err = manufacture_and_bind_child(&root, &socket, &one_move_tape())
        .expect_err("a socket path that doesn't resolve must refuse, not silently graft");
    assert!(matches!(err, MFWGrowthRefused::GraftRefused { .. }));
}

#[test]
fn manufacture_and_bind_child_is_deterministic() {
    let root = root_partial_order_over(2);
    let a = manufacture_and_bind_child(&root, &root_socket(), &one_move_tape()).expect("grafts");
    let b = manufacture_and_bind_child(&root, &root_socket(), &one_move_tape()).expect("grafts");
    assert_eq!(
        format!("{:?}", a.new_root),
        format!("{:?}", b.new_root),
        "same plan tape grafted onto the same root must produce the same tree"
    );
}

#[test]
fn manufacture_and_bind_child_populates_the_real_f10_geometry_projection() {
    let root = root_partial_order_over(2);
    let tape = one_move_tape();
    let outcome = manufacture_and_bind_child(&root, &root_socket(), &tape)
        .expect("a one-op plan tape passes the geometry gate and grafts");
    assert_eq!(outcome.geometry_shape.leaves, tape.ops.len());
    assert_eq!(outcome.geometry.source_action_count, tape.ops.len());
    assert!(outcome.geometry_turtle.contains("a powl2:Model"));
    assert!(outcome
        .geometry_turtle
        .contains(&format!("powl2:activityLabel \"{}\"", tape.ops[0].label)));
    assert_eq!(outcome.child_socket.path.segments, vec![2]);
    assert_eq!(outcome.child_socket.kind, SocketKind::PartialOrder);
    let Powl::PartialOrder { children, .. } = &outcome.new_root else {
        panic!("root stays a partial order");
    };
    assert_eq!(children.len(), 3);
}

#[test]
fn manufacture_and_bind_child_refuses_a_tape_with_self_referential_pred_mask() {
    let tape = PlanTape {
        ops: vec![PlanTapeOp {
            index: 0,
            label: "self-loop".to_string(),
            pred_mask: 1,
        }],
    };
    let root = root_partial_order_over(2);
    let err = manufacture_and_bind_child(&root, &root_socket(), &tape)
        .expect_err("a self-referential pred_mask must be refused by the geometry gate");
    assert!(matches!(err, MFWGrowthRefused::GraftRefused { .. }));
    let msg = err.to_string();
    assert!(
        msg.contains("F10 POWL geometry pipeline rejected"),
        "refusal must be attributable to the geometry gate, not a generic graft failure: {msg}"
    );
}

#[test]
fn manufacture_child_powl_builds_a_total_order() {
    let tape = PlanTape {
        ops: vec![
            PlanTapeOp { index: 0, label: "a".to_string(), pred_mask: 0 },
            PlanTapeOp { index: 1, label: "b".to_string(), pred_mask: 1 },
            PlanTapeOp { index: 2, label: "c".to_string(), pred_mask: 2 },
        ],
    };
    let child = manufacture_child_powl(&root_socket(), &tape).expect("non-empty");
    let Powl::PartialOrder { children, order } = child else {
        panic!("a total order");
    };
    assert_eq!(children.len(), 3);
    assert_eq!(order, vec![(0, 1), (1, 2)]);
}

#[test]
fn tape_plan_decodes_every_predecessor_bit() {
    let tape = PlanTape {
        ops: vec![
            PlanTapeOp { index: 0, label: "a".to_string(), pred_mask: 0 },
            PlanTapeOp { index: 1, label: "b".to_string(), pred_mask: 1 },
            PlanTapeOp { index: 2, label: "c".to_string(), pred_mask: 0b11 },
        ],
    };
    let plan = pddl_tape_to_f10_plan(&root_socket(), &tape);
    assert_eq!(plan.actions.len(), 3);
    assert_eq!(plan.actions[2].id, "c");
    assert_eq!(plan.actions[0].source, "socket:/#PartialOrder");
    let mut pairs = plan.precedes.clone();
    pairs.sort();
    assert_eq!(pairs, vec![(0, 1), (0, 2), (1, 2)]);
    assert!(plan.choice_groups.is_empty());
}

#[test]
fn graft_child_descends_and_refuses_non_partial_orders() {
    let root = Powl::PartialOrder {
        children: vec![root_partial_order_over(1), Powl::Leaf(None)],
        order: vec![(0, 1)],
    };
    let at = WorkflowSocketId {
        path: SocketPath::root().child(0),
        kind: SocketKind::PartialOrder,
    };
    let grafted = graft_child(&root, &at, Powl::Leaf(Some("new".to_string()))).expect("grafts");
    let Powl::PartialOrder { children, order } = &grafted else {
        panic!("root kept");
    };
    assert_eq!(order, &vec![(0, 1)]);
    let Powl::PartialOrder { children: inner, .. } = &children[0] else {
        panic!("target kept");
    };
    assert_eq!(inner.len(), 2);
    let leaf = WorkflowSocketId {
        path: SocketPath::root().child(1),
        kind: SocketKind::Leaf,
    };
    let err = graft_child(&root, &leaf, Powl::Leaf(None)).unwrap_err();
    assert!(matches!(err, MFWGrowthRefused::GraftRefused { ref socket, .. } if socket == "socket:/1#Leaf"));
}

#[test]
fn semantic_closure_check_passes_on_open_socket() {
    assert_eq!(semantic_closure_check(&root_socket(), "all_required", Ok(false)), Ok(()));
}

#[test]
fn semantic_closure_check_refuses_already_closed_truth() {
    assert_eq!(
        semantic_closure_check(&root_socket(), "all_required", Ok(true)),
        Err(MFWGrowthRefused::ClosureAlreadySatisfied {
            socket: root_socket().to_string(),
            law: "all_required",
        })
    );
    assert_eq!(
        semantic_closure_check(&root_socket(), "all_required", Err("cannot evaluate".to_string())),
        Err(MFWGrowthRefused::ClosureCheckFailed("cannot evaluate".to_string()))
    );
}

#[test]
fn plan_growth_refuses_unblocked_socket() {
    let mut meter = DescentMeter::new(4);
    assert_eq!(
        plan_growth(false, &root_socket(), "all_required", Ok(false), Ok(one_move_tape()), &mut meter).unwrap_err(),
        MFWGrowthRefused::SocketNotBlocked {
            socket: root_socket().to_string(),
        }
    );
}

#[test]
fn plan_growth_refuses_already_closed_truth() {
    let mut meter = DescentMeter::new(4);
    assert_eq!(
        plan_growth(true, &root_socket(), "all_required", Ok(true), Ok(one_move_tape()), &mut meter).unwrap_err(),
        MFWGrowthRefused::ClosureAlreadySatisfied {
            socket: root_socket().to_string(),
            law: "all_required",
        }
    );
}

#[test]
fn plan_growth_refuses_unreachable_goal() {
    let mut meter = DescentMeter::new(4);
    let result = plan_growth(
        true,
        &root_socket(),
        "all_required",
        Ok(false),
        Err("no plan within the depth bound".to_string()),
        &mut meter,
    );
    assert!(
        matches!(result, Err(MFWGrowthRefused::GoalUnreachable { .. })),
        "expected GoalUnreachable, got {result:?}"
    );
    assert_eq!(meter.depth(), 0, "descent must not advance on an unreachable goal");
}

#[test]
fn plan_growth_refuses_exhausted_descent_budget() {
    let mut meter = DescentMeter::new(0);
    assert_eq!(
        plan_growth(true, &root_socket(), "all_required", Ok(false), Ok(one_move_tape()), &mut meter).unwrap_err(),
        MFWGrowthRefused::DescentBudgetExhausted { budget: 0, depth: 0 }
    );
}

#[test]
fn plan_growth_succeeds_through_every_real_gate() {
    let mut meter = DescentMeter::new(4);
    let plan = plan_growth(true, &root_socket(), "all_required", Ok(false), Ok(one_move_tape()), &mut meter)
        .expect("all real gates pass");
    assert_eq!(plan.parent_socket, root_socket());
    assert_eq!(plan.plan_tape.ops.len(), 1, "one-hop plan is a single move");
    assert_eq!(plan.descent_receipt.depth_reached, 1);
    assert_eq!(plan.descent_receipt.budget, 4);
    assert_eq!(meter.depth(), 1, "meter itself must reflect the real descent");
    let mut sealed_meter = DescentMeter::new(4);
    sealed_meter.descend().unwrap();
    assert_eq!(plan.descent_receipt.digest, DescentReceipt::seal(root_socket(), &sealed_meter).digest);

    let root = root_partial_order_over(2);
    let outcome = manufacture_and_bind_child(&root, &plan.parent_socket, &plan.plan_tape)
        .expect("a one-op plan tape grafts a real child under the root PartialOrder");
    assert!(matches!(outcome.new_root, Powl::PartialOrder { .. }));
    if let Powl::PartialOrder { children, .. } = &outcome.new_root {
        assert_eq!(children.len(), 3, "2 existing leaves + 1 manufactured child");
        assert!(matches!(children[2], Powl::PartialOrder { .. }));
    }
}

#[test]
fn graft_refusals_say_where_the_path_goes_wrong() {
    let root = Powl::PartialOrder {
        children: vec![Powl::Leaf(None)],
        order: vec![],
    };
    let reason_at = |segments: Vec<usize>| match graft_child(
        &root,
        &WorkflowSocketId { path: SocketPath { segments }, kind: SocketKind::PartialOrder },
        Powl::Leaf(None),
    ) {
        Err(MFWGrowthRefused::GraftRefused { reason, .. }) => reason,
        other => panic!("expected a graft refusal, got {other:?}"),
    };
    assert_eq!(reason_at(vec![0]), "target is a Leaf, not a PartialOrder");
    assert_eq!(reason_at(vec![5]), "child index 5 out of range");
    assert_eq!(reason_at(vec![0, 1]), "path descends past a Leaf");
}
