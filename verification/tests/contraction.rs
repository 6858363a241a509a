use multifractal_workflow::contraction::{
    canonical_digest, decide_admissibility, project_residue, publish_planning_state,
    require_transition, transitions, ContractionState, SemanticWorldRefused, ShapeOutcome,
};
use multifractal_workflow::growth::{MFWGrowthRefused, DescentMeter};
use multifractal_workflow::runtime::{
    pending_candidates, state_after, BCINRLocalExecutionRefused, BCINRLocalState,
};

#[test]
fn decide_admissibility_refuses_a_nonconformant_graph_with_a_typed_refusal() {
    let bad = ShapeOutcome {
        shacl_conforms: false,
        shacl_violations: 1,
        shex: Some((false, 2)),
        digest: vec![1, 2],
    };
    assert_eq!(
        decide_admissibility(&bad),
        Err(SemanticWorldRefused::ShapeNonconformant {
            shacl_violations: 1,
            shex_failures: 2
        })
    );
    let shex_only = ShapeOutcome {
        shacl_conforms: true,
        shacl_violations: 0,
        shex: Some((false, 3)),
        digest: vec![],
    };
    assert!(decide_admissibility(&shex_only).is_err());
    let good = ShapeOutcome {
        shacl_conforms: true,
        shacl_violations: 0,
        shex: None,
        digest: vec![9, 9],
    };
    assert_eq!(decide_admissibility(&good).unwrap().digest, vec![9, 9]);
}

#[test]
fn planning_state_is_plannable_and_headed_by_the_residue_digest() {
    let residue = project_residue(
        &vec!["<urn:p>".to_string()],
        &vec!["<urn:s> <urn:p> <urn:o>".to_string()],
        &vec!["urn:p".to_string(), "urn:q".to_string()],
    );
    assert_eq!(residue.diff.stripped, vec!["urn:p".to_string()]);
    assert_eq!(residue.diff.remaining, vec!["urn:q".to_string()]);
    let expected = blake3::hash(b"f03-semantic-contraction/v1/residue-graph\x00<urn:s> <urn:p> <urn:o>\n");
    assert_eq!(residue.digest, expected.as_bytes().to_vec());
    let admission = decide_admissibility(&ShapeOutcome {
        shacl_conforms: true,
        shacl_violations: 0,
        shex: None,
        digest: vec![],
    })
    .unwrap();
    let state = publish_planning_state(residue.clone(), &admission);
    assert_eq!(state.state, ContractionState::Plannable);
    assert_eq!(state.receipt_head, residue.digest);
}

#[test]
fn stage_digests_are_domain_tagged() {
    let lines = vec!["<a> <b> <c>".to_string()];
    assert_ne!(canonical_digest("typed-graph", &lines), canonical_digest("residue-graph", &lines));
}

#[test]
fn illegal_transitions_are_refused_by_name() {
    assert_eq!(require_transition(ContractionState::Typed, ContractionState::Closed), Ok(()));
    assert_eq!(
        require_transition(ContractionState::Typed, ContractionState::Plannable),
        Err(SemanticWorldRefused::IllegalStateTransition {
            from: "TYPED",
            to: "PLANNABLE"
        })
    );
    assert_eq!(transitions().len(), 8);
}

#[test]
fn growth_refusals_render_their_offender() {
    let e = MFWGrowthRefused::DescentBudgetExhausted { budget: 2, depth: 2 };
    assert_eq!(e.variant_name(), "DescentBudgetExhausted");
    assert_eq!(
        e.to_string(),
        "descent budget 2 exhausted at depth 2; unbounded descent is refused"
    );
    let g = MFWGrowthRefused::GraftRefused {
        socket: "socket:/#PartialOrder".to_string(),
        reason: "nope".to_string(),
    };
    assert_eq!(
        g.to_string(),
        "cannot graft a child at socket socket:/#PartialOrder: nope"
    );
    let meter = DescentMeter::new(3);
    assert_eq!(meter.budget(), 3);
    assert_eq!(meter.depth(), 0);
}

#[test]
fn tick_helpers_follow_the_masks() {
    assert_eq!(pending_candidates(0b1011, 0b0011), 0b1000);
    assert_eq!(state_after(&Ok(BCINRLocalState::DependenciesReady)), BCINRLocalState::DependenciesReady);
    assert_eq!(
        state_after(&Err(BCINRLocalExecutionRefused::ExternalSocketDetectionNotImplemented)),
        BCINRLocalState::Refused
    );
}

#[test]
fn stage3_crown_receipt_folds_sorted_lines() {
    let got = multifractal_workflow::crown::compute_stage3_crown_receipt(
        "t", "b", "d", "c", "r", "h", "x", "y",
    );
    let mut lines = vec![
        "f16.dispatch_token=t",
        "f18.receipt_hash=b",
        "f20_direct.dispatch_id=d",
        "f20_direct.consequence_digest=c",
        "f02_readmit.receipt_hash=r",
        "f24.receipt_head=h",
        "f25.receipt_root=x",
        "f25.replayed_receipt_root=y",
    ];
    lines.sort();
    let mut bytes = Vec::new();
    for l in lines {
        bytes.extend_from_slice(l.as_bytes());
        bytes.push(b'\n');
    }
    assert_eq!(got, blake3::hash(&bytes).to_hex().to_string());
}
