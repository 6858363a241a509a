use multifractal_workflow::crown::{air_program_to_bridge_workflow, AirProgram, AirRoutingOutcome, AirStep, AirWorkflow};
use multifractal_workflow::graft::{PlanTape, PlanTapeOp};
use multifractal_workflow::powl::Powl;
use multifractal_workflow::case_text::{
    build_bridge_workflow_from_plan, build_pddl_problem_fragment, evidence_type_for_obligation,
    extract_case_local_name, extract_last_angle_iri, extract_triple_quoted_field,
    project_obligations_to_pddl_init, CaseTextRefused, FieldRefused,
};
use multifractal_workflow::crown::{
    build_reentry_payload, completed_dispatch_token, f16_identity_for_step,
    require_consequence_digest, DispatchStatemOutcome, ExternalF18Refused, ExternalReentryRefused,
};
use multifractal_workflow::crown::{
    dispatch_requests, drive_external_witness_tail_through_f16, BridgeCommand, BridgeTransitionResult,
    ExternalWitnessF16Refused,
};
use multifractal_workflow::crown::{
    compute_reentry_crown_receipt, finish_external_reentry, reentry_observation, SubworkflowDispatchOutcome,
};
use multifractal_workflow::admission::{
    AdmissionLedger, AdmissionPolicy, ObservationAdmissionRefused, RdfTerm, ShapeReport, Triple,
    PROV_WAS_DERIVED_FROM,
};

#[test]
fn f16_identity_is_derived_from_the_receipt_and_the_step() {
    let r = f16_identity_for_step("abc", "s1");
    assert_eq!(r.workflow_id, "crown-ext-f16-abc");
    assert_eq!(r.correlation_id, "crown-ext-f16-corr-abc-s1");
    assert_eq!(r.replay_id, "crown-ext-f16-replay-abc");
    assert_eq!(r.source_digest, "abc");
    assert_eq!(r.receipt_head, "abc");
    assert_eq!(r.bind_name, "s1_done");
    assert!(r.bind_value);
}

#[test]
fn refused_dispatch_has_no_token_to_actuate() {
    let done = DispatchStatemOutcome::Completed {
        dispatch_token: "tok".to_string(),
    };
    assert_eq!(completed_dispatch_token("s", &done), Ok("tok"));
    let refused = DispatchStatemOutcome::Refused {
        refusal_atom: "no_standing".to_string(),
    };
    assert_eq!(
        completed_dispatch_token("s", &refused),
        Err(ExternalF18Refused::F16DispatchNotCompleted {
            step_id: "s".to_string(),
            refusal_atom: "no_standing".to_string()
        })
    );
}

#[test]
fn missing_consequence_digest_is_refused() {
    assert_eq!(
        require_consequence_digest("d1", &Some("h".to_string())),
        Ok("h".to_string())
    );
    assert_eq!(
        require_consequence_digest("d1", &None),
        Err(ExternalReentryRefused::MissingConsequenceDigest {
            dispatch_id: "d1".to_string()
        })
    );
}

#[test]
fn reentry_payload_embeds_the_consequence_and_refuses_triple_quotes() {
    let p = build_reentry_payload("urn:s", "urn:p", "d1", "h1", "<a> <b> <c> .").unwrap();
    assert_eq!(
        p,
        "<urn:s> <http://www.w3.org/ns/prov#wasDerivedFrom> <urn:p> ;\n  <urn:mfw:f20#dispatchId> \"d1\" ;\n  <urn:mfw:f20#consequenceDigest> \"h1\" ;\n  <urn:mfw:f20#consequenceTurtle> \"\"\"<a> <b> <c> .\"\"\" .\n"
    );
    let err = build_reentry_payload("urn:s", "urn:p", "d1", "h1", "x \"\"\" y").unwrap_err();
    assert_eq!(
        err,
        ExternalReentryRefused::ConsequenceTurtleUnsafeForEmbedding {
            dispatch_id: "d1".to_string()
        }
    );
}

#[test]
fn triple_quoted_field_is_read_after_its_predicate() {
    let text = "<urn:a> <urn:p> \"\"\"first\nline\"\"\" ; <urn:q> \"\"\"second\"\"\" .";
    assert_eq!(
        extract_triple_quoted_field(text, "urn:q"),
        Ok("second".to_string())
    );
    assert_eq!(
        extract_triple_quoted_field(text, "urn:p"),
        Ok("first\nline".to_string())
    );
    assert_eq!(
        extract_triple_quoted_field(text, "urn:missing"),
        Err(FieldRefused::PredicateMissing)
    );
    assert_eq!(
        extract_triple_quoted_field("<urn:p> \"plain\"", "urn:p"),
        Err(FieldRefused::LiteralMissing)
    );
    assert_eq!(
        extract_triple_quoted_field("<urn:p> \"\"\"open", "urn:p"),
        Err(FieldRefused::LiteralUnclosed)
    );
}

#[test]
fn case_local_name_is_the_lowercased_identifier() {
    let ttl = "ex:case a ex:Case ;\n  dcterms:identifier \"BRB-2026-0417\" .";
    assert_eq!(
        extract_case_local_name(ttl),
        Ok("case-brb-2026-0417".to_string())
    );
    assert_eq!(
        extract_case_local_name("nothing here"),
        Err(CaseTextRefused::IdentifierMissing)
    );
    assert_eq!(
        extract_case_local_name("dcterms:identifier \"open"),
        Err(CaseTextRefused::IdentifierUnclosed)
    );
}

#[test]
fn last_angle_iri_is_the_object_of_a_dump_line() {
    assert_eq!(
        extract_last_angle_iri("<urn:s> <urn:p> <urn:o>."),
        Some("urn:o".to_string())
    );
    assert_eq!(extract_last_angle_iri("<urn:open"), Some("urn:open".to_string()));
    assert_eq!(extract_last_angle_iri("no brackets"), None);
}

fn catalog() -> Vec<(Option<String>, Option<String>)> {
    vec![
        (None, Some("urn:x#ignored".to_string())),
        (
            Some("https://e.org/sc#ob-gift-register".to_string()),
            Some("https://e.org/sc#register-entry".to_string()),
        ),
        (
            Some("https://e.org/sc#ob-approval".to_string()),
            Some("https://e.org/sc#signed-approval".to_string()),
        ),
    ]
}

#[test]
fn evidence_types_are_read_from_the_catalog() {
    assert_eq!(
        evidence_type_for_obligation(&catalog(), "ob-approval"),
        Ok("signed-approval".to_string())
    );
    assert_eq!(
        evidence_type_for_obligation(&catalog(), "ob-unknown"),
        Err(CaseTextRefused::EvidenceTypeCatalogMissing {
            obligation_local_name: "ob-unknown".to_string()
        })
    );
}

#[test]
fn obligations_project_to_planning_atoms() {
    let derived = vec!["ob-gift-register".to_string(), "ob-approval".to_string()];
    let atoms = project_obligations_to_pddl_init(&catalog(), "case-x", &derived).unwrap();
    assert_eq!(
        atoms,
        vec![
            "(has-obligation case-x ob-gift-register)",
            "(has-obligation case-x ob-approval)",
            "(requires-evidence ob-gift-register register-entry)",
            "(requires-evidence ob-approval signed-approval)",
        ]
    );
    let err = project_obligations_to_pddl_init(&catalog(), "case-x", &vec!["ob-none".to_string()])
        .unwrap_err();
    assert!(matches!(err, CaseTextRefused::EvidenceTypeCatalogMissing { .. }));
}

#[test]
fn problem_fragment_lists_objects_and_init_atoms() {
    let out = build_pddl_problem_fragment(
        "case-x",
        &vec!["ob-a".to_string()],
        &vec!["ev-a".to_string()],
        &vec!["(has-obligation case-x ob-a)".to_string()],
    );
    assert!(out.starts_with("@prefix pddl: <http://seanchatmangpt.github.io/praxis/pddl#> .\n\n<urn:mfw:crown-bribery-case:problem:case-x>\n    a pddl:Problem ;\n"));
    assert!(out.contains("    pddl:object [ pddl:name \"case-x\" ; pddl:ofType \"law-object\" ] ,\n               [ pddl:name \"ob-a\" ; pddl:ofType \"obligation\" ] ,\n               [ pddl:name \"ev-a\" ; pddl:ofType \"evidence-type\" ]"));
    assert!(out.contains("    pddl:init \"(in-stage case-x raw)\" ,\n             \"(has-obligation case-x ob-a)\" ,\n             \"(prev-chain-valid tok-genesis-case-x)\" ;\n"));
    assert!(out.ends_with("    pddl:goal \"(in-stage case-x receipted)\" .\n"));
}

#[test]
fn bridge_workflow_chains_the_plan_steps() {
    let (w, root) = build_bridge_workflow_from_plan(&vec!["open".to_string(), "close".to_string()]).unwrap();
    assert_eq!(root, "00-open");
    assert_eq!(w.steps.len(), 2);
    assert_eq!(w.steps[0].0, "00-open");
    assert_eq!(w.steps[0].1.next, vec!["01-close".to_string()]);
    assert!(w.steps[1].1.next.is_empty());
    assert_eq!(
        build_bridge_workflow_from_plan(&vec![]),
        Err(CaseTextRefused::EmptyPlanForBridgeWorkflow)
    );
}

fn fold(mut lines: Vec<String>) -> String {
    lines.sort();
    let mut bytes = Vec::new();
    for l in &lines {
        bytes.extend_from_slice(l.as_bytes());
        bytes.push(b'\n');
    }
    blake3::hash(&bytes).to_hex().to_string()
}

#[test]
fn reentry_crown_receipt_folds_sorted_lines() {
    let got = multifractal_workflow::crown::compute_reentry_crown_receipt("d1", "h1", 3, "r1");
    let want = fold(vec![
        "f20.dispatch_id=d1".to_string(),
        "f20.consequence_digest=h1".to_string(),
        "f20.polls_taken=3".to_string(),
        "f02_readmit.receipt=r1".to_string(),
    ]);
    assert_eq!(got, want);
}

#[test]
fn external_crown_receipt_folds_sorted_lines() {
    let got = multifractal_workflow::crown::compute_external_crown_receipt(
        true,
        "s",
        "a",
        "x",
        "y",
        &vec!["step-1".to_string(), "step-2".to_string()],
    );
    let want = fold(vec![
        "f12.cut_is_external=true".to_string(),
        "f13.source_powl_digest=s".to_string(),
        "f13.arazzo_digest=a".to_string(),
        "f13.air_digest=x".to_string(),
        "f14.recompiled_air_digest=y".to_string(),
        "f15.bridge_steps=step-1,step-2".to_string(),
    ]);
    assert_eq!(got, want);
}

#[test]
fn local_crown_receipt_signs_the_tape() {
    let tape = PlanTape {
        ops: vec![
            PlanTapeOp { index: 0, label: "a".to_string(), pred_mask: 0 },
            PlanTapeOp { index: 1, label: "b".to_string(), pred_mask: 1 },
        ],
    };
    assert_eq!(multifractal_workflow::crown::tape_sig(&tape), "0:a:0|1:b:1");
    let got = multifractal_workflow::crown::compute_crown_receipt(
        "r02", "h03", &tape, "d09", 4, 6, 120, "r18", "r19",
    );
    let want = fold(vec![
        "f02.receipt=r02".to_string(),
        "f03.receipt_head=h03".to_string(),
        "f08.tape=0:a:0|1:b:1".to_string(),
        "f09.descent=d09".to_string(),
        "f10.shape=leaves:4,bindings:6".to_string(),
        "f10.geometry_turtle_len=120".to_string(),
        "f18.receipt_hash=r18".to_string(),
        "f19.receipt_hash=r19".to_string(),
    ]);
    assert_eq!(got, want);
}

#[test]
fn geometry_is_wrapped_as_an_external_region_after_local_intake() {
    let wrapped = multifractal_workflow::crown::wrap_geometry_as_external_region(&Powl::Leaf(Some("x".to_string())));
    let Powl::PartialOrder { children, order } = wrapped else {
        panic!("partial order");
    };
    assert_eq!(order, vec![(0, 1)]);
    assert!(matches!(&children[0], Powl::Leaf(Some(l)) if l == "local_intake"));
    assert!(matches!(&children[1], Powl::ExternalCut { projection, renderer, .. }
        if projection == "SELECT * WHERE { ?s ?p ?o }" && renderer == "arazzo_projection.tera"));
}

#[test]
fn converter_extracts_goto_step_edges_from_an_air_program() {
    let program = AirProgram {
        workflows: vec![AirWorkflow {
            steps: vec![
                AirStep {
                    name: "first".to_string(),
                    on_success: vec![AirRoutingOutcome::GotoStep("second".to_string())],
                },
                AirStep {
                    name: "second".to_string(),
                    on_success: vec![AirRoutingOutcome::End],
                },
            ],
        }],
    };
    let (workflow, active) = air_program_to_bridge_workflow(&program);
    assert_eq!(active, vec!["first".to_string()]);
    assert_eq!(workflow.steps.len(), 2);
    assert_eq!(workflow.steps[0].0, "first");
    assert_eq!(workflow.steps[0].1.next, vec!["second".to_string()]);
    assert_eq!(workflow.steps[1].0, "second");
    assert!(workflow.steps[1].1.next.is_empty());
}

fn two_command_transition() -> BridgeTransitionResult {
    BridgeTransitionResult {
        ready_steps: vec!["a".to_string(), "b".to_string()],
        commands: vec![
            BridgeCommand { step_id: "a".to_string() },
            BridgeCommand { step_id: "b".to_string() },
        ],
    }
}

#[test]
fn f16_tail_dispatches_every_command_in_order() {
    let t = two_command_transition();
    let reqs = dispatch_requests(&t, "r0");
    assert_eq!(reqs.len(), 2);
    assert_eq!(reqs[0].step_id, "a");
    assert_eq!(reqs[1].correlation_id, "crown-ext-f16-corr-r0-b");
    let replies = vec![
        Ok(DispatchStatemOutcome::Completed { dispatch_token: "t1".to_string() }),
        Ok(DispatchStatemOutcome::Refused { refusal_atom: "busy".to_string() }),
    ];
    let out = drive_external_witness_tail_through_f16(Ok(t.clone()), replies).unwrap();
    assert_eq!(out.transition, t);
    assert_eq!(out.dispatch_outcomes.len(), 2);
    assert_eq!(out.dispatch_outcomes[0].0, "a");
    assert_eq!(out.dispatch_outcomes[1].0, "b");
    assert_eq!(
        out.dispatch_outcomes[1].1,
        DispatchStatemOutcome::Refused { refusal_atom: "busy".to_string() }
    );
}

#[test]
fn f16_tail_names_the_first_refused_dispatch() {
    let replies = vec![
        Ok(DispatchStatemOutcome::Completed { dispatch_token: "t1".to_string() }),
        Err("bridge down".to_string()),
    ];
    let err = drive_external_witness_tail_through_f16(Ok(two_command_transition()), replies).unwrap_err();
    assert_eq!(
        err,
        ExternalWitnessF16Refused::DispatchStatem { step_id: "b".to_string(), source: "bridge down".to_string() }
    );
    let err2 = drive_external_witness_tail_through_f16(Err("no core".to_string()), vec![]).unwrap_err();
    assert_eq!(err2, ExternalWitnessF16Refused::AirTransition("no core".to_string()));
}

fn collected(admitted: bool, turtle: Option<&str>, digest: Option<&str>) -> SubworkflowDispatchOutcome {
    SubworkflowDispatchOutcome {
        dispatch_id: "d1".to_string(),
        admitted,
        consequence_turtle: turtle.map(str::to_string),
        consequence_digest: digest.map(str::to_string),
        polls_taken: 3,
    }
}

#[test]
fn reentry_observation_refuses_each_missing_piece() {
    let base = "https://example.org";
    let err = reentry_observation(&collected(false, Some("x"), Some("h")), base, "p", "s", "c").unwrap_err();
    assert_eq!(err, ExternalReentryRefused::NotAdmittedByDispatchPipeline { dispatch_id: "d1".to_string() });
    let err = reentry_observation(&collected(true, None, Some("h")), base, "p", "s", "c").unwrap_err();
    assert_eq!(err, ExternalReentryRefused::NoConsequenceFound { dispatch_id: "d1".to_string() });
    let err = reentry_observation(&collected(true, Some("x"), None), base, "p", "s", "c").unwrap_err();
    assert_eq!(err, ExternalReentryRefused::MissingConsequenceDigest { dispatch_id: "d1".to_string() });
    let err = reentry_observation(&collected(true, Some("a\"\"\"b"), Some("h")), base, "p", "s", "c").unwrap_err();
    assert_eq!(err, ExternalReentryRefused::ConsequenceTurtleUnsafeForEmbedding { dispatch_id: "d1".to_string() });
}

#[test]
fn reentry_observation_embeds_the_consequence() {
    let (obs, digest) =
        reentry_observation(&collected(true, Some("<a> <b> <c> ."), Some("h")), "https://example.org", "urn:p", "src", "corr")
            .unwrap();
    assert_eq!(digest, "h");
    assert_eq!(obs.correlation_id, "corr");
    assert_eq!(obs.source_id, "src");
    assert_eq!(obs.declared_subject, "https://example.org/external-dispatch/d1");
    assert_eq!(
        obs.payload_turtle,
        build_reentry_payload("https://example.org/external-dispatch/d1", "urn:p", "d1", "h", "<a> <b> <c> .").unwrap()
    );
}

#[test]
fn finished_reentry_signs_the_admission() {
    let policy = AdmissionPolicy {
        known_principals: vec![("src".to_string(), "urn:p".to_string())],
        authorized_predicates: vec![("src".to_string(), vec!["urn:mfw:f20#dispatchId".to_string()])],
        allowed_vocabulary_prefixes: vec!["urn:mfw:f20#".to_string()],
        allowed_subject_schemes: vec!["https://".to_string()],
    };
    let dispatch = collected(true, Some("<a> <b> <c> ."), Some("h"));
    let (obs, digest) = reentry_observation(&dispatch, "https://example.org", "urn:p", "src", "corr").unwrap();
    let subject = RdfTerm::Iri(obs.declared_subject.clone());
    let parsed = vec![
        Triple { s: subject.clone(), p: RdfTerm::Iri(PROV_WAS_DERIVED_FROM.to_string()), o: RdfTerm::Iri("urn:p".to_string()) },
        Triple { s: subject, p: RdfTerm::Iri("urn:mfw:f20#dispatchId".to_string()), o: RdfTerm::Other("\"d1\"".to_string()) },
    ];
    let shape = ShapeReport { conforms: true, violation_count: 0 };
    let mut ledger = AdmissionLedger::new();
    let out = finish_external_reentry(&policy, &mut ledger, dispatch.clone(), obs.clone(), digest.clone(), Ok(parsed), shape)
        .unwrap();
    assert_eq!(out.dispatch_outcome, dispatch);
    assert_eq!(out.reentry_admission.correlation_id, "corr");
    assert_eq!(
        out.crown_receipt,
        compute_reentry_crown_receipt("d1", "h", 3, out.reentry_admission.receipt_hash.as_str())
    );
    assert_eq!(ledger.len().unwrap(), 1);

    let err = finish_external_reentry(&policy, &mut ledger, dispatch, obs, digest, Err("bad".to_string()), shape)
        .unwrap_err();
    assert!(matches!(
        err,
        ExternalReentryRefused::ReentryAdmission(ObservationAdmissionRefused::MalformedPayload { .. })
    ));
    assert_eq!(ledger.len().unwrap(), 1);
}

#[test]
fn crown_receipt_ignores_line_order() {
    let a = vec!["f02.x=1".to_string(), "f01.y=2".to_string(), "f03.z=3".to_string()];
    let b = vec!["f03.z=3".to_string(), "f02.x=1".to_string(), "f01.y=2".to_string()];
    let ra = multifractal_workflow::crown::fold_receipt_lines(&a);
    assert_eq!(ra, multifractal_workflow::crown::fold_receipt_lines(&b));
    assert_eq!(ra.len(), 64);
    let c = vec!["f01.y=2".to_string(), "f02.x=1".to_string()];
    assert_ne!(ra, multifractal_workflow::crown::fold_receipt_lines(&c));
}

#[test]
fn planning_payload_carries_the_three_planning_literals() {
    let p = multifractal_workflow::crown::build_planning_payload("urn:s", "urn:p", "D", "P", "H");
    assert_eq!(
        p,
        "<urn:s> <http://www.w3.org/ns/prov#wasDerivedFrom> <urn:p> ;\n  \
         <urn:chatman:engine#pddlDomain> \"\"\"D\"\"\" ;\n  \
         <urn:chatman:engine#pddlProblem> \"\"\"P\"\"\" ;\n  \
         <urn:mfw:f08#hookPack> \"\"\"H\"\"\" .\n"
    );
}
