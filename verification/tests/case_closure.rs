use multifractal_workflow::case_closure::{build_case_closure_turtle, Stage3ClosureSummary};

const HEADER: &str = "@prefix prov: <http://www.w3.org/ns/prov#> .\n\
@prefix skos: <http://www.w3.org/2004/02/skos/core#> .\n\
@prefix sc: <https://cases.solvane-global.example.org/vocab#> .\n\
@prefix cls: <urn:mfw:crown-bribery-case:closure#> .\n\n\
cls:CaseLifecycle a skos:ConceptScheme .\n\n\
cls:raw a skos:Concept ; skos:inScheme cls:CaseLifecycle ; skos:prefLabel \"raw\" .\n\
cls:validated a skos:Concept ; skos:inScheme cls:CaseLifecycle ; skos:prefLabel \"validated\" ; skos:broader cls:raw .\n\
cls:admitted a skos:Concept ; skos:inScheme cls:CaseLifecycle ; skos:prefLabel \"admitted\" ; skos:broader cls:validated .\n\
cls:receipted a skos:Concept ; skos:inScheme cls:CaseLifecycle ; skos:prefLabel \"receipted\" ; skos:broader cls:admitted .\n\
cls:blocked a skos:Concept ; skos:inScheme cls:CaseLifecycle ; skos:prefLabel \"blocked\" ; skos:broader cls:admitted .\n\n";

fn summary() -> Stage3ClosureSummary {
    Stage3ClosureSummary {
        f16_dispatch_step_id: "s01".to_string(),
        f16_dispatch_token: "tok".to_string(),
        f18_broker_receipt_hash: "brh".to_string(),
        f18_consequence_hash: "ch".to_string(),
        f20_direct_dispatch_id: "dd".to_string(),
        f20_direct_consequence_digest: "dcd".to_string(),
        f20_readmit_dispatch_id: "rd".to_string(),
        f02_readmit_receipt_hash: "rrh".to_string(),
        f24_ocel_receipt_head: "orh".to_string(),
        f25_receipt_root: "root".to_string(),
        f25_replayed_receipt_root: "root".to_string(),
        f25_receipt_root_matched: true,
        stage3_crown_receipt: "crown".to_string(),
    }
}

#[test]
fn blocked_closure_records_the_escaped_reason() {
    let out = build_case_closure_turtle("run-1", "brb", "chain", false, &Err("bad \"x\"\\\nnext".to_string()));
    let expected = format!(
        "{HEADER}<https://cases.solvane-global.example.org/case/BRB-2026-0417> sc:caseStatus cls:blocked .\n\n\
cls:closure-decision-run-1 a cls:RefusedClosure ;\n  cls:caseLocalName \"brb\" ;\n  \
cls:refusalReason \"bad \\\"x\\\"\\\\\\nnext\" ;\n  \
prov:used <https://cases.solvane-global.example.org/case/BRB-2026-0417> .\n"
    );
    assert_eq!(out, expected);
}

#[test]
fn receipted_closure_records_every_stage_value() {
    let out = build_case_closure_turtle("run-2", "brb", "chain", true, &Ok(summary()));
    assert!(out.starts_with(HEADER));
    let body = &out[HEADER.len()..];
    let expected = "<https://cases.solvane-global.example.org/case/BRB-2026-0417> sc:caseStatus cls:receipted .\n\n\
cls:closure-decision-run-2 a prov:Activity ;\n  prov:used <https://cases.solvane-global.example.org/case/BRB-2026-0417> ;\n  \
cls:caseLocalName \"brb\" ;\n  cls:f08PlanReceiptHash \"chain\" ;\n  \
cls:f08GoalReached \"true\"^^<http://www.w3.org/2001/XMLSchema#boolean> ;\n  \
cls:f16DispatchStepId \"s01\" ;\n  cls:f16DispatchToken \"tok\" ;\n  cls:f18BrokerReceiptHash \"brh\" ;\n  \
cls:f18ConsequenceHash \"ch\" ;\n  cls:f20DirectDispatchId \"dd\" ;\n  cls:f20DirectConsequenceDigest \"dcd\" ;\n  \
cls:f20ReadmitDispatchId \"rd\" ;\n  cls:f02ReadmitReceiptHash \"rrh\" ;\n  cls:f24OcelReceiptHead \"orh\" ;\n  \
cls:f25ReceiptRoot \"root\" ;\n  cls:f25ReplayedReceiptRoot \"root\" ;\n  \
cls:f25ReceiptRootMatched \"true\"^^<http://www.w3.org/2001/XMLSchema#boolean> ;\n  \
cls:stage3CrownReceipt \"crown\" .\n";
    assert_eq!(body, expected);
}
