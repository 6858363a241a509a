//! The crown witnesses' own logic: the typed refusals of the external tail, the identity
//! a dispatch is given, the re-entry payload a collected consequence is re-admitted
//! under, and the text extraction and problem building of the bribery-case run.

use vstd::prelude::*;
use crate::admission::{
    admission_answers, admit_observation, AdmissionLedger, AdmissionState, AdmissionPolicy, AdmissionReceipt, ObservationAdmissionRefused,
    RawObservation, ShapeReport, Triple,
};
use vstd::utf8::encode_utf8;
use crate::datalog::{ClosureDigest, newline_framed};
use crate::digest::{blake3_digest, blake3_hex, hex_lower};
use crate::lex::{lex_leq, string_views};
use crate::case_text::{BridgeStepDef, BridgeWorkflow};
use crate::graft::{PlanTape, PlanTapeOp};
use crate::powl::{Powl, PowlView, pview, forest_view, lemma_forest_view};
use crate::text::{contains_str, decimal, has_part, owned, push_decimal_u64, push_str};

verus! {

// ---------------------------------------------------------------------------------------
// Refusals of the external tail. Each carries the refusing stage's own rendered refusal.
// ---------------------------------------------------------------------------------------

/// Why the external witness tail was refused.
#[derive(Debug, Clone, PartialEq, Eq)]
pub enum ExternalWitnessRefused {
    /// The external cut could not be resolved or admitted.
    ExternalCut(String),
    /// The admitted model could not be projected into an Arazzo document.
    ArazzoProjection(String),
    /// The Arazzo document could not be compiled into an AIR program.
    AirCompile(String),
}

/// Why the tail through the dispatch state machine was refused.
#[derive(Debug, Clone, PartialEq, Eq)]
pub enum ExternalWitnessF16Refused {
    /// The AIR transition was refused.
    AirTransition(String),
    /// The dispatch state machine refused the named step.
    DispatchStatem { step_id: String, source: String },
}

/// Why a completed dispatch was not actuated through the broker.
#[derive(Debug, Clone, PartialEq, Eq)]
pub enum ExternalF18Refused {
    /// The dispatch for the step was refused, so there is nothing to actuate.
    F16DispatchNotCompleted { step_id: String, refusal_atom: String },
    /// A broker stage refused.
    Broker(String),
}

/// Why a broker receipt's subworkflow dispatch failed.
#[derive(Debug, Clone, PartialEq, Eq)]
pub enum ExternalF20Refused {
    /// Dispatch, serve or collect refused.
    CngBridge(String),
    /// No consequence appeared within the poll budget.
    NoConsequenceFound { dispatch_id: String },
}

/// Why a collected consequence was not re-admitted.
#[derive(Debug, Clone, PartialEq, Eq)]
pub enum ExternalReentryRefused {
    /// Dispatch, serve or collect refused.
    CngBridge(String),
    /// No consequence appeared within the poll budget.
    NoConsequenceFound { dispatch_id: String },
    /// The consequence was not admitted by the dispatch-contract pipeline.
    NotAdmittedByDispatchPipeline { dispatch_id: String },
    /// The re-admission gate refused the consequence.
    ReentryAdmission(ObservationAdmissionRefused),
    /// The consequence text holds `"""` and cannot be embedded in a long literal.
    ConsequenceTurtleUnsafeForEmbedding { dispatch_id: String },
    /// The consequence digest was missing though the consequence text was collected.
    MissingConsequenceDigest { dispatch_id: String },
}

/// Why the re-admitted transition's tail was refused.
#[derive(Debug, Clone, PartialEq, Eq)]
pub enum ExternalReadmitTransitionRefused {
    Reentry(ExternalReentryRefused),
    AirTransition(String),
    TransitionEvidenceMalformed { reason: String },
    TransitionEvidenceShapesInvalid { reason: String },
    ChildClosure(String),
    ExternalTelemetry(String),
    TransitionStoreUnavailable { reason: String },
    OcelConstruction(String),
    ReceiptReplay(String),
}

// ---------------------------------------------------------------------------------------
// Dispatch identity.
// ---------------------------------------------------------------------------------------

/// A request to the dispatch state machine.
#[derive(Debug, Clone, PartialEq, Eq)]
pub struct DispatchStatemRequest {
    pub workflow_id: String,
    pub correlation_id: String,
    pub source_digest: String,
    pub projection_digest: String,
    pub receipt_head: String,
    pub replay_id: String,
    pub step_id: String,
    pub bind_name: String,
    pub bind_value: bool,
}

/// The outcome of one dispatch: completed with its dispatch token, or refused with its
/// refusal atom.
#[derive(Debug, Clone, PartialEq, Eq)]
pub enum DispatchStatemOutcome {
    Completed { dispatch_token: String },
    Refused { refusal_atom: String },
}

/// The request for dispatching `step_id` in the run with crown receipt `r`: every
/// identity derived from the receipt and the step, the step's done flag bound true.
pub fn f16_identity_for_step(crown_receipt: &str, step_id: &str) -> (res: DispatchStatemRequest)
    ensures
        res.workflow_id@ == "crown-ext-f16-"@ + crown_receipt@,
        res.correlation_id@ == "crown-ext-f16-corr-"@ + crown_receipt@ + "-"@ + step_id@,
        res.source_digest@ == crown_receipt@,
        res.projection_digest@ == crown_receipt@,
        res.receipt_head@ == crown_receipt@,
        res.replay_id@ == "crown-ext-f16-replay-"@ + crown_receipt@,
        res.step_id@ == step_id@,
        res.bind_name@ == step_id@ + "_done"@,
        res.bind_value,
{
    let mut workflow_id = owned("crown-ext-f16-");
    push_str(&mut workflow_id, crown_receipt);
    let mut correlation_id = owned("crown-ext-f16-corr-");
    push_str(&mut correlation_id, crown_receipt);
    push_str(&mut correlation_id, "-");
    push_str(&mut correlation_id, step_id);
    let mut replay_id = owned("crown-ext-f16-replay-");
    push_str(&mut replay_id, crown_receipt);
    let mut bind_name = owned(step_id);
    push_str(&mut bind_name, "_done");
    DispatchStatemRequest {
        workflow_id,
        correlation_id,
        source_digest: owned(crown_receipt),
        projection_digest: owned(crown_receipt),
        receipt_head: owned(crown_receipt),
        replay_id,
        step_id: owned(step_id),
        bind_name,
        bind_value: true,
    }
}

/// The dispatch token to actuate for a completed dispatch; a refused dispatch has none.
pub fn completed_dispatch_token<'a>(step_id: &str, outcome: &'a DispatchStatemOutcome) -> (res: Result<&'a str, ExternalF18Refused>)
    ensures
        match outcome {
            DispatchStatemOutcome::Completed { dispatch_token } => res matches Ok(t) && t@ == dispatch_token@,
            DispatchStatemOutcome::Refused { refusal_atom } => res matches Err(
                ExternalF18Refused::F16DispatchNotCompleted { step_id: s, refusal_atom: a },
            ) && s@ == step_id@ && a@ == refusal_atom@,
        },
{
    match outcome {
        DispatchStatemOutcome::Completed { dispatch_token } => Ok(dispatch_token.as_str()),
        DispatchStatemOutcome::Refused { refusal_atom } => Err(
            ExternalF18Refused::F16DispatchNotCompleted { step_id: owned(step_id), refusal_atom: refusal_atom.clone() },
        ),
    }
}

// ---------------------------------------------------------------------------------------
// Re-entry.
// ---------------------------------------------------------------------------------------

/// The consequence digest a collected dispatch carries; refused where it is missing.
pub fn require_consequence_digest(dispatch_id: &str, consequence_digest: &Option<String>) -> (res: Result<
    String,
    ExternalReentryRefused,
>)
    ensures
        match consequence_digest {
            Some(d) => res matches Ok(r) && r@ == d@,
            None => res matches Err(ExternalReentryRefused::MissingConsequenceDigest { dispatch_id: i }) && i@
                == dispatch_id@,
        },
{
    match consequence_digest {
        Some(d) => Ok(d.clone()),
        None => Err(ExternalReentryRefused::MissingConsequenceDigest { dispatch_id: owned(dispatch_id) }),
    }
}

/// The Turtle observation a collected consequence is re-admitted as: its provenance
/// triple and three literals (dispatch id, digest, and the consequence text as a long
/// literal).
pub open spec fn reentry_payload(
    subject_iri: Seq<char>,
    principal_iri: Seq<char>,
    dispatch_id: Seq<char>,
    consequence_digest: Seq<char>,
    consequence_turtle: Seq<char>,
) -> Seq<char> {
    "<"@ + subject_iri + "> <http://www.w3.org/ns/prov#wasDerivedFrom> <"@ + principal_iri + "> ;\n  <urn:mfw:f20#dispatchId> \""@
        + dispatch_id + "\" ;\n  <urn:mfw:f20#consequenceDigest> \""@ + consequence_digest
        + "\" ;\n  <urn:mfw:f20#consequenceTurtle> \"\"\""@ + consequence_turtle + "\"\"\" .\n"@
}

/// Serializes a collected consequence for re-admission; refuses consequence text that
/// holds `"""`, which would close the long literal early and inject statements.
pub fn build_reentry_payload(
    subject_iri: &str,
    principal_iri: &str,
    dispatch_id: &str,
    consequence_digest: &str,
    consequence_turtle: &str,
) -> (res: Result<String, ExternalReentryRefused>)
    ensures
        has_part(consequence_turtle@, "\"\"\""@) ==> (res matches Err(
            ExternalReentryRefused::ConsequenceTurtleUnsafeForEmbedding { dispatch_id: i },
        ) && i@ == dispatch_id@),
        !has_part(consequence_turtle@, "\"\"\""@) ==> (res matches Ok(p) && p@ == reentry_payload(
            subject_iri@,
            principal_iri@,
            dispatch_id@,
            consequence_digest@,
            consequence_turtle@,
        )),
{
    if contains_str(consequence_turtle, "\"\"\"") {
        return Err(ExternalReentryRefused::ConsequenceTurtleUnsafeForEmbedding { dispatch_id: owned(dispatch_id) });
    }
    let mut out = owned("<");
    push_str(&mut out, subject_iri);
    push_str(&mut out, "> <http://www.w3.org/ns/prov#wasDerivedFrom> <");
    push_str(&mut out, principal_iri);
    push_str(&mut out, "> ;\n  <urn:mfw:f20#dispatchId> \"");
    push_str(&mut out, dispatch_id);
    push_str(&mut out, "\" ;\n  <urn:mfw:f20#consequenceDigest> \"");
    push_str(&mut out, consequence_digest);
    push_str(&mut out, "\" ;\n  <urn:mfw:f20#consequenceTurtle> \"\"\"");
    push_str(&mut out, consequence_turtle);
    push_str(&mut out, "\"\"\" .\n");
    proof {
        assert(out@ =~= reentry_payload(subject_iri@, principal_iri@, dispatch_id@, consequence_digest@, consequence_turtle@));
    }
    Ok(out)
}


/// What collecting a dispatched subworkflow's consequence gave: the dispatch's id, whether
/// the dispatch-contract pipeline admitted the consequence, the consequence text and its
/// digest (collected together), and the polls it took.
#[derive(Debug, Clone, PartialEq, Eq)]
pub struct SubworkflowDispatchOutcome {
    pub dispatch_id: String,
    pub admitted: bool,
    pub consequence_turtle: Option<String>,
    pub consequence_digest: Option<String>,
    pub polls_taken: u64,
}

/// A re-admitted consequence: the collected dispatch, its admission receipt, and the
/// crown receipt over both.
#[derive(Debug, Clone, PartialEq, Eq)]
pub struct ExternalReentryOutcome {
    pub dispatch_outcome: SubworkflowDispatchOutcome,
    pub reentry_admission: AdmissionReceipt,
    pub crown_receipt: String,
}

/// The subject a re-admitted dispatch is observed under.
pub open spec fn reentry_subject(base_iri: Seq<char>, dispatch_id: Seq<char>) -> Seq<char> {
    base_iri + "/external-dispatch/"@ + dispatch_id
}

/// The observation a collected consequence is re-admitted as, with the consequence
/// digest: refused where the pipeline did not admit the consequence, where none was
/// collected, where its digest is missing, or where its text cannot be embedded.
pub fn reentry_observation(
    dispatch_outcome: &SubworkflowDispatchOutcome,
    reentry_subject_base_iri: &str,
    reentry_principal_iri: &str,
    reentry_source_id: &str,
    correlation_id: &str,
) -> (res: Result<(RawObservation, String), ExternalReentryRefused>)
    ensures
        ({
            let id = dispatch_outcome.dispatch_id@;
            if !dispatch_outcome.admitted {
                res matches Err(ExternalReentryRefused::NotAdmittedByDispatchPipeline { dispatch_id: i }) && i@ == id
            } else if dispatch_outcome.consequence_turtle is None {
                res matches Err(ExternalReentryRefused::NoConsequenceFound { dispatch_id: i }) && i@ == id
            } else if dispatch_outcome.consequence_digest is None {
                res matches Err(ExternalReentryRefused::MissingConsequenceDigest { dispatch_id: i }) && i@ == id
            } else {
                let t = dispatch_outcome.consequence_turtle->Some_0@;
                let d = dispatch_outcome.consequence_digest->Some_0@;
                let subject = reentry_subject(reentry_subject_base_iri@, id);
                if has_part(t, "\"\"\""@) {
                    res matches Err(ExternalReentryRefused::ConsequenceTurtleUnsafeForEmbedding { dispatch_id: i }) && i@ == id
                } else {
                    res matches Ok((obs, digest)) && digest@ == d && obs.correlation_id@ == correlation_id@
                        && obs.source_id@ == reentry_source_id@ && obs.declared_subject@ == subject
                        && obs.payload_turtle@ == reentry_payload(subject, reentry_principal_iri@, id, d, t)
                }
            }
        }),
{
    let id = &dispatch_outcome.dispatch_id;
    if !dispatch_outcome.admitted {
        return Err(ExternalReentryRefused::NotAdmittedByDispatchPipeline { dispatch_id: id.clone() });
    }
    let consequence_turtle = match &dispatch_outcome.consequence_turtle {
        Some(t) => t,
        None => {
            return Err(ExternalReentryRefused::NoConsequenceFound { dispatch_id: id.clone() });
        },
    };
    let consequence_digest = require_consequence_digest(id.as_str(), &dispatch_outcome.consequence_digest)?;
    let subject = line(reentry_subject_base_iri, "/external-dispatch/");
    let subject = line(subject.as_str(), id.as_str());
    let payload_turtle = build_reentry_payload(
        subject.as_str(),
        reentry_principal_iri,
        id.as_str(),
        consequence_digest.as_str(),
        consequence_turtle.as_str(),
    )?;
    let obs = RawObservation {
        correlation_id: owned(correlation_id),
        source_id: owned(reentry_source_id),
        declared_subject: subject,
        payload_turtle,
    };
    Ok((obs, consequence_digest))
}

/// Re-admits a collected consequence's observation through the admission gates and, where
/// it is admitted, folds the crown receipt of the re-entry; a refusal of the gates refuses
/// the re-entry with it. `parsed` and `shape` are the observation's payload as parsed and
/// as validated against the policy's shapes.
pub fn finish_external_reentry(
    policy: &AdmissionPolicy,
    ledger: &mut AdmissionLedger,
    dispatch_outcome: SubworkflowDispatchOutcome,
    obs: RawObservation,
    consequence_digest: String,
    parsed: Result<Vec<Triple>, String>,
    shape: ShapeReport,
) -> (res: Result<ExternalReentryOutcome, ExternalReentryRefused>)
    requires
        old(ledger).wf(),
    ensures
        final(ledger).wf(),
        match res {
            Ok(o) => {
                &&& admission_answers(
                    *policy,
                    old(ledger).rows(),
                    final(ledger).rows(),
                    obs,
                    parsed,
                    shape,
                    Ok::<AdmissionReceipt, ObservationAdmissionRefused>(o.reentry_admission),
                )
                &&& o.dispatch_outcome == dispatch_outcome
                &&& o.reentry_admission.state == AdmissionState::Admitted
                &&& o.reentry_admission.correlation_id@ == obs.correlation_id@
                &&& o.reentry_admission.receipt_hash@.len() == 64
                &&& o.crown_receipt@.len() == 64
                &&& o.crown_receipt@ == crown_receipt_of(
                    seq![
                        "f20.dispatch_id="@ + dispatch_outcome.dispatch_id@,
                        "f20.consequence_digest="@ + consequence_digest@,
                        "f20.polls_taken="@ + decimal(dispatch_outcome.polls_taken as nat),
                        "f02_readmit.receipt="@ + o.reentry_admission.receipt_hash@,
                    ],
                )
            },
            Err(ExternalReentryRefused::ReentryAdmission(e)) => admission_answers(
                *policy,
                old(ledger).rows(),
                final(ledger).rows(),
                obs,
                parsed,
                shape,
                Err::<AdmissionReceipt, ObservationAdmissionRefused>(e),
            ),
            Err(_) => false,
        },
{
    match admit_observation(policy, ledger, obs, parsed, shape) {
        Err(e) => Err(ExternalReentryRefused::ReentryAdmission(e)),
        Ok(receipt) => {
            let crown_receipt = compute_reentry_crown_receipt(
                dispatch_outcome.dispatch_id.as_str(),
                consequence_digest.as_str(),
                dispatch_outcome.polls_taken,
                receipt.receipt_hash.as_str(),
            );
            Ok(ExternalReentryOutcome { dispatch_outcome, reentry_admission: receipt, crown_receipt })
        },
    }
}

/// The planning observation's Turtle: the provenance triple and the domain, problem and
/// hook-pack texts as long literals on their predicates.
pub open spec fn planning_payload(
    subject_iri: Seq<char>,
    principal_iri: Seq<char>,
    pddl_domain: Seq<char>,
    pddl_problem: Seq<char>,
    hook_pack_turtle: Seq<char>,
) -> Seq<char> {
    "<"@ + subject_iri + "> <http://www.w3.org/ns/prov#wasDerivedFrom> <"@ + principal_iri
        + "> ;\n  <urn:chatman:engine#pddlDomain> \"\"\""@ + pddl_domain + "\"\"\" ;\n  <urn:chatman:engine#pddlProblem> \"\"\""@
        + pddl_problem + "\"\"\" ;\n  <urn:mfw:f08#hookPack> \"\"\""@ + hook_pack_turtle + "\"\"\" .\n"@
}

/// Serializes the planning content into one observation payload.
pub fn build_planning_payload(
    subject_iri: &str,
    principal_iri: &str,
    pddl_domain: &str,
    pddl_problem: &str,
    hook_pack_turtle: &str,
) -> (res: String)
    ensures
        res@ == planning_payload(subject_iri@, principal_iri@, pddl_domain@, pddl_problem@, hook_pack_turtle@),
{
    let mut out = owned("<");
    push_str(&mut out, subject_iri);
    push_str(&mut out, "> <http://www.w3.org/ns/prov#wasDerivedFrom> <");
    push_str(&mut out, principal_iri);
    push_str(&mut out, "> ;\n  <urn:chatman:engine#pddlDomain> \"\"\"");
    push_str(&mut out, pddl_domain);
    push_str(&mut out, "\"\"\" ;\n  <urn:chatman:engine#pddlProblem> \"\"\"");
    push_str(&mut out, pddl_problem);
    push_str(&mut out, "\"\"\" ;\n  <urn:mfw:f08#hookPack> \"\"\"");
    push_str(&mut out, hook_pack_turtle);
    push_str(&mut out, "\"\"\" .\n");
    proof {
        assert(out@ =~= planning_payload(subject_iri@, principal_iri@, pddl_domain@, pddl_problem@, hook_pack_turtle@));
    }
    out
}

// ---------------------------------------------------------------------------------------
// Crown receipts.
// ---------------------------------------------------------------------------------------

/// A crown receipt over digest lines: lowercase hex BLAKE3 of the lines in sorted order,
/// each followed by a newline.
pub open spec fn crown_receipt_of(lines: Seq<Seq<char>>) -> Seq<char> {
    hex_lower(blake3_digest(newline_framed(lines.sort_by(lex_leq()))))
}

/// A crown receipt does not depend on the order its lines are given in: lists with the
/// same lines, counted with multiplicity, fold to the same receipt.
pub proof fn lemma_crown_receipt_order_independent(l1: Seq<Seq<char>>, l2: Seq<Seq<char>>)
    requires
        l1.to_multiset() == l2.to_multiset(),
    ensures
        crown_receipt_of(l1) == crown_receipt_of(l2),
{
    crate::lex::lemma_lex_total_ordering();
    l1.lemma_sort_by_ensures(lex_leq());
    l2.lemma_sort_by_ensures(lex_leq());
    vstd::seq_lib::lemma_sorted_unique(l1.sort_by(lex_leq()), l2.sort_by(lex_leq()), lex_leq());
}

/// Folds digest lines into a crown receipt, whatever their order.
pub fn fold_receipt_lines(lines: &Vec<String>) -> (res: String)
    ensures
        res@ == crown_receipt_of(string_views(lines@)),
        res@.len() == 64,
{
    let bytes = ClosureDigest::tagged_bytes("", "", lines);
    proof {
        reveal_strlit("");
        assert(""@ =~= Seq::<char>::empty());
        assert(encode_utf8(""@) =~= Seq::<u8>::empty());
    }
    let framed = strip_head(&bytes);
    proof {
        let f = newline_framed(string_views(lines@).sort_by(lex_leq()));
        assert(bytes@ =~= seq![0u8] + f);
        assert(framed@ =~= f);
    }
    blake3_hex(framed.as_slice())
}

/// The bytes after the zero byte that an empty id leaves first.
fn strip_head(bytes: &Vec<u8>) -> (res: Vec<u8>)
    requires
        bytes@.len() >= 1,
    ensures
        res@ == bytes@.skip(1),
{
    let mut res: Vec<u8> = Vec::new();
    let mut k: usize = 1;
    while k < bytes.len()
        invariant
            1 <= k <= bytes@.len(),
            res@ == bytes@.subrange(1, k as int),
        decreases bytes@.len() - k,
    {
        res.push(bytes[k]);
        proof {
            assert(bytes@.subrange(1, k + 1) =~= bytes@.subrange(1, k as int).push(bytes@[k as int]));
        }
        k = k + 1;
    }
    proof {
        assert(bytes@.subrange(1, k as int) =~= bytes@.skip(1));
    }
    res
}

/// `prefix` and `value` as one string.
fn line(prefix: &str, value: &str) -> (res: String)
    ensures
        res@ == prefix@ + value@,
{
    let mut out = owned(prefix);
    push_str(&mut out, value);
    out
}

/// The crown receipt of a re-entry: the dispatch id, the consequence digest, the polls it
/// took and the re-admission receipt.
pub fn compute_reentry_crown_receipt(
    dispatch_id: &str,
    consequence_digest: &str,
    polls_taken: u64,
    readmit_receipt_hash: &str,
) -> (res: String)
    ensures
        res@ == crown_receipt_of(
            seq![
                "f20.dispatch_id="@ + dispatch_id@,
                "f20.consequence_digest="@ + consequence_digest@,
                "f20.polls_taken="@ + decimal(polls_taken as nat),
                "f02_readmit.receipt="@ + readmit_receipt_hash@,
            ],
        ),
        res@.len() == 64,
{
    let mut polls = owned("f20.polls_taken=");
    push_decimal_u64(&mut polls, polls_taken);
    let lines = vec![
        line("f20.dispatch_id=", dispatch_id),
        line("f20.consequence_digest=", consequence_digest),
        polls,
        line("f02_readmit.receipt=", readmit_receipt_hash),
    ];
    proof {
        assert(string_views(lines@) =~= seq![
            "f20.dispatch_id="@ + dispatch_id@,
            "f20.consequence_digest="@ + consequence_digest@,
            "f20.polls_taken="@ + decimal(polls_taken as nat),
            "f02_readmit.receipt="@ + readmit_receipt_hash@,
        ]);
    }
    fold_receipt_lines(&lines)
}

/// The steps joined by commas.
fn comma_joined(steps: &Vec<String>) -> (res: String)
    ensures
        res@ == crate::case_text::joined(string_views(steps@), ","@),
{
    crate::case_text::join_strings(steps, ",")
}

/// The crown receipt of the external tail: whether the cut is external, the projection's
/// source, Arazzo and AIR digests, the recompiled AIR digest and the bridge's root steps.
pub fn compute_external_crown_receipt(
    cut_is_external: bool,
    source_powl_digest_hex: &str,
    arazzo_digest_hex: &str,
    air_digest_hex: &str,
    recompiled_air_digest_hex: &str,
    active_steps: &Vec<String>,
) -> (res: String)
    ensures
        res@ == crown_receipt_of(
            seq![
                "f12.cut_is_external="@ + (if cut_is_external {
                    "true"@
                } else {
                    "false"@
                }),
                "f13.source_powl_digest="@ + source_powl_digest_hex@,
                "f13.arazzo_digest="@ + arazzo_digest_hex@,
                "f13.air_digest="@ + air_digest_hex@,
                "f14.recompiled_air_digest="@ + recompiled_air_digest_hex@,
                "f15.bridge_steps="@ + crate::case_text::joined(string_views(active_steps@), ","@),
            ],
        ),
        res@.len() == 64,
{
    let flag = if cut_is_external {
        "true"
    } else {
        "false"
    };
    let steps = comma_joined(active_steps);
    let lines = vec![
        line("f12.cut_is_external=", flag),
        line("f13.source_powl_digest=", source_powl_digest_hex),
        line("f13.arazzo_digest=", arazzo_digest_hex),
        line("f13.air_digest=", air_digest_hex),
        line("f14.recompiled_air_digest=", recompiled_air_digest_hex),
        line("f15.bridge_steps=", steps.as_str()),
    ];
    proof {
        assert(string_views(lines@) =~= seq![
            "f12.cut_is_external="@ + (if cut_is_external {
                "true"@
            } else {
                "false"@
            }),
            "f13.source_powl_digest="@ + source_powl_digest_hex@,
            "f13.arazzo_digest="@ + arazzo_digest_hex@,
            "f13.air_digest="@ + air_digest_hex@,
            "f14.recompiled_air_digest="@ + recompiled_air_digest_hex@,
            "f15.bridge_steps="@ + crate::case_text::joined(string_views(active_steps@), ","@),
        ]);
    }
    fold_receipt_lines(&lines)
}

/// The geometry wrapped as the region of an external cut, after a local intake step:
/// `intake -> cut`.
pub fn wrap_geometry_as_external_region(f10_root: &Powl) -> (res: Powl)
    ensures
        pview(res) == PowlView::PartialOrder(
            seq![
                PowlView::Leaf(Some("local_intake"@)),
                PowlView::ExternalCut(Box::new(pview(*f10_root)), "SELECT * WHERE { ?s ?p ?o }"@, "arazzo_projection.tera"@),
            ],
            seq![(0usize, 1usize)],
        ),
{
    let children = vec![
        Powl::Leaf(Some(owned("local_intake"))),
        Powl::ExternalCut {
            region: Box::new(f10_root.copy()),
            projection: owned("SELECT * WHERE { ?s ?p ?o }"),
            renderer: owned("arazzo_projection.tera"),
        },
    ];
    let order = vec![(0usize, 1usize)];
    proof {
        assert(order@ =~= seq![(0usize, 1usize)]);
    }
    let res = Powl::PartialOrder { children, order };
    proof {
        lemma_forest_view(children@, 0);
        assert(forest_view(children@, 0) =~= seq![
            PowlView::Leaf(Some("local_intake"@)),
            PowlView::ExternalCut(Box::new(pview(*f10_root)), "SELECT * WHERE { ?s ?p ?o }"@, "arazzo_projection.tera"@),
        ]);
    }
    res
}


/// The crown receipt of the third stage of the bribery-case run: the dispatch token, the
/// broker receipt, the direct dispatch and its consequence, the re-admission receipt, the
/// OCEL receipt head, and the replay's receipt roots.
pub fn compute_stage3_crown_receipt(
    f16_dispatch_token: &str,
    broker_receipt_hash: &str,
    f20_direct_dispatch_id: &str,
    f20_direct_consequence_digest: &str,
    readmit_receipt_hash: &str,
    ocel_receipt_head: &str,
    replay_receipt_root: &str,
    replayed_receipt_root: &str,
) -> (res: String)
    ensures
        res@ == crown_receipt_of(
            seq![
                "f16.dispatch_token="@ + f16_dispatch_token@,
                "f18.receipt_hash="@ + broker_receipt_hash@,
                "f20_direct.dispatch_id="@ + f20_direct_dispatch_id@,
                "f20_direct.consequence_digest="@ + f20_direct_consequence_digest@,
                "f02_readmit.receipt_hash="@ + readmit_receipt_hash@,
                "f24.receipt_head="@ + ocel_receipt_head@,
                "f25.receipt_root="@ + replay_receipt_root@,
                "f25.replayed_receipt_root="@ + replayed_receipt_root@,
            ],
        ),
        res@.len() == 64,
{
    let lines = vec![
        line("f16.dispatch_token=", f16_dispatch_token),
        line("f18.receipt_hash=", broker_receipt_hash),
        line("f20_direct.dispatch_id=", f20_direct_dispatch_id),
        line("f20_direct.consequence_digest=", f20_direct_consequence_digest),
        line("f02_readmit.receipt_hash=", readmit_receipt_hash),
        line("f24.receipt_head=", ocel_receipt_head),
        line("f25.receipt_root=", replay_receipt_root),
        line("f25.replayed_receipt_root=", replayed_receipt_root),
    ];
    proof {
        assert(string_views(lines@) =~= seq![
            "f16.dispatch_token="@ + f16_dispatch_token@,
            "f18.receipt_hash="@ + broker_receipt_hash@,
            "f20_direct.dispatch_id="@ + f20_direct_dispatch_id@,
            "f20_direct.consequence_digest="@ + f20_direct_consequence_digest@,
            "f02_readmit.receipt_hash="@ + readmit_receipt_hash@,
            "f24.receipt_head="@ + ocel_receipt_head@,
            "f25.receipt_root="@ + replay_receipt_root@,
            "f25.replayed_receipt_root="@ + replayed_receipt_root@,
        ]);
    }
    fold_receipt_lines(&lines)
}

/// The signature of a plan tape: each op as `index:label:pred_mask`, joined by `|`.
pub open spec fn tape_signature(ops: Seq<PlanTapeOp>) -> Seq<char> {
    crate::case_text::joined(
        Seq::new(
            ops.len(),
            |k: int| decimal(ops[k].index as nat) + ":"@ + ops[k].label@ + ":"@ + decimal(ops[k].pred_mask as nat),
        ),
        "|"@,
    )
}

/// The signature of a plan tape.
pub fn tape_sig(tape: &PlanTape) -> (res: String)
    ensures
        res@ == tape_signature(tape.ops@),
{
    let ghost all = Seq::new(
        tape.ops@.len(),
        |k: int| decimal(tape.ops@[k].index as nat) + ":"@ + tape.ops@[k].label@ + ":"@ + decimal(tape.ops@[k].pred_mask as nat),
    );
    let mut parts: Vec<String> = Vec::new();
    let mut k: usize = 0;
    while k < tape.ops.len()
        invariant
            k <= tape.ops@.len(),
            all == Seq::new(
                tape.ops@.len(),
                |k: int| decimal(tape.ops@[k].index as nat) + ":"@ + tape.ops@[k].label@ + ":"@ + decimal(tape.ops@[k].pred_mask as nat),
            ),
            string_views(parts@) == all.take(k as int),
        decreases tape.ops@.len() - k,
    {
        let op = &tape.ops[k];
        let mut p = String::new();
        push_decimal_u64(&mut p, op.index as u64);
        push_str(&mut p, ":");
        push_str(&mut p, op.label.as_str());
        push_str(&mut p, ":");
        push_decimal_u64(&mut p, op.pred_mask);
        let ghost before = string_views(parts@);
        parts.push(p);
        proof {
            assert(p@ =~= all[k as int]);
            assert(string_views(parts@) =~= before.push(p@));
            assert(all.take(k + 1) =~= all.take(k as int).push(all[k as int]));
        }
        k = k + 1;
    }
    proof {
        assert(all.take(k as int) =~= all);
    }
    crate::case_text::join_strings(&parts, "|")
}

/// The crown receipt of the local prefix: the admission receipt, the planning state's
/// receipt head, the plan tape, the descent receipt, the geometry's shape and Turtle
/// length, the broker receipt and the hook resolution's receipt.
pub fn compute_crown_receipt(
    admission_receipt_hash: &str,
    planning_receipt_head_hex: &str,
    tape: &PlanTape,
    descent_digest: &str,
    geometry_leaves: usize,
    geometry_child_bindings: usize,
    geometry_turtle_len: usize,
    broker_receipt_hash: &str,
    hook_receipt_hash: &str,
) -> (res: String)
    ensures
        res@ == crown_receipt_of(
            seq![
                "f02.receipt="@ + admission_receipt_hash@,
                "f03.receipt_head="@ + planning_receipt_head_hex@,
                "f08.tape="@ + tape_signature(tape.ops@),
                "f09.descent="@ + descent_digest@,
                "f10.shape=leaves:"@ + decimal(geometry_leaves as nat) + ",bindings:"@ + decimal(geometry_child_bindings as nat),
                "f10.geometry_turtle_len="@ + decimal(geometry_turtle_len as nat),
                "f18.receipt_hash="@ + broker_receipt_hash@,
                "f19.receipt_hash="@ + hook_receipt_hash@,
            ],
        ),
        res@.len() == 64,
{
    let sig = tape_sig(tape);
    let mut shape = owned("f10.shape=leaves:");
    push_decimal_u64(&mut shape, geometry_leaves as u64);
    push_str(&mut shape, ",bindings:");
    push_decimal_u64(&mut shape, geometry_child_bindings as u64);
    let mut tlen = owned("f10.geometry_turtle_len=");
    push_decimal_u64(&mut tlen, geometry_turtle_len as u64);
    let lines = vec![
        line("f02.receipt=", admission_receipt_hash),
        line("f03.receipt_head=", planning_receipt_head_hex),
        line("f08.tape=", sig.as_str()),
        line("f09.descent=", descent_digest),
        shape,
        tlen,
        line("f18.receipt_hash=", broker_receipt_hash),
        line("f19.receipt_hash=", hook_receipt_hash),
    ];
    proof {
        assert(string_views(lines@) =~= seq![
            "f02.receipt="@ + admission_receipt_hash@,
            "f03.receipt_head="@ + planning_receipt_head_hex@,
            "f08.tape="@ + tape_signature(tape.ops@),
            "f09.descent="@ + descent_digest@,
            "f10.shape=leaves:"@ + decimal(geometry_leaves as nat) + ",bindings:"@ + decimal(geometry_child_bindings as nat),
            "f10.geometry_turtle_len="@ + decimal(geometry_turtle_len as nat),
            "f18.receipt_hash="@ + broker_receipt_hash@,
            "f19.receipt_hash="@ + hook_receipt_hash@,
        ]);
    }
    fold_receipt_lines(&lines)
}


// ---------------------------------------------------------------------------------------
// From an AIR program to a bridge workflow.
// ---------------------------------------------------------------------------------------

/// Where a step's success routes: the end, a retry, a step, or another workflow.
#[derive(Debug, Clone, PartialEq, Eq)]
pub enum AirRoutingOutcome {
    End,
    Retry,
    GotoStep(String),
    GotoWorkflow(String),
}

/// One step of an AIR workflow: its name and its success routings.
#[derive(Debug, Clone, PartialEq, Eq)]
pub struct AirStep {
    pub name: String,
    pub on_success: Vec<AirRoutingOutcome>,
}

/// One AIR workflow: its steps in declaration order.
#[derive(Debug, Clone, PartialEq, Eq)]
pub struct AirWorkflow {
    pub steps: Vec<AirStep>,
}

/// An AIR program: its workflows in declaration order.
#[derive(Debug, Clone, PartialEq, Eq)]
pub struct AirProgram {
    pub workflows: Vec<AirWorkflow>,
}

/// The steps a list of routings forwards to, in order.
pub open spec fn goto_targets(outs: Seq<AirRoutingOutcome>) -> Seq<Seq<char>>
    decreases outs.len(),
{
    if outs.len() == 0 {
        Seq::empty()
    } else {
        goto_targets(outs.drop_last()) + match outs.last() {
            AirRoutingOutcome::GotoStep(t) => seq![t@],
            _ => Seq::<Seq<char>>::empty(),
        }
    }
}

/// Every step of the workflows, in declaration order, as its name and forward targets.
pub open spec fn program_steps(ws: Seq<AirWorkflow>) -> Seq<(Seq<char>, Seq<Seq<char>>)>
    decreases ws.len(),
{
    if ws.len() == 0 {
        Seq::empty()
    } else {
        program_steps(ws.drop_last()) + ws.last().steps@.map_values(
            |s: AirStep| (s.name@, goto_targets(s.on_success@)),
        )
    }
}

/// The first declaration of each step name, in order.
pub open spec fn first_declarations(v: Seq<(Seq<char>, Seq<Seq<char>>)>) -> Seq<(Seq<char>, Seq<Seq<char>>)>
    decreases v.len(),
{
    if v.len() == 0 {
        Seq::empty()
    } else if exists|j: int| 0 <= j < v.len() - 1 && (#[trigger] v[j]).0 == v.last().0 {
        first_declarations(v.drop_last())
    } else {
        first_declarations(v.drop_last()).push(v.last())
    }
}

/// Some step forwards to `x`.
pub open spec fn targeted(v: Seq<(Seq<char>, Seq<Seq<char>>)>, x: Seq<char>) -> bool {
    exists|i: int| 0 <= i < v.len() && (#[trigger] v[i]).1.contains(x)
}

/// The root steps, in declaration order: those no step forwards to.
pub open spec fn root_steps(v: Seq<(Seq<char>, Seq<Seq<char>>)>) -> Seq<Seq<char>> {
    root_steps_of(v, v)
}

/// The names of the steps of `w` that no step of `v` forwards to, in order.
pub open spec fn root_steps_of(v: Seq<(Seq<char>, Seq<Seq<char>>)>, w: Seq<(Seq<char>, Seq<Seq<char>>)>) -> Seq<Seq<char>>
    decreases w.len(),
{
    if w.len() == 0 {
        Seq::empty()
    } else if targeted(v, w.last().0) {
        root_steps_of(v, w.drop_last())
    } else {
        root_steps_of(v, w.drop_last()).push(w.last().0)
    }
}

/// The forward targets of a step's routings.
fn targets_of(outs: &Vec<AirRoutingOutcome>) -> (res: Vec<String>)
    ensures
        string_views(res@) == goto_targets(outs@),
{
    let mut res: Vec<String> = Vec::new();
    let mut k: usize = 0;
    while k < outs.len()
        invariant
            k <= outs@.len(),
            string_views(res@) == goto_targets(outs@.take(k as int)),
        decreases outs@.len() - k,
    {
        proof {
            assert(outs@.take(k + 1).drop_last() =~= outs@.take(k as int));
            assert(outs@.take(k + 1).last() == outs@[k as int]);
        }
        let ghost before = string_views(res@);
        match &outs[k] {
            AirRoutingOutcome::GotoStep(t) => {
                res.push(t.clone());
                proof {
                    assert(string_views(res@) =~= before + seq![t@]);
                }
            },
            _ => {
                proof {
                    assert(before + Seq::<Seq<char>>::empty() =~= before);
                }
            },
        }
        k = k + 1;
    }
    proof {
        assert(outs@.take(k as int) =~= outs@);
    }
    res
}

/// A step as plain values.
pub open spec fn step_entry(e: (String, Vec<String>)) -> (Seq<char>, Seq<Seq<char>>) {
    (e.0@, string_views(e.1@))
}

/// Every step of the program as its name and forward targets.
fn flatten_program(program: &AirProgram) -> (res: Vec<(String, Vec<String>)>)
    ensures
        res@.map_values(|e: (String, Vec<String>)| step_entry(e)) == program_steps(program.workflows@),
{
    let mut res: Vec<(String, Vec<String>)> = Vec::new();
    let mut w: usize = 0;
    while w < program.workflows.len()
        invariant
            w <= program.workflows@.len(),
            res@.map_values(|e: (String, Vec<String>)| step_entry(e)) == program_steps(program.workflows@.take(w as int)),
        decreases program.workflows@.len() - w,
    {
        let steps = &program.workflows[w].steps;
        let ghost start = res@.map_values(|e: (String, Vec<String>)| step_entry(e));
        let mut k: usize = 0;
        while k < steps.len()
            invariant
                k <= steps@.len(),
                steps == program.workflows@[w as int].steps,
                res@.map_values(|e: (String, Vec<String>)| step_entry(e)) == start + steps@.take(k as int).map_values(
                    |s: AirStep| (s.name@, goto_targets(s.on_success@)),
                ),
            decreases steps@.len() - k,
        {
            let ghost before = res@;
            let entry = (steps[k].name.clone(), targets_of(&steps[k].on_success));
            res.push(entry);
            proof {
                assert(res@.map_values(|e: (String, Vec<String>)| step_entry(e)) =~= before.map_values(
                    |e: (String, Vec<String>)| step_entry(e),
                ).push(step_entry(entry)));
                assert(steps@.take(k + 1).map_values(|s: AirStep| (s.name@, goto_targets(s.on_success@))) =~= steps@.take(
                    k as int,
                ).map_values(|s: AirStep| (s.name@, goto_targets(s.on_success@))).push(
                    (steps@[k as int].name@, goto_targets(steps@[k as int].on_success@)),
                ));
            }
            k = k + 1;
        }
        proof {
            let ws = program.workflows@.take(w + 1);
            assert(ws.drop_last() =~= program.workflows@.take(w as int));
            assert(ws.last() == program.workflows@[w as int]);
            assert(steps@.take(k as int) =~= steps@);
        }
        w = w + 1;
    }
    proof {
        assert(program.workflows@.take(w as int) =~= program.workflows@);
    }
    res
}


/// Some bridge step is named `x`.
pub open spec fn named_in(s: Seq<(String, BridgeStepDef)>, x: Seq<char>) -> bool {
    exists|q: int| 0 <= q < s.len() && (#[trigger] s[q]).0@ == x
}

/// Some step before position `i` is named `x`.
pub open spec fn declared_before(v: Seq<(Seq<char>, Seq<Seq<char>>)>, i: int, x: Seq<char>) -> bool {
    exists|j: int| 0 <= j < i && (#[trigger] v[j]).0 == x
}

/// A bridge step as plain values.
pub open spec fn bridge_entry(e: (String, BridgeStepDef)) -> (Seq<char>, Seq<Seq<char>>) {
    (e.0@, string_views(e.1.next@))
}

/// The bridge workflow of an AIR program: one step per step name, forwarding to the
/// steps its first declaration's successes go to, and the root steps (those no step
/// forwards to) in declaration order, the steps to seed the transition core with.
pub fn air_program_to_bridge_workflow(program: &AirProgram) -> (res: (BridgeWorkflow, Vec<String>))
    ensures
        res.0.steps@.map_values(|e: (String, BridgeStepDef)| bridge_entry(e)) == first_declarations(
            program_steps(program.workflows@),
        ),
        string_views(res.1@) == root_steps(program_steps(program.workflows@)),
{
    let flat = flatten_program(program);
    let ghost v = program_steps(program.workflows@);
    proof {
        assert forall|q: int| 0 <= q < flat@.len() implies step_entry(#[trigger] flat@[q]) == v[q] by {
            assert(flat@.map_values(|e: (String, Vec<String>)| step_entry(e))[q] == step_entry(flat@[q]));
        }
    }
    let mut steps: Vec<(String, BridgeStepDef)> = Vec::new();
    let mut succ: Vec<String> = Vec::new();
    let mut i: usize = 0;
    while i < flat.len()
        invariant
            i <= flat@.len(),
            v.len() == flat@.len(),
            forall|q: int| 0 <= q < flat@.len() ==> step_entry(#[trigger] flat@[q]) == v[q],
            steps@.map_values(|e: (String, BridgeStepDef)| bridge_entry(e)) == first_declarations(v.take(i as int)),
            forall|x: Seq<char>| #[trigger] named_in(steps@, x) <==> declared_before(v, i as int, x),
            forall|x: Seq<char>| string_views(succ@).contains(x) <==> targeted(v.take(i as int), x),
        decreases flat@.len() - i,
    {
        let name = flat[i].0.as_str();
        let ghost vi = v[i as int];
        proof {
            assert(step_entry(flat@[i as int]) == vi);
        }
        let mut seen = false;
        let mut q: usize = 0;
        while q < steps.len()
            invariant
                q <= steps@.len(),
                seen == exists|r: int| 0 <= r < q && (#[trigger] steps@[r]).0@ == name@,
            decreases steps@.len() - q,
        {
            if crate::projector::str_eq(steps[q].0.as_str(), name) {
                seen = true;
            }
            q = q + 1;
        }
        let ghost t = v.take(i + 1);
        proof {
            assert(t.drop_last() =~= v.take(i as int));
            assert(t.last() == vi);
            assert(seen == exists|j: int| 0 <= j < t.len() - 1 && (#[trigger] t[j]).0 == t.last().0) by {
                if seen {
                    let r = choose|r: int| 0 <= r < q && (#[trigger] steps@[r]).0@ == name@;
                    assert(named_in(steps@, name@));
                    assert(declared_before(v, i as int, name@));
                    let j = choose|j: int| 0 <= j < i && (#[trigger] v[j]).0 == name@;
                    assert(t[j] == v[j]);
                }
                if exists|j: int| 0 <= j < t.len() - 1 && (#[trigger] t[j]).0 == t.last().0 {
                    let j = choose|j: int| 0 <= j < t.len() - 1 && (#[trigger] t[j]).0 == t.last().0;
                    assert(v[j].0 == name@);
                    assert(declared_before(v, i as int, name@));
                    assert(named_in(steps@, name@));
                    let r = choose|r: int| 0 <= r < steps@.len() && (#[trigger] steps@[r]).0@ == name@;
                    assert(r < q);
                }
            }
        }
        let ghost before = steps@;
        if !seen {
            let next = copy_strings(&flat[i].1);
            steps.push((flat[i].0.clone(), BridgeStepDef { next }));
            proof {
                assert(steps@.map_values(|e: (String, BridgeStepDef)| bridge_entry(e)) =~= before.map_values(
                    |e: (String, BridgeStepDef)| bridge_entry(e),
                ).push(vi));
            }
        }
        proof {
            assert forall|x: Seq<char>| #[trigger] named_in(steps@, x) <==> declared_before(v, i + 1, x) by {
                if named_in(steps@, x) {
                    let r = choose|r: int| 0 <= r < steps@.len() && (#[trigger] steps@[r]).0@ == x;
                    if r < before.len() {
                        assert(steps@[r] == before[r]);
                        assert(named_in(before, x));
                        assert(declared_before(v, i as int, x));
                        let j = choose|j: int| 0 <= j < i && (#[trigger] v[j]).0 == x;
                        assert(v[j].0 == x);
                    } else {
                        assert(steps@[r].0@ == flat@[i as int].0@);
                        assert(v[i as int].0 == x);
                    }
                    assert(declared_before(v, i + 1, x));
                }
                if declared_before(v, i + 1, x) {
                    let j = choose|j: int| 0 <= j < i + 1 && (#[trigger] v[j]).0 == x;
                    if j < i {
                        assert(declared_before(v, i as int, x));
                        assert(named_in(before, x));
                        let r = choose|r: int| 0 <= r < before.len() && (#[trigger] before[r]).0@ == x;
                        assert(steps@[r] == before[r]);
                    } else if !seen {
                        assert(steps@[before.len() as int].0@ == x);
                    } else {
                        let r = choose|r: int| 0 <= r < q && (#[trigger] steps@[r]).0@ == name@;
                        assert(steps@ == before);
                        assert(name@ == vi.0);
                        assert(steps@[r].0@ == x);
                    }
                    assert(named_in(steps@, x));
                }
            }
        }
        let ghost sbefore = string_views(succ@);
        let mut k: usize = 0;
        while k < flat[i].1.len()
            invariant
                i < flat@.len(),
                k <= flat@[i as int].1@.len(),
                string_views(succ@) == sbefore + string_views(flat@[i as int].1@).take(k as int),
            decreases flat@[i as int].1@.len() - k,
        {
            let ghost b = string_views(succ@);
            succ.push(flat[i].1[k].clone());
            proof {
                assert(string_views(succ@) =~= b.push(flat@[i as int].1@[k as int]@));
                assert(string_views(flat@[i as int].1@).take(k + 1) =~= string_views(flat@[i as int].1@).take(k as int).push(
                    flat@[i as int].1@[k as int]@,
                ));
            }
            k = k + 1;
        }
        proof {
            assert(string_views(flat@[i as int].1@).take(k as int) =~= vi.1);
            assert forall|x: Seq<char>| string_views(succ@).contains(x) <==> targeted(v.take(i + 1), x) by {
                let t = v.take(i + 1);
                if string_views(succ@).contains(x) {
                    let p = choose|p: int| 0 <= p < string_views(succ@).len() && string_views(succ@)[p] == x;
                    if p < sbefore.len() {
                        assert(sbefore[p] == x);
                        assert(sbefore.contains(x));
                        assert(targeted(v.take(i as int), x));
                        let r = choose|r: int| 0 <= r < v.take(i as int).len() && (#[trigger] v.take(i as int)[r]).1.contains(x);
                        assert(t[r] == v.take(i as int)[r]);
                    } else {
                        assert(vi.1[p - sbefore.len()] == x);
                        assert(t[i as int] == vi);
                        assert(t[i as int].1.contains(x));
                    }
                }
                if targeted(t, x) {
                    let r = choose|r: int| 0 <= r < t.len() && (#[trigger] t[r]).1.contains(x);
                    if r < i {
                        assert(v.take(i as int)[r] == t[r]);
                        assert(targeted(v.take(i as int), x));
                        assert(sbefore.contains(x));
                        let p = choose|p: int| 0 <= p < sbefore.len() && sbefore[p] == x;
                        assert(string_views(succ@)[p] == x);
                    } else {
                        assert(t[r] == vi);
                        let p = choose|p: int| 0 <= p < vi.1.len() && vi.1[p] == x;
                        assert(string_views(succ@)[sbefore.len() + p] == x);
                    }
                }
            }
        }
        i = i + 1;
    }
    proof {
        assert(v.take(i as int) =~= v);
    }
    let mut active: Vec<String> = Vec::new();
    let mut j: usize = 0;
    while j < flat.len()
        invariant
            j <= flat@.len(),
            v.len() == flat@.len(),
            forall|q: int| 0 <= q < flat@.len() ==> step_entry(#[trigger] flat@[q]) == v[q],
            forall|x: Seq<char>| string_views(succ@).contains(x) <==> targeted(v, x),
            string_views(active@) == root_steps_of(v, v.take(j as int)),
        decreases flat@.len() - j,
    {
        let name = flat[j].0.as_str();
        proof {
            assert(step_entry(flat@[j as int]) == v[j as int]);
            let t = v.take(j + 1);
            assert(t.drop_last() =~= v.take(j as int));
            assert(t.last() == v[j as int]);
        }
        let ghost before = string_views(active@);
        if !lists_name(&succ, name) {
            active.push(flat[j].0.clone());
            proof {
                assert(string_views(active@) =~= before.push(name@));
            }
        }
        j = j + 1;
    }
    proof {
        assert(v.take(j as int) =~= v);
    }
    (BridgeWorkflow { steps }, active)
}

/// A copy of a list of strings.
fn copy_strings(v: &Vec<String>) -> (res: Vec<String>)
    ensures
        string_views(res@) == string_views(v@),
{
    let mut res: Vec<String> = Vec::new();
    let mut k: usize = 0;
    while k < v.len()
        invariant
            k <= v@.len(),
            string_views(res@) == string_views(v@).take(k as int),
        decreases v@.len() - k,
    {
        let ghost before = string_views(res@);
        res.push(v[k].clone());
        proof {
            assert(string_views(res@) =~= before.push(v@[k as int]@));
            assert(string_views(v@).take(k + 1) =~= string_views(v@).take(k as int).push(v@[k as int]@));
        }
        k = k + 1;
    }
    proof {
        assert(string_views(v@).take(k as int) =~= string_views(v@));
    }
    res
}


/// Whether `x` is listed.
fn lists_name(list: &Vec<String>, x: &str) -> (res: bool)
    ensures
        res == string_views(list@).contains(x@),
{
    let mut k: usize = 0;
    while k < list.len()
        invariant
            k <= list@.len(),
            forall|q: int| 0 <= q < k ==> (#[trigger] list@[q])@ != x@,
        decreases list@.len() - k,
    {
        if crate::projector::str_eq(list[k].as_str(), x) {
            proof {
                assert(string_views(list@)[k as int] == x@);
            }
            return true;
        }
        k = k + 1;
    }
    proof {
        if string_views(list@).contains(x@) {
            let j = choose|j: int| 0 <= j < list@.len() && string_views(list@)[j] == x@;
            assert(list@[j]@ == x@);
        }
    }
    false
}


// ---------------------------------------------------------------------------------------
// The tail through the dispatch state machine.
// ---------------------------------------------------------------------------------------

/// One command of a transition: dispatch the named step.
#[derive(Debug, Clone, PartialEq, Eq)]
pub struct BridgeCommand {
    pub step_id: String,
}

/// The result of one transition of the AIR transition core: the steps ready, and the
/// dispatch commands it produced, in order.
#[derive(Debug, Clone, PartialEq, Eq)]
pub struct BridgeTransitionResult {
    pub ready_steps: Vec<String>,
    pub commands: Vec<BridgeCommand>,
}

/// A transition and the outcome of dispatching each of its commands, in command order.
#[derive(Debug, Clone, PartialEq, Eq)]
pub struct ExternalWitnessF16Outcome {
    pub transition: BridgeTransitionResult,
    pub dispatch_outcomes: Vec<(String, DispatchStatemOutcome)>,
}

/// The dispatch requests for a transition's commands, in command order.
pub fn dispatch_requests(transition: &BridgeTransitionResult, crown_receipt: &str) -> (res: Vec<DispatchStatemRequest>)
    ensures
        res@.len() == transition.commands@.len(),
        forall|k: int|
            0 <= k < res@.len() ==> (#[trigger] res@[k]).step_id@ == transition.commands@[k].step_id@ && res@[k].workflow_id@
                == "crown-ext-f16-"@ + crown_receipt@ && res@[k].correlation_id@ == "crown-ext-f16-corr-"@ + crown_receipt@
                + "-"@ + transition.commands@[k].step_id@,
{
    let mut res: Vec<DispatchStatemRequest> = Vec::new();
    let mut k: usize = 0;
    while k < transition.commands.len()
        invariant
            k <= transition.commands@.len(),
            res@.len() == k,
            forall|q: int|
                0 <= q < k ==> (#[trigger] res@[q]).step_id@ == transition.commands@[q].step_id@ && res@[q].workflow_id@
                    == "crown-ext-f16-"@ + crown_receipt@ && res@[q].correlation_id@ == "crown-ext-f16-corr-"@ + crown_receipt@
                    + "-"@ + transition.commands@[q].step_id@,
        decreases transition.commands@.len() - k,
    {
        res.push(f16_identity_for_step(crown_receipt, transition.commands[k].step_id.as_str()));
        k = k + 1;
    }
    res
}

/// The dispatch answered at position `k` is the first refused one, and `e` names its step
/// and carries its refusal.
pub open spec fn refused_at(
    replies: Seq<Result<DispatchStatemOutcome, String>>,
    t: BridgeTransitionResult,
    k: int,
    e: ExternalWitnessF16Refused,
) -> bool {
    &&& 0 <= k < replies.len()
    &&& forall|j: int| 0 <= j < k ==> (#[trigger] replies[j]) is Ok
    &&& replies[k] matches Err(src) && e matches ExternalWitnessF16Refused::DispatchStatem { step_id, source }
        && step_id@ == t.commands@[k].step_id@ && source == src
}

/// The replies a tail is driven with: none where the transition was refused (nothing is
/// dispatched); otherwise one per command, in command order, up to and including the
/// first refused one, after which no command is dispatched.
pub open spec fn replies_fit(
    transition: Result<BridgeTransitionResult, String>,
    replies: Seq<Result<DispatchStatemOutcome, String>>,
) -> bool {
    match transition {
        Err(_) => replies.len() == 0,
        Ok(t) => {
            &&& replies.len() <= t.commands@.len()
            &&& forall|k: int| 0 <= k < replies.len() - 1 ==> (#[trigger] replies[k]) is Ok
            &&& replies.len() < t.commands@.len() ==> replies.len() > 0 && replies.last() is Err
        },
    }
}

/// Assembles the tail's outcome from the transition the core answered and the answers of
/// the dispatch state machine to the requests for its commands, taken in command order
/// up to the first refusal: a refused transition refuses the tail, the first refused
/// dispatch refuses it naming its step, and otherwise every command has its outcome.
pub fn drive_external_witness_tail_through_f16(
    transition: Result<BridgeTransitionResult, String>,
    dispatch_replies: Vec<Result<DispatchStatemOutcome, String>>,
) -> (res: Result<ExternalWitnessF16Outcome, ExternalWitnessF16Refused>)
    requires
        replies_fit(transition, dispatch_replies@),
    ensures
        transition is Err ==> res == Err::<ExternalWitnessF16Outcome, ExternalWitnessF16Refused>(
            ExternalWitnessF16Refused::AirTransition(transition->Err_0),
        ),
        transition is Ok && res is Ok ==> {
            let t = transition->Ok_0;
            let o = res->Ok_0;
            &&& o.transition == t
            &&& o.dispatch_outcomes@.len() == t.commands@.len()
            &&& forall|k: int|
                0 <= k < t.commands@.len() ==> dispatch_replies@[k] == Ok::<DispatchStatemOutcome, String>(
                    (#[trigger] o.dispatch_outcomes@[k]).1,
                ) && o.dispatch_outcomes@[k].0@ == t.commands@[k].step_id@
        },
        transition is Ok && res is Err ==> refused_at(
            dispatch_replies@,
            transition->Ok_0,
            dispatch_replies@.len() - 1,
            res->Err_0,
        ),
        transition is Ok ==> (res is Ok <==> forall|k: int| 0 <= k < dispatch_replies@.len() ==> (#[trigger] dispatch_replies@[k]) is Ok),
{
    let ghost tr = transition;
    let t = match transition {
        Err(e) => {
            return Err(ExternalWitnessF16Refused::AirTransition(e));
        },
        Ok(t) => t,
    };
    proof {
        assert(tr == Ok::<BridgeTransitionResult, String>(t));
    }
    let mut outcomes: Vec<(String, DispatchStatemOutcome)> = Vec::new();
    let mut refusal: Option<ExternalWitnessF16Refused> = None;
    let mut k: usize = 0;
    while k < dispatch_replies.len()
        invariant
            k <= dispatch_replies@.len(),
            dispatch_replies@.len() <= t.commands@.len(),
            replies_fit(tr, dispatch_replies@),
            tr == Ok::<BridgeTransitionResult, String>(t),
            outcomes@.len() == k,
            forall|q: int|
                0 <= q < k ==> dispatch_replies@[q] == Ok::<DispatchStatemOutcome, String>((#[trigger] outcomes@[q]).1)
                    && outcomes@[q].0@ == t.commands@[q].step_id@,
            refusal matches Some(e) ==> refused_at(dispatch_replies@, t, k as int, e),
        ensures
            replies_fit(tr, dispatch_replies@),
            tr == Ok::<BridgeTransitionResult, String>(t),
            refusal is None ==> k == dispatch_replies@.len(),
            refusal matches Some(e) ==> refused_at(dispatch_replies@, t, k as int, e),
            outcomes@.len() == k,
            forall|q: int|
                0 <= q < k ==> dispatch_replies@[q] == Ok::<DispatchStatemOutcome, String>((#[trigger] outcomes@[q]).1)
                    && outcomes@[q].0@ == t.commands@[q].step_id@,
        decreases dispatch_replies@.len() - k,
    {
        match &dispatch_replies[k] {
            Ok(o) => {
                let ghost before = outcomes@;
                outcomes.push((t.commands[k].step_id.clone(), copy_outcome(o)));
                proof {
                    assert forall|q: int|
                        0 <= q < k + 1 implies dispatch_replies@[q] == Ok::<DispatchStatemOutcome, String>((#[trigger] outcomes@[q]).1)
                            && outcomes@[q].0@ == t.commands@[q].step_id@ by {
                        if q < k {
                            assert(outcomes@[q] == before[q]);
                        }
                    }
                }
            },
            Err(src) => {
                let e = ExternalWitnessF16Refused::DispatchStatem { step_id: t.commands[k].step_id.clone(), source: src.clone() };
                proof {
                    assert forall|j: int| 0 <= j < k implies (#[trigger] dispatch_replies@[j]) is Ok by {
                        assert(dispatch_replies@[j] == Ok::<DispatchStatemOutcome, String>(outcomes@[j].1));
                    }
                }
                refusal = Some(e);
                break;
            },
        }
        k = k + 1;
    }
    match refusal {
        Some(e) => {
            let r: Result<ExternalWitnessF16Outcome, ExternalWitnessF16Refused> = Err(e);
            proof {
                assert(refused_at(dispatch_replies@, tr->Ok_0, k as int, r->Err_0));
                if k < dispatch_replies@.len() - 1 {
                    assert(dispatch_replies@[k as int] is Ok);
                }
                assert(k == dispatch_replies@.len() - 1);
            }
            r
        },
        None => {
            proof {
                assert forall|q: int| 0 <= q < dispatch_replies@.len() implies (#[trigger] dispatch_replies@[q]) is Ok by {
                    assert(dispatch_replies@[q] == Ok::<DispatchStatemOutcome, String>(outcomes@[q].1));
                }
                if dispatch_replies@.len() < t.commands@.len() {
                    assert(dispatch_replies@[dispatch_replies@.len() - 1] is Ok);
                }
            }
            Ok(ExternalWitnessF16Outcome { transition: t, dispatch_outcomes: outcomes })
        },
    }
}


/// A copy of a dispatch outcome.
fn copy_outcome(o: &DispatchStatemOutcome) -> (res: DispatchStatemOutcome)
    ensures
        res == *o,
{
    match o {
        DispatchStatemOutcome::Completed { dispatch_token } => DispatchStatemOutcome::Completed {
            dispatch_token: dispatch_token.clone(),
        },
        DispatchStatemOutcome::Refused { refusal_atom } => DispatchStatemOutcome::Refused { refusal_atom: refusal_atom.clone() },
    }
}

} // verus!
