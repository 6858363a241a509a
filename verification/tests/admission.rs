use multifractal_workflow::admission::{
    admit_observation, find_subject_and_principal, receipt_hash, AdmissionLedger, AdmissionPolicy, AdmissionState,
    ObservationAdmissionRefused, RawObservation, RdfTerm, ShapeReport, Triple,
    PROV_WAS_DERIVED_FROM,
};

const SOURCE: &str = "email-api-1";
const PRINCIPAL: &str = "https://source.example.org/email-api-1";
const SUBJECT: &str = "https://example.org/obs/42";
const NAME_PRED: &str = "https://example.org/vocab#name";

fn iri(s: &str) -> RdfTerm {
    RdfTerm::Iri(s.to_string())
}

fn literal(s: &str) -> RdfTerm {
    RdfTerm::Other(format!("\"{s}\""))
}

fn triple(s: RdfTerm, p: RdfTerm, o: RdfTerm) -> Triple {
    Triple { s, p, o }
}

fn policy_with(authorized: Vec<&str>, schemes: Vec<&str>) -> AdmissionPolicy {
    AdmissionPolicy {
        known_principals: vec![(SOURCE.to_string(), PRINCIPAL.to_string())],
        authorized_predicates: vec![(
            SOURCE.to_string(),
            authorized.into_iter().map(str::to_string).collect(),
        )],
        allowed_vocabulary_prefixes: vec!["https://example.org/vocab#".to_string()],
        allowed_subject_schemes: schemes.into_iter().map(str::to_string).collect(),
    }
}

fn base_policy() -> AdmissionPolicy {
    policy_with(vec![NAME_PRED], vec!["https://", "http://"])
}

fn payload(name_value: &str) -> Vec<Triple> {
    vec![
        triple(iri(SUBJECT), iri(PROV_WAS_DERIVED_FROM), iri(PRINCIPAL)),
        triple(iri(SUBJECT), iri(NAME_PRED), literal(name_value)),
    ]
}

fn raw_observation(correlation_id: &str) -> RawObservation {
    RawObservation {
        correlation_id: correlation_id.to_string(),
        source_id: SOURCE.to_string(),
        declared_subject: SUBJECT.to_string(),
        payload_turtle: String::new(),
    }
}

fn conforms() -> ShapeReport {
    ShapeReport {
        conforms: true,
        violation_count: 0,
    }
}

#[test]
fn happy_path_admits_and_hashes() {
    let policy = base_policy();
    let mut ledger = AdmissionLedger::new();
    let receipt = admit_observation(
        &policy,
        &mut ledger,
        raw_observation("corr-happy-1"),
        Ok(payload("Alice")),
        conforms(),
    )
    .expect("gates should pass");
    assert_eq!(receipt.state, AdmissionState::Admitted);
    assert_eq!(receipt.correlation_id, "corr-happy-1");
    assert_eq!(receipt.triple_count, 2);
    assert_eq!(receipt.receipt_hash.len(), 64);
    assert!(receipt
        .receipt_hash
        .chars()
        .all(|c| c.is_ascii_hexdigit() && !c.is_ascii_uppercase()));
    assert_eq!(ledger.len().unwrap(), 1);
}

#[test]
fn replay_equivalence_returns_same_receipt_without_duplicating_ledger() {
    let policy = base_policy();
    let mut ledger = AdmissionLedger::new();
    let first = admit_observation(
        &policy,
        &mut ledger,
        raw_observation("corr-replay"),
        Ok(payload("Alice")),
        conforms(),
    )
    .expect("first admission should pass");
    let second = admit_observation(
        &policy,
        &mut ledger,
        raw_observation("corr-replay"),
        Ok(payload("Alice")),
        conforms(),
    )
    .expect("identical replay should be idempotent, not refused");
    assert_eq!(first, second);
    assert_eq!(ledger.len().unwrap(), 1);
}

#[test]
fn correlation_conflict_on_replay_with_different_payload() {
    let policy = base_policy();
    let mut ledger = AdmissionLedger::new();
    admit_observation(
        &policy,
        &mut ledger,
        raw_observation("corr-conflict"),
        Ok(payload("Alice")),
        conforms(),
    )
    .expect("first admission should pass");
    let err = admit_observation(
        &policy,
        &mut ledger,
        raw_observation("corr-conflict"),
        Ok(payload("Bob")),
        conforms(),
    )
    .expect_err("differing payload under the same correlation id must refuse");
    assert_eq!(
        err,
        ObservationAdmissionRefused::CorrelationConflict {
            correlation_id: "corr-conflict".to_string(),
        }
    );
    assert_eq!(ledger.len().unwrap(), 1);
}

#[test]
fn malformed_payload_bad_turtle() {
    let policy = base_policy();
    let mut ledger = AdmissionLedger::new();
    let err = admit_observation(
        &policy,
        &mut ledger,
        raw_observation("corr-bad-turtle"),
        Err("unexpected token".to_string()),
        conforms(),
    )
    .expect_err("bad Turtle must refuse");
    assert!(matches!(err, ObservationAdmissionRefused::MalformedPayload { .. }));
    assert!(ledger.is_empty().unwrap());
}

#[test]
fn malformed_payload_empty() {
    let policy = base_policy();
    let mut ledger = AdmissionLedger::new();
    let err = admit_observation(
        &policy,
        &mut ledger,
        raw_observation("corr-empty"),
        Ok(vec![]),
        conforms(),
    )
    .expect_err("zero triples must refuse");
    assert_eq!(
        err,
        ObservationAdmissionRefused::MalformedPayload {
            correlation_id: "corr-empty".to_string(),
            reason: "payload contains zero triples".to_string(),
        }
    );
}

#[test]
fn identity_unresolved_unknown_source() {
    let policy = base_policy();
    let mut ledger = AdmissionLedger::new();
    let mut obs = raw_observation("corr-unknown-source");
    obs.source_id = "not-registered".to_string();
    let err = admit_observation(&policy, &mut ledger, obs, Ok(payload("Alice")), conforms())
        .expect_err("unknown source_id must refuse at identity resolution");
    assert!(matches!(err, ObservationAdmissionRefused::IdentityUnresolved { .. }));
}

#[test]
fn identity_unresolved_subject_not_in_payload() {
    let policy = base_policy();
    let mut ledger = AdmissionLedger::new();
    let mut obs = raw_observation("corr-subject-absent");
    obs.declared_subject = "https://example.org/obs/does-not-appear".to_string();
    let err = admit_observation(&policy, &mut ledger, obs, Ok(payload("Alice")), conforms())
        .expect_err("declared subject absent from payload must refuse");
    assert!(matches!(err, ObservationAdmissionRefused::IdentityUnresolved { .. }));
}

#[test]
fn identity_unresolved_subject_with_white_space() {
    let policy = base_policy();
    let mut ledger = AdmissionLedger::new();
    let mut obs = raw_observation("corr-subject-space");
    obs.declared_subject = "https://example.org/obs 42".to_string();
    let err = admit_observation(&policy, &mut ledger, obs, Ok(payload("Alice")), conforms())
        .expect_err("a subject with white space is not a well-formed IRI");
    assert!(matches!(err, ObservationAdmissionRefused::IdentityUnresolved { .. }));
}

#[test]
fn provenance_unverified_missing_triple() {
    let policy = base_policy();
    let mut ledger = AdmissionLedger::new();
    let triples = vec![triple(iri(SUBJECT), iri(NAME_PRED), literal("Alice"))];
    let err = admit_observation(
        &policy,
        &mut ledger,
        raw_observation("corr-no-prov"),
        Ok(triples),
        conforms(),
    )
    .expect_err("missing prov:wasDerivedFrom must refuse");
    assert!(matches!(err, ObservationAdmissionRefused::ProvenanceUnverified { .. }));
}

#[test]
fn provenance_unverified_wrong_principal() {
    let policy = base_policy();
    let mut ledger = AdmissionLedger::new();
    let triples = vec![
        triple(iri(SUBJECT), iri(PROV_WAS_DERIVED_FROM), iri("https://elsewhere.example.org/x")),
        triple(iri(SUBJECT), iri(NAME_PRED), literal("Alice")),
    ];
    let err = admit_observation(
        &policy,
        &mut ledger,
        raw_observation("corr-wrong-prov"),
        Ok(triples),
        conforms(),
    )
    .expect_err("a derivation from another principal must refuse");
    assert!(matches!(err, ObservationAdmissionRefused::ProvenanceUnverified { .. }));
}

#[test]
fn authority_denied_unauthorized_predicate() {
    let policy = base_policy();
    let mut ledger = AdmissionLedger::new();
    let mut triples = payload("Alice");
    triples.push(triple(
        iri(SUBJECT),
        iri("https://example.org/vocab#secretRole"),
        literal("admin"),
    ));
    let err = admit_observation(
        &policy,
        &mut ledger,
        raw_observation("corr-unauthorized-pred"),
        Ok(triples),
        conforms(),
    )
    .expect_err("predicate outside source's authorized set must refuse");
    assert!(matches!(
        err,
        ObservationAdmissionRefused::AuthorityDenied { ref predicate, .. }
        if predicate.contains("secretRole")
    ));
}

#[test]
fn authority_denied_names_the_least_unauthorized_predicate() {
    let policy = base_policy();
    let mut ledger = AdmissionLedger::new();
    let mut triples = payload("Alice");
    triples.push(triple(iri(SUBJECT), iri("https://example.org/vocab#zeta"), literal("z")));
    triples.push(triple(iri(SUBJECT), iri("https://example.org/vocab#alpha"), literal("a")));
    let err = admit_observation(
        &policy,
        &mut ledger,
        raw_observation("corr-two-unauthorized"),
        Ok(triples),
        conforms(),
    )
    .unwrap_err();
    assert_eq!(
        err,
        ObservationAdmissionRefused::AuthorityDenied {
            correlation_id: "corr-two-unauthorized".to_string(),
            source_id: SOURCE.to_string(),
            predicate: "https://example.org/vocab#alpha".to_string(),
        }
    );
}

#[test]
fn malformed_payload_non_iri_predicate() {
    let policy = base_policy();
    let mut ledger = AdmissionLedger::new();
    let mut triples = payload("Alice");
    triples.push(triple(iri(SUBJECT), literal("not-an-iri"), literal("x")));
    let err = admit_observation(
        &policy,
        &mut ledger,
        raw_observation("corr-literal-pred"),
        Ok(triples),
        conforms(),
    )
    .unwrap_err();
    assert!(matches!(err, ObservationAdmissionRefused::MalformedPayload { .. }));
}

#[test]
fn shape_non_conformant_missing_required_property() {
    let policy = base_policy();
    let mut ledger = AdmissionLedger::new();
    let triples = vec![triple(iri(SUBJECT), iri(PROV_WAS_DERIVED_FROM), iri(PRINCIPAL))];
    let err = admit_observation(
        &policy,
        &mut ledger,
        raw_observation("corr-shape-fail"),
        Ok(triples),
        ShapeReport {
            conforms: false,
            violation_count: 1,
        },
    )
    .expect_err("missing required SHACL property must refuse");
    assert!(matches!(
        err,
        ObservationAdmissionRefused::ShapeNonConformant {
            violation_count,
            ..
        } if violation_count >= 1
    ));
}

#[test]
fn semantic_non_conformant_outside_vocabulary() {
    let policy = policy_with(
        vec![NAME_PRED, "https://other-namespace.example.org/unlisted"],
        vec!["https://"],
    );
    let mut ledger = AdmissionLedger::new();
    let mut triples = payload("Alice");
    triples.push(triple(
        iri(SUBJECT),
        iri("https://other-namespace.example.org/unlisted"),
        literal("value"),
    ));
    let err = admit_observation(
        &policy,
        &mut ledger,
        raw_observation("corr-outside-vocab"),
        Ok(triples),
        conforms(),
    )
    .expect_err("predicate outside allowed vocabulary must refuse");
    assert!(matches!(
        err,
        ObservationAdmissionRefused::SemanticNonConformant { ref predicate, .. }
        if predicate.contains("other-namespace")
    ));
}

#[test]
fn receipt_hash_ignores_triple_order_but_not_correlation() {
    let mut reversed = payload("Alice");
    reversed.reverse();
    let a = receipt_hash("corr", &payload("Alice"));
    let b = receipt_hash("corr", &reversed);
    let c = receipt_hash("other", &payload("Alice"));
    assert_eq!(a, b);
    assert_ne!(a, c);
}

#[test]
fn receipt_hash_is_blake3_over_the_sorted_zero_framed_lines() {
    let triples = vec![triple(iri("urn:s"), iri("urn:p"), literal("o"))];
    let mut bytes = b"c\x00".to_vec();
    bytes.extend_from_slice(b"<urn:s> <urn:p> \"o\" .\x00");
    let expected = blake3::hash(&bytes).to_hex().to_string();
    assert_eq!(receipt_hash("c", &triples), expected);
}

#[test]
fn subject_and_principal_come_from_the_first_iri_provenance_triple() {
    let triples = vec![
        triple(iri(SUBJECT), iri(NAME_PRED), literal("Alice")),
        triple(iri(SUBJECT), iri(PROV_WAS_DERIVED_FROM), literal("not an iri")),
        triple(iri(SUBJECT), iri(PROV_WAS_DERIVED_FROM), iri(PRINCIPAL)),
        triple(iri("https://example.org/other"), iri(PROV_WAS_DERIVED_FROM), iri("https://x")),
    ];
    assert_eq!(
        find_subject_and_principal(&triples),
        Some((SUBJECT.to_string(), PRINCIPAL.to_string()))
    );
    assert_eq!(find_subject_and_principal(&payload("Alice")[1..].to_vec()), None);
}

#[test]
fn refusal_reasons_name_the_failing_check() {
    let policy = base_policy();
    let mut ledger = AdmissionLedger::new();
    let mut obs = raw_observation("corr-reason-1");
    obs.source_id = "not-registered".to_string();
    let err = admit_observation(&policy, &mut ledger, obs, Ok(payload("Alice")), conforms()).unwrap_err();
    assert_eq!(
        err,
        ObservationAdmissionRefused::IdentityUnresolved {
            correlation_id: "corr-reason-1".to_string(),
            reason: "source_id not-registered is not a known principal".to_string(),
        }
    );
    let err = admit_observation(
        &policy,
        &mut ledger,
        raw_observation("corr-reason-2"),
        Err("unexpected token".to_string()),
        conforms(),
    )
    .unwrap_err();
    assert_eq!(
        err,
        ObservationAdmissionRefused::MalformedPayload {
            correlation_id: "corr-reason-2".to_string(),
            reason: "Turtle parse error: unexpected token".to_string(),
        }
    );
    let triples = vec![
        triple(iri(SUBJECT), iri(PROV_WAS_DERIVED_FROM), iri("https://elsewhere.example.org/x")),
        triple(iri(SUBJECT), iri(NAME_PRED), literal("Alice")),
    ];
    let err = admit_observation(&policy, &mut ledger, raw_observation("corr-reason-3"), Ok(triples), conforms())
        .unwrap_err();
    assert_eq!(
        err,
        ObservationAdmissionRefused::ProvenanceUnverified {
            correlation_id: "corr-reason-3".to_string(),
            reason: "asserted derivation https://elsewhere.example.org/x does not match source email-api-1's principal https://source.example.org/email-api-1".to_string(),
        }
    );
}

#[test]
fn malformed_subject_reason_quotes_the_subject() {
    let policy = base_policy();
    let mut ledger = AdmissionLedger::new();
    let mut obs = raw_observation("corr-reason-4");
    obs.declared_subject = "https://example.org/obs 42".to_string();
    let err = admit_observation(&policy, &mut ledger, obs, Ok(payload("Alice")), conforms()).unwrap_err();
    assert_eq!(
        err,
        ObservationAdmissionRefused::IdentityUnresolved {
            correlation_id: "corr-reason-4".to_string(),
            reason: "declared_subject \"https://example.org/obs 42\" is not a well-formed IRI under the allowed schemes"
                .to_string(),
        }
    );
}
