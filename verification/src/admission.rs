//! Observation admission: an untrusted observation passes identity, provenance,
//! authority, shape and vocabulary gates, in that order, before it is admitted into the
//! ledger under its correlation id; a replay of the same payload gets the same receipt.

use vstd::prelude::*;
use vstd::utf8::encode_utf8;
use crate::digest::{blake3_digest, blake3_hex, hex_lower};
use vstd::relations::total_ordering;
use crate::lex::{lex_le, lex_leq, lemma_lex_total_ordering, sort_strings, str_le, string_views};
use crate::projector::str_eq;
use crate::text::{debug_quoted, debug_text, owned, push_str, white_space, is_white_space};

verus! {

/// The predicate that binds an observation's subject to the source it derives from.
pub const PROV_WAS_DERIVED_FROM: &'static str = "http://www.w3.org/ns/prov#wasDerivedFrom";

/// An untrusted observation as received.
#[derive(Debug, Clone, PartialEq, Eq)]
pub struct RawObservation {
    /// Idempotency and correlation key.
    pub correlation_id: String,
    /// The external system asserting the observation.
    pub source_id: String,
    /// Bare IRI of the entity the observation is about.
    pub declared_subject: String,
    /// The observation's RDF content, in Turtle.
    pub payload_turtle: String,
}

/// The identity gate's output.
#[derive(Debug, Clone, PartialEq, Eq)]
pub struct IdentityLink {
    pub subject_iri: String,
    pub resolved_principal: String,
}

/// The provenance gate's output.
#[derive(Debug, Clone, PartialEq, Eq)]
pub struct ProvenanceBundle {
    pub subject_iri: String,
    pub source_id: String,
    pub asserted_derivation_iri: String,
}

/// The authority gate's output.
#[derive(Debug, Clone, PartialEq, Eq)]
pub struct AuthorityEvidence {
    pub source_id: String,
    pub authorized_predicate_count: usize,
}

/// The shape gate's input and output: the outcome of validating the payload against
/// the policy's shapes.
#[derive(Debug, Clone, Copy, PartialEq, Eq)]
pub struct ShapeReport {
    pub conforms: bool,
    pub violation_count: usize,
}

/// The vocabulary gate's output.
#[derive(Debug, Clone, PartialEq, Eq)]
pub struct ConformanceReport {
    pub conforms: bool,
    pub distinct_predicate_count: usize,
}

/// The lifecycle states of an observation.
#[derive(Clone, Copy, Debug, PartialEq, Eq, Structural)]
pub enum AdmissionState {
    Received,
    Identified,
    Provenanced,
    Authorized,
    Structured,
    Conformant,
    Admitted,
    Refused,
}

/// The receipt of an admitted observation.
#[derive(Debug, Clone, PartialEq, Eq)]
pub struct AdmissionReceipt {
    pub correlation_id: String,
    pub source_id: String,
    pub subject_iri: String,
    pub state: AdmissionState,
    pub receipt_hash: String,
    pub triple_count: usize,
}

/// Why an observation was refused.
#[derive(Debug, Clone, PartialEq, Eq)]
pub enum ObservationAdmissionRefused {
    MalformedPayload { correlation_id: String, reason: String },
    IdentityUnresolved { correlation_id: String, reason: String },
    ProvenanceUnverified { correlation_id: String, reason: String },
    AuthorityDenied { correlation_id: String, source_id: String, predicate: String },
    ShapeNonConformant { correlation_id: String, violation_count: usize },
    SemanticNonConformant { correlation_id: String, predicate: String },
    CorrelationConflict { correlation_id: String },
    LedgerUnavailable { reason: String },
}

/// One ledger row: the payload hash a correlation id was admitted with, and its receipt.
#[derive(Debug, Clone)]
pub struct LedgerEntry {
    pub payload_hash: String,
    pub receipt: AdmissionReceipt,
}

/// A ledger row holds an admitted receipt of its own correlation id, whose hash is the
/// row's payload hash, 64 hex digits long.
pub open spec fn row_admitted(row: (Seq<char>, Seq<char>, ReceiptView)) -> bool {
    &&& row.2.0 == row.0
    &&& row.2.3 == AdmissionState::Admitted
    &&& row.2.4 == row.1
    &&& row.1.len() == 64
}

/// The admission ledger: one row per admitted correlation id.
#[derive(Debug)]
pub struct AdmissionLedger {
    entries: Vec<(String, LedgerEntry)>,
}

impl AdmissionLedger {
    /// The rows, in admission order: correlation id, payload hash and receipt.
    pub closed spec fn rows(&self) -> Seq<(Seq<char>, Seq<char>, ReceiptView)> {
        self.entries@.map_values(|e: (String, LedgerEntry)| (e.0@, e.1.payload_hash@, receipt_view(e.1.receipt)))
    }

    /// No correlation id is admitted twice, and every row holds an admitted receipt of
    /// its own correlation id, hashed as the row's payload hash.
    pub open spec fn wf(&self) -> bool {
        &&& forall|i: int, j: int| 0 <= i < j < self.rows().len() ==> (#[trigger] self.rows()[i]).0 != (#[trigger] self.rows()[j]).0
        &&& forall|i: int| 0 <= i < self.rows().len() ==> row_admitted(#[trigger] self.rows()[i])
    }

    /// An empty ledger.
    pub fn new() -> (res: Self)
        ensures
            res.wf(),
            res.rows() == Seq::<(Seq<char>, Seq<char>, ReceiptView)>::empty(),
    {
        let res = AdmissionLedger { entries: Vec::new() };
        proof {
            assert(res.rows() =~= Seq::<(Seq<char>, Seq<char>, ReceiptView)>::empty());
        }
        res
    }

    /// The number of distinct correlation ids admitted.
    pub fn len(&self) -> (res: Result<usize, ObservationAdmissionRefused>)
        ensures
            res matches Ok(n) && n == self.rows().len(),
    {
        proof {
            assert(self.rows().len() == self.entries@.len());
        }
        Ok(self.entries.len())
    }

    /// Whether no correlation id has been admitted.
    pub fn is_empty(&self) -> (res: Result<bool, ObservationAdmissionRefused>)
        ensures
            res == Ok::<bool, ObservationAdmissionRefused>(self.rows().len() == 0),
    {
        proof {
            assert(self.rows().len() == self.entries@.len());
            assert(self.entries@.len() == self.entries.len());
        }
        match self.len() {
            Ok(n) => Ok(n == 0),
            Err(e) => Err(e),
        }
    }
}


// ---------------------------------------------------------------------------------------
// The payload, read as triples.
// ---------------------------------------------------------------------------------------

/// One RDF term of a parsed payload: an IRI (bare, without angle brackets), any other
/// term by its canonical N-Triples display (a literal or a blank node), or an unbound
/// variable.
#[derive(Debug, Clone)]
pub enum RdfTerm {
    Iri(String),
    Other(String),
    Var,
}

/// One parsed triple.
#[derive(Debug, Clone)]
pub struct Triple {
    pub s: RdfTerm,
    pub p: RdfTerm,
    pub o: RdfTerm,
}

/// `t` is the IRI `iri`.
pub open spec fn is_iri(t: RdfTerm, iri: Seq<char>) -> bool {
    match t {
        RdfTerm::Iri(x) => x@ == iri,
        _ => false,
    }
}

/// The canonical display of a term: `<iri>`, the other term's own display, or
/// `?unbound`.
pub open spec fn term_text(t: RdfTerm) -> Seq<char> {
    match t {
        RdfTerm::Iri(x) => "<"@ + x@ + ">"@,
        RdfTerm::Other(d) => d@,
        RdfTerm::Var => "?unbound"@,
    }
}

/// The canonical line of a triple: `s p o .`.
pub open spec fn triple_line(t: Triple) -> Seq<char> {
    term_text(t.s) + " "@ + term_text(t.p) + " "@ + term_text(t.o) + " ."@
}

/// The canonical lines of the triples, in payload order.
pub open spec fn triple_lines(ts: Seq<Triple>) -> Seq<Seq<char>> {
    ts.map_values(|t: Triple| triple_line(t))
}

/// Each line's UTF-8 bytes followed by a zero byte.
pub open spec fn framed(lines: Seq<Seq<char>>) -> Seq<u8>
    decreases lines.len(),
{
    if lines.len() == 0 {
        Seq::empty()
    } else {
        framed(lines.drop_last()) + encode_utf8(lines.last()) + seq![0u8]
    }
}

/// The bytes a receipt hash is taken over: the correlation id and a zero byte, then the
/// payload's canonical lines in sorted order, each followed by a zero byte.
pub open spec fn receipt_bytes(correlation_id: Seq<char>, ts: Seq<Triple>) -> Seq<u8> {
    encode_utf8(correlation_id) + seq![0u8] + framed(triple_lines(ts).sort_by(lex_leq()))
}

/// The receipt hash: lowercase hex BLAKE3 of `receipt_bytes`.
pub open spec fn receipt_hash_of(correlation_id: Seq<char>, ts: Seq<Triple>) -> Seq<char> {
    hex_lower(blake3_digest(receipt_bytes(correlation_id, ts)))
}

/// Appends `t`'s display.
fn push_term(out: &mut String, t: &RdfTerm)
    ensures
        final(out)@ == old(out)@ + term_text(*t),
{
    match t {
        RdfTerm::Iri(x) => {
            push_str(out, "<");
            push_str(out, x.as_str());
            push_str(out, ">");
            proof {
                assert(final(out)@ =~= old(out)@ + term_text(*t));
            }
        },
        RdfTerm::Other(d) => {
            push_str(out, d.as_str());
        },
        RdfTerm::Var => {
            push_str(out, "?unbound");
        },
    }
}

/// The canonical line of a triple.
fn line_of(t: &Triple) -> (res: String)
    ensures
        res@ == triple_line(*t),
{
    let mut out = String::new();
    push_term(&mut out, &t.s);
    push_str(&mut out, " ");
    push_term(&mut out, &t.p);
    push_str(&mut out, " ");
    push_term(&mut out, &t.o);
    push_str(&mut out, " .");
    proof {
        assert(out@ =~= triple_line(*t));
    }
    out
}

/// Appends the bytes of `s`.
fn push_bytes(buf: &mut Vec<u8>, s: &str)
    ensures
        final(buf)@ == old(buf)@ + encode_utf8(s@),
{
    let b = s.as_bytes();
    let ghost start = buf@;
    let mut k: usize = 0;
    while k < b.len()
        invariant
            k <= b@.len(),
            b@ == encode_utf8(s@),
            buf@ == start + b@.take(k as int),
        decreases b@.len() - k,
    {
        buf.push(b[k]);
        proof {
            assert(b@.take(k + 1) =~= b@.take(k as int).push(b@[k as int]));
        }
        k = k + 1;
    }
    proof {
        assert(b@.take(k as int) =~= b@);
    }
}

/// The receipt hash of a payload under a correlation id.
pub fn receipt_hash(correlation_id: &str, triples: &Vec<Triple>) -> (res: String)
    ensures
        res@ == receipt_hash_of(correlation_id@, triples@),
        res@.len() == 64,
{
    let mut lines: Vec<String> = Vec::new();
    let mut k: usize = 0;
    while k < triples.len()
        invariant
            k <= triples@.len(),
            string_views(lines@) == triple_lines(triples@).take(k as int),
        decreases triples@.len() - k,
    {
        let line = line_of(&triples[k]);
        let ghost before = string_views(lines@);
        lines.push(line);
        proof {
            assert(string_views(lines@) =~= before.push(triple_line(triples@[k as int])));
            assert(triple_lines(triples@).take(k + 1) =~= triple_lines(triples@).take(k as int).push(
                triple_line(triples@[k as int]),
            ));
        }
        k = k + 1;
    }
    proof {
        assert(triple_lines(triples@).take(k as int) =~= triple_lines(triples@));
    }
    let sorted = sort_strings(lines);
    let mut buf: Vec<u8> = Vec::new();
    push_bytes(&mut buf, correlation_id);
    buf.push(0u8);
    let ghost head = buf@;
    let mut j: usize = 0;
    while j < sorted.len()
        invariant
            j <= sorted@.len(),
            buf@ == head + framed(string_views(sorted@).take(j as int)),
        decreases sorted@.len() - j,
    {
        push_bytes(&mut buf, sorted[j].as_str());
        buf.push(0u8);
        proof {
            let sv = string_views(sorted@);
            assert(sv.take(j + 1).drop_last() =~= sv.take(j as int));
            assert(sv.take(j + 1).last() == sorted@[j as int]@);
            assert(buf@ =~= head + framed(sv.take(j + 1)));
        }
        j = j + 1;
    }
    proof {
        assert(string_views(sorted@).take(j as int) =~= string_views(sorted@));
        assert(buf@ =~= receipt_bytes(correlation_id@, triples@));
    }
    blake3_hex(buf.as_slice())
}


// ---------------------------------------------------------------------------------------
// The policy and the gates.
// ---------------------------------------------------------------------------------------

/// The trust configuration observations are checked against. Each list is read as a
/// map whose first entry for a key counts.
#[derive(Debug)]
pub struct AdmissionPolicy {
    /// `source_id` to the canonical principal IRI (bare).
    pub known_principals: Vec<(String, String)>,
    /// `source_id` to the predicate IRIs (bare) that source may assert.
    pub authorized_predicates: Vec<(String, Vec<String>)>,
    /// Namespace prefixes a predicate IRI must start with.
    pub allowed_vocabulary_prefixes: Vec<String>,
    /// Schemes a declared subject IRI must start with.
    pub allowed_subject_schemes: Vec<String>,
}

/// The provenance predicate.
pub open spec fn prov_iri() -> Seq<char> {
    PROV_WAS_DERIVED_FROM@
}

/// The principal that the first entry for `src` names, if any.
pub open spec fn principal_of(kp: Seq<(String, String)>, src: Seq<char>) -> Option<Seq<char>>
    decreases kp.len(),
{
    if kp.len() == 0 {
        None
    } else if kp[0].0@ == src {
        Some(kp[0].1@)
    } else {
        principal_of(kp.drop_first(), src)
    }
}

/// The predicates that the first entry for `src` authorizes, if any.
pub open spec fn authorized_of(ap: Seq<(String, Vec<String>)>, src: Seq<char>) -> Option<Seq<Seq<char>>>
    decreases ap.len(),
{
    if ap.len() == 0 {
        None
    } else if ap[0].0@ == src {
        Some(string_views(ap[0].1@))
    } else {
        authorized_of(ap.drop_first(), src)
    }
}

/// `s` starts with `prefix`.
pub open spec fn starts_with(s: Seq<char>, prefix: Seq<char>) -> bool {
    prefix.len() <= s.len() && s.take(prefix.len() as int) == prefix
}

/// `s` starts with one of the `prefixes`.
pub open spec fn starts_with_any(prefixes: Seq<String>, s: Seq<char>) -> bool {
    exists|k: int| 0 <= k < prefixes.len() && starts_with(s, (#[trigger] prefixes[k])@)
}

/// `s` holds white space.
pub open spec fn has_white_space(s: Seq<char>) -> bool {
    exists|i: int| 0 <= i < s.len() && white_space(#[trigger] s[i])
}

/// Some triple has subject `d`.
pub open spec fn subject_present(ts: Seq<Triple>, d: Seq<char>) -> bool {
    exists|i: int| 0 <= i < ts.len() && is_iri((#[trigger] ts[i]).s, d)
}

/// Triple `t` is a provenance triple of subject `d`.
pub open spec fn is_prov_triple(t: Triple, d: Seq<char>) -> bool {
    is_iri(t.s, d) && is_iri(t.p, prov_iri())
}

/// The object of the first provenance triple of subject `d`, if any.
pub open spec fn prov_object(ts: Seq<Triple>, d: Seq<char>) -> Option<RdfTerm>
    decreases ts.len(),
{
    if ts.len() == 0 {
        None
    } else if is_prov_triple(ts[0], d) {
        Some(ts[0].o)
    } else {
        prov_object(ts.drop_first(), d)
    }
}

/// The derivation IRI the first provenance triple of `d` asserts, if its object is an IRI.
pub open spec fn derivation(ts: Seq<Triple>, d: Seq<char>) -> Option<Seq<char>> {
    match prov_object(ts, d) {
        Some(RdfTerm::Iri(x)) => Some(x@),
        _ => None,
    }
}

/// Triple `t` asserts something about `d` other than its provenance.
pub open spec fn asserts_about(t: Triple, d: Seq<char>) -> bool {
    is_iri(t.s, d) && !is_iri(t.p, prov_iri())
}

/// Some assertion about `d` has a predicate that is not an IRI.
pub open spec fn bad_predicate(ts: Seq<Triple>, d: Seq<char>) -> bool {
    exists|i: int| 0 <= i < ts.len() && asserts_about(#[trigger] ts[i], d) && !(ts[i].p is Iri)
}

/// `x` is the predicate of some assertion about `d`.
pub open spec fn asserted_predicate(ts: Seq<Triple>, d: Seq<char>, x: Seq<char>) -> bool {
    exists|i: int| 0 <= i < ts.len() && asserts_about(#[trigger] ts[i], d) && is_iri(ts[i].p, x)
}

/// `x` is authorized by the list.
pub open spec fn authorized(list: Option<Seq<Seq<char>>>, x: Seq<char>) -> bool {
    list matches Some(l) && l.contains(x)
}

/// `x` is the least asserted predicate, in lexicographic order, that the list does not
/// authorize.
pub open spec fn least_unauthorized(ts: Seq<Triple>, d: Seq<char>, list: Option<Seq<Seq<char>>>, x: Seq<char>) -> bool {
    &&& asserted_predicate(ts, d, x)
    &&& !authorized(list, x)
    &&& forall|y: Seq<char>| #[trigger] asserted_predicate(ts, d, y) && !authorized(list, y) ==> lex_le(x, y)
}

/// Some asserted predicate is not authorized.
pub open spec fn some_unauthorized(ts: Seq<Triple>, d: Seq<char>, list: Option<Seq<Seq<char>>>) -> bool {
    exists|x: Seq<char>| #[trigger] asserted_predicate(ts, d, x) && !authorized(list, x)
}

/// `x` is the least asserted predicate, in lexicographic order, outside the vocabulary.
pub open spec fn least_outside(ts: Seq<Triple>, d: Seq<char>, prefixes: Seq<String>, x: Seq<char>) -> bool {
    &&& asserted_predicate(ts, d, x)
    &&& !starts_with_any(prefixes, x)
    &&& forall|y: Seq<char>| #[trigger] asserted_predicate(ts, d, y) && !starts_with_any(prefixes, y) ==> lex_le(x, y)
}

/// Some asserted predicate is outside the vocabulary.
pub open spec fn some_outside(ts: Seq<Triple>, d: Seq<char>, prefixes: Seq<String>) -> bool {
    exists|x: Seq<char>| #[trigger] asserted_predicate(ts, d, x) && !starts_with_any(prefixes, x)
}

/// The identity gate fails.
pub open spec fn identity_fails(policy: AdmissionPolicy, obs: RawObservation, ts: Seq<Triple>) -> bool {
    ||| principal_of(policy.known_principals@, obs.source_id@) is None
    ||| !starts_with_any(policy.allowed_subject_schemes@, obs.declared_subject@)
    ||| has_white_space(obs.declared_subject@)
    ||| !subject_present(ts, obs.declared_subject@)
}

/// The provenance gate fails.
pub open spec fn provenance_fails(policy: AdmissionPolicy, obs: RawObservation, ts: Seq<Triple>) -> bool {
    derivation(ts, obs.declared_subject@) != principal_of(policy.known_principals@, obs.source_id@)
}


/// Which gate decides an observation.
#[derive(Clone, Copy, Debug, PartialEq, Eq, Structural)]
pub enum GateOutcome {
    /// The payload did not parse, holds no triple, or asserts through a non-IRI predicate.
    Malformed,
    /// The correlation id was admitted before with the same payload hash.
    Replay,
    /// The correlation id was admitted before with another payload hash.
    Conflict,
    Identity,
    Provenance,
    Authority,
    Shape,
    Semantic,
    Admit,
}

/// The payload does not yield triples to admit.
pub open spec fn payload_fails(parsed: Result<Vec<Triple>, String>) -> bool {
    parsed is Err || parsed->Ok_0@.len() == 0
}

/// The index of the ledger row for `id`, if any.
pub open spec fn row_of(rows: Seq<(Seq<char>, Seq<char>, ReceiptView)>, id: Seq<char>) -> Option<int> {
    if exists|i: int| 0 <= i < rows.len() && (#[trigger] rows[i]).0 == id {
        Some(choose|i: int| 0 <= i < rows.len() && (#[trigger] rows[i]).0 == id)
    } else {
        None
    }
}

/// The first gate, in gate order, that settles what becomes of an observation.
pub open spec fn gate_outcome(
    policy: AdmissionPolicy,
    rows: Seq<(Seq<char>, Seq<char>, ReceiptView)>,
    obs: RawObservation,
    parsed: Result<Vec<Triple>, String>,
    shape: ShapeReport,
) -> GateOutcome {
    let ts = parsed->Ok_0@;
    let d = obs.declared_subject@;
    if payload_fails(parsed) {
        GateOutcome::Malformed
    } else if row_of(rows, obs.correlation_id@) is Some {
        if rows[row_of(rows, obs.correlation_id@)->0].1 == receipt_hash_of(obs.correlation_id@, ts) {
            GateOutcome::Replay
        } else {
            GateOutcome::Conflict
        }
    } else if identity_fails(policy, obs, ts) {
        GateOutcome::Identity
    } else if provenance_fails(policy, obs, ts) {
        GateOutcome::Provenance
    } else if bad_predicate(ts, d) {
        GateOutcome::Malformed
    } else if some_unauthorized(ts, d, authorized_of(policy.authorized_predicates@, obs.source_id@)) {
        GateOutcome::Authority
    } else if !shape.conforms {
        GateOutcome::Shape
    } else if some_outside(ts, d, policy.allowed_vocabulary_prefixes@) {
        GateOutcome::Semantic
    } else {
        GateOutcome::Admit
    }
}

/// A receipt as plain values: correlation id, source, subject, state, hash, triple count.
pub type ReceiptView = (Seq<char>, Seq<char>, Seq<char>, AdmissionState, Seq<char>, usize);

/// The receipt's plain values.
pub open spec fn receipt_view(r: AdmissionReceipt) -> ReceiptView {
    (r.correlation_id@, r.source_id@, r.subject_iri@, r.state, r.receipt_hash@, r.triple_count)
}

/// The receipt admitting `obs` with payload `ts`.
pub open spec fn admitted_receipt(obs: RawObservation, ts: Seq<Triple>) -> ReceiptView {
    (
        obs.correlation_id@,
        obs.source_id@,
        obs.declared_subject@,
        AdmissionState::Admitted,
        receipt_hash_of(obs.correlation_id@, ts),
        ts.len() as usize,
    )
}

/// The refusal `e` is the one gate `g` raises for `obs`.
pub open spec fn refusal_fits(
    e: ObservationAdmissionRefused,
    g: GateOutcome,
    policy: AdmissionPolicy,
    obs: RawObservation,
    ts: Seq<Triple>,
    shape: ShapeReport,
) -> bool {
    let c = obs.correlation_id@;
    let d = obs.declared_subject@;
    match e {
        ObservationAdmissionRefused::MalformedPayload { correlation_id, .. } => g == GateOutcome::Malformed
            && correlation_id@ == c,
        ObservationAdmissionRefused::IdentityUnresolved { correlation_id, .. } => g == GateOutcome::Identity
            && correlation_id@ == c,
        ObservationAdmissionRefused::ProvenanceUnverified { correlation_id, .. } => g == GateOutcome::Provenance
            && correlation_id@ == c,
        ObservationAdmissionRefused::AuthorityDenied { correlation_id, source_id, predicate } => g
            == GateOutcome::Authority && correlation_id@ == c && source_id@ == obs.source_id@ && least_unauthorized(
            ts,
            d,
            authorized_of(policy.authorized_predicates@, obs.source_id@),
            predicate@,
        ),
        ObservationAdmissionRefused::ShapeNonConformant { correlation_id, violation_count } => g == GateOutcome::Shape
            && correlation_id@ == c && violation_count == shape.violation_count,
        ObservationAdmissionRefused::SemanticNonConformant { correlation_id, predicate } => g == GateOutcome::Semantic
            && correlation_id@ == c && least_outside(ts, d, policy.allowed_vocabulary_prefixes@, predicate@),
        ObservationAdmissionRefused::CorrelationConflict { correlation_id } => g == GateOutcome::Conflict
            && correlation_id@ == c,
        ObservationAdmissionRefused::LedgerUnavailable { .. } => false,
    }
}


// ---------------------------------------------------------------------------------------
// Gate helpers.
// ---------------------------------------------------------------------------------------

/// Whether `t` is the IRI `iri`.
fn term_is_iri(t: &RdfTerm, iri: &str) -> (res: bool)
    ensures
        res == is_iri(*t, iri@),
{
    match t {
        RdfTerm::Iri(x) => str_eq(x.as_str(), iri),
        _ => false,
    }
}

/// The principal the first entry for `src` names.
fn find_principal<'a>(kp: &'a Vec<(String, String)>, src: &str) -> (res: Option<&'a String>)
    ensures
        match res {
            Some(p) => principal_of(kp@, src@) == Some(p@),
            None => principal_of(kp@, src@) is None,
        },
{
    let mut k: usize = 0;
    proof {
        assert(kp@.skip(0) =~= kp@);
    }
    while k < kp.len()
        invariant
            k <= kp@.len(),
            principal_of(kp@, src@) == principal_of(kp@.skip(k as int), src@),
        decreases kp@.len() - k,
    {
        proof {
            assert(kp@.skip(k as int)[0] == kp@[k as int]);
            assert(kp@.skip(k as int).drop_first() =~= kp@.skip(k + 1));
        }
        if str_eq(kp[k].0.as_str(), src) {
            return Some(&kp[k].1);
        }
        k = k + 1;
    }
    None
}

/// The authorized predicates of the first entry for `src`.
fn find_authorized<'a>(ap: &'a Vec<(String, Vec<String>)>, src: &str) -> (res: Option<&'a Vec<String>>)
    ensures
        match res {
            Some(l) => authorized_of(ap@, src@) == Some(string_views(l@)),
            None => authorized_of(ap@, src@) is None,
        },
{
    let mut k: usize = 0;
    proof {
        assert(ap@.skip(0) =~= ap@);
    }
    while k < ap.len()
        invariant
            k <= ap@.len(),
            authorized_of(ap@, src@) == authorized_of(ap@.skip(k as int), src@),
        decreases ap@.len() - k,
    {
        proof {
            assert(ap@.skip(k as int)[0] == ap@[k as int]);
            assert(ap@.skip(k as int).drop_first() =~= ap@.skip(k + 1));
        }
        if str_eq(ap[k].0.as_str(), src) {
            return Some(&ap[k].1);
        }
        k = k + 1;
    }
    None
}

/// Whether `s` starts with `prefix`.
fn str_starts_with(s: &str, prefix: &str) -> (res: bool)
    ensures
        res == starts_with(s@, prefix@),
{
    let ls = s.unicode_len();
    let lp = prefix.unicode_len();
    if lp > ls {
        return false;
    }
    let mut i: usize = 0;
    while i < lp
        invariant
            ls == s@.len(),
            lp == prefix@.len(),
            lp <= ls,
            i <= lp,
            forall|q: int| 0 <= q < i ==> s@[q] == prefix@[q],
        decreases lp - i,
    {
        if s.get_char(i) != prefix.get_char(i) {
            proof {
                assert(s@.take(lp as int)[i as int] != prefix@[i as int]);
            }
            return false;
        }
        i = i + 1;
    }
    proof {
        assert(s@.take(lp as int) =~= prefix@);
    }
    true
}

/// Whether `s` starts with one of the `prefixes`.
fn starts_with_one_of(prefixes: &Vec<String>, s: &str) -> (res: bool)
    ensures
        res == starts_with_any(prefixes@, s@),
{
    let mut k: usize = 0;
    while k < prefixes.len()
        invariant
            k <= prefixes@.len(),
            forall|q: int| 0 <= q < k ==> !starts_with(s@, (#[trigger] prefixes@[q])@),
        decreases prefixes@.len() - k,
    {
        if str_starts_with(s, prefixes[k].as_str()) {
            return true;
        }
        k = k + 1;
    }
    false
}

/// Whether `s` holds white space.
fn holds_white_space(s: &str) -> (res: bool)
    ensures
        res == has_white_space(s@),
{
    let n = s.unicode_len();
    let mut i: usize = 0;
    while i < n
        invariant
            n == s@.len(),
            i <= n,
            forall|q: int| 0 <= q < i ==> !white_space(#[trigger] s@[q]),
        decreases n - i,
    {
        if is_white_space(s.get_char(i)) {
            return true;
        }
        i = i + 1;
    }
    false
}

/// Whether some triple has subject `d`.
fn find_subject(ts: &Vec<Triple>, d: &str) -> (res: bool)
    ensures
        res == subject_present(ts@, d@),
{
    let mut k: usize = 0;
    while k < ts.len()
        invariant
            k <= ts@.len(),
            forall|q: int| 0 <= q < k ==> !is_iri((#[trigger] ts@[q]).s, d@),
        decreases ts@.len() - k,
    {
        if term_is_iri(&ts[k].s, d) {
            return true;
        }
        k = k + 1;
    }
    false
}

/// The derivation IRI the first provenance triple of `d` asserts.
fn find_derivation<'a>(ts: &'a Vec<Triple>, d: &str) -> (res: Option<&'a String>)
    ensures
        match res {
            Some(x) => derivation(ts@, d@) == Some(x@),
            None => derivation(ts@, d@) is None,
        },
{
    let mut k: usize = 0;
    proof {
        assert(ts@.skip(0) =~= ts@);
    }
    while k < ts.len()
        invariant
            k <= ts@.len(),
            prov_object(ts@, d@) == prov_object(ts@.skip(k as int), d@),
        decreases ts@.len() - k,
    {
        proof {
            assert(ts@.skip(k as int)[0] == ts@[k as int]);
            assert(ts@.skip(k as int).drop_first() =~= ts@.skip(k + 1));
        }
        if term_is_iri(&ts[k].s, d) && term_is_iri(&ts[k].p, PROV_WAS_DERIVED_FROM) {
            return match &ts[k].o {
                RdfTerm::Iri(x) => Some(x),
                _ => None,
            };
        }
        k = k + 1;
    }
    None
}

/// The predicates asserted about `d`, or `None` where one of them is not an IRI.
fn subject_predicates(ts: &Vec<Triple>, d: &str) -> (res: Option<Vec<String>>)
    ensures
        res is None <==> bad_predicate(ts@, d@),
        res matches Some(ps) ==> forall|x: Seq<char>| string_views(ps@).contains(x) <==> asserted_predicate(ts@, d@, x),
{
    let mut ps: Vec<String> = Vec::new();
    let mut k: usize = 0;
    while k < ts.len()
        invariant
            k <= ts@.len(),
            forall|q: int| 0 <= q < k ==> !(asserts_about(#[trigger] ts@[q], d@) && !(ts@[q].p is Iri)),
            forall|x: Seq<char>|
                string_views(ps@).contains(x) <==> exists|q: int|
                    0 <= q < k && asserts_about(#[trigger] ts@[q], d@) && is_iri(ts@[q].p, x),
        decreases ts@.len() - k,
    {
        let about = term_is_iri(&ts[k].s, d) && !term_is_iri(&ts[k].p, PROV_WAS_DERIVED_FROM);
        if about {
            match &ts[k].p {
                RdfTerm::Iri(x) => {
                    let ghost before = string_views(ps@);
                    ps.push(x.clone());
                    proof {
                        assert(string_views(ps@) =~= before.push(x@));
                        assert forall|y: Seq<char>|
                            string_views(ps@).contains(y) <==> exists|q: int|
                                0 <= q < k + 1 && asserts_about(#[trigger] ts@[q], d@) && is_iri(ts@[q].p, y) by {
                            if string_views(ps@).contains(y) && !before.contains(y) {
                                assert(y == x@);
                                assert(asserts_about(ts@[k as int], d@) && is_iri(ts@[k as int].p, y));
                            }
                            if exists|q: int| 0 <= q < k + 1 && asserts_about(#[trigger] ts@[q], d@) && is_iri(ts@[q].p, y) {
                                let q = choose|q: int| 0 <= q < k + 1 && asserts_about(#[trigger] ts@[q], d@) && is_iri(ts@[q].p, y);
                                if q == k {
                                    assert(string_views(ps@)[before.len() as int] == y);
                                } else {
                                    assert(before.contains(y));
                                    let j = choose|j: int| 0 <= j < before.len() && before[j] == y;
                                    assert(string_views(ps@)[j] == y);
                                }
                            }
                        }
                    }
                },
                _ => {
                    proof {
                        assert(asserts_about(ts@[k as int], d@) && !(ts@[k as int].p is Iri));
                    }
                    return None;
                },
            }
        } else {
            proof {
                assert forall|y: Seq<char>|
                    string_views(ps@).contains(y) <==> exists|q: int|
                        0 <= q < k + 1 && asserts_about(#[trigger] ts@[q], d@) && is_iri(ts@[q].p, y) by {
                    if exists|q: int| 0 <= q < k + 1 && asserts_about(#[trigger] ts@[q], d@) && is_iri(ts@[q].p, y) {
                        let q = choose|q: int| 0 <= q < k + 1 && asserts_about(#[trigger] ts@[q], d@) && is_iri(ts@[q].p, y);
                        assert(q != k);
                    }
                }
            }
        }
        k = k + 1;
    }
    Some(ps)
}

/// Whether `x` is listed.
fn lists_string(list: &Vec<String>, x: &str) -> (res: bool)
    ensures
        res == string_views(list@).contains(x@),
{
    let mut k: usize = 0;
    while k < list.len()
        invariant
            k <= list@.len(),
            forall|q: int| 0 <= q < k ==> (#[trigger] list@[q])@ != x@,
        decreases list@.len() - k,
    {
        if str_eq(list[k].as_str(), x) {
            proof {
                assert(string_views(list@)[k as int] == x@);
            }
            return true;
        }
        k = k + 1;
    }
    proof {
        if string_views(list@).contains(x@) {
            let j = choose|j: int| 0 <= j < list@.len() && string_views(list@)[j] == x@;
            assert(list@[j]@ == x@);
        }
    }
    false
}

/// Whether `list` authorizes `x`.
fn is_authorized(list: Option<&Vec<String>>, x: &str) -> (res: bool)
    ensures
        res == authorized(
            match list {
                Some(l) => Some(string_views(l@)),
                None => None,
            },
            x@,
        ),
{
    match list {
        Some(l) => lists_string(l, x),
        None => false,
    }
}

/// The position of the least predicate of `ps` that `list` does not authorize.
fn least_unauthorized_in(ps: &Vec<String>, list: Option<&Vec<String>>) -> (res: Option<usize>)
    ensures
        ({
            let l = match list {
                Some(l) => Some(string_views(l@)),
                None => None,
            };
            match res {
                Some(i) => i < ps@.len() && !authorized(l, ps@[i as int]@) && forall|q: int|
                    0 <= q < ps@.len() && !authorized(l, (#[trigger] ps@[q])@) ==> lex_le(ps@[i as int]@, ps@[q]@),
                None => forall|q: int| 0 <= q < ps@.len() ==> authorized(l, (#[trigger] ps@[q])@),
            }
        }),
{
    let ghost l = match list {
        Some(l) => Some(string_views(l@)),
        None => None,
    };
    proof {
        lemma_lex_total_ordering();
    }
    let mut best: Option<usize> = None;
    let mut k: usize = 0;
    while k < ps.len()
        invariant
            k <= ps@.len(),
            l == match list {
                Some(l) => Some(string_views(l@)),
                None => None,
            },
            total_ordering(lex_leq()),
            match best {
                Some(i) => i < k && !authorized(l, ps@[i as int]@) && forall|q: int|
                    0 <= q < k && !authorized(l, (#[trigger] ps@[q])@) ==> lex_le(ps@[i as int]@, ps@[q]@),
                None => forall|q: int| 0 <= q < k ==> authorized(l, (#[trigger] ps@[q])@),
            },
        decreases ps@.len() - k,
    {
        if !is_authorized(list, ps[k].as_str()) {
            match best {
                None => {
                    best = Some(k);
                    proof {
                        assert(lex_leq()(ps@[k as int]@, ps@[k as int]@));
                    }
                },
                Some(i) => {
                    if !str_le(ps[i].as_str(), ps[k].as_str()) {
                        proof {
                            assert(lex_leq()(ps@[k as int]@, ps@[i as int]@) || lex_leq()(ps@[i as int]@, ps@[k as int]@));
                            assert forall|q: int| 0 <= q < k + 1 && !authorized(l, (#[trigger] ps@[q])@) implies lex_le(
                                ps@[k as int]@,
                                ps@[q]@,
                            ) by {
                                if q < k {
                                    assert(lex_leq()(ps@[k as int]@, ps@[i as int]@) && lex_leq()(ps@[i as int]@, ps@[q]@));
                                } else {
                                    assert(lex_leq()(ps@[k as int]@, ps@[k as int]@));
                                }
                            }
                        }
                        best = Some(k);
                    }
                },
            }
        }
        k = k + 1;
    }
    best
}

/// The position of the least predicate of `ps` outside the vocabulary.
fn least_outside_in(ps: &Vec<String>, prefixes: &Vec<String>) -> (res: Option<usize>)
    ensures
        match res {
            Some(i) => i < ps@.len() && !starts_with_any(prefixes@, ps@[i as int]@) && forall|q: int|
                0 <= q < ps@.len() && !starts_with_any(prefixes@, (#[trigger] ps@[q])@) ==> lex_le(ps@[i as int]@, ps@[q]@),
            None => forall|q: int| 0 <= q < ps@.len() ==> starts_with_any(prefixes@, (#[trigger] ps@[q])@),
        },
{
    proof {
        lemma_lex_total_ordering();
    }
    let mut best: Option<usize> = None;
    let mut k: usize = 0;
    while k < ps.len()
        invariant
            k <= ps@.len(),
            total_ordering(lex_leq()),
            match best {
                Some(i) => i < k && !starts_with_any(prefixes@, ps@[i as int]@) && forall|q: int|
                    0 <= q < k && !starts_with_any(prefixes@, (#[trigger] ps@[q])@) ==> lex_le(ps@[i as int]@, ps@[q]@),
                None => forall|q: int| 0 <= q < k ==> starts_with_any(prefixes@, (#[trigger] ps@[q])@),
            },
        decreases ps@.len() - k,
    {
        if !starts_with_one_of(prefixes, ps[k].as_str()) {
            match best {
                None => {
                    best = Some(k);
                    proof {
                        assert(lex_leq()(ps@[k as int]@, ps@[k as int]@));
                    }
                },
                Some(i) => {
                    if !str_le(ps[i].as_str(), ps[k].as_str()) {
                        proof {
                            assert(lex_leq()(ps@[k as int]@, ps@[i as int]@) || lex_leq()(ps@[i as int]@, ps@[k as int]@));
                            assert forall|q: int| 0 <= q < k + 1 && !starts_with_any(prefixes@, (#[trigger] ps@[q])@) implies lex_le(
                                ps@[k as int]@,
                                ps@[q]@,
                            ) by {
                                if q < k {
                                    assert(lex_leq()(ps@[k as int]@, ps@[i as int]@) && lex_leq()(ps@[i as int]@, ps@[q]@));
                                } else {
                                    assert(lex_leq()(ps@[k as int]@, ps@[k as int]@));
                                }
                            }
                        }
                        best = Some(k);
                    }
                },
            }
        }
        k = k + 1;
    }
    best
}


// ---------------------------------------------------------------------------------------
// The pipeline.
// ---------------------------------------------------------------------------------------

/// A copy of a receipt.
fn copy_receipt(r: &AdmissionReceipt) -> (res: AdmissionReceipt)
    ensures
        receipt_view(res) == receipt_view(*r),
{
    AdmissionReceipt {
        correlation_id: r.correlation_id.clone(),
        source_id: r.source_id.clone(),
        subject_iri: r.subject_iri.clone(),
        state: r.state,
        receipt_hash: r.receipt_hash.clone(),
        triple_count: r.triple_count,
    }
}

/// `a`, `b` and `c` in turn.
fn wrapped3(a: &str, b: &str, c: &str) -> (res: String)
    ensures
        res@ == a@ + b@ + c@,
{
    let mut out = owned(a);
    push_str(&mut out, b);
    push_str(&mut out, c);
    out
}

/// The reason a derivation that does not match the source's principal is refused with.
fn derivation_mismatch(derivation_iri: &str, source_id: &str, principal: &str) -> (res: String)
    ensures
        res@ == "asserted derivation "@ + derivation_iri@ + " does not match source "@ + source_id@ + "'s principal "@
            + principal@,
{
    let mut out = owned("asserted derivation ");
    push_str(&mut out, derivation_iri);
    push_str(&mut out, " does not match source ");
    push_str(&mut out, source_id);
    push_str(&mut out, "'s principal ");
    push_str(&mut out, principal);
    out
}

/// `s` followed by `t`.
fn joined(s: &str, t: &str) -> (res: String)
    ensures
        res@ == s@ + t@,
{
    let mut out = owned(s);
    push_str(&mut out, t);
    out
}

impl AdmissionLedger {
    /// The row of `id`, if it was admitted.
    fn find(&self, id: &str) -> (res: Option<usize>)
        requires
            self.wf(),
        ensures
            match res {
                Some(i) => row_of(self.rows(), id@) == Some(i as int) && i < self.rows().len(),
                None => row_of(self.rows(), id@) is None,
            },
    {
        let mut k: usize = 0;
        while k < self.entries.len()
            invariant
                self.wf(),
                k <= self.entries@.len(),
                forall|q: int| 0 <= q < k ==> (#[trigger] self.entries@[q]).0@ != id@,
            decreases self.entries@.len() - k,
        {
            if str_eq(self.entries[k].0.as_str(), id) {
                proof {
                    assert(self.rows()[k as int].0 == id@);
                    let j = choose|j: int| 0 <= j < self.rows().len() && (#[trigger] self.rows()[j]).0 == id@;
                    if j != k {
                        if j < k {
                            assert(self.entries@[j].0@ == self.rows()[j].0);
                        } else {
                            assert(self.rows().len() == self.entries@.len());
                            assert(0 <= k < j < self.rows().len());
                            assert(self.wf());
                            let ki = k as int;
                            assert(self.rows()[ki].0 != self.rows()[j].0);
                        }
                    }
                }
                return Some(k);
            }
            k = k + 1;
        }
        proof {
            assert forall|j: int| 0 <= j < self.rows().len() implies (#[trigger] self.rows()[j]).0 != id@ by {
                assert(self.rows()[j].0 == self.entries@[j].0@);
            }
        }
        None
    }
}

/// The reason a refusal of the payload, identity or provenance gate gives for `obs`: the
/// first of those checks that fails, in gate order.
pub open spec fn gate_reason(policy: AdmissionPolicy, obs: RawObservation, parsed: Result<Vec<Triple>, String>) -> Seq<char> {
    let ts = parsed->Ok_0@;
    let d = obs.declared_subject@;
    let principal = principal_of(policy.known_principals@, obs.source_id@);
    if parsed is Err {
        "Turtle parse error: "@ + parsed->Err_0@
    } else if ts.len() == 0 {
        "payload contains zero triples"@
    } else if principal is None {
        "source_id "@ + obs.source_id@ + " is not a known principal"@
    } else if !starts_with_any(policy.allowed_subject_schemes@, d) || has_white_space(d) {
        "declared_subject "@ + debug_text(d) + " is not a well-formed IRI under the allowed schemes"@
    } else if !subject_present(ts, d) {
        "declared_subject "@ + d + " does not appear as a subject in the payload"@
    } else if derivation(ts, d) is None {
        "no prov:wasDerivedFrom triple from "@ + d + " in the payload"@
    } else if derivation(ts, d) != principal {
        "asserted derivation "@ + derivation(ts, d)->Some_0 + " does not match source "@ + obs.source_id@ + "'s principal "@
            + principal->Some_0
    } else {
        "a triple's predicate is not an IRI"@
    }
}

/// A refusal that carries a reason carries the one `gate_reason` gives.
pub open spec fn reason_fits(
    e: ObservationAdmissionRefused,
    policy: AdmissionPolicy,
    obs: RawObservation,
    parsed: Result<Vec<Triple>, String>,
) -> bool {
    match e {
        ObservationAdmissionRefused::MalformedPayload { reason, .. } => reason@ == gate_reason(policy, obs, parsed),
        ObservationAdmissionRefused::IdentityUnresolved { reason, .. } => reason@ == gate_reason(policy, obs, parsed),
        ObservationAdmissionRefused::ProvenanceUnverified { reason, .. } => reason@ == gate_reason(policy, obs, parsed),
        _ => true,
    }
}

/// The answer to admitting `obs` and the ledger rows after it, given the rows before: an
/// admission appends the receipt's row, a replay gives back the stored receipt, and a
/// refusal matches its gate and keeps the rows unchanged.
pub open spec fn admission_answers(
    policy: AdmissionPolicy,
    before: Seq<(Seq<char>, Seq<char>, ReceiptView)>,
    after: Seq<(Seq<char>, Seq<char>, ReceiptView)>,
    obs: RawObservation,
    parsed: Result<Vec<Triple>, String>,
    shape: ShapeReport,
    res: Result<AdmissionReceipt, ObservationAdmissionRefused>,
) -> bool {
    let g = gate_outcome(policy, before, obs, parsed, shape);
    let ts = parsed->Ok_0@;
    match res {
        Ok(r) => {
            ||| g == GateOutcome::Admit && receipt_view(r) == admitted_receipt(obs, ts) && after == before.push(
                (obs.correlation_id@, receipt_hash_of(obs.correlation_id@, ts), admitted_receipt(obs, ts)),
            )
            ||| g == GateOutcome::Replay && receipt_view(r) == before[row_of(before, obs.correlation_id@)->0].2 && after
                == before
        },
        Err(e) => refusal_fits(e, g, policy, obs, ts, shape) && reason_fits(e, policy, obs, parsed) && after == before,
    }
}

/// Runs the gates over one observation, in order: payload, ledger replay check,
/// identity, provenance, authority, shape, vocabulary; then admits it into the ledger.
/// `parsed` is the observation's payload parsed into triples (or the parser's error),
/// and `shape` the outcome of validating those triples against the policy's shapes.
/// Nothing is written to the ledger unless every gate passes; a replay of an admitted
/// correlation id with the same payload hash returns the stored receipt.
///
/// The contract takes `parsed` and `shape` as given: it does not state that `parsed` is
/// what a Turtle parser makes of `obs.payload_turtle`, nor that `shape` is the outcome of
/// validating against the policy's shapes. The caller parses and validates, and the
/// gates are stated over what it hands in.
pub fn admit_observation(
    policy: &AdmissionPolicy,
    ledger: &mut AdmissionLedger,
    obs: RawObservation,
    parsed: Result<Vec<Triple>, String>,
    shape: ShapeReport,
) -> (res: Result<AdmissionReceipt, ObservationAdmissionRefused>)
    requires
        old(ledger).wf(),
    ensures
        final(ledger).wf(),
        admission_answers(*policy, old(ledger).rows(), final(ledger).rows(), obs, parsed, shape, res),
        res matches Ok(r) ==> r.state == AdmissionState::Admitted && r.correlation_id@ == obs.correlation_id@
            && r.receipt_hash@.len() == 64,
{
    let correlation_id = obs.correlation_id.clone();
    let triples = match parsed {
        Err(e) => {
            return Err(
                ObservationAdmissionRefused::MalformedPayload {
                    correlation_id,
                    reason: joined("Turtle parse error: ", e.as_str()),
                },
            );
        },
        Ok(ts) => ts,
    };
    if triples.len() == 0 {
        return Err(
            ObservationAdmissionRefused::MalformedPayload {
                correlation_id,
                reason: owned("payload contains zero triples"),
            },
        );
    }
    let hash = receipt_hash(correlation_id.as_str(), &triples);
    // The replay and correlation gate.
    if let Some(i) = ledger.find(correlation_id.as_str()) {
        let existing = &ledger.entries[i].1;
        proof {
            assert(ledger.rows()[i as int] == (
                ledger.entries@[i as int].0@,
                existing.payload_hash@,
                receipt_view(existing.receipt),
            ));
        }
        if existing.payload_hash == hash {
            return Ok(copy_receipt(&existing.receipt));
        } else {
            return Err(ObservationAdmissionRefused::CorrelationConflict { correlation_id });
        }
    }
    // Identity.
    let principal = match find_principal(&policy.known_principals, obs.source_id.as_str()) {
        Some(p) => p,
        None => {
            return Err(
                ObservationAdmissionRefused::IdentityUnresolved {
                    correlation_id,
                    reason: wrapped3("source_id ", obs.source_id.as_str(), " is not a known principal"),
                },
            );
        },
    };
    let has_scheme = starts_with_one_of(&policy.allowed_subject_schemes, obs.declared_subject.as_str());
    if !has_scheme || holds_white_space(obs.declared_subject.as_str()) {
        return Err(
            ObservationAdmissionRefused::IdentityUnresolved {
                correlation_id,
                reason: wrapped3(
                    "declared_subject ",
                    debug_quoted(obs.declared_subject.as_str()).as_str(),
                    " is not a well-formed IRI under the allowed schemes",
                ),
            },
        );
    }
    if !find_subject(&triples, obs.declared_subject.as_str()) {
        return Err(
            ObservationAdmissionRefused::IdentityUnresolved {
                correlation_id,
                reason: wrapped3("declared_subject ", obs.declared_subject.as_str(), " does not appear as a subject in the payload"),
            },
        );
    }
    // Provenance.
    let derivation_iri = match find_derivation(&triples, obs.declared_subject.as_str()) {
        Some(x) => x,
        None => {
            return Err(
                ObservationAdmissionRefused::ProvenanceUnverified {
                    correlation_id,
                    reason: wrapped3("no prov:wasDerivedFrom triple from ", obs.declared_subject.as_str(), " in the payload"),
                },
            );
        },
    };
    if !str_eq(derivation_iri.as_str(), principal.as_str()) {
        return Err(
            ObservationAdmissionRefused::ProvenanceUnverified {
                correlation_id,
                reason: derivation_mismatch(derivation_iri.as_str(), obs.source_id.as_str(), principal.as_str()),
            },
        );
    }
    // Authority.
    let preds = match subject_predicates(&triples, obs.declared_subject.as_str()) {
        Some(ps) => ps,
        None => {
            return Err(
                ObservationAdmissionRefused::MalformedPayload {
                    correlation_id,
                    reason: owned("a triple's predicate is not an IRI"),
                },
            );
        },
    };
    let authorized_list = find_authorized(&policy.authorized_predicates, obs.source_id.as_str());
    let ghost list = authorized_of(policy.authorized_predicates@, obs.source_id@);
    if let Some(i) = least_unauthorized_in(&preds, authorized_list) {
        proof {
            lemma_least_of_listed(triples@, obs.declared_subject@, preds@, i as int, |x: Seq<char>| !authorized(list, x));
        }
        return Err(
            ObservationAdmissionRefused::AuthorityDenied {
                correlation_id,
                source_id: obs.source_id.clone(),
                predicate: preds[i].clone(),
            },
        );
    }
    proof {
        assert forall|x: Seq<char>| #[trigger] asserted_predicate(triples@, obs.declared_subject@, x) implies authorized(list, x) by {
            assert(string_views(preds@).contains(x));
            let j = choose|j: int| 0 <= j < preds@.len() && string_views(preds@)[j] == x;
            assert(preds@[j]@ == x);
        }
    }
    // Shape.
    if !shape.conforms {
        return Err(
            ObservationAdmissionRefused::ShapeNonConformant { correlation_id, violation_count: shape.violation_count },
        );
    }
    // Vocabulary.
    if let Some(i) = least_outside_in(&preds, &policy.allowed_vocabulary_prefixes) {
        proof {
            lemma_least_of_listed(
                triples@,
                obs.declared_subject@,
                preds@,
                i as int,
                |x: Seq<char>| !starts_with_any(policy.allowed_vocabulary_prefixes@, x),
            );
        }
        return Err(ObservationAdmissionRefused::SemanticNonConformant { correlation_id, predicate: preds[i].clone() });
    }
    proof {
        assert forall|x: Seq<char>| #[trigger] asserted_predicate(triples@, obs.declared_subject@, x) implies starts_with_any(
            policy.allowed_vocabulary_prefixes@,
            x,
        ) by {
            assert(string_views(preds@).contains(x));
            let j = choose|j: int| 0 <= j < preds@.len() && string_views(preds@)[j] == x;
            assert(preds@[j]@ == x);
        }
    }
    // Admission.
    let receipt = AdmissionReceipt {
        correlation_id: correlation_id.clone(),
        source_id: obs.source_id,
        subject_iri: obs.declared_subject,
        state: AdmissionState::Admitted,
        receipt_hash: hash.clone(),
        triple_count: triples.len(),
    };
    let stored = copy_receipt(&receipt);
    let ghost old_rows = ledger.rows();
    ledger.entries.push((correlation_id, LedgerEntry { payload_hash: hash, receipt: stored }));
    proof {
        assert(ledger.rows() =~= old_rows.push(
            (obs.correlation_id@, receipt_hash_of(obs.correlation_id@, triples@), admitted_receipt(obs, triples@)),
        ));
        assert forall|i: int, j: int| 0 <= i < j < ledger.rows().len() implies (#[trigger] ledger.rows()[i]).0
            != (#[trigger] ledger.rows()[j]).0 by {
            if j == old_rows.len() {
                assert(ledger.rows()[i] == old_rows[i]);
            } else {
                assert(ledger.rows()[i] == old_rows[i] && ledger.rows()[j] == old_rows[j]);
            }
        }
    }
    Ok(receipt)
}

/// The least listed predicate with a property is the least asserted one with it.
proof fn lemma_least_of_listed(ts: Seq<Triple>, d: Seq<char>, ps: Seq<String>, i: int, bad: spec_fn(Seq<char>) -> bool)
    requires
        forall|x: Seq<char>| string_views(ps).contains(x) <==> asserted_predicate(ts, d, x),
        0 <= i < ps.len(),
        bad(ps[i]@),
        forall|q: int| 0 <= q < ps.len() && bad((#[trigger] ps[q])@) ==> lex_le(ps[i]@, ps[q]@),
    ensures
        asserted_predicate(ts, d, ps[i]@),
        forall|y: Seq<char>| #[trigger] asserted_predicate(ts, d, y) && bad(y) ==> lex_le(ps[i]@, y),
{
    assert(string_views(ps)[i] == ps[i]@);
    assert forall|y: Seq<char>| #[trigger] asserted_predicate(ts, d, y) && bad(y) implies lex_le(ps[i]@, y) by {
        assert(string_views(ps).contains(y));
        let j = choose|j: int| 0 <= j < ps.len() && string_views(ps)[j] == y;
        assert(ps[j]@ == y);
    }
}


/// Triple `t` is a provenance triple between two IRIs.
pub open spec fn iri_provenance(t: Triple) -> bool {
    is_iri(t.p, prov_iri()) && t.s is Iri && t.o is Iri
}

/// The subject and principal of the first provenance triple between two IRIs.
pub fn find_subject_and_principal(triples: &Vec<Triple>) -> (res: Option<(String, String)>)
    ensures
        match res {
            Some((s, p)) => exists|k: int|
                0 <= k < triples@.len() && #[trigger] iri_provenance(triples@[k]) && (forall|j: int|
                    0 <= j < k ==> !iri_provenance(#[trigger] triples@[j])) && is_iri(triples@[k].s, s@) && is_iri(
                    triples@[k].o,
                    p@,
                ),
            None => forall|k: int| 0 <= k < triples@.len() ==> !iri_provenance(#[trigger] triples@[k]),
        },
{
    let mut k: usize = 0;
    while k < triples.len()
        invariant
            k <= triples@.len(),
            forall|j: int| 0 <= j < k ==> !iri_provenance(#[trigger] triples@[j]),
        decreases triples@.len() - k,
    {
        let t = &triples[k];
        if term_is_iri(&t.p, PROV_WAS_DERIVED_FROM) {
            match (&t.s, &t.o) {
                (RdfTerm::Iri(s), RdfTerm::Iri(o)) => {
                    proof {
                        assert(iri_provenance(triples@[k as int]));
                    }
                    return Some((s.clone(), o.clone()));
                },
                _ => {},
            }
        }
        k = k + 1;
    }
    None
}

// ---------------------------------------------------------------------------------------
// Laws.
// ---------------------------------------------------------------------------------------

/// The receipt hash does not depend on the order of the payload's triples: payloads
/// with the same canonical lines, counted with multiplicity, hash alike.
pub proof fn lemma_receipt_hash_order_independent(c: Seq<char>, ts1: Seq<Triple>, ts2: Seq<Triple>)
    requires
        triple_lines(ts1).to_multiset() == triple_lines(ts2).to_multiset(),
    ensures
        receipt_hash_of(c, ts1) == receipt_hash_of(c, ts2),
{
    lemma_lex_total_ordering();
    let l1 = triple_lines(ts1);
    let l2 = triple_lines(ts2);
    l1.lemma_sort_by_ensures(lex_leq());
    l2.lemma_sort_by_ensures(lex_leq());
    vstd::seq_lib::lemma_sorted_unique(l1.sort_by(lex_leq()), l2.sort_by(lex_leq()), lex_leq());
    assert(l1.sort_by(lex_leq()) == l2.sort_by(lex_leq()));
}

/// Admission is idempotent: once an observation is admitted, the same observation with
/// the same payload is a replay answered with the stored receipt, and the same
/// correlation id with a payload of another hash is a conflict.
pub proof fn lemma_admission_replay(
    policy: AdmissionPolicy,
    rows: Seq<(Seq<char>, Seq<char>, ReceiptView)>,
    obs: RawObservation,
    parsed: Result<Vec<Triple>, String>,
    shape: ShapeReport,
    other: Result<Vec<Triple>, String>,
    other_shape: ShapeReport,
)
    requires
        gate_outcome(policy, rows, obs, parsed, shape) == GateOutcome::Admit,
    ensures
        ({
            let ts = parsed->Ok_0@;
            let after = rows.push((obs.correlation_id@, receipt_hash_of(obs.correlation_id@, ts), admitted_receipt(obs, ts)));
            &&& gate_outcome(policy, after, obs, parsed, shape) == GateOutcome::Replay
            &&& after[row_of(after, obs.correlation_id@)->0].2 == admitted_receipt(obs, ts)
            &&& (!payload_fails(other) && receipt_hash_of(obs.correlation_id@, other->Ok_0@) != receipt_hash_of(
                obs.correlation_id@,
                ts,
            )) ==> gate_outcome(policy, after, obs, other, other_shape) == GateOutcome::Conflict
        }),
{
    let ts = parsed->Ok_0@;
    let c = obs.correlation_id@;
    let after = rows.push((c, receipt_hash_of(c, ts), admitted_receipt(obs, ts)));
    assert(row_of(rows, c) is None);
    assert(after[rows.len() as int].0 == c);
    assert(row_of(after, c) is Some);
    let i = row_of(after, c)->0;
    assert(0 <= i < after.len() && after[i].0 == c);
    if i < rows.len() {
        assert(rows[i].0 == c);
        assert(false);
    }
    assert(i == rows.len());
}


/// The correlation ids ledger rows hold.
pub open spec fn admitted_ids(rows: Seq<(Seq<char>, Seq<char>, ReceiptView)>) -> Set<Seq<char>> {
    rows.map_values(|r: (Seq<char>, Seq<char>, ReceiptView)| r.0).to_set()
}

/// A well-formed ledger's length is the number of distinct correlation ids it holds.
pub proof fn lemma_ledger_counts_admitted_ids(ledger: AdmissionLedger)
    requires
        ledger.wf(),
    ensures
        admitted_ids(ledger.rows()).len() == ledger.rows().len(),
{
    let rows = ledger.rows();
    let ids = rows.map_values(|r: (Seq<char>, Seq<char>, ReceiptView)| r.0);
    assert forall|i: int, j: int| 0 <= i < ids.len() && 0 <= j < ids.len() && i != j implies ids[i] != ids[j] by {
        if i < j {
            assert(rows[i].0 != rows[j].0);
        } else {
            assert(rows[j].0 != rows[i].0);
        }
    }
    ids.unique_seq_to_set();
}

/// One admission step: an admission adds one row, for a correlation id the ledger did
/// not hold; a replay or a refusal leaves the rows as they were. Together with
/// `lemma_ledger_counts_admitted_ids`, the ledger's length counts the distinct
/// correlation ids ever admitted.
pub proof fn lemma_admission_step(
    policy: AdmissionPolicy,
    before: Seq<(Seq<char>, Seq<char>, ReceiptView)>,
    after: Seq<(Seq<char>, Seq<char>, ReceiptView)>,
    obs: RawObservation,
    parsed: Result<Vec<Triple>, String>,
    shape: ShapeReport,
    res: Result<AdmissionReceipt, ObservationAdmissionRefused>,
)
    requires
        admission_answers(policy, before, after, obs, parsed, shape, res),
    ensures
        (res is Ok && gate_outcome(policy, before, obs, parsed, shape) == GateOutcome::Admit) ==> {
            &&& after.len() == before.len() + 1
            &&& !admitted_ids(before).contains(obs.correlation_id@)
            &&& admitted_ids(after) == admitted_ids(before).insert(obs.correlation_id@)
        },
        !(res is Ok && gate_outcome(policy, before, obs, parsed, shape) == GateOutcome::Admit) ==> after == before,
{
    let c = obs.correlation_id@;
    if res is Ok && gate_outcome(policy, before, obs, parsed, shape) == GateOutcome::Admit {
        let ts = parsed->Ok_0@;
        let row = (c, receipt_hash_of(c, ts), admitted_receipt(obs, ts));
        assert(after == before.push(row));
        assert(row_of(before, c) is None);
        let f = |r: (Seq<char>, Seq<char>, ReceiptView)| r.0;
        if admitted_ids(before).contains(c) {
            let i = choose|i: int| 0 <= i < before.len() && before.map_values(f)[i] == c;
            assert(before[i].0 == c);
        }
        assert(after.map_values(f) =~= before.map_values(f).push(c));
        before.map_values(f).lemma_push_to_set_commute(c);
    }
}


/// The authority gate denies by default: every predicate an admitted observation
/// asserts about its subject is listed by the policy's first entry for the observation's
/// source, so a source with no entry may assert nothing beyond its provenance.
pub proof fn lemma_authority_default_deny(
    policy: AdmissionPolicy,
    rows: Seq<(Seq<char>, Seq<char>, ReceiptView)>,
    obs: RawObservation,
    parsed: Result<Vec<Triple>, String>,
    shape: ShapeReport,
    x: Seq<char>,
)
    requires
        gate_outcome(policy, rows, obs, parsed, shape) == GateOutcome::Admit,
        asserted_predicate(parsed->Ok_0@, obs.declared_subject@, x),
    ensures
        exists|i: int|
            0 <= i < policy.authorized_predicates@.len() && (#[trigger] policy.authorized_predicates@[i]).0@ == obs.source_id@
                && (forall|j: int| 0 <= j < i ==> (#[trigger] policy.authorized_predicates@[j]).0@ != obs.source_id@)
                && string_views(policy.authorized_predicates@[i].1@).contains(x),
{
    let ap = policy.authorized_predicates@;
    assert(!some_unauthorized(parsed->Ok_0@, obs.declared_subject@, authorized_of(ap, obs.source_id@)));
    assert(authorized(authorized_of(ap, obs.source_id@), x));
    lemma_authorized_of_entry(ap, obs.source_id@);
}

/// The list `authorized_of` gives for `src` is that of the first entry for `src`.
proof fn lemma_authorized_of_entry(ap: Seq<(String, Vec<String>)>, src: Seq<char>)
    ensures
        authorized_of(ap, src) matches Some(l) ==> exists|i: int|
            0 <= i < ap.len() && (#[trigger] ap[i]).0@ == src && (forall|j: int| 0 <= j < i ==> (#[trigger] ap[j]).0@ != src)
                && l == string_views(ap[i].1@),
    decreases ap.len(),
{
    if ap.len() > 0 && ap[0].0@ != src {
        lemma_authorized_of_entry(ap.drop_first(), src);
        if authorized_of(ap, src) is Some {
            let rest = ap.drop_first();
            let i = choose|i: int|
                0 <= i < rest.len() && (#[trigger] rest[i]).0@ == src && (forall|j: int| 0 <= j < i ==> (#[trigger] rest[j]).0@ != src)
                    && authorized_of(ap, src)->Some_0 == string_views(rest[i].1@);
            assert(ap[i + 1] == rest[i]);
            assert forall|j: int| 0 <= j < i + 1 implies (#[trigger] ap[j]).0@ != src by {
                if j > 0 {
                    assert(ap[j] == rest[j - 1]);
                }
            }
        }
    } else if ap.len() > 0 {
        assert(ap[0].0@ == src);
    }
}

} // verus!
