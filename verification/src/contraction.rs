//! Semantic contraction: the lifecycle state machine that carries a typed graph through
//! closure, refinement, shaping and admissibility to a planning state, and the
//! vocabulary of the artifacts it produces.

use vstd::prelude::*;
use vstd::utf8::encode_utf8;
use crate::datalog::{ResidueDiff, closure_bytes, compare_residue, split_residue};
use crate::digest::{blake3_digest, blake3_hash};
use crate::lex::string_views;

verus! {

/// The lifecycle states of a semantic contraction.
#[derive(Clone, Copy, Debug, PartialEq, Eq, Hash, Structural)]
pub enum ContractionState {
    Typed,
    Closed,
    Refined,
    Shaped,
    Admissible,
    Contracted,
    Plannable,
    Refused,
}

/// The kinds of edge of the state machine.
pub open spec fn lawful() -> Seq<char> {
    seq!['l', 'a', 'w', 'f', 'u', 'l']
}

/// The edge into `REFUSED` from a closure that is invalid.
pub open spec fn invalid() -> Seq<char> {
    seq!['i', 'n', 'v', 'a', 'l', 'i', 'd']
}

/// The edge into `REFUSED` from a shape that fails authority or conformance.
pub open spec fn authority_or_conformance_failure() -> Seq<char> {
    seq![
        'a', 'u', 't', 'h', 'o', 'r', 'i', 't', 'y', '_', 'o', 'r', '_', 'c', 'o', 'n', 'f', 'o', 'r', 'm', 'a', 'n', 'c', 'e',
        '_', 'f', 'a', 'i', 'l', 'u', 'r', 'e',
    ]
}

/// The transition table: the kind of the edge `from -> to`, or `None` where there is no
/// such edge. The lawful path runs TYPED, CLOSED, REFINED, SHAPED, ADMISSIBLE,
/// CONTRACTED, PLANNABLE; CLOSED and SHAPED may also exit to REFUSED.
pub open spec fn edge_kind(from: ContractionState, to: ContractionState) -> Option<Seq<char>> {
    match (from, to) {
        (ContractionState::Typed, ContractionState::Closed) => Some(lawful()),
        (ContractionState::Closed, ContractionState::Refined) => Some(lawful()),
        (ContractionState::Refined, ContractionState::Shaped) => Some(lawful()),
        (ContractionState::Shaped, ContractionState::Admissible) => Some(lawful()),
        (ContractionState::Admissible, ContractionState::Contracted) => Some(lawful()),
        (ContractionState::Contracted, ContractionState::Plannable) => Some(lawful()),
        (ContractionState::Closed, ContractionState::Refused) => Some(invalid()),
        (ContractionState::Shaped, ContractionState::Refused) => Some(authority_or_conformance_failure()),
        _ => None,
    }
}

/// The stable name of a state.
pub open spec fn state_name(s: ContractionState) -> Seq<char> {
    match s {
        ContractionState::Typed => seq!['T', 'Y', 'P', 'E', 'D'],
        ContractionState::Closed => seq!['C', 'L', 'O', 'S', 'E', 'D'],
        ContractionState::Refined => seq!['R', 'E', 'F', 'I', 'N', 'E', 'D'],
        ContractionState::Shaped => seq!['S', 'H', 'A', 'P', 'E', 'D'],
        ContractionState::Admissible => seq!['A', 'D', 'M', 'I', 'S', 'S', 'I', 'B', 'L', 'E'],
        ContractionState::Contracted => seq!['C', 'O', 'N', 'T', 'R', 'A', 'C', 'T', 'E', 'D'],
        ContractionState::Plannable => seq!['P', 'L', 'A', 'N', 'N', 'A', 'B', 'L', 'E'],
        ContractionState::Refused => seq!['R', 'E', 'F', 'U', 'S', 'E', 'D'],
    }
}

/// One edge of the transition table.
#[derive(Clone, Copy, Debug, PartialEq, Eq)]
pub struct Transition {
    pub from: ContractionState,
    pub to: ContractionState,
    pub kind: &'static str,
}

/// The transition table, one entry per edge.
pub fn transitions() -> (res: Vec<Transition>)
    ensures
        forall|i: int| 0 <= i < res@.len() ==> edge_kind((#[trigger] res@[i]).from, res@[i].to) == Some(res@[i].kind@),
        forall|from: ContractionState, to: ContractionState| #[trigger] edge_kind(from, to) is Some ==> exists|i: int|
            0 <= i < res@.len() && (#[trigger] res@[i]).from == from && res@[i].to == to,
        forall|i: int, j: int|
            0 <= i < j < res@.len() ==> !((#[trigger] res@[i]).from == (#[trigger] res@[j]).from && res@[i].to == res@[j].to),
{
    proof {
        reveal_strlit("lawful");
        reveal_strlit("invalid");
        reveal_strlit("authority_or_conformance_failure");
    }
    let res = vec![
        Transition { from: ContractionState::Typed, to: ContractionState::Closed, kind: "lawful" },
        Transition { from: ContractionState::Closed, to: ContractionState::Refined, kind: "lawful" },
        Transition { from: ContractionState::Refined, to: ContractionState::Shaped, kind: "lawful" },
        Transition { from: ContractionState::Shaped, to: ContractionState::Admissible, kind: "lawful" },
        Transition { from: ContractionState::Admissible, to: ContractionState::Contracted, kind: "lawful" },
        Transition { from: ContractionState::Contracted, to: ContractionState::Plannable, kind: "lawful" },
        Transition { from: ContractionState::Closed, to: ContractionState::Refused, kind: "invalid" },
        Transition {
            from: ContractionState::Shaped,
            to: ContractionState::Refused,
            kind: "authority_or_conformance_failure",
        },
    ];
    proof {
        assert forall|from: ContractionState, to: ContractionState| #[trigger] edge_kind(from, to) is Some implies exists|i: int|
            0 <= i < res@.len() && (#[trigger] res@[i]).from == from && res@[i].to == to by {
            match (from, to) {
                (ContractionState::Typed, ContractionState::Closed) => assert(res@[0].from == from && res@[0].to == to),
                (ContractionState::Closed, ContractionState::Refined) => assert(res@[1].from == from && res@[1].to == to),
                (ContractionState::Refined, ContractionState::Shaped) => assert(res@[2].from == from && res@[2].to == to),
                (ContractionState::Shaped, ContractionState::Admissible) => assert(res@[3].from == from && res@[3].to == to),
                (ContractionState::Admissible, ContractionState::Contracted) => assert(res@[4].from == from && res@[4].to == to),
                (ContractionState::Contracted, ContractionState::Plannable) => assert(res@[5].from == from && res@[5].to == to),
                (ContractionState::Closed, ContractionState::Refused) => assert(res@[6].from == from && res@[6].to == to),
                (ContractionState::Shaped, ContractionState::Refused) => assert(res@[7].from == from && res@[7].to == to),
                _ => {},
            }
        }
    }
    res
}

impl ContractionState {
    /// The state's stable name.
    pub fn name(self) -> (res: &'static str)
        ensures
            res@ == state_name(self),
    {
        proof {
            reveal_strlit("TYPED");
            reveal_strlit("CLOSED");
            reveal_strlit("REFINED");
            reveal_strlit("SHAPED");
            reveal_strlit("ADMISSIBLE");
            reveal_strlit("CONTRACTED");
            reveal_strlit("PLANNABLE");
            reveal_strlit("REFUSED");
        }
        match self {
            ContractionState::Typed => "TYPED",
            ContractionState::Closed => "CLOSED",
            ContractionState::Refined => "REFINED",
            ContractionState::Shaped => "SHAPED",
            ContractionState::Admissible => "ADMISSIBLE",
            ContractionState::Contracted => "CONTRACTED",
            ContractionState::Plannable => "PLANNABLE",
            ContractionState::Refused => "REFUSED",
        }
    }

    /// Whether `from -> to` is an edge of the transition table, whatever its kind.
    pub fn is_legal_transition(from: ContractionState, to: ContractionState) -> (res: bool)
        ensures
            res == edge_kind(from, to) is Some,
    {
        match Self::transition_kind(from, to) {
            Some(_) => true,
            None => false,
        }
    }

    /// The kind of the edge `from -> to`, or `None` where the table has no such edge.
    pub fn transition_kind(from: ContractionState, to: ContractionState) -> (res: Option<&'static str>)
        ensures
            match res {
                Some(k) => edge_kind(from, to) == Some(k@),
                None => edge_kind(from, to) is None,
            },
    {
        let table = transitions();
        let mut i: usize = 0;
        while i < table.len()
            invariant
                i <= table@.len(),
                forall|k: int| 0 <= k < table@.len() ==> edge_kind((#[trigger] table@[k]).from, table@[k].to) == Some(table@[k].kind@),
                forall|from: ContractionState, to: ContractionState| #[trigger] edge_kind(from, to) is Some ==> exists|k: int|
                    0 <= k < table@.len() && (#[trigger] table@[k]).from == from && table@[k].to == to,
                forall|k: int| 0 <= k < i ==> !((#[trigger] table@[k]).from == from && table@[k].to == to),
            decreases table@.len() - i,
        {
            let t = table[i];
            if t.from == from && t.to == to {
                return Some(t.kind);
            }
            i = i + 1;
        }
        None
    }
}

/// One artifact class of the contraction vocabulary, with the dimension it belongs to.
#[derive(Clone, Copy, Debug, PartialEq, Eq)]
pub struct VocabClass {
    pub label: &'static str,
    pub dimension: &'static str,
}

/// The labels of the vocabulary's artifact classes, one per dimension D1 to D7.
pub open spec fn class_labels() -> Seq<Seq<char>> {
    seq![
        seq!['T', 'y', 'p', 'e', 'd', 'G', 'r', 'a', 'p', 'h'],
        seq!['C', 'l', 'o', 's', 'u', 'r', 'e', 'G', 'r', 'a', 'p', 'h'],
        seq!['R', 'e', 'f', 'i', 'n', 'e', 'm', 'e', 'n', 't', 'D', 'e', 'l', 't', 'a'],
        seq!['S', 'h', 'a', 'p', 'e', 'R', 'e', 'p', 'o', 'r', 't'],
        seq!['A', 'd', 'm', 'i', 's', 's', 'i', 'b', 'i', 'l', 'i', 't', 'y', 'D', 'e', 'c', 'i', 's', 'i', 'o', 'n'],
        seq!['R', 'e', 's', 'i', 'd', 'u', 'e', 'G', 'r', 'a', 'p', 'h'],
        seq!['P', 'l', 'a', 'n', 'n', 'i', 'n', 'g', 'S', 't', 'a', 't', 'e'],
    ]
}

/// The vocabulary's artifact classes, in dimension order.
pub fn classes() -> (res: Vec<VocabClass>)
    ensures
        res@.len() == class_labels().len(),
        forall|i: int| 0 <= i < res@.len() ==> (#[trigger] res@[i]).label@ == class_labels()[i],
{
    proof {
        reveal_strlit("TypedGraph");
        reveal_strlit("ClosureGraph");
        reveal_strlit("RefinementDelta");
        reveal_strlit("ShapeReport");
        reveal_strlit("AdmissibilityDecision");
        reveal_strlit("ResidueGraph");
        reveal_strlit("PlanningState");
    }
    let res = vec![
        VocabClass { label: "TypedGraph", dimension: "D1" },
        VocabClass { label: "ClosureGraph", dimension: "D2" },
        VocabClass { label: "RefinementDelta", dimension: "D3" },
        VocabClass { label: "ShapeReport", dimension: "D4" },
        VocabClass { label: "AdmissibilityDecision", dimension: "D5" },
        VocabClass { label: "ResidueGraph", dimension: "D6" },
        VocabClass { label: "PlanningState", dimension: "D7" },
    ];
    proof {
        assert forall|i: int| 0 <= i < res@.len() implies (#[trigger] res@[i]).label@ == class_labels()[i] by {}
    }
    res
}

/// A state's place on the lifecycle TYPED, CLOSED, REFINED, SHAPED, ADMISSIBLE,
/// CONTRACTED, PLANNABLE, counted from zero; REFUSED is off the lifecycle.
pub open spec fn lifecycle_position(s: ContractionState) -> Option<int> {
    match s {
        ContractionState::Typed => Some(0),
        ContractionState::Closed => Some(1),
        ContractionState::Refined => Some(2),
        ContractionState::Shaped => Some(3),
        ContractionState::Admissible => Some(4),
        ContractionState::Contracted => Some(5),
        ContractionState::Plannable => Some(6),
        ContractionState::Refused => None,
    }
}

/// The lawful path runs through every stage in lifecycle order: between two states on
/// the lifecycle there is an edge exactly when the second is the first's immediate
/// successor, and that edge is lawful; the only other edges lead to REFUSED, from
/// CLOSED and from SHAPED, and nothing leaves REFUSED.
pub proof fn lemma_lifecycle_is_the_lawful_path(from: ContractionState, to: ContractionState)
    ensures
        (lifecycle_position(from) is Some && lifecycle_position(to) is Some) ==> (edge_kind(from, to) is Some
            <==> lifecycle_position(to)->Some_0 == lifecycle_position(from)->Some_0 + 1),
        (lifecycle_position(from) is Some && lifecycle_position(to) is Some && edge_kind(from, to) is Some) ==> edge_kind(
            from,
            to,
        ) == Some(lawful()),
        edge_kind(from, to) is Some && lifecycle_position(to) is None ==> (from == ContractionState::Closed || from
            == ContractionState::Shaped),
        lifecycle_position(from) is None ==> edge_kind(from, to) is None,
{
}

/// Only the lawful path and the two refusal exits are edges: no state reaches
/// PLANNABLE except CONTRACTED, REFUSED has no way out, and no state steps to itself.
pub proof fn lemma_transitions_are_stepwise(from: ContractionState, to: ContractionState)
    ensures
        edge_kind(from, to) is Some && to == ContractionState::Plannable ==> from == ContractionState::Contracted,
        from == ContractionState::Refused ==> edge_kind(from, to) is None,
        edge_kind(from, from) is None,
{
}


// ---------------------------------------------------------------------------------------
// The semantic world's artifacts and refusals.
// ---------------------------------------------------------------------------------------

/// Why a semantic world was refused before any planning problem is built.
#[derive(Debug, Clone, PartialEq, Eq)]
pub enum SemanticWorldRefused {
    /// Ontology typing failed mid-materialization.
    TypingFailed(String),
    /// The Datalog closure refused; its rendered refusal.
    ClosureRefused(String),
    /// The N3 quarantine or refinement refused; its rendered refusal.
    N3RefinementRefused(String),
    /// The SHACL validator itself failed.
    ShaclValidatorError(String),
    /// The ShEx validator itself failed.
    ShexValidatorError(String),
    /// The world is impossible: it does not conform to the declared shapes.
    ShapeNonconformant { shacl_violations: usize, shex_failures: usize },
    /// A transition absent from the table was attempted.
    IllegalStateTransition { from: &'static str, to: &'static str },
}

/// The bytes a stage digest is taken over: the domain tag, the stage and a zero byte,
/// then the fact lines in sorted order, each followed by a newline.
pub open spec fn stage_bytes(stage: Seq<char>, lines: Seq<Seq<char>>) -> Seq<u8> {
    encode_utf8("f03-semantic-contraction/v1/"@) + closure_bytes(stage, lines)
}

/// The digest of a stage's facts, domain-tagged by the stage so that stages over the
/// same facts never collide, and the same for every order of the same facts.
pub fn canonical_digest(stage: &str, fact_lines: &Vec<String>) -> (res: Vec<u8>)
    ensures
        res@ == blake3_digest(stage_bytes(stage@, string_views(fact_lines@))),
        res@.len() == 32,
{
    let tagged = crate::datalog::ClosureDigest::tagged_bytes("f03-semantic-contraction/v1/", stage, fact_lines);
    blake3_hash(tagged.as_slice())
}

/// The outcome of validating a closure against its shapes: the SHACL verdict and
/// violations, the ShEx verdict and failures where a schema was given, and the digest.
#[derive(Debug, Clone, PartialEq, Eq)]
pub struct ShapeOutcome {
    pub shacl_conforms: bool,
    pub shacl_violations: usize,
    pub shex: Option<(bool, usize)>,
    pub digest: Vec<u8>,
}

/// The decision that a world is admissible, bound to the shape report's digest.
#[derive(Debug, Clone, PartialEq, Eq)]
pub struct AdmissibilityDecision {
    pub digest: Vec<u8>,
}

/// The world conforms: SHACL conforms, and ShEx conforms where a schema was given.
pub open spec fn world_conforms(r: ShapeOutcome) -> bool {
    r.shacl_conforms && match r.shex {
        Some((ok, _)) => ok,
        None => true,
    }
}

/// Admits a conforming world; refuses an impossible one with its violation counts.
pub fn decide_admissibility(report: &ShapeOutcome) -> (res: Result<AdmissibilityDecision, SemanticWorldRefused>)
    ensures
        match res {
            Ok(d) => world_conforms(*report) && d.digest@ == report.digest@,
            Err(e) => !world_conforms(*report) && e == (SemanticWorldRefused::ShapeNonconformant {
                shacl_violations: report.shacl_violations,
                shex_failures: match report.shex {
                    Some((_, n)) => n,
                    None => 0,
                },
            }),
        },
{
    let shex_ok = match report.shex {
        Some((ok, _)) => ok,
        None => true,
    };
    if report.shacl_conforms && shex_ok {
        Ok(AdmissibilityDecision { digest: copy_bytes(&report.digest) })
    } else {
        Err(
            SemanticWorldRefused::ShapeNonconformant {
                shacl_violations: report.shacl_violations,
                shex_failures: match report.shex {
                    Some((_, n)) => n,
                    None => 0,
                },
            },
        )
    }
}

/// A copy of a byte list.
fn copy_bytes(v: &Vec<u8>) -> (res: Vec<u8>)
    ensures
        res@ == v@,
{
    let mut res: Vec<u8> = Vec::new();
    let mut k: usize = 0;
    while k < v.len()
        invariant
            k <= v@.len(),
            res@ == v@.take(k as int),
        decreases v@.len() - k,
    {
        res.push(v[k]);
        proof {
            assert(v@.take(k + 1) =~= v@.take(k as int).push(v@[k as int]));
        }
        k = k + 1;
    }
    proof {
        assert(v@.take(k as int) =~= v@);
    }
    res
}

/// The irreducible residue: the planner's items the closure does not prove, and the
/// closure's digest.
#[derive(Debug, Clone, PartialEq, Eq)]
pub struct ResidueGraph {
    pub diff: ResidueDiff,
    pub digest: Vec<u8>,
}

/// The residue of the admitted predicates against a closure, given by its facts'
/// predicates and its fact lines.
pub fn project_residue(closure_predicates: &Vec<String>, closure_fact_lines: &Vec<String>, admitted_predicates: &Vec<String>) -> (res:
    ResidueGraph)
    ensures
        string_views(res.diff.stripped@) == split_residue(string_views(closure_predicates@), string_views(admitted_predicates@), true),
        string_views(res.diff.remaining@) == split_residue(
            string_views(closure_predicates@),
            string_views(admitted_predicates@),
            false,
        ),
        res.digest@ == blake3_digest(stage_bytes("residue-graph"@, string_views(closure_fact_lines@))),
{
    let diff = compare_residue(closure_predicates, admitted_predicates);
    let digest = canonical_digest("residue-graph", closure_fact_lines);
    ResidueGraph { diff, digest }
}

/// The planning state handed to problem construction: plannable, with the residue and
/// the residue's digest as receipt head.
#[derive(Debug, Clone, PartialEq, Eq)]
pub struct PlanningState {
    pub state: ContractionState,
    pub residue: ResidueGraph,
    pub receipt_head: Vec<u8>,
}

/// Publishes the planning state once the world is admitted.
pub fn publish_planning_state(residue: ResidueGraph, admission: &AdmissibilityDecision) -> (res: PlanningState)
    ensures
        res.state == ContractionState::Plannable,
        res.receipt_head@ == residue.digest@,
        res.residue == residue,
{
    let head = copy_bytes(&residue.digest);
    PlanningState { state: ContractionState::Plannable, residue, receipt_head: head }
}

/// Permits the transition `from -> to` where the table has it, else refuses naming both
/// states.
pub fn require_transition(from: ContractionState, to: ContractionState) -> (res: Result<(), SemanticWorldRefused>)
    ensures
        res is Ok <==> edge_kind(from, to) is Some,
        res matches Err(SemanticWorldRefused::IllegalStateTransition { from: f, to: t }) ==> f@ == state_name(from)
            && t@ == state_name(to),
{
    if ContractionState::is_legal_transition(from, to) {
        Ok(())
    } else {
        Err(SemanticWorldRefused::IllegalStateTransition { from: from.name(), to: to.name() })
    }
}

} // verus!
