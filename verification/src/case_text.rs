//! Text extraction and building for the crown runs: fields read out of observation and
//! case files by their documented conventions, the obligations' planning atoms, the
//! runtime planning problem fragment and the bridge workflow of a plan.

use vstd::prelude::*;
use crate::lex::string_views;
use crate::text::{has_part, occurs_at, owned, push_decimal, push_str, decimal};

verus! {

// ---------------------------------------------------------------------------------------
// Searching text.
// ---------------------------------------------------------------------------------------

/// The first position at which `part` occurs in `s` (meaningful where it occurs).
#[verifier::opaque]
pub open spec fn first_at(s: Seq<char>, part: Seq<char>) -> int {
    choose|i: int| #[trigger] occurs_at(s, part, i) && forall|j: int| 0 <= j < i ==> !occurs_at(s, part, j)
}

/// The first position of `part` in `s`, if it occurs.
pub fn find_str(s: &str, part: &str) -> (res: Option<usize>)
    ensures
        match res {
            Some(i) => occurs_at(s@, part@, i as int) && forall|j: int| 0 <= j < i ==> !occurs_at(s@, part@, j),
            None => !has_part(s@, part@),
        },
{
    let ls = s.unicode_len();
    let lp = part.unicode_len();
    if lp > ls {
        proof {
            assert forall|i: int| !#[trigger] occurs_at(s@, part@, i) by {}
        }
        return None;
    }
    let mut i: usize = 0;
    while i <= ls - lp
        invariant
            ls == s@.len(),
            lp == part@.len(),
            lp <= ls,
            i <= ls - lp + 1,
            forall|q: int| 0 <= q < i ==> !#[trigger] occurs_at(s@, part@, q),
        decreases ls - lp + 1 - i,
    {
        if matches_at(s, part, i) {
            return Some(i);
        }
        if i == ls - lp {
            proof {
                assert forall|q: int| !#[trigger] occurs_at(s@, part@, q) by {
                    if 0 <= q <= i {
                    }
                }
            }
            return None;
        }
        i = i + 1;
    }
    proof {
        assert forall|q: int| !#[trigger] occurs_at(s@, part@, q) by {}
    }
    None
}

/// Whether `part` occurs in `s` at position `i`.
fn matches_at(s: &str, part: &str, i: usize) -> (res: bool)
    requires
        i + part@.len() <= s@.len(),
    ensures
        res == occurs_at(s@, part@, i as int),
{
    let lp = part.unicode_len();
    let ls = s.unicode_len();
    let mut k: usize = 0;
    while k < lp
        invariant
            lp == part@.len(),
            ls == s@.len(),
            i + lp <= s@.len(),
            k <= lp,
            forall|q: int| 0 <= q < k ==> s@[i + q] == part@[q],
        decreases lp - k,
    {
        if s.get_char(i + k) != part.get_char(k) {
            proof {
                assert(s@.subrange(i as int, i + lp)[k as int] != part@[k as int]);
            }
            return false;
        }
        k = k + 1;
    }
    proof {
        assert(s@.subrange(i as int, i + lp) =~= part@);
    }
    true
}

/// The characters of `s` from position `from` on.
fn tail_from<'a>(s: &'a str, from: usize) -> (res: &'a str)
    requires
        from <= s@.len(),
    ensures
        res@ == s@.skip(from as int),
{
    let n = s.unicode_len();
    let r = s.substring_char(from, n);
    proof {
        assert(r@ =~= s@.skip(from as int));
    }
    r
}

// ---------------------------------------------------------------------------------------
// Reading fields.
// ---------------------------------------------------------------------------------------

/// Why a triple-quoted field could not be read.
#[derive(Clone, Copy, Debug, PartialEq, Eq, Structural)]
pub enum FieldRefused {
    /// The predicate does not occur.
    PredicateMissing,
    /// No `"""` follows the predicate.
    LiteralMissing,
    /// The long literal is never closed.
    LiteralUnclosed,
}

/// The text after the first `<predicate>` marker.
pub open spec fn after_marker(text: Seq<char>, predicate: Seq<char>) -> Seq<char> {
    let marker = "<"@ + predicate + ">"@;
    text.skip(first_at(text, marker) + marker.len())
}

/// The text after the opening `"""` that follows the marker.
pub open spec fn after_opening(text: Seq<char>, predicate: Seq<char>) -> Seq<char> {
    let after = after_marker(text, predicate);
    after.skip(first_at(after, "\"\"\""@) + 3)
}

/// The first `"""..."""` long literal after `<predicate>` in `text`, or the first of the
/// three things that is missing.
pub open spec fn quoted_field(text: Seq<char>, predicate: Seq<char>) -> Result<Seq<char>, FieldRefused> {
    if !has_part(text, "<"@ + predicate + ">"@) {
        Err(FieldRefused::PredicateMissing)
    } else if !has_part(after_marker(text, predicate), "\"\"\""@) {
        Err(FieldRefused::LiteralMissing)
    } else if !has_part(after_opening(text, predicate), "\"\"\""@) {
        Err(FieldRefused::LiteralUnclosed)
    } else {
        Ok(after_opening(text, predicate).take(first_at(after_opening(text, predicate), "\"\"\""@)))
    }
}

/// The first position of a found part is the position `first_at` names.
proof fn lemma_first_at(s: Seq<char>, part: Seq<char>, i: int)
    requires
        occurs_at(s, part, i),
        forall|j: int| 0 <= j < i ==> !occurs_at(s, part, j),
    ensures
        first_at(s, part) == i,
{
    reveal(first_at);
    let f = first_at(s, part);
    assert(occurs_at(s, part, f) && forall|j: int| 0 <= j < f ==> !occurs_at(s, part, j));
    if f < i {
        assert(!occurs_at(s, part, f));
    }
    if i < f {
        assert(!occurs_at(s, part, i));
    }
}

/// Reads the first `"""..."""` long literal that follows `<predicate>` in `text`.
#[verifier::spinoff_prover]
pub fn extract_triple_quoted_field(text: &str, predicate: &str) -> (res: Result<String, FieldRefused>)
    ensures
        match res {
            Ok(v) => quoted_field(text@, predicate@) == Ok::<Seq<char>, FieldRefused>(v@),
            Err(e) => quoted_field(text@, predicate@) == Err::<Seq<char>, FieldRefused>(e),
        },
{
    let mut marker = owned("<");
    push_str(&mut marker, predicate);
    push_str(&mut marker, ">");
    proof {
        assert(marker@ =~= "<"@ + predicate@ + ">"@);
    }
    let i = match find_str(text, marker.as_str()) {
        Some(i) => i,
        None => {
            return Err(FieldRefused::PredicateMissing);
        },
    };
    proof {
        lemma_first_at(text@, marker@, i as int);
    }
    let _tl = text.unicode_len();
    let after = tail_from(text, i + marker.unicode_len());
    let q = match find_str(after, "\"\"\"") {
        Some(q) => q,
        None => {
            return Err(FieldRefused::LiteralMissing);
        },
    };
    proof {
        lemma_first_at(after@, "\"\"\""@, q as int);
        reveal_strlit("\"\"\"");
    }
    let _al = after.unicode_len();
    let rest = tail_from(after, q + 3);
    let e = match find_str(rest, "\"\"\"") {
        Some(e) => e,
        None => {
            return Err(FieldRefused::LiteralUnclosed);
        },
    };
    proof {
        lemma_first_at(rest@, "\"\"\""@, e as int);
    }
    let v = owned(rest.substring_char(0, e));
    proof {
        assert(v@ =~= rest@.take(e as int));
    }
    Ok(v)
}

/// The IRI in object position of a dump line: the text after the line's last `<`, up to
/// the first `>` after it (or to the end); `None` where the line has no `<`.
pub open spec fn last_angle_iri(line: Seq<char>) -> Option<Seq<char>> {
    if exists|i: int| 0 <= i < line.len() && line[i] == '<' {
        let j = choose|i: int| 0 <= i < line.len() && line[i] == '<' && forall|k: int| i < k < line.len() ==> line[k] != '<';
        let after = line.skip(j + 1);
        Some(
            if exists|i: int| 0 <= i < after.len() && after[i] == '>' {
                after.take(choose|i: int| 0 <= i < after.len() && after[i] == '>' && forall|k: int| 0 <= k < i ==> after[k] != '>')
            } else {
                after
            },
        )
    } else {
        None
    }
}

/// Reads the IRI in object position of a dump line.
pub fn extract_last_angle_iri(line: &str) -> (res: Option<String>)
    ensures
        match res {
            Some(v) => last_angle_iri(line@) == Some(v@),
            None => last_angle_iri(line@) is None,
        },
{
    let n = line.unicode_len();
    let mut j: usize = n;
    while j > 0 && line.get_char(j - 1) != '<'
        invariant
            n == line@.len(),
            j <= n,
            forall|k: int| j <= k < n ==> line@[k] != '<',
        decreases j,
    {
        j = j - 1;
    }
    if j == 0 {
        return None;
    }
    let lt = j - 1;
    proof {
        let c = choose|i: int| 0 <= i < line@.len() && line@[i] == '<' && forall|k: int| i < k < line@.len() ==> line@[k] != '<';
        if c < lt {
            assert(line@[lt as int] == '<');
        }
        if c > lt {
            assert(line@[c] != '<');
        }
    }
    let after = tail_from(line, j);
    let m = after.unicode_len();
    let mut k: usize = 0;
    while k < m && after.get_char(k) != '>'
        invariant
            m == after@.len(),
            k <= m,
            forall|q: int| 0 <= q < k ==> after@[q] != '>',
        decreases m - k,
    {
        k = k + 1;
    }
    proof {
        if k < m {
            let c = choose|i: int| 0 <= i < after@.len() && after@[i] == '>' && forall|q: int| 0 <= q < i ==> after@[q] != '>';
            if c < k {
                assert(after@[c] != '>');
            }
            if c > k {
                assert(after@[k as int] == '>');
            }
        } else {
            assert(after@.take(k as int) =~= after@);
        }
    }
    let v = owned(after.substring_char(0, k));
    proof {
        assert(v@ =~= after@.take(k as int));
    }
    Some(v)
}


// ---------------------------------------------------------------------------------------
// The bribery case.
// ---------------------------------------------------------------------------------------

/// Why the case run's text could not be read or built.
#[derive(Debug, Clone, PartialEq, Eq)]
pub enum CaseTextRefused {
    /// The case file has no `dcterms:identifier` literal.
    IdentifierMissing,
    /// The case identifier literal is never closed.
    IdentifierUnclosed,
    /// The hook catalog declares no evidence type for an obligation.
    EvidenceTypeCatalogMissing { obligation_local_name: String },
    /// The plan has no step to build a bridge workflow from.
    EmptyPlanForBridgeWorkflow,
    /// The store derived no obligation for the case subject.
    NoObligationsDerivedForCase { subject: String },
}

/// The Unicode lowercase mapping of a string, as `str::to_lowercase` computes it.
pub uninterp spec fn lowercase(s: Seq<char>) -> Seq<char>;

/// `str::to_lowercase`: the string mapped to lowercase by Unicode's rules. The contract
/// names the result and says nothing else of it.
#[verifier::external_body]
fn to_lowercase(s: &str) -> (res: String)
    ensures
        res@ == lowercase(s@),
{
    s.to_lowercase()
}

/// The text after the case file's first `dcterms:identifier "` marker.
pub open spec fn after_identifier(case_ttl: Seq<char>) -> Seq<char> {
    case_ttl.skip(first_at(case_ttl, "dcterms:identifier \""@) + "dcterms:identifier \""@.len())
}

/// The case's local name: `case-` and its identifier literal in lowercase, or what is
/// missing.
pub open spec fn case_local_name(case_ttl: Seq<char>) -> Result<Seq<char>, CaseTextRefused> {
    if !has_part(case_ttl, "dcterms:identifier \""@) {
        Err(CaseTextRefused::IdentifierMissing)
    } else if !has_part(after_identifier(case_ttl), "\""@) {
        Err(CaseTextRefused::IdentifierUnclosed)
    } else {
        Ok("case-"@ + lowercase(after_identifier(case_ttl).take(first_at(after_identifier(case_ttl), "\""@))))
    }
}

/// Reads the case's local name from its `dcterms:identifier` literal.
#[verifier::spinoff_prover]
pub fn extract_case_local_name(case_ttl: &str) -> (res: Result<String, CaseTextRefused>)
    ensures
        match res {
            Ok(v) => case_local_name(case_ttl@) == Ok::<Seq<char>, CaseTextRefused>(v@),
            Err(e) => case_local_name(case_ttl@) == Err::<Seq<char>, CaseTextRefused>(e),
        },
{
    let marker = "dcterms:identifier \"";
    let i = match find_str(case_ttl, marker) {
        Some(i) => i,
        None => {
            return Err(CaseTextRefused::IdentifierMissing);
        },
    };
    proof {
        lemma_first_at(case_ttl@, marker@, i as int);
    }
    let _tl = case_ttl.unicode_len();
    let after = tail_from(case_ttl, i + marker.unicode_len());
    let end = match find_str(after, "\"") {
        Some(e) => e,
        None => {
            return Err(CaseTextRefused::IdentifierUnclosed);
        },
    };
    proof {
        lemma_first_at(after@, "\""@, end as int);
    }
    let ident = after.substring_char(0, end);
    let lower = to_lowercase(ident);
    let mut out = owned("case-");
    push_str(&mut out, lower.as_str());
    proof {
        assert(ident@ =~= after@.take(end as int));
    }
    Ok(out)
}

/// The local name of an IRI: the text after its last `#`, or the whole IRI.
pub open spec fn local_name(iri: Seq<char>) -> Seq<char> {
    if exists|i: int| 0 <= i < iri.len() && iri[i] == '#' {
        iri.skip(
            (choose|i: int| 0 <= i < iri.len() && iri[i] == '#' && forall|k: int| i < k < iri.len() ==> iri[k] != '#') + 1,
        )
    } else {
        iri
    }
}

/// The local name of an IRI.
pub fn local_name_of(iri: &str) -> (res: String)
    ensures
        res@ == local_name(iri@),
{
    let n = iri.unicode_len();
    let mut j: usize = n;
    while j > 0 && iri.get_char(j - 1) != '#'
        invariant
            n == iri@.len(),
            j <= n,
            forall|k: int| j <= k < n ==> iri@[k] != '#',
        decreases j,
    {
        j = j - 1;
    }
    if j == 0 {
        proof {
            assert(iri@.skip(0) =~= iri@);
        }
        return owned(iri);
    }
    proof {
        let c = choose|i: int| 0 <= i < iri@.len() && iri@[i] == '#' && forall|k: int| i < k < iri@.len() ==> iri@[k] != '#';
        if c < j - 1 {
            assert(iri@[j - 1] == '#');
        }
        if c > j - 1 {
            assert(iri@[c] != '#');
        }
    }
    owned(tail_from(iri, j))
}

/// One evidence-type catalog fact: its subject and its object, each the bare IRI where
/// the term is an IRI.
pub type CatalogFact = (Option<String>, Option<String>);

/// The catalog fact `f` declares an evidence type for `obligation`.
pub open spec fn declares(f: CatalogFact, obligation: Seq<char>) -> bool {
    match (f.0, f.1) {
        (Some(s), Some(_)) => local_name(s@) == obligation,
        _ => false,
    }
}

/// The evidence type the first declaring fact names, by its local name.
pub open spec fn evidence_type(catalog: Seq<CatalogFact>, obligation: Seq<char>) -> Option<Seq<char>> {
    if exists|k: int| 0 <= k < catalog.len() && #[trigger] declares(catalog[k], obligation) {
        let k = choose|k: int|
            0 <= k < catalog.len() && #[trigger] declares(catalog[k], obligation) && forall|j: int|
                0 <= j < k ==> !declares(catalog[j], obligation);
        Some(local_name(catalog[k].1->0@))
    } else {
        None
    }
}

/// The evidence type the catalog declares for an obligation.
pub fn evidence_type_for_obligation(catalog: &Vec<CatalogFact>, obligation: &str) -> (res: Result<String, CaseTextRefused>)
    ensures
        match res {
            Ok(v) => evidence_type(catalog@, obligation@) == Some(v@),
            Err(e) => evidence_type(catalog@, obligation@) is None && (e matches CaseTextRefused::EvidenceTypeCatalogMissing {
                obligation_local_name: o,
            } && o@ == obligation@),
        },
{
    let mut k: usize = 0;
    while k < catalog.len()
        invariant
            k <= catalog@.len(),
            forall|j: int| 0 <= j < k ==> !#[trigger] declares(catalog@[j], obligation@),
        decreases catalog@.len() - k,
    {
        match (&catalog[k].0, &catalog[k].1) {
            (Some(s), Some(o)) => {
                let local = local_name_of(s.as_str());
                if crate::projector::str_eq(local.as_str(), obligation) {
                    proof {
                        assert(declares(catalog@[k as int], obligation@));
                        let c = choose|c: int|
                            0 <= c < catalog@.len() && #[trigger] declares(catalog@[c], obligation@) && forall|j: int|
                                0 <= j < c ==> !declares(catalog@[j], obligation@);
                        if c < k {
                            assert(!declares(catalog@[c], obligation@));
                        }
                        if c > k {
                            assert(!declares(catalog@[k as int], obligation@));
                        }
                    }
                    return Ok(local_name_of(o.as_str()));
                }
            },
            _ => {},
        }
        k = k + 1;
    }
    Err(CaseTextRefused::EvidenceTypeCatalogMissing { obligation_local_name: owned(obligation) })
}


/// The planning atoms of the derived obligations: `(has-obligation <case> <ob>)` for each,
/// then `(requires-evidence <ob> <type>)` for each, in order.
pub open spec fn obligation_atoms(catalog: Seq<CatalogFact>, case: Seq<char>, derived: Seq<Seq<char>>) -> Seq<Seq<char>> {
    Seq::new(derived.len(), |k: int| "(has-obligation "@ + case + " "@ + derived[k] + ")"@) + Seq::new(
        derived.len(),
        |k: int| "(requires-evidence "@ + derived[k] + " "@ + evidence_type(catalog, derived[k])->0 + ")"@,
    )
}

/// The planning atoms of the derived obligations; refused at the first obligation whose
/// evidence type the catalog does not declare.
pub fn project_obligations_to_pddl_init(catalog: &Vec<CatalogFact>, case_local_name: &str, derived: &Vec<String>) -> (res:
    Result<Vec<String>, CaseTextRefused>)
    ensures
        match res {
            Ok(atoms) => (forall|k: int| 0 <= k < derived@.len() ==> evidence_type(catalog@, #[trigger] derived@[k]@) is Some)
                && string_views(atoms@) == obligation_atoms(catalog@, case_local_name@, string_views(derived@)),
            Err(e) => exists|k: int|
                0 <= k < derived@.len() && evidence_type(catalog@, #[trigger] derived@[k]@) is None && (e matches CaseTextRefused::EvidenceTypeCatalogMissing {
                    obligation_local_name: o,
                } && o@ == derived@[k]@),
        },
{
    let ghost dv = string_views(derived@);
    let ghost first = Seq::new(dv.len(), |k: int| "(has-obligation "@ + case_local_name@ + " "@ + dv[k] + ")"@);
    let mut atoms: Vec<String> = Vec::new();
    let mut k: usize = 0;
    while k < derived.len()
        invariant
            k <= derived@.len(),
            dv == string_views(derived@),
            first == Seq::new(dv.len(), |k: int| "(has-obligation "@ + case_local_name@ + " "@ + dv[k] + ")"@),
            string_views(atoms@) == first.take(k as int),
        decreases derived@.len() - k,
    {
        let mut a = owned("(has-obligation ");
        push_str(&mut a, case_local_name);
        push_str(&mut a, " ");
        push_str(&mut a, derived[k].as_str());
        push_str(&mut a, ")");
        let ghost before = string_views(atoms@);
        atoms.push(a);
        proof {
            assert(string_views(atoms@) =~= before.push(a@));
            assert(first.take(k + 1) =~= first.take(k as int).push(first[k as int]));
        }
        k = k + 1;
    }
    let ghost second = Seq::new(
        dv.len(),
        |k: int| "(requires-evidence "@ + dv[k] + " "@ + evidence_type(catalog@, dv[k])->0 + ")"@,
    );
    let mut j: usize = 0;
    while j < derived.len()
        invariant
            j <= derived@.len(),
            dv == string_views(derived@),
            first.len() == dv.len(),
            second == Seq::new(dv.len(), |k: int| "(requires-evidence "@ + dv[k] + " "@ + evidence_type(catalog@, dv[k])->0 + ")"@),
            string_views(atoms@) == first + second.take(j as int),
            forall|q: int| 0 <= q < j ==> evidence_type(catalog@, #[trigger] dv[q]) is Some,
        decreases derived@.len() - j,
    {
        let et = match evidence_type_for_obligation(catalog, derived[j].as_str()) {
            Ok(t) => t,
            Err(e) => {
                proof {
                    assert(dv[j as int] == derived@[j as int]@);
                }
                return Err(e);
            },
        };
        let mut a = owned("(requires-evidence ");
        push_str(&mut a, derived[j].as_str());
        push_str(&mut a, " ");
        push_str(&mut a, et.as_str());
        push_str(&mut a, ")");
        let ghost before = string_views(atoms@);
        atoms.push(a);
        proof {
            assert(dv[j as int] == derived@[j as int]@);
            assert(string_views(atoms@) =~= before.push(a@));
            assert(second.take(j + 1) =~= second.take(j as int).push(second[j as int]));
            assert(first + second.take(j + 1) =~= (first + second.take(j as int)).push(second[j as int]));
        }
        j = j + 1;
    }
    proof {
        assert(second.take(j as int) =~= second);
        assert forall|q: int| 0 <= q < derived@.len() implies evidence_type(catalog@, #[trigger] derived@[q]@) is Some by {
            assert(dv[q] == derived@[q]@);
        }
    }
    Ok(atoms)
}

/// `parts` joined by `sep`.
pub open spec fn joined(parts: Seq<Seq<char>>, sep: Seq<char>) -> Seq<char>
    decreases parts.len(),
{
    if parts.len() == 0 {
        Seq::empty()
    } else if parts.len() == 1 {
        parts[0]
    } else {
        joined(parts.drop_last(), sep) + sep + parts.last()
    }
}

/// `parts` joined by `sep`.
pub fn join_strings(parts: &Vec<String>, sep: &str) -> (res: String)
    ensures
        res@ == joined(string_views(parts@), sep@),
{
    let ghost pv = string_views(parts@);
    let mut out = String::new();
    let mut k: usize = 0;
    while k < parts.len()
        invariant
            k <= parts@.len(),
            pv == string_views(parts@),
            out@ == joined(pv.take(k as int), sep@),
        decreases parts@.len() - k,
    {
        let ghost t = pv.take(k + 1);
        proof {
            assert(t.drop_last() =~= pv.take(k as int));
            assert(t.last() == parts@[k as int]@);
        }
        if k > 0 {
            push_str(&mut out, sep);
        } else {
            proof {
                assert(pv.take(0) =~= Seq::<Seq<char>>::empty());
            }
        }
        push_str(&mut out, parts[k].as_str());
        proof {
            if k == 0 {
                assert(t.len() == 1);
                assert(out@ =~= t[0]);
            } else {
                assert(out@ =~= joined(t.drop_last(), sep@) + sep@ + t.last());
            }
        }
        k = k + 1;
    }
    proof {
        assert(pv.take(k as int) =~= pv);
    }
    out
}

/// The objects of the runtime planning problem, in order.
pub open spec fn problem_objects(case: Seq<char>, derived: Seq<Seq<char>>, evidence_types: Seq<Seq<char>>) -> Seq<Seq<char>> {
    seq!["[ pddl:name \""@ + case + "\" ; pddl:ofType \"law-object\" ]"@] + Seq::new(
        derived.len(),
        |k: int| "[ pddl:name \""@ + derived[k] + "\" ; pddl:ofType \"obligation\" ]"@,
    ) + Seq::new(evidence_types.len(), |k: int| "[ pddl:name \""@ + evidence_types[k] + "\" ; pddl:ofType \"evidence-type\" ]"@)
        + seq![
        "[ pddl:name \"compliance-officer-shreya-patel\" ; pddl:ofType \"validator\" ]"@,
        "[ pddl:name \"general-counsel-marcus-webb\" ; pddl:ofType \"authority\" ]"@,
        "[ pddl:name \"tok-genesis-"@ + case + "\" ; pddl:ofType \"chain-token\" ]"@,
        "[ pddl:name \"raw\" ; pddl:ofType \"lifecycle-stage\" ]"@,
        "[ pddl:name \"validated\" ; pddl:ofType \"lifecycle-stage\" ]"@,
        "[ pddl:name \"admitted\" ; pddl:ofType \"lifecycle-stage\" ]"@,
        "[ pddl:name \"receipted\" ; pddl:ofType \"lifecycle-stage\" ]"@,
        "[ pddl:name \"blocked\" ; pddl:ofType \"lifecycle-stage\" ]"@,
    ]
}

/// The initial atoms of the runtime planning problem, each quoted, in order.
pub open spec fn problem_init(case: Seq<char>, init_atoms: Seq<Seq<char>>) -> Seq<Seq<char>> {
    seq!["\"(in-stage "@ + case + " raw)\""@] + Seq::new(init_atoms.len(), |k: int| "\""@ + init_atoms[k] + "\""@)
        + seq!["\"(prev-chain-valid tok-genesis-"@ + case + ")\""@]
}

/// The runtime planning problem fragment, in Turtle.
pub open spec fn problem_fragment(
    case: Seq<char>,
    derived: Seq<Seq<char>>,
    evidence_types: Seq<Seq<char>>,
    init_atoms: Seq<Seq<char>>,
) -> Seq<char> {
    "@prefix pddl: <http://seanchatmangpt.github.io/praxis/pddl#> .\n\n"@ + "<urn:mfw:crown-bribery-case:problem:"@ + case
        + ">\n    a pddl:Problem ;\n"@ + "    pddl:name \"bribery-case-"@ + case + "-runtime\" ;\n"@
        + "    pddl:domain \"solvane-bribery-compliance-pddl8\" ;\n"@ + "    pddl:object "@ + joined(
        problem_objects(case, derived, evidence_types),
        " ,\n               "@,
    ) + " ;\n"@ + "    pddl:init "@ + joined(problem_init(case, init_atoms), " ,\n             "@) + " ;\n"@
        + "    pddl:goal \"(in-stage "@ + case + " receipted)\" .\n"@
}

/// `prefix`, `s` and `suffix` as one string.
fn wrapped(prefix: &str, s: &str, suffix: &str) -> (res: String)
    ensures
        res@ == prefix@ + s@ + suffix@,
{
    let mut out = owned(prefix);
    push_str(&mut out, s);
    push_str(&mut out, suffix);
    out
}

/// Appends `prefix + s + suffix` for each `s` of `items`.
fn push_wrapped_all(out: &mut Vec<String>, items: &Vec<String>, prefix: &str, suffix: &str)
    ensures
        string_views(final(out)@) == string_views(old(out)@) + Seq::new(
            items@.len(),
            |k: int| prefix@ + items@[k]@ + suffix@,
        ),
{
    let ghost start = string_views(out@);
    let ghost all = Seq::new(items@.len(), |k: int| prefix@ + items@[k]@ + suffix@);
    let mut k: usize = 0;
    while k < items.len()
        invariant
            k <= items@.len(),
            all == Seq::new(items@.len(), |k: int| prefix@ + items@[k]@ + suffix@),
            string_views(out@) == start + all.take(k as int),
        decreases items@.len() - k,
    {
        let w = wrapped(prefix, items[k].as_str(), suffix);
        let ghost before = string_views(out@);
        out.push(w);
        proof {
            assert(string_views(out@) =~= before.push(w@));
            assert(all.take(k + 1) =~= all.take(k as int).push(all[k as int]));
        }
        k = k + 1;
    }
    proof {
        assert(all.take(k as int) =~= all);
    }
}

/// The runtime planning problem fragment for the case: its objects and initial atoms
/// driven by the derived obligations, their evidence types and the initial atoms.
pub fn build_pddl_problem_fragment(
    case_local_name: &str,
    derived: &Vec<String>,
    evidence_types: &Vec<String>,
    init_atoms: &Vec<String>,
) -> (res: String)
    ensures
        res@ == problem_fragment(
            case_local_name@,
            string_views(derived@),
            string_views(evidence_types@),
            string_views(init_atoms@),
        ),
{
    let mut objects: Vec<String> = Vec::new();
    objects.push(wrapped("[ pddl:name \"", case_local_name, "\" ; pddl:ofType \"law-object\" ]"));
    push_wrapped_all(&mut objects, derived, "[ pddl:name \"", "\" ; pddl:ofType \"obligation\" ]");
    push_wrapped_all(&mut objects, evidence_types, "[ pddl:name \"", "\" ; pddl:ofType \"evidence-type\" ]");
    let ghost head = string_views(objects@);
    let mut tail: Vec<String> = Vec::new();
    tail.push(owned("[ pddl:name \"compliance-officer-shreya-patel\" ; pddl:ofType \"validator\" ]"));
    tail.push(owned("[ pddl:name \"general-counsel-marcus-webb\" ; pddl:ofType \"authority\" ]"));
    tail.push(wrapped("[ pddl:name \"tok-genesis-", case_local_name, "\" ; pddl:ofType \"chain-token\" ]"));
    tail.push(owned("[ pddl:name \"raw\" ; pddl:ofType \"lifecycle-stage\" ]"));
    tail.push(owned("[ pddl:name \"validated\" ; pddl:ofType \"lifecycle-stage\" ]"));
    tail.push(owned("[ pddl:name \"admitted\" ; pddl:ofType \"lifecycle-stage\" ]"));
    tail.push(owned("[ pddl:name \"receipted\" ; pddl:ofType \"lifecycle-stage\" ]"));
    tail.push(owned("[ pddl:name \"blocked\" ; pddl:ofType \"lifecycle-stage\" ]"));
    let ghost tv = string_views(tail@);
    proof {
        assert(tv =~= seq![
            "[ pddl:name \"compliance-officer-shreya-patel\" ; pddl:ofType \"validator\" ]"@,
            "[ pddl:name \"general-counsel-marcus-webb\" ; pddl:ofType \"authority\" ]"@,
            "[ pddl:name \"tok-genesis-"@ + case_local_name@ + "\" ; pddl:ofType \"chain-token\" ]"@,
            "[ pddl:name \"raw\" ; pddl:ofType \"lifecycle-stage\" ]"@,
            "[ pddl:name \"validated\" ; pddl:ofType \"lifecycle-stage\" ]"@,
            "[ pddl:name \"admitted\" ; pddl:ofType \"lifecycle-stage\" ]"@,
            "[ pddl:name \"receipted\" ; pddl:ofType \"lifecycle-stage\" ]"@,
            "[ pddl:name \"blocked\" ; pddl:ofType \"lifecycle-stage\" ]"@,
        ]);
    }
    let mut k: usize = 0;
    while k < tail.len()
        invariant
            k <= tail@.len(),
            tv == string_views(tail@),
            string_views(objects@) == head + tv.take(k as int),
        decreases tail@.len() - k,
    {
        let ghost before = string_views(objects@);
        objects.push(tail[k].clone());
        proof {
            assert(string_views(objects@) =~= before.push(tv[k as int]));
            assert(tv.take(k + 1) =~= tv.take(k as int).push(tv[k as int]));
        }
        k = k + 1;
    }
    proof {
        assert(tv.take(k as int) =~= tv);
        let dv = string_views(derived@);
        let ev = string_views(evidence_types@);
        assert(Seq::new(derived@.len(), |k: int| "[ pddl:name \""@ + derived@[k]@ + "\" ; pddl:ofType \"obligation\" ]"@) =~= Seq::new(
            dv.len(),
            |k: int| "[ pddl:name \""@ + dv[k] + "\" ; pddl:ofType \"obligation\" ]"@,
        ));
        assert(Seq::new(evidence_types@.len(), |k: int| "[ pddl:name \""@ + evidence_types@[k]@ + "\" ; pddl:ofType \"evidence-type\" ]"@)
            =~= Seq::new(ev.len(), |k: int| "[ pddl:name \""@ + ev[k] + "\" ; pddl:ofType \"evidence-type\" ]"@));
        assert(string_views(objects@) =~= problem_objects(case_local_name@, dv, ev));
    }
    let mut init: Vec<String> = Vec::new();
    init.push(wrapped("\"(in-stage ", case_local_name, " raw)\""));
    let ghost i0 = string_views(init@);
    push_wrapped_all(&mut init, init_atoms, "\"", "\"");
    let ghost i1 = string_views(init@);
    let last = wrapped("\"(prev-chain-valid tok-genesis-", case_local_name, ")\"");
    init.push(last);
    proof {
        assert(string_views(init@) =~= i1.push(last@));
        let iv = string_views(init_atoms@);
        assert(Seq::new(init_atoms@.len(), |k: int| "\""@ + init_atoms@[k]@ + "\""@) =~= Seq::new(
            iv.len(),
            |k: int| "\""@ + iv[k] + "\""@,
        ));
        assert(string_views(init@) =~= problem_init(case_local_name@, iv));
    }
    let mut out = owned("@prefix pddl: <http://seanchatmangpt.github.io/praxis/pddl#> .\n\n");
    push_str(&mut out, "<urn:mfw:crown-bribery-case:problem:");
    push_str(&mut out, case_local_name);
    push_str(&mut out, ">\n    a pddl:Problem ;\n");
    push_str(&mut out, "    pddl:name \"bribery-case-");
    push_str(&mut out, case_local_name);
    push_str(&mut out, "-runtime\" ;\n");
    push_str(&mut out, "    pddl:domain \"solvane-bribery-compliance-pddl8\" ;\n");
    push_str(&mut out, "    pddl:object ");
    let objs = join_strings(&objects, " ,\n               ");
    push_str(&mut out, objs.as_str());
    push_str(&mut out, " ;\n");
    push_str(&mut out, "    pddl:init ");
    let inits = join_strings(&init, " ,\n             ");
    push_str(&mut out, inits.as_str());
    push_str(&mut out, " ;\n");
    push_str(&mut out, "    pddl:goal \"(in-stage ");
    push_str(&mut out, case_local_name);
    push_str(&mut out, " receipted)\" .\n");
    proof {
        assert(out@ =~= problem_fragment(
            case_local_name@,
            string_views(derived@),
            string_views(evidence_types@),
            string_views(init_atoms@),
        ));
    }
    out
}


/// One step of a bridge workflow: the steps it leads to.
#[derive(Debug, Clone, PartialEq, Eq)]
pub struct BridgeStepDef {
    pub next: Vec<String>,
}

/// A bridge workflow: its steps keyed by step id, in plan order.
#[derive(Debug, Clone, PartialEq, Eq)]
pub struct BridgeWorkflow {
    pub steps: Vec<(String, BridgeStepDef)>,
}

/// `i` in decimal, zero-padded to two digits.
pub open spec fn pad2(i: nat) -> Seq<char> {
    if i < 10 {
        seq!['0'] + decimal(i)
    } else {
        decimal(i)
    }
}

/// The id of plan step `i` named `name`.
pub open spec fn step_id(i: nat, name: Seq<char>) -> Seq<char> {
    pad2(i) + "-"@ + name
}

/// The bridge workflow of a plan's steps, in order: each step leads to the next, the last
/// to none, and the first is the root.
pub fn build_bridge_workflow_from_plan(schema_names: &Vec<String>) -> (res: Result<(BridgeWorkflow, String), CaseTextRefused>)
    ensures
        match res {
            Ok((w, root)) => {
                &&& schema_names@.len() > 0
                &&& w.steps@.len() == schema_names@.len()
                &&& forall|i: int|
                    0 <= i < schema_names@.len() ==> (#[trigger] w.steps@[i]).0@ == step_id(i as nat, schema_names@[i]@) && string_views(
                        w.steps@[i].1.next@,
                    ) == if i + 1 < schema_names@.len() {
                        seq![step_id((i + 1) as nat, schema_names@[i + 1]@)]
                    } else {
                        Seq::<Seq<char>>::empty()
                    }
                &&& root@ == step_id(0, schema_names@[0]@)
            },
            Err(e) => schema_names@.len() == 0 && e == CaseTextRefused::EmptyPlanForBridgeWorkflow,
        },
{
    let n = schema_names.len();
    if n == 0 {
        return Err(CaseTextRefused::EmptyPlanForBridgeWorkflow);
    }
    let mut ids: Vec<String> = Vec::new();
    let mut i: usize = 0;
    while i < n
        invariant
            n == schema_names@.len(),
            i <= n,
            ids@.len() == i,
            forall|q: int| 0 <= q < i ==> (#[trigger] ids@[q])@ == step_id(q as nat, schema_names@[q]@),
        decreases n - i,
    {
        let mut id = String::new();
        if i < 10 {
            push_str(&mut id, "0");
        }
        push_decimal(&mut id, i);
        push_str(&mut id, "-");
        push_str(&mut id, schema_names[i].as_str());
        proof {
            reveal_strlit("0");
            assert(id@ =~= step_id(i as nat, schema_names@[i as int]@));
        }
        ids.push(id);
        i = i + 1;
    }
    let mut steps: Vec<(String, BridgeStepDef)> = Vec::new();
    let mut k: usize = 0;
    while k < n
        invariant
            n == schema_names@.len(),
            ids@.len() == n,
            forall|q: int| 0 <= q < n ==> (#[trigger] ids@[q])@ == step_id(q as nat, schema_names@[q]@),
            k <= n,
            steps@.len() == k,
            forall|q: int|
                0 <= q < k ==> (#[trigger] steps@[q]).0@ == step_id(q as nat, schema_names@[q]@) && string_views(
                    steps@[q].1.next@,
                ) == if q + 1 < n {
                    seq![step_id((q + 1) as nat, schema_names@[q + 1]@)]
                } else {
                    Seq::<Seq<char>>::empty()
                },
        decreases n - k,
    {
        let mut next: Vec<String> = Vec::new();
        if k + 1 < n {
            next.push(ids[k + 1].clone());
        }
        proof {
            if k + 1 < n {
                assert(string_views(next@) =~= seq![step_id((k + 1) as nat, schema_names@[k + 1]@)]);
            } else {
                assert(string_views(next@) =~= Seq::<Seq<char>>::empty());
            }
        }
        steps.push((ids[k].clone(), BridgeStepDef { next }));
        k = k + 1;
    }
    let root = ids[0].clone();
    Ok((BridgeWorkflow { steps }, root))
}

} // verus!
