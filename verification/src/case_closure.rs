//! The case-closure record of the bribery case: a PROV-O activity over the case subject
//! and the lifecycle scheme it is placed in, receipted when the stage-three chain
//! succeeded and blocked, with the refusal's reason, when it did not.

use vstd::prelude::*;
use crate::text::{push_char, push_str};

verus! {

/// The values the stage-three chain leaves for the case closure.
#[derive(Debug, Clone, PartialEq, Eq)]
pub struct Stage3ClosureSummary {
    pub f16_dispatch_step_id: String,
    pub f16_dispatch_token: String,
    pub f18_broker_receipt_hash: String,
    pub f18_consequence_hash: String,
    pub f20_direct_dispatch_id: String,
    pub f20_direct_consequence_digest: String,
    pub f20_readmit_dispatch_id: String,
    pub f02_readmit_receipt_hash: String,
    pub f24_ocel_receipt_head: String,
    pub f25_receipt_root: String,
    pub f25_replayed_receipt_root: String,
    pub f25_receipt_root_matched: bool,
    pub stage3_crown_receipt: String,
}

/// The escape of one character of a refusal reason: backslash, double quote and
/// newline are escaped, every other character stands for itself.
pub open spec fn reason_char(c: char) -> Seq<char> {
    if c == '\\' {
        "\\\\"@
    } else if c == '"' {
        "\\\""@
    } else if c == '\n' {
        "\\n"@
    } else {
        seq![c]
    }
}

/// A refusal reason escaped for a double-quoted literal.
pub open spec fn escaped_reason(s: Seq<char>) -> Seq<char>
    decreases s.len(),
{
    if s.len() == 0 {
        Seq::empty()
    } else {
        escaped_reason(s.drop_last()) + reason_char(s.last())
    }
}

/// `true` or `false`.
pub open spec fn bool_text(b: bool) -> Seq<char> {
    if b {
        "true"@
    } else {
        "false"@
    }
}

/// The prefixes and the lifecycle scheme every closure record opens with.
pub open spec fn closure_header() -> Seq<char> {
    "@prefix prov: <http://www.w3.org/ns/prov#> .\n"@ + "@prefix skos: <http://www.w3.org/2004/02/skos/core#> .\n"@
        + "@prefix sc: <https://cases.solvane-global.example.org/vocab#> .\n"@
        + "@prefix cls: <urn:mfw:crown-bribery-case:closure#> .\n\n"@ + "cls:CaseLifecycle a skos:ConceptScheme .\n\n"@
        + "cls:raw a skos:Concept ; skos:inScheme cls:CaseLifecycle ; skos:prefLabel \"raw\" .\n"@
        + "cls:validated a skos:Concept ; skos:inScheme cls:CaseLifecycle ; skos:prefLabel \"validated\" ; skos:broader cls:raw .\n"@
        + "cls:admitted a skos:Concept ; skos:inScheme cls:CaseLifecycle ; skos:prefLabel \"admitted\" ; skos:broader cls:validated .\n"@
        + "cls:receipted a skos:Concept ; skos:inScheme cls:CaseLifecycle ; skos:prefLabel \"receipted\" ; skos:broader cls:admitted .\n"@
        + "cls:blocked a skos:Concept ; skos:inScheme cls:CaseLifecycle ; skos:prefLabel \"blocked\" ; skos:broader cls:admitted .\n\n"@
}

/// One `cls:` literal property line, `;`-terminated.
pub open spec fn field_line(name: Seq<char>, value: Seq<char>) -> Seq<char> {
    "  cls:"@ + name + " \""@ + value + "\" ;\n"@
}

/// One `cls:` boolean property line, `;`-terminated.
pub open spec fn bool_line(name: Seq<char>, value: bool) -> Seq<char> {
    "  cls:"@ + name + " \""@ + bool_text(value) + "\"^^<http://www.w3.org/2001/XMLSchema#boolean> ;\n"@
}

/// The activity of the closure decision of run `run_id`.
pub open spec fn activity(run_id: Seq<char>) -> Seq<char> {
    "cls:closure-decision-"@ + run_id
}

/// The opening of the receipted record: the case is receipted by the closure activity.
pub open spec fn receipted_intro(run_id: Seq<char>) -> Seq<char> {
    "<https://cases.solvane-global.example.org/case/BRB-2026-0417> sc:caseStatus cls:receipted .\n\n"@ + activity(run_id)
        + " a prov:Activity ;\n"@ + "  prov:used <https://cases.solvane-global.example.org/case/BRB-2026-0417> ;\n"@
}

/// The case and plan lines of the receipted record.
pub open spec fn plan_lines(case_local_name: Seq<char>, plan_chain_hash: Seq<char>, goal_reached: bool) -> Seq<char> {
    field_line("caseLocalName"@, case_local_name) + field_line("f08PlanReceiptHash"@, plan_chain_hash) + bool_line(
        "f08GoalReached"@,
        goal_reached,
    )
}

/// The dispatch and broker lines of the receipted record.
pub open spec fn dispatch_lines(s: Stage3ClosureSummary) -> Seq<char> {
    field_line("f16DispatchStepId"@, s.f16_dispatch_step_id@) + field_line("f16DispatchToken"@, s.f16_dispatch_token@)
        + field_line("f18BrokerReceiptHash"@, s.f18_broker_receipt_hash@) + field_line(
        "f18ConsequenceHash"@,
        s.f18_consequence_hash@,
    )
}

/// The subworkflow dispatch and re-admission lines of the receipted record.
pub open spec fn readmit_lines(s: Stage3ClosureSummary) -> Seq<char> {
    field_line("f20DirectDispatchId"@, s.f20_direct_dispatch_id@) + field_line(
        "f20DirectConsequenceDigest"@,
        s.f20_direct_consequence_digest@,
    ) + field_line("f20ReadmitDispatchId"@, s.f20_readmit_dispatch_id@) + field_line(
        "f02ReadmitReceiptHash"@,
        s.f02_readmit_receipt_hash@,
    )
}

/// The replay lines and the crown receipt that close the receipted record.
pub open spec fn replay_lines(s: Stage3ClosureSummary) -> Seq<char> {
    field_line("f24OcelReceiptHead"@, s.f24_ocel_receipt_head@) + field_line("f25ReceiptRoot"@, s.f25_receipt_root@)
        + field_line("f25ReplayedReceiptRoot"@, s.f25_replayed_receipt_root@) + bool_line(
        "f25ReceiptRootMatched"@,
        s.f25_receipt_root_matched,
    ) + "  cls:stage3CrownReceipt \""@ + s.stage3_crown_receipt@ + "\" .\n"@
}

/// The receipted record's statements about the case and its closure activity.
pub open spec fn receipted_body(
    run_id: Seq<char>,
    case_local_name: Seq<char>,
    plan_chain_hash: Seq<char>,
    goal_reached: bool,
    s: Stage3ClosureSummary,
) -> Seq<char> {
    receipted_intro(run_id) + plan_lines(case_local_name, plan_chain_hash, goal_reached) + dispatch_lines(s)
        + readmit_lines(s) + replay_lines(s)
}

/// The blocked record's statements: the case is blocked, and the refused closure names
/// the case and the refusal's reason.
pub open spec fn blocked_body(run_id: Seq<char>, case_local_name: Seq<char>, reason: Seq<char>) -> Seq<char> {
    "<https://cases.solvane-global.example.org/case/BRB-2026-0417> sc:caseStatus cls:blocked .\n\n"@ + activity(run_id)
        + " a cls:RefusedClosure ;\n"@ + field_line("caseLocalName"@, case_local_name) + "  cls:refusalReason \""@
        + escaped_reason(reason) + "\" ;\n"@ + "  prov:used <https://cases.solvane-global.example.org/case/BRB-2026-0417> .\n"@
}

/// The whole case-closure record.
pub open spec fn case_closure(
    run_id: Seq<char>,
    case_local_name: Seq<char>,
    plan_chain_hash: Seq<char>,
    goal_reached: bool,
    stage3: Result<Stage3ClosureSummary, String>,
) -> Seq<char> {
    closure_header() + match stage3 {
        Ok(s) => receipted_body(run_id, case_local_name, plan_chain_hash, goal_reached, s),
        Err(reason) => blocked_body(run_id, case_local_name, reason@),
    }
}

/// Appends `reason` escaped.
fn push_escaped_reason(out: &mut String, reason: &str)
    ensures
        final(out)@ == old(out)@ + escaped_reason(reason@),
{
    let n = reason.unicode_len();
    let mut i: usize = 0;
    let ghost start = out@;
    while i < n
        invariant
            n == reason@.len(),
            i <= n,
            out@ == start + escaped_reason(reason@.take(i as int)),
        decreases n - i,
    {
        let c = reason.get_char(i);
        proof {
            assert(reason@.take(i + 1).drop_last() =~= reason@.take(i as int));
            assert(reason@.take(i + 1).last() == c);
        }
        if c == '\\' {
            push_str(out, "\\\\");
        } else if c == '"' {
            push_str(out, "\\\"");
        } else if c == '\n' {
            push_str(out, "\\n");
        } else {
            push_char(out, c);
        }
        proof {
            assert(out@ =~= start + escaped_reason(reason@.take(i + 1)));
        }
        i = i + 1;
    }
    proof {
        assert(reason@.take(n as int) =~= reason@);
    }
}

/// Appends a literal property line.
fn push_field(out: &mut String, name: &str, value: &str)
    ensures
        final(out)@ == old(out)@ + field_line(name@, value@),
{
    push_str(out, "  cls:");
    push_str(out, name);
    push_str(out, " \"");
    push_str(out, value);
    push_str(out, "\" ;\n");
    proof {
        assert(out@ =~= old(out)@ + field_line(name@, value@));
    }
}

/// Appends a boolean property line.
fn push_bool(out: &mut String, name: &str, value: bool)
    ensures
        final(out)@ == old(out)@ + bool_line(name@, value),
{
    push_str(out, "  cls:");
    push_str(out, name);
    push_str(out, " \"");
    if value {
        push_str(out, "true");
    } else {
        push_str(out, "false");
    }
    push_str(out, "\"^^<http://www.w3.org/2001/XMLSchema#boolean> ;\n");
    proof {
        assert(out@ =~= old(out)@ + bool_line(name@, value));
    }
}

/// Appends the header.
fn push_header(out: &mut String)
    ensures
        final(out)@ == old(out)@ + closure_header(),
{
    push_str(out, "@prefix prov: <http://www.w3.org/ns/prov#> .\n");
    push_str(out, "@prefix skos: <http://www.w3.org/2004/02/skos/core#> .\n");
    push_str(out, "@prefix sc: <https://cases.solvane-global.example.org/vocab#> .\n");
    push_str(out, "@prefix cls: <urn:mfw:crown-bribery-case:closure#> .\n\n");
    push_str(out, "cls:CaseLifecycle a skos:ConceptScheme .\n\n");
    push_str(out, "cls:raw a skos:Concept ; skos:inScheme cls:CaseLifecycle ; skos:prefLabel \"raw\" .\n");
    push_str(
        out,
        "cls:validated a skos:Concept ; skos:inScheme cls:CaseLifecycle ; skos:prefLabel \"validated\" ; skos:broader cls:raw .\n",
    );
    push_str(
        out,
        "cls:admitted a skos:Concept ; skos:inScheme cls:CaseLifecycle ; skos:prefLabel \"admitted\" ; skos:broader cls:validated .\n",
    );
    push_str(
        out,
        "cls:receipted a skos:Concept ; skos:inScheme cls:CaseLifecycle ; skos:prefLabel \"receipted\" ; skos:broader cls:admitted .\n",
    );
    push_str(
        out,
        "cls:blocked a skos:Concept ; skos:inScheme cls:CaseLifecycle ; skos:prefLabel \"blocked\" ; skos:broader cls:admitted .\n\n",
    );
    proof {
        assert(out@ =~= old(out)@ + closure_header());
    }
}

/// Appends the opening of the receipted record.
fn push_receipted_intro(out: &mut String, run_id: &str)
    ensures
        final(out)@ == old(out)@ + receipted_intro(run_id@),
{
    push_str(out, "<https://cases.solvane-global.example.org/case/BRB-2026-0417> sc:caseStatus cls:receipted .\n\n");
    push_str(out, "cls:closure-decision-");
    push_str(out, run_id);
    push_str(out, " a prov:Activity ;\n");
    push_str(out, "  prov:used <https://cases.solvane-global.example.org/case/BRB-2026-0417> ;\n");
    proof {
        assert(out@ =~= old(out)@ + receipted_intro(run_id@));
    }
}

/// Appends the dispatch and broker lines.
fn push_dispatch_lines(out: &mut String, s: &Stage3ClosureSummary)
    ensures
        final(out)@ == old(out)@ + dispatch_lines(*s),
{
    push_field(out, "f16DispatchStepId", s.f16_dispatch_step_id.as_str());
    push_field(out, "f16DispatchToken", s.f16_dispatch_token.as_str());
    push_field(out, "f18BrokerReceiptHash", s.f18_broker_receipt_hash.as_str());
    push_field(out, "f18ConsequenceHash", s.f18_consequence_hash.as_str());
    proof {
        assert(out@ =~= old(out)@ + dispatch_lines(*s));
    }
}

/// Appends the subworkflow dispatch and re-admission lines.
fn push_readmit_lines(out: &mut String, s: &Stage3ClosureSummary)
    ensures
        final(out)@ == old(out)@ + readmit_lines(*s),
{
    push_field(out, "f20DirectDispatchId", s.f20_direct_dispatch_id.as_str());
    push_field(out, "f20DirectConsequenceDigest", s.f20_direct_consequence_digest.as_str());
    push_field(out, "f20ReadmitDispatchId", s.f20_readmit_dispatch_id.as_str());
    push_field(out, "f02ReadmitReceiptHash", s.f02_readmit_receipt_hash.as_str());
    proof {
        assert(out@ =~= old(out)@ + readmit_lines(*s));
    }
}

/// Appends the replay lines and the crown receipt.
fn push_replay_lines(out: &mut String, s: &Stage3ClosureSummary)
    ensures
        final(out)@ == old(out)@ + replay_lines(*s),
{
    push_field(out, "f24OcelReceiptHead", s.f24_ocel_receipt_head.as_str());
    push_field(out, "f25ReceiptRoot", s.f25_receipt_root.as_str());
    push_field(out, "f25ReplayedReceiptRoot", s.f25_replayed_receipt_root.as_str());
    push_bool(out, "f25ReceiptRootMatched", s.f25_receipt_root_matched);
    push_str(out, "  cls:stage3CrownReceipt \"");
    push_str(out, s.stage3_crown_receipt.as_str());
    push_str(out, "\" .\n");
    proof {
        assert(out@ =~= old(out)@ + replay_lines(*s));
    }
}

/// The case-closure record of run `run_id`: receipted, with the plan's receipt and every
/// stage-three value, when `stage3` is `Ok`; blocked, with the refusal's reason escaped,
/// when it is `Err`.
pub fn build_case_closure_turtle(
    run_id: &str,
    case_local_name: &str,
    plan_chain_hash: &str,
    goal_reached: bool,
    stage3: &Result<Stage3ClosureSummary, String>,
) -> (res: String)
    ensures
        res@ == case_closure(run_id@, case_local_name@, plan_chain_hash@, goal_reached, *stage3),
{
    let mut out = String::new();
    push_header(&mut out);
    let ghost head = out@;
    match stage3 {
        Ok(s) => {
            push_receipted_intro(&mut out, run_id);
            let ghost p1 = out@;
            push_field(&mut out, "caseLocalName", case_local_name);
            push_field(&mut out, "f08PlanReceiptHash", plan_chain_hash);
            push_bool(&mut out, "f08GoalReached", goal_reached);
            proof {
                assert(out@ =~= p1 + plan_lines(case_local_name@, plan_chain_hash@, goal_reached));
            }
            push_dispatch_lines(&mut out, s);
            push_readmit_lines(&mut out, s);
            push_replay_lines(&mut out, s);
            proof {
                assert(out@ =~= head + receipted_body(run_id@, case_local_name@, plan_chain_hash@, goal_reached, *s));
            }
        },
        Err(reason) => {
            push_str(&mut out, "<https://cases.solvane-global.example.org/case/BRB-2026-0417> sc:caseStatus cls:blocked .\n\n");
            push_str(&mut out, "cls:closure-decision-");
            push_str(&mut out, run_id);
            push_str(&mut out, " a cls:RefusedClosure ;\n");
            push_field(&mut out, "caseLocalName", case_local_name);
            push_str(&mut out, "  cls:refusalReason \"");
            push_escaped_reason(&mut out, reason.as_str());
            push_str(&mut out, "\" ;\n");
            push_str(&mut out, "  prov:used <https://cases.solvane-global.example.org/case/BRB-2026-0417> .\n");
            proof {
                assert(out@ =~= head + blocked_body(run_id@, case_local_name@, reason@));
            }
        },
    }
    out
}

} // verus!
