//! The details the geometry pipeline's refusals carry: each names the first offender it
//! finds, in the order the pipeline checks, so a refusal says where the plan goes wrong.
//! The refusal's kind and state are what the pipeline's contract states; these texts are
//! diagnostics.

use vstd::prelude::*;
use crate::grouping::Units;
use crate::plan::Plan;
use crate::powl::{SocketKind, SocketPath, WorkflowSocketId};
use crate::relation::contains_pair;
use crate::text::{debug_quoted, is_blank, owned, push_decimal, push_str};

verus! {

/// Appends `(i, j)`.
fn push_pair(out: &mut String, i: usize, j: usize)
    ensures
        final(out)@ == old(out)@ + "("@ + crate::text::decimal(i as nat) + ", "@ + crate::text::decimal(j as nat) + ")"@,
{
    push_str(out, "(");
    push_decimal(out, i);
    push_str(out, ", ");
    push_decimal(out, j);
    push_str(out, ")");
}

/// The detail of a plan whose provenance is flat: the first action without a source.
pub(crate) fn blank_source_detail(plan: &Plan) -> String {
    let mut idx: usize = 0;
    while idx < plan.actions.len()
        decreases plan.actions@.len() - idx,
    {
        let action = &plan.actions[idx];
        if is_blank(action.source.as_str()) {
            let mut out = owned("action index ");
            push_decimal(&mut out, idx);
            push_str(&mut out, " (");
            push_str(&mut out, debug_quoted(action.id.as_str()).as_str());
            push_str(
                &mut out,
                ") has no provenance source; the plan's provenance is flat/undifferentiated, not recursively groupable",
            );
            return out;
        }
        idx = idx + 1;
    }
    owned("an action has no provenance source; the plan's provenance is flat/undifferentiated, not recursively groupable")
}

/// The detail of malformed choice groups: group by group, the first group with fewer
/// than two members, member out of range or listed before, or loop branch out of range.
pub(crate) fn group_refusal_detail(plan: &Plan) -> String {
    let n = plan.actions.len();
    let mut seen: Vec<bool> = Vec::new();
    let mut a: usize = 0;
    while a < n
        invariant
            seen@.len() == a,
            a <= n,
        decreases n - a,
    {
        seen.push(false);
        a = a + 1;
    }
    let mut gi: usize = 0;
    while gi < plan.choice_groups.len()
        invariant
            seen@.len() == n,
            n == plan.actions@.len(),
        decreases plan.choice_groups@.len() - gi,
    {
        let group = &plan.choice_groups[gi];
        let count = group.members.len();
        if count < 2 {
            let mut out = owned("choice group ");
            push_decimal(&mut out, gi);
            push_str(&mut out, " has ");
            push_decimal(&mut out, count);
            push_str(&mut out, " member(s); a choice with < 2 alternatives is not a real decision");
            return out;
        }
        let mut k: usize = 0;
        while k < count
            invariant
                seen@.len() == n,
                count == group.members@.len(),
            decreases count - k,
        {
            let m = group.members[k];
            if m >= n {
                let mut out = owned("choice group ");
                push_decimal(&mut out, gi);
                push_str(&mut out, " references out-of-range action index ");
                push_decimal(&mut out, m);
                push_str(&mut out, " (plan has ");
                push_decimal(&mut out, n);
                push_str(&mut out, " actions)");
                return out;
            }
            if seen[m] {
                let mut out = owned("action index ");
                push_decimal(&mut out, m);
                push_str(&mut out, " is a member of more than one choice group (or repeats within group ");
                push_decimal(&mut out, gi);
                push_str(&mut out, "); choice-group membership must be unique");
                return out;
            }
            seen.set(m, true);
            k = k + 1;
        }
        let mut k: usize = 0;
        while k < group.loop_branches.len()
            decreases group.loop_branches@.len() - k,
        {
            let b = group.loop_branches[k];
            if b >= count {
                let mut out = owned("choice group ");
                push_decimal(&mut out, gi);
                push_str(&mut out, " loop_branches index ");
                push_decimal(&mut out, b);
                push_str(&mut out, " out of range (");
                push_decimal(&mut out, count);
                push_str(&mut out, " members)");
                return out;
            }
            k = k + 1;
        }
        gi = gi + 1;
    }
    owned("a choice group is malformed")
}

/// How a precedes pair invents order: 1 where it leaves the plan, 2 where it orders an
/// action before itself, 3 where it orders two members of one group; 0 where it does not.
fn pair_fault(n: usize, owner: &Vec<Option<usize>>, i: usize, j: usize) -> (res: u8)
    ensures
        res <= 3,
{
    if i >= n || j >= n {
        1
    } else if i == j {
        2
    } else if i < owner.len() && j < owner.len() {
        match (owner[i], owner[j]) {
            (Some(gi), Some(gj)) => if gi == gj {
                3
            } else {
                0
            },
            _ => 0,
        }
    } else {
        0
    }
}

/// The detail of a precedes relation that invents order: the least offending pair, in
/// pair order, and what is wrong with it.
pub(crate) fn precedes_refusal_detail(plan: &Plan, owner: &Vec<Option<usize>>) -> String {
    let n = plan.actions.len();
    let mut best: Option<(usize, usize)> = None;
    let mut k: usize = 0;
    while k < plan.precedes.len()
        decreases plan.precedes@.len() - k,
    {
        let (i, j) = plan.precedes[k];
        if pair_fault(n, owner, i, j) != 0 {
            best = match best {
                None => Some((i, j)),
                Some((bi, bj)) => if i < bi || (i == bi && j < bj) {
                    Some((i, j))
                } else {
                    Some((bi, bj))
                },
            };
        }
        k = k + 1;
    }
    match best {
        None => owned("a precedes pair invents order"),
        Some((i, j)) => {
            let fault = pair_fault(n, owner, i, j);
            let mut out = owned("precedes pair ");
            push_pair(&mut out, i, j);
            if fault == 1 {
                push_str(&mut out, " references an action index outside 0..");
                push_decimal(&mut out, n);
            } else if fault == 2 {
                push_str(&mut out, " declares an action before itself");
            } else {
                push_str(&mut out, " orders two members of the same choice group ");
                if i < owner.len() {
                    match owner[i] {
                        Some(g) => push_decimal(&mut out, g),
                        None => {},
                    }
                }
                push_str(&mut out, "; mutually exclusive alternatives cannot be sequenced relative to each other");
            }
            out
        },
    }
}

/// The detail of a self-contradicting action order: the first pair of the closure, in
/// pair order, whose reverse it also holds.
pub(crate) fn closure_contradiction_detail(closure: &Vec<(usize, usize)>) -> String {
    let mut k: usize = 0;
    while k < closure.len()
        decreases closure@.len() - k,
    {
        let (i, j) = closure[k];
        if contains_pair(closure, j, i) {
            let mut out = owned("plan-required order contradicts itself: both ");
            push_pair(&mut out, i, j);
            push_str(&mut out, " and ");
            push_pair(&mut out, j, i);
            push_str(&mut out, " are derivable from the declared precedes relation");
            return out;
        }
        k = k + 1;
    }
    owned("plan-required order contradicts itself")
}

/// The detail of a self-contradicting unit order. Walking the action closure in pair
/// order, the first pair of actions in two units whose opposite unit pair was already
/// derived; where there is none, the first pair of the closed unit order whose reverse
/// it also holds.
pub(crate) fn unit_contradiction_detail(
    units: &Units,
    closure: &Vec<(usize, usize)>,
    root_order: &Vec<(usize, usize)>,
) -> String {
    let mut derived: Vec<(usize, usize)> = Vec::new();
    let mut k: usize = 0;
    while k < closure.len()
        decreases closure@.len() - k,
    {
        let (i, j) = closure[k];
        if i < units.unit_of.len() && j < units.unit_of.len() {
            let ui = units.unit_of[i];
            let uj = units.unit_of[j];
            if ui != uj {
                if contains_pair(&derived, uj, ui) {
                    let mut out = owned("unit-level order contradiction between unit ");
                    push_decimal(&mut out, ui);
                    push_str(&mut out, " and unit ");
                    push_decimal(&mut out, uj);
                    push_str(&mut out, ": derived both directions from member actions ");
                    push_decimal(&mut out, i);
                    push_str(&mut out, "/");
                    push_decimal(&mut out, j);
                    return out;
                }
                derived.push((ui, uj));
            }
        }
        k = k + 1;
    }
    let mut k: usize = 0;
    while k < root_order.len()
        decreases root_order@.len() - k,
    {
        let (a, b) = root_order[k];
        if contains_pair(root_order, b, a) {
            let mut out = owned("root-level order contradiction between unit ");
            push_decimal(&mut out, a);
            push_str(&mut out, " and unit ");
            push_decimal(&mut out, b);
            push_str(&mut out, " after closure");
            return out;
        }
        k = k + 1;
    }
    owned("unit-level order contradicts itself")
}


/// What a binding refusal says after the group's index: the socket of the group's unit
/// under the root, in brackets, then `what`.
pub(crate) fn binding_what(units: &Units, g: usize, what: &str) -> String {
    let mut out = owned(" (socket ");
    if g < units.group_unit.len() {
        let mut segments: Vec<usize> = Vec::new();
        segments.push(units.group_unit[g]);
        let socket = WorkflowSocketId { path: SocketPath { segments }, kind: SocketKind::Choice };
        push_str(&mut out, socket.to_string().as_str());
    }
    push_str(&mut out, ")");
    push_str(&mut out, what);
    out
}

} // verus!
