//! The plan grouper: the top-level units of a plan's model.
//!
//! The actions that belong to no choice group are split into phases: maximal runs of
//! such actions, adjacent in plan order once the grouped actions are skipped, that share
//! one provenance source. Every phase and every choice group is a unit; units are ordered
//! by their least action index (their leader).

use vstd::prelude::*;
use crate::plan::{Plan, n_actions, members, in_group, grouped, owners_ok, groups_invent_order, group_well_formed};

verus! {

/// Action `a` is in range and belongs to no choice group.
pub open spec fn ungrouped(plan: Plan, a: int) -> bool {
    0 <= a < n_actions(plan) && !grouped(plan, a)
}

/// The provenance source of action `a`.
pub open spec fn source_of(plan: Plan, a: int) -> Seq<char> {
    plan.actions@[a].source@
}

/// The greatest ungrouped action below `a`, or -1 where there is none.
pub open spec fn prev_ungrouped(plan: Plan, a: int) -> int
    decreases a,
{
    if a <= 0 {
        -1
    } else if ungrouped(plan, a - 1) {
        a - 1
    } else {
        prev_ungrouped(plan, a - 1)
    }
}

/// Ungrouped action `a` opens a phase: no ungrouped action comes before it, or the one
/// just before it has another source.
pub open spec fn phase_start(plan: Plan, a: int) -> bool {
    &&& ungrouped(plan, a)
    &&& (prev_ungrouped(plan, a) < 0 || source_of(plan, prev_ungrouped(plan, a)) != source_of(plan, a))
}

/// The greatest phase start below `k`, or -1 where there is none.
pub open spec fn last_phase_start(plan: Plan, k: int) -> int
    decreases k,
{
    if k <= 0 {
        -1
    } else if phase_start(plan, k - 1) {
        k - 1
    } else {
        last_phase_start(plan, k - 1)
    }
}

/// The least element of a non-empty sequence.
pub open spec fn seq_min(s: Seq<usize>) -> int
    decreases s.len(),
{
    if s.len() == 0 {
        0
    } else if s.len() == 1 {
        s[0] as int
    } else {
        let m = seq_min(s.drop_last());
        if (s.last() as int) < m {
            s.last() as int
        } else {
            m
        }
    }
}

/// The choice group that grouped action `a` belongs to.
pub open spec fn group_of(plan: Plan, a: int) -> int {
    choose|g: int| 0 <= g < plan.choice_groups@.len() && #[trigger] in_group(plan, g, a)
}

/// The least member of choice group `g`.
pub open spec fn group_leader_of(plan: Plan, g: int) -> int {
    seq_min(members(plan, g))
}

/// Action `a` is the least member of its choice group.
pub open spec fn group_leader(plan: Plan, a: int) -> bool {
    grouped(plan, a) && a == group_leader_of(plan, group_of(plan, a))
}

/// Action `a` leads a unit: it opens a phase or is the least member of its group.
pub open spec fn leader(plan: Plan, a: int) -> bool {
    phase_start(plan, a) || group_leader(plan, a)
}

/// How many leaders come before `k`: the index of the unit that leader `k` leads.
pub open spec fn leader_count(plan: Plan, k: int) -> int
    decreases k,
{
    if k <= 0 {
        0
    } else {
        leader_count(plan, k - 1) + if leader(plan, k - 1) {
            1int
        } else {
            0int
        }
    }
}

/// The leader of the unit that action `a` belongs to.
pub open spec fn leader_of(plan: Plan, a: int) -> int {
    if grouped(plan, a) {
        group_leader_of(plan, group_of(plan, a))
    } else {
        last_phase_start(plan, a + 1)
    }
}

/// The index of the unit that action `a` belongs to.
pub open spec fn unit_of(plan: Plan, a: int) -> int {
    leader_count(plan, leader_of(plan, a))
}

/// The actions below `k` of the phase that `l` opens, in plan order.
pub open spec fn phase_members_upto(plan: Plan, l: int, k: int) -> Seq<usize>
    decreases k,
{
    if k <= 0 {
        Seq::empty()
    } else {
        let s = phase_members_upto(plan, l, k - 1);
        if ungrouped(plan, k - 1) && last_phase_start(plan, k) == l {
            s.push((k - 1) as usize)
        } else {
            s
        }
    }
}

/// The actions of the unit that leader `l` leads: its phase in plan order, or its
/// group's members in the group's order.
pub open spec fn unit_members(plan: Plan, l: int) -> Seq<usize> {
    if phase_start(plan, l) {
        phase_members_upto(plan, l, n_actions(plan))
    } else {
        members(plan, group_of(plan, l))
    }
}

/// Number of units.
pub open spec fn unit_count(plan: Plan) -> int {
    leader_count(plan, n_actions(plan))
}

// ---------------------------------------------------------------------------------------
// Lemmas.
// ---------------------------------------------------------------------------------------

/// A leader below `n` counts below the number of units.
pub proof fn lemma_leader_count_below(plan: Plan, l: int)
    requires
        0 <= l < n_actions(plan),
        leader(plan, l),
    ensures
        0 <= leader_count(plan, l) < unit_count(plan),
{
    lemma_leader_count_nonneg(plan, l);
    lemma_leader_count_mono(plan, l, n_actions(plan));
}

/// The least element is an element, and no element is below it.
pub proof fn lemma_seq_min(s: Seq<usize>)
    requires
        s.len() > 0,
    ensures
        exists|k: int| 0 <= k < s.len() && s[k] == seq_min(s),
        forall|k: int| 0 <= k < s.len() ==> seq_min(s) <= #[trigger] s[k],
    decreases s.len(),
{
    if s.len() == 1 {
        assert(s[0] == seq_min(s));
    } else {
        let t = s.drop_last();
        lemma_seq_min(t);
        let k0 = choose|k: int| 0 <= k < t.len() && t[k] == seq_min(t);
        assert(s[k0] == t[k0]);
        if (s.last() as int) < seq_min(t) {
            assert(s[s.len() - 1] == seq_min(s));
        } else {
            assert(s[k0] == seq_min(s));
        }
        assert forall|k: int| 0 <= k < s.len() implies seq_min(s) <= #[trigger] s[k] by {
            if k < s.len() - 1 {
                assert(s[k] == t[k]);
            }
        }
    }
}

/// The owner table names the group that `group_of` picks.
pub proof fn lemma_group_of(plan: Plan, owner: Seq<Option<usize>>, a: int)
    requires
        owners_ok(plan, owner),
        0 <= a < n_actions(plan),
        owner[a] is Some,
    ensures
        grouped(plan, a),
        group_of(plan, a) == (owner[a]->0) as int,
        0 <= group_of(plan, a) < plan.choice_groups@.len(),
        in_group(plan, group_of(plan, a), a),
{
    assert(grouped(plan, a));
    let h = group_of(plan, a);
    assert(0 <= h < plan.choice_groups@.len() && in_group(plan, h, a));
    assert(owner[a] == Some(h as usize) <==> in_group(plan, h, a));
    assert(owner[a] == Some(h as usize));
    assert(owner[a]->0 == h as usize);
    assert(plan.choice_groups@.len() == plan.choice_groups.len());
    assert((h as usize) as int == h);
}

/// A phase start lies below `k` wherever an ungrouped action does.
pub proof fn lemma_last_phase_start(plan: Plan, k: int)
    requires
        k >= 0,
    ensures
        last_phase_start(plan, k) < k,
        prev_ungrouped(plan, k) >= 0 ==> last_phase_start(plan, k) >= 0,
        prev_ungrouped(plan, k) < k,
        prev_ungrouped(plan, k) >= 0 ==> ungrouped(plan, prev_ungrouped(plan, k)),
        last_phase_start(plan, k) >= 0 ==> phase_start(plan, last_phase_start(plan, k)),
    decreases k,
{
    if k > 0 {
        lemma_last_phase_start(plan, k - 1);
    }
}

/// Leaders are counted in increasing order.
pub proof fn lemma_leader_count_mono(plan: Plan, a: int, b: int)
    requires
        a <= b,
    ensures
        leader_count(plan, a) <= leader_count(plan, b),
        a < b && a >= 0 && leader(plan, a) ==> leader_count(plan, a) < leader_count(plan, b),
    decreases b - a,
{
    if a < b {
        lemma_leader_count_mono(plan, a, b - 1);
        if a >= 0 && leader(plan, a) && a == b - 1 {
            assert(leader_count(plan, b) == leader_count(plan, a) + 1);
        }
    }
}

/// `leader_count` never goes below zero.
pub proof fn lemma_leader_count_nonneg(plan: Plan, k: int)
    ensures
        leader_count(plan, k) >= 0,
        leader_count(plan, k) <= if k >= 0 { k } else { 0 },
    decreases k,
{
    if k > 0 {
        lemma_leader_count_nonneg(plan, k - 1);
    }
}


/// The actions below `k` of a phase that opens at or after `k`: none.
pub proof fn lemma_phase_members_empty(plan: Plan, l: int, k: int)
    requires
        0 <= k <= l,
    ensures
        phase_members_upto(plan, l, k) == Seq::<usize>::empty(),
    decreases k,
{
    if k > 0 {
        lemma_phase_members_empty(plan, l, k - 1);
        lemma_last_phase_start(plan, k);
    }
}

/// The least member of a well-formed group is one of its members.
pub proof fn lemma_group_leader_member(plan: Plan, g: int)
    requires
        0 <= g < plan.choice_groups@.len(),
        members(plan, g).len() > 0,
    ensures
        in_group(plan, g, group_leader_of(plan, g)),
        forall|q: int| 0 <= q < members(plan, g).len() ==> group_leader_of(plan, g) <= #[trigger] members(plan, g)[q],
{
    lemma_seq_min(members(plan, g));
}

// ---------------------------------------------------------------------------------------
// The grouper.
// ---------------------------------------------------------------------------------------

/// The units of a plan.
pub struct Units {
    /// The actions of each unit.
    pub actions: Vec<Vec<usize>>,
    /// The choice group of each unit; `None` for a phase.
    pub group: Vec<Option<usize>>,
    /// The unit of each action.
    pub unit_of: Vec<usize>,
    /// The unit of each choice group.
    pub group_unit: Vec<usize>,
}

/// The lengths of the tables of `u`.
pub open spec fn units_sized(plan: Plan, u: Units) -> bool {
    &&& u.actions@.len() == unit_count(plan)
    &&& u.group@.len() == unit_count(plan)
    &&& u.unit_of@.len() == n_actions(plan)
    &&& u.group_unit@.len() == plan.choice_groups@.len()
}

/// `u` maps every action and every group to its unit.
#[verifier::opaque]
pub open spec fn units_map(plan: Plan, u: Units) -> bool {
    &&& forall|a: int| 0 <= a < n_actions(plan) ==> #[trigger] u.unit_of@[a] == unit_of(plan, a)
    &&& forall|a: int| 0 <= a < n_actions(plan) ==> #[trigger] u.unit_of@[a] < unit_count(plan)
    &&& forall|g: int|
        0 <= g < plan.choice_groups@.len() ==> #[trigger] u.group_unit@[g] == leader_count(plan, group_leader_of(plan, g))
}

/// The unit that leader `l` leads holds its actions and names its group.
#[verifier::opaque]
pub open spec fn units_led(plan: Plan, u: Units) -> bool {
    forall|l: int|
        0 <= l < n_actions(plan) && #[trigger] leader(plan, l) ==> {
            &&& u.actions@[leader_count(plan, l)]@ == unit_members(plan, l)
            &&& u.group@[leader_count(plan, l)] == if phase_start(plan, l) {
                None
            } else {
                Some(group_of(plan, l) as usize)
            }
        }
}

/// Every unit is non-empty and holds actions in range.
#[verifier::opaque]
pub open spec fn units_rows(plan: Plan, u: Units) -> bool {
    forall|x: int|
        0 <= x < unit_count(plan) ==> {
            &&& (#[trigger] u.actions@[x])@.len() >= 1
            &&& forall|q: int| 0 <= q < u.actions@[x]@.len() ==> #[trigger] u.actions@[x]@[q] < n_actions(plan)
        }
}

/// Every group unit holds its group's members and is the unit recorded for the group.
#[verifier::opaque]
pub open spec fn units_groups(plan: Plan, u: Units) -> bool {
    forall|x: int|
        0 <= x < unit_count(plan) && (#[trigger] u.group@[x]) is Some ==> {
            &&& u.group@[x]->0 < plan.choice_groups@.len()
            &&& u.actions@[x]@ == members(plan, u.group@[x]->0 as int)
            &&& u.group_unit@[u.group@[x]->0 as int] == x
        }
}

/// `u` holds the units of `plan`, unit `leader_count(l)` led by leader `l`.
pub open spec fn units_ok(plan: Plan, u: Units) -> bool {
    &&& units_sized(plan, u)
    &&& units_map(plan, u)
    &&& units_led(plan, u)
    &&& units_rows(plan, u)
    &&& units_groups(plan, u)
}

/// A copy of a list of indices.
pub fn copy_indices(v: &Vec<usize>) -> (res: Vec<usize>)
    ensures
        res@ == v@,
{
    let mut res: Vec<usize> = Vec::new();
    let mut k: usize = 0;
    while k < v.len()
        invariant
            k <= v@.len(),
            res@ == v@.take(k as int),
        decreases v@.len() - k,
    {
        res.push(v[k]);
        proof {
            assert(v@.take(k + 1) =~= v@.take(k as int).push(v@[k as int]));
        }
        k = k + 1;
    }
    proof {
        assert(v@.take(k as int) =~= v@);
    }
    res
}


/// Every action below `k` is mapped to its unit.
#[verifier::opaque]
pub open spec fn inv_a2u(plan: Plan, k: int, a2u: Seq<usize>) -> bool {
    &&& forall|a: int| 0 <= a < k ==> #[trigger] a2u[a] == unit_of(plan, a)
    &&& forall|a: int| 0 <= a < k ==> #[trigger] a2u[a] < leader_count(plan, k)
}

/// Every group whose least member lies below `k` is mapped to its unit.
#[verifier::opaque]
pub open spec fn inv_gu(plan: Plan, k: int, gu: Seq<Option<usize>>) -> bool {
    forall|g: int|
        0 <= g < plan.choice_groups@.len() ==> #[trigger] gu[g] == if group_leader_of(plan, g) < k {
            Some(leader_count(plan, group_leader_of(plan, g)) as usize)
        } else {
            None
        }
}

/// The unit of every leader below `k` holds its actions below `k`.
#[verifier::opaque]
pub open spec fn inv_leaders(plan: Plan, k: int, ua: Seq<Vec<usize>>, ug: Seq<Option<usize>>) -> bool {
    forall|l: int|
        0 <= l < k && #[trigger] leader(plan, l) ==> {
            &&& ua[leader_count(plan, l)]@ == if phase_start(plan, l) {
                phase_members_upto(plan, l, k)
            } else {
                members(plan, group_of(plan, l))
            }
            &&& ug[leader_count(plan, l)] == if phase_start(plan, l) {
                None
            } else {
                Some(group_of(plan, l) as usize)
            }
        }
}

/// Every unit is non-empty and holds actions in range.
#[verifier::opaque]
pub open spec fn inv_rows(plan: Plan, ua: Seq<Vec<usize>>) -> bool {
    forall|x: int|
        0 <= x < ua.len() ==> {
            &&& (#[trigger] ua[x])@.len() >= 1
            &&& forall|q: int| 0 <= q < ua[x]@.len() ==> #[trigger] ua[x]@[q] < n_actions(plan)
        }
}

/// Every group unit holds its group's members and is the unit recorded for the group.
#[verifier::opaque]
pub open spec fn inv_groups(plan: Plan, ua: Seq<Vec<usize>>, ug: Seq<Option<usize>>, gu: Seq<Option<usize>>) -> bool {
    forall|x: int|
        0 <= x < ug.len() && (#[trigger] ug[x]) is Some ==> {
            &&& ug[x]->0 < plan.choice_groups@.len()
            &&& ua[x]@ == members(plan, ug[x]->0 as int)
            &&& gu[ug[x]->0 as int] == Some(x as usize)
        }
}

/// The grouper's state after the actions below `k`.
pub open spec fn grouper_inv(
    plan: Plan,
    owner: Seq<Option<usize>>,
    k: int,
    ua: Seq<Vec<usize>>,
    ug: Seq<Option<usize>>,
    a2u: Seq<usize>,
    gu: Seq<Option<usize>>,
    last_ung: Option<usize>,
    cur: usize,
) -> bool {
    &&& 0 <= k <= n_actions(plan)
    &&& ua.len() == leader_count(plan, k)
    &&& ug.len() == leader_count(plan, k)
    &&& a2u.len() == k
    &&& gu.len() == plan.choice_groups@.len()
    &&& last_ung == if prev_ungrouped(plan, k) >= 0 {
        Some(prev_ungrouped(plan, k) as usize)
    } else {
        None
    }
    &&& last_phase_start(plan, k) >= 0 ==> cur == leader_count(plan, last_phase_start(plan, k))
    &&& inv_a2u(plan, k, a2u)
    &&& inv_gu(plan, k, gu)
    &&& inv_leaders(plan, k, ua, ug)
    &&& inv_rows(plan, ua)
    &&& inv_groups(plan, ua, ug, gu)
}

/// The recursive definitions, one step on.
proof fn lemma_unfold(plan: Plan, k: int)
    requires
        0 <= k,
    ensures
        prev_ungrouped(plan, k + 1) == if ungrouped(plan, k) { k } else { prev_ungrouped(plan, k) },
        last_phase_start(plan, k + 1) == if phase_start(plan, k) { k } else { last_phase_start(plan, k) },
        leader_count(plan, k + 1) == leader_count(plan, k) + if leader(plan, k) { 1int } else { 0int },
        leader_count(plan, k) >= 0,
        forall|l: int| #[trigger] phase_members_upto(plan, l, k + 1) == if ungrouped(plan, k) && last_phase_start(plan, k + 1) == l {
            phase_members_upto(plan, l, k).push(k as usize)
        } else {
            phase_members_upto(plan, l, k)
        },
{
    lemma_leader_count_nonneg(plan, k);
}

/// The least member of every group is a grouped action that leads its group.
pub proof fn lemma_group_leaders(plan: Plan, owner: Seq<Option<usize>>, g: int)
    requires
        owners_ok(plan, owner),
        !groups_invent_order(plan),
        0 <= g < plan.choice_groups@.len(),
    ensures
        in_group(plan, g, group_leader_of(plan, g)),
        0 <= group_leader_of(plan, g) < n_actions(plan),
        grouped(plan, group_leader_of(plan, g)),
        group_of(plan, group_leader_of(plan, g)) == g,
        group_leader(plan, group_leader_of(plan, g)),
        owner[group_leader_of(plan, g)] == Some(g as usize),
{
    assert(group_well_formed(plan, g));
    lemma_group_leader_member(plan, g);
    let m = group_leader_of(plan, g);
    let q = choose|q: int| 0 <= q < members(plan, g).len() && members(plan, g)[q] == m;
    assert(members(plan, g)[q] < n_actions(plan));
    assert(owner[m] == Some(g as usize) <==> in_group(plan, g, m));
    lemma_group_of(plan, owner, m);
}

/// A step appends the unit of action `k`.
proof fn lemma_a2u_step(plan: Plan, k: int, a2u: Seq<usize>, x: usize)
    requires
        0 <= k,
        a2u.len() == k,
        inv_a2u(plan, k, a2u),
        x == unit_of(plan, k),
        x < leader_count(plan, k + 1),
        leader_count(plan, k) <= leader_count(plan, k + 1),
    ensures
        inv_a2u(plan, k + 1, a2u.push(x)),
{
    reveal(inv_a2u);
    let b = a2u.push(x);
    assert forall|a: int| 0 <= a < k + 1 implies #[trigger] b[a] == unit_of(plan, a) by {}
    assert forall|a: int| 0 <= a < k + 1 implies #[trigger] b[a] < leader_count(plan, k + 1) by {}
}

/// A step at an action that leads no group leaves the group table as it is.
proof fn lemma_gu_same(plan: Plan, owner: Seq<Option<usize>>, k: int, gu: Seq<Option<usize>>)
    requires
        owners_ok(plan, owner),
        !groups_invent_order(plan),
        0 <= k < n_actions(plan),
        inv_gu(plan, k, gu),
        forall|g: int| 0 <= g < plan.choice_groups@.len() ==> owner[k] != Some(g as usize) || group_leader_of(plan, g) != k,
    ensures
        inv_gu(plan, k + 1, gu),
{
    reveal(inv_gu);
    assert forall|g: int|
        0 <= g < plan.choice_groups@.len() implies #[trigger] gu[g] == if group_leader_of(plan, g) < k + 1 {
            Some(leader_count(plan, group_leader_of(plan, g)) as usize)
        } else {
            None
        } by {
        lemma_group_leaders(plan, owner, g);
    }
}

/// A step at the least member of group `g` records the group's unit.
proof fn lemma_gu_leader(plan: Plan, owner: Seq<Option<usize>>, k: int, g: int, gu: Seq<Option<usize>>)
    requires
        owners_ok(plan, owner),
        !groups_invent_order(plan),
        0 <= k < n_actions(plan),
        0 <= g < plan.choice_groups@.len(),
        owner[k] == Some(g as usize),
        group_leader_of(plan, g) == k,
        leader_count(plan, k) >= 0,
        gu.len() == plan.choice_groups@.len(),
        inv_gu(plan, k, gu),
    ensures
        inv_gu(plan, k + 1, gu.update(g, Some(leader_count(plan, k) as usize))),
{
    reveal(inv_gu);
    let gu2 = gu.update(g, Some(leader_count(plan, k) as usize));
    assert forall|h: int|
        0 <= h < plan.choice_groups@.len() implies #[trigger] gu2[h] == if group_leader_of(plan, h) < k + 1 {
            Some(leader_count(plan, group_leader_of(plan, h)) as usize)
        } else {
            None
        } by {
        lemma_group_leaders(plan, owner, h);
        assert(plan.choice_groups@.len() == plan.choice_groups.len());
        if h == g {
            assert(gu2[h] == Some(leader_count(plan, k) as usize));
        } else {
            assert(gu2[h] == gu[h]);
            if group_leader_of(plan, h) == k {
                assert(owner[k] == Some(h as usize));
                assert(h as usize == g as usize);
            }
        }
    }
}

/// A step at a non-leader that leaves every unit as it is.
proof fn lemma_leaders_same(plan: Plan, k: int, ua: Seq<Vec<usize>>, ug: Seq<Option<usize>>)
    requires
        0 <= k,
        !leader(plan, k),
        !ungrouped(plan, k),
        inv_leaders(plan, k, ua, ug),
    ensures
        inv_leaders(plan, k + 1, ua, ug),
{
    reveal(inv_leaders);
    lemma_unfold(plan, k);
}

/// A step at a leader appends its unit.
proof fn lemma_leaders_push(plan: Plan, k: int, ua: Seq<Vec<usize>>, ug: Seq<Option<usize>>, row: Vec<usize>, o: Option<usize>)
    requires
        0 <= k,
        leader(plan, k),
        ua.len() == leader_count(plan, k),
        ug.len() == leader_count(plan, k),
        row@ == if phase_start(plan, k) {
            phase_members_upto(plan, k, k + 1)
        } else {
            members(plan, group_of(plan, k))
        },
        o == if phase_start(plan, k) {
            None
        } else {
            Some(group_of(plan, k) as usize)
        },
        inv_leaders(plan, k, ua, ug),
    ensures
        inv_leaders(plan, k + 1, ua.push(row), ug.push(o)),
{
    reveal(inv_leaders);
    lemma_unfold(plan, k);
    let ua2 = ua.push(row);
    let ug2 = ug.push(o);
    assert forall|l: int|
        0 <= l < k + 1 && #[trigger] leader(plan, l) implies {
            &&& ua2[leader_count(plan, l)]@ == if phase_start(plan, l) {
                phase_members_upto(plan, l, k + 1)
            } else {
                members(plan, group_of(plan, l))
            }
            &&& ug2[leader_count(plan, l)] == if phase_start(plan, l) {
                None
            } else {
                Some(group_of(plan, l) as usize)
            }
        } by {
        lemma_leader_count_nonneg(plan, l);
        if l < k {
            lemma_leader_count_mono(plan, l, k);
            assert(ua2[leader_count(plan, l)] == ua[leader_count(plan, l)]);
            assert(ug2[leader_count(plan, l)] == ug[leader_count(plan, l)]);
            assert(phase_members_upto(plan, l, k + 1) == phase_members_upto(plan, l, k));
        } else {
            assert(ua2[leader_count(plan, l)] == row);
        }
    }
}

/// A step that continues the phase opened at `s` extends that phase's unit.
proof fn lemma_leaders_extend(plan: Plan, k: int, s: int, ua: Seq<Vec<usize>>, ug: Seq<Option<usize>>, row: Vec<usize>)
    requires
        0 <= s < k,
        ungrouped(plan, k),
        !phase_start(plan, k),
        !leader(plan, k),
        last_phase_start(plan, k) == s,
        leader(plan, s),
        phase_start(plan, s),
        ua.len() == leader_count(plan, k),
        leader_count(plan, s) < ua.len(),
        row@ == ua[leader_count(plan, s)]@.push(k as usize),
        inv_leaders(plan, k, ua, ug),
    ensures
        inv_leaders(plan, k + 1, ua.update(leader_count(plan, s), row), ug),
{
    reveal(inv_leaders);
    lemma_unfold(plan, k);
    let ua2 = ua.update(leader_count(plan, s), row);
    assert forall|l: int|
        0 <= l < k + 1 && #[trigger] leader(plan, l) implies {
            &&& ua2[leader_count(plan, l)]@ == if phase_start(plan, l) {
                phase_members_upto(plan, l, k + 1)
            } else {
                members(plan, group_of(plan, l))
            }
            &&& ug[leader_count(plan, l)] == if phase_start(plan, l) {
                None
            } else {
                Some(group_of(plan, l) as usize)
            }
        } by {
        assert(last_phase_start(plan, k + 1) == s);
        lemma_leader_count_nonneg(plan, l);
        lemma_leader_count_nonneg(plan, s);
        if l < k {
            lemma_leader_count_mono(plan, l, k);
        }
        if l != s && l < k {
            if l < s {
                lemma_leader_count_mono(plan, l, s);
            } else {
                lemma_leader_count_mono(plan, s, l);
            }
            assert(ua2[leader_count(plan, l)] == ua[leader_count(plan, l)]);
            assert(phase_members_upto(plan, l, k + 1) == phase_members_upto(plan, l, k));
        } else if l == s {
            assert(ua2[leader_count(plan, l)] == row);
            assert(ua[leader_count(plan, s)]@ == phase_members_upto(plan, s, k));
            assert(phase_members_upto(plan, s, k + 1) == phase_members_upto(plan, s, k).push(k as usize));
        }
    }
}

/// Appending or replacing a non-empty in-range unit keeps every unit so.
proof fn lemma_rows_push(plan: Plan, ua: Seq<Vec<usize>>, row: Vec<usize>)
    requires
        inv_rows(plan, ua),
        row@.len() >= 1,
        forall|q: int| 0 <= q < row@.len() ==> #[trigger] row@[q] < n_actions(plan),
    ensures
        inv_rows(plan, ua.push(row)),
{
    reveal(inv_rows);
    let ua2 = ua.push(row);
    assert forall|x: int| 0 <= x < ua2.len() implies {
        &&& (#[trigger] ua2[x])@.len() >= 1
        &&& forall|q: int| 0 <= q < ua2[x]@.len() ==> #[trigger] ua2[x]@[q] < n_actions(plan)
    } by {
        if x < ua.len() {
            assert(ua2[x] == ua[x]);
        }
    }
}

/// Replacing a unit by a non-empty in-range one keeps every unit so.
proof fn lemma_rows_update(plan: Plan, ua: Seq<Vec<usize>>, c: int, row: Vec<usize>)
    requires
        inv_rows(plan, ua),
        0 <= c < ua.len(),
        row@.len() >= 1,
        forall|q: int| 0 <= q < row@.len() ==> #[trigger] row@[q] < n_actions(plan),
    ensures
        inv_rows(plan, ua.update(c, row)),
{
    reveal(inv_rows);
    let ua2 = ua.update(c, row);
    assert forall|x: int| 0 <= x < ua2.len() implies {
        &&& (#[trigger] ua2[x])@.len() >= 1
        &&& forall|q: int| 0 <= q < ua2[x]@.len() ==> #[trigger] ua2[x]@[q] < n_actions(plan)
    } by {
        if x != c {
            assert(ua2[x] == ua[x]);
        }
    }
}

/// Appending the unit of group `g`, recorded for `g` in the group table.
proof fn lemma_groups_push_group(plan: Plan, ua: Seq<Vec<usize>>, ug: Seq<Option<usize>>, gu: Seq<Option<usize>>, g: int, row: Vec<usize>)
    requires
        inv_groups(plan, ua, ug, gu),
        ua.len() == ug.len(),
        0 <= g < plan.choice_groups@.len(),
        gu.len() == plan.choice_groups@.len(),
        gu[g] is None,
        row@ == members(plan, g),
        ua.len() <= usize::MAX,
    ensures
        inv_groups(plan, ua.push(row), ug.push(Some(g as usize)), gu.update(g, Some(ua.len() as usize))),
{
    reveal(inv_groups);
    assert(plan.choice_groups@.len() == plan.choice_groups.len());
    let ua2 = ua.push(row);
    let ug2 = ug.push(Some(g as usize));
    let gu2 = gu.update(g, Some(ua.len() as usize));
    assert forall|x: int|
        0 <= x < ug2.len() && (#[trigger] ug2[x]) is Some implies {
            &&& ug2[x]->0 < plan.choice_groups@.len()
            &&& ua2[x]@ == members(plan, ug2[x]->0 as int)
            &&& gu2[ug2[x]->0 as int] == Some(x as usize)
        } by {
        if x < ug.len() {
            assert(ug2[x] == ug[x]);
            assert(ua2[x] == ua[x]);
            assert(gu[ug[x]->0 as int] == Some(x as usize));
            assert(ug[x]->0 as int != g);
        } else {
            assert(ug2[x] == Some(g as usize));
            assert(ua2[x] == row);
        }
    }
}

/// Appending a phase unit.
proof fn lemma_groups_push_phase(plan: Plan, ua: Seq<Vec<usize>>, ug: Seq<Option<usize>>, gu: Seq<Option<usize>>, row: Vec<usize>)
    requires
        inv_groups(plan, ua, ug, gu),
        ua.len() == ug.len(),
    ensures
        inv_groups(plan, ua.push(row), ug.push(None), gu),
{
    reveal(inv_groups);
    let ua2 = ua.push(row);
    let ug2 = ug.push(None);
    assert forall|x: int|
        0 <= x < ug2.len() && (#[trigger] ug2[x]) is Some implies {
            &&& ug2[x]->0 < plan.choice_groups@.len()
            &&& ua2[x]@ == members(plan, ug2[x]->0 as int)
            &&& gu[ug2[x]->0 as int] == Some(x as usize)
        } by {
        assert(ug2[x] == ug[x]);
        assert(ua2[x] == ua[x]);
    }
}

/// Replacing a phase unit.
proof fn lemma_groups_update_phase(plan: Plan, ua: Seq<Vec<usize>>, ug: Seq<Option<usize>>, gu: Seq<Option<usize>>, c: int, row: Vec<usize>)
    requires
        inv_groups(plan, ua, ug, gu),
        ua.len() == ug.len(),
        0 <= c < ua.len(),
        ug[c] is None,
    ensures
        inv_groups(plan, ua.update(c, row), ug, gu),
{
    reveal(inv_groups);
    let ua2 = ua.update(c, row);
    assert forall|x: int|
        0 <= x < ug.len() && (#[trigger] ug[x]) is Some implies {
            &&& ug[x]->0 < plan.choice_groups@.len()
            &&& ua2[x]@ == members(plan, ug[x]->0 as int)
            &&& gu[ug[x]->0 as int] == Some(x as usize)
        } by {
        assert(ua2[x] == ua[x]);
    }
}

/// A step at the least member of a choice group opens the group's unit.
proof fn lemma_step_group_leader(
    plan: Plan,
    owner: Seq<Option<usize>>,
    k: int,
    g: int,
    ua: Seq<Vec<usize>>,
    ug: Seq<Option<usize>>,
    a2u: Seq<usize>,
    gu: Seq<Option<usize>>,
    last_ung: Option<usize>,
    cur: usize,
    row: Vec<usize>,
)
    requires
        owners_ok(plan, owner),
        !groups_invent_order(plan),
        0 <= k < n_actions(plan),
        0 <= g < plan.choice_groups@.len(),
        owner[k] == Some(g as usize),
        gu[g] is None,
        row@ == members(plan, g),
        grouper_inv(plan, owner, k, ua, ug, a2u, gu, last_ung, cur),
    ensures
        grouper_inv(
            plan,
            owner,
            k + 1,
            ua.push(row),
            ug.push(Some(g as usize)),
            a2u.push(ua.len() as usize),
            gu.update(g, Some(ua.len() as usize)),
            last_ung,
            cur,
        ),
{
    lemma_unfold(plan, k);
    lemma_leader_count_nonneg(plan, k);
    assert(plan.actions@.len() == plan.actions.len());
    assert(plan.choice_groups@.len() == plan.choice_groups.len());
    lemma_group_of(plan, owner, k);
    lemma_group_leaders(plan, owner, g);
    assert(group_well_formed(plan, g));
    lemma_group_leader_member(plan, g);
    let q = choose|q: int| 0 <= q < members(plan, g).len() && members(plan, g)[q] == k;
    assert(group_leader_of(plan, g) <= members(plan, g)[q]);
    reveal(inv_gu);
    assert(gu[g] == if group_leader_of(plan, g) < k {
        Some(leader_count(plan, group_leader_of(plan, g)) as usize)
    } else {
        None
    });
    assert(group_leader_of(plan, g) == k);
    assert(group_leader(plan, k));
    assert(leader(plan, k));
    assert(!phase_start(plan, k));
    lemma_a2u_step(plan, k, a2u, ua.len() as usize);
    lemma_gu_leader(plan, owner, k, g, gu);
    lemma_leaders_push(plan, k, ua, ug, row, Some(g as usize));
    assert forall|p: int| 0 <= p < row@.len() implies #[trigger] row@[p] < n_actions(plan) by {
        assert(row@[p] == members(plan, g)[p]);
    }
    lemma_rows_push(plan, ua, row);
    lemma_groups_push_group(plan, ua, ug, gu, g, row);
}

/// A step at a later member of a choice group maps it to the group's unit.
proof fn lemma_step_grouped(
    plan: Plan,
    owner: Seq<Option<usize>>,
    k: int,
    g: int,
    ua: Seq<Vec<usize>>,
    ug: Seq<Option<usize>>,
    a2u: Seq<usize>,
    gu: Seq<Option<usize>>,
    last_ung: Option<usize>,
    cur: usize,
)
    requires
        owners_ok(plan, owner),
        !groups_invent_order(plan),
        0 <= k < n_actions(plan),
        0 <= g < plan.choice_groups@.len(),
        owner[k] == Some(g as usize),
        gu[g] is Some,
        grouper_inv(plan, owner, k, ua, ug, a2u, gu, last_ung, cur),
    ensures
        grouper_inv(plan, owner, k + 1, ua, ug, a2u.push(gu[g]->0), gu, last_ung, cur),
{
    lemma_unfold(plan, k);
    assert(plan.choice_groups@.len() == plan.choice_groups.len());
    lemma_group_of(plan, owner, k);
    lemma_group_leaders(plan, owner, g);
    reveal(inv_gu);
    assert(gu[g] == if group_leader_of(plan, g) < k {
        Some(leader_count(plan, group_leader_of(plan, g)) as usize)
    } else {
        None
    });
    let m = group_leader_of(plan, g);
    assert(m < k);
    lemma_leader_count_nonneg(plan, m);
    assert(plan.actions@.len() == plan.actions.len());
    assert(unit_of(plan, k) == leader_count(plan, m));
    assert(!leader(plan, k));
    assert(leader(plan, m));
    lemma_leader_count_mono(plan, m, k);
    lemma_a2u_step(plan, k, a2u, gu[g]->0);
    lemma_gu_same(plan, owner, k, gu);
    lemma_leaders_same(plan, k, ua, ug);
}

/// A step at an ungrouped action that opens a phase opens the phase's unit.
proof fn lemma_step_phase_start(
    plan: Plan,
    owner: Seq<Option<usize>>,
    k: int,
    ua: Seq<Vec<usize>>,
    ug: Seq<Option<usize>>,
    a2u: Seq<usize>,
    gu: Seq<Option<usize>>,
    last_ung: Option<usize>,
    cur: usize,
    row: Vec<usize>,
)
    requires
        owners_ok(plan, owner),
        !groups_invent_order(plan),
        0 <= k < n_actions(plan),
        owner[k] is None,
        phase_start(plan, k),
        row@ == seq![k as usize],
        grouper_inv(plan, owner, k, ua, ug, a2u, gu, last_ung, cur),
    ensures
        grouper_inv(
            plan,
            owner,
            k + 1,
            ua.push(row),
            ug.push(None),
            a2u.push(ua.len() as usize),
            gu,
            Some(k as usize),
            ua.len() as usize,
        ),
{
    lemma_unfold(plan, k);
    lemma_leader_count_nonneg(plan, k);
    assert(plan.actions@.len() == plan.actions.len());
    lemma_phase_members_empty(plan, k, k);
    assert(ungrouped(plan, k));
    assert(unit_of(plan, k) == leader_count(plan, k));
    assert(leader(plan, k));
    assert(phase_members_upto(plan, k, k + 1) =~= seq![k as usize]);
    lemma_a2u_step(plan, k, a2u, ua.len() as usize);
    lemma_gu_same(plan, owner, k, gu);
    lemma_leaders_push(plan, k, ua, ug, row, None);
    lemma_rows_push(plan, ua, row);
    lemma_groups_push_phase(plan, ua, ug, gu, row);
}

/// Before a step that continues a phase: the phase is open and its unit exists.
proof fn lemma_step_phase_continue_pre(
    plan: Plan,
    owner: Seq<Option<usize>>,
    k: int,
    ua: Seq<Vec<usize>>,
    ug: Seq<Option<usize>>,
    a2u: Seq<usize>,
    gu: Seq<Option<usize>>,
    last_ung: Option<usize>,
    cur: usize,
)
    requires
        owners_ok(plan, owner),
        0 <= k < n_actions(plan),
        owner[k] is None,
        !phase_start(plan, k),
        grouper_inv(plan, owner, k, ua, ug, a2u, gu, last_ung, cur),
    ensures
        last_phase_start(plan, k) >= 0,
        cur < ua.len(),
        ug[cur as int] is None,
        ua[cur as int]@ == phase_members_upto(plan, last_phase_start(plan, k), k),
        forall|q: int| 0 <= q < ua[cur as int]@.len() ==> #[trigger] ua[cur as int]@[q] < n_actions(plan),
{
    lemma_last_phase_start(plan, k);
    let s = last_phase_start(plan, k);
    assert(ungrouped(plan, k));
    assert(s >= 0);
    assert(leader(plan, s));
    lemma_leader_count_mono(plan, s, k);
    reveal(inv_leaders);
    reveal(inv_rows);
    assert(ua[cur as int] == ua[leader_count(plan, s)]);
}

/// A step at an ungrouped action that continues a phase adds it to the phase's unit.
proof fn lemma_step_phase_continue(
    plan: Plan,
    owner: Seq<Option<usize>>,
    k: int,
    ua: Seq<Vec<usize>>,
    ug: Seq<Option<usize>>,
    a2u: Seq<usize>,
    gu: Seq<Option<usize>>,
    last_ung: Option<usize>,
    cur: usize,
    row: Vec<usize>,
)
    requires
        owners_ok(plan, owner),
        !groups_invent_order(plan),
        0 <= k < n_actions(plan),
        owner[k] is None,
        !phase_start(plan, k),
        last_phase_start(plan, k) >= 0,
        cur < ua.len(),
        ug[cur as int] is None,
        forall|q: int| 0 <= q < ua[cur as int]@.len() ==> #[trigger] ua[cur as int]@[q] < n_actions(plan),
        row@ == ua[cur as int]@.push(k as usize),
        grouper_inv(plan, owner, k, ua, ug, a2u, gu, last_ung, cur),
    ensures
        grouper_inv(plan, owner, k + 1, ua.update(cur as int, row), ug, a2u.push(cur), gu, Some(k as usize), cur),
{
    lemma_unfold(plan, k);
    lemma_last_phase_start(plan, k);
    let s = last_phase_start(plan, k);
    assert(ungrouped(plan, k));
    assert(leader(plan, s));
    assert(!leader(plan, k));
    lemma_leader_count_mono(plan, s, k);
    lemma_a2u_step(plan, k, a2u, cur);
    lemma_gu_same(plan, owner, k, gu);
    lemma_leaders_extend(plan, k, s, ua, ug, row);
    assert forall|p: int| 0 <= p < row@.len() implies #[trigger] row@[p] < n_actions(plan) by {
        if p < ua[cur as int]@.len() {
            assert(row@[p] == ua[cur as int]@[p]);
        }
    }
    lemma_rows_update(plan, ua, cur as int, row);
    lemma_groups_update_phase(plan, ua, ug, gu, cur as int, row);
}

/// The group units of the grouper's final state.
proof fn lemma_units_ok_groups(plan: Plan, owner: Seq<Option<usize>>, res: Units, gu: Seq<Option<usize>>, last_ung: Option<usize>, cur: usize)
    requires
        !groups_invent_order(plan),
        grouper_inv(plan, owner, n_actions(plan), res.actions@, res.group@, res.unit_of@, gu, last_ung, cur),
        res.group_unit@.len() == plan.choice_groups@.len(),
        forall|h: int| 0 <= h < plan.choice_groups@.len() ==> #[trigger] res.group_unit@[h] == leader_count(plan, group_leader_of(plan, h)),
    ensures
        forall|x: int|
            0 <= x < unit_count(plan) && (#[trigger] res.group@[x]) is Some ==> {
                &&& res.group@[x]->0 < plan.choice_groups@.len()
                &&& res.actions@[x]@ == members(plan, res.group@[x]->0 as int)
                &&& res.group_unit@[res.group@[x]->0 as int] == x
            },
{
    let n = n_actions(plan);
    assert forall|x: int|
        0 <= x < unit_count(plan) && (#[trigger] res.group@[x]) is Some implies {
            &&& res.group@[x]->0 < plan.choice_groups@.len()
            &&& res.actions@[x]@ == members(plan, res.group@[x]->0 as int)
            &&& res.group_unit@[res.group@[x]->0 as int] == x
        } by {
        reveal(inv_groups);
        let h = res.group@[x]->0 as int;
        assert(gu[h] == Some(x as usize));
        assert(gu[h] == Some(leader_count(plan, group_leader_of(plan, h)) as usize)) by {
            reveal(inv_gu);
        }
        assert(plan.choice_groups@.len() == plan.choice_groups.len());
        assert(plan.actions@.len() == plan.actions.len());
        assert(group_well_formed(plan, h));
        lemma_group_leader_member(plan, h);
        let q = choose|q: int| 0 <= q < members(plan, h).len() && members(plan, h)[q] == group_leader_of(plan, h);
        assert(group_leader_of(plan, h) < n);
        lemma_leader_count_nonneg(plan, group_leader_of(plan, h));
        lemma_leader_count_nonneg(plan, n);
        assert(res.group_unit@[h] == leader_count(plan, group_leader_of(plan, h)));
        assert(res.group_unit@[h] == x);
    }
}

/// The grouper's final state is the plan's units.
proof fn lemma_units_ok(plan: Plan, owner: Seq<Option<usize>>, res: Units, gu: Seq<Option<usize>>, last_ung: Option<usize>, cur: usize)
    requires
        !groups_invent_order(plan),
        grouper_inv(plan, owner, n_actions(plan), res.actions@, res.group@, res.unit_of@, gu, last_ung, cur),
        res.group_unit@.len() == plan.choice_groups@.len(),
        forall|h: int| 0 <= h < plan.choice_groups@.len() ==> #[trigger] res.group_unit@[h] == leader_count(plan, group_leader_of(plan, h)),
    ensures
        units_ok(plan, res),
{
    reveal(units_map);
    reveal(units_led);
    reveal(units_rows);
    reveal(units_groups);
    let n = n_actions(plan);
    assert(forall|a: int| 0 <= a < n ==> #[trigger] res.unit_of@[a] == unit_of(plan, a)) by {
        reveal(inv_a2u);
    }
    assert(forall|a: int| 0 <= a < n ==> #[trigger] res.unit_of@[a] < unit_count(plan)) by {
        reveal(inv_a2u);
    }
    assert forall|l: int| 0 <= l < n && #[trigger] leader(plan, l) implies {
        &&& res.actions@[leader_count(plan, l)]@ == unit_members(plan, l)
        &&& res.group@[leader_count(plan, l)] == if phase_start(plan, l) {
            None
        } else {
            Some(group_of(plan, l) as usize)
        }
    } by {
        reveal(inv_leaders);
    }
    assert forall|x: int|
        0 <= x < unit_count(plan) implies {
            &&& (#[trigger] res.actions@[x])@.len() >= 1
            &&& forall|q: int| 0 <= q < res.actions@[x]@.len() ==> #[trigger] res.actions@[x]@[q] < n
        } by {
        reveal(inv_rows);
    }
    lemma_units_ok_groups(plan, owner, res, gu, last_ung, cur);
}

/// Groups the plan's actions into units.
pub fn plan_units(plan: &Plan, owner: &Vec<Option<usize>>) -> (res: Units)
    requires
        owners_ok(*plan, owner@),
        !groups_invent_order(*plan),
    ensures
        units_ok(*plan, res),
{
    let n = plan.actions.len();
    let ng = plan.choice_groups.len();
    let mut ua: Vec<Vec<usize>> = Vec::new();
    let mut ug: Vec<Option<usize>> = Vec::new();
    let mut a2u: Vec<usize> = Vec::new();
    let mut gu: Vec<Option<usize>> = Vec::new();
    let mut g0: usize = 0;
    while g0 < ng
        invariant
            ng == plan.choice_groups@.len(),
            g0 <= ng,
            gu@.len() == g0,
            forall|g: int| 0 <= g < g0 ==> #[trigger] gu@[g] is None,
        decreases ng - g0,
    {
        gu.push(None);
        g0 = g0 + 1;
    }
    proof {
        assert forall|g: int| 0 <= g < ng implies !(group_leader_of(*plan, g) < 0) by {
            assert(group_well_formed(*plan, g));
            lemma_group_leader_member(*plan, g);
        }
    }
    let mut last_ung: Option<usize> = None;
    let mut cur: usize = 0;
    let mut k: usize = 0;
    proof {
        reveal(inv_a2u);
        reveal(inv_gu);
        reveal(inv_leaders);
        reveal(inv_rows);
        reveal(inv_groups);
    }
    while k < n
        invariant
            n == n_actions(*plan),
            ng == plan.choice_groups@.len(),
            owners_ok(*plan, owner@),
            !groups_invent_order(*plan),
            grouper_inv(*plan, owner@, k as int, ua@, ug@, a2u@, gu@, last_ung, cur),
        decreases n - k,
    {
        proof {
            lemma_leader_count_nonneg(*plan, k as int);
            lemma_last_phase_start(*plan, k as int);
        }
        match owner[k] {
            Some(g) => {
                proof {
                    lemma_group_of(*plan, owner@, k as int);
                }
                match gu[g] {
                    None => {
                        let x = ua.len();
                        let row = copy_indices(&plan.choice_groups[g].members);
                        proof {
                            lemma_step_group_leader(*plan, owner@, k as int, g as int, ua@, ug@, a2u@, gu@, last_ung, cur, row);
                        }
                        ua.push(row);
                        ug.push(Some(g));
                        gu.set(g, Some(x));
                        a2u.push(x);
                    },
                    Some(x) => {
                        proof {
                            lemma_step_grouped(*plan, owner@, k as int, g as int, ua@, ug@, a2u@, gu@, last_ung, cur);
                        }
                        a2u.push(x);
                    },
                }
            },
            None => {
                let starts = match last_ung {
                    None => true,
                    Some(p) => plan.actions[p].source != plan.actions[k].source,
                };
                proof {
                    assert(ungrouped(*plan, k as int));
                    assert(starts == phase_start(*plan, k as int));
                }
                if starts {
                    let x = ua.len();
                    let mut row: Vec<usize> = Vec::new();
                    row.push(k);
                    proof {
                        lemma_step_phase_start(*plan, owner@, k as int, ua@, ug@, a2u@, gu@, last_ung, cur, row);
                    }
                    ua.push(row);
                    ug.push(None);
                    a2u.push(x);
                    cur = x;
                } else {
                    proof {
                        lemma_step_phase_continue_pre(*plan, owner@, k as int, ua@, ug@, a2u@, gu@, last_ung, cur);
                    }
                    let mut row = copy_indices(&ua[cur]);
                    row.push(k);
                    proof {
                        lemma_step_phase_continue(*plan, owner@, k as int, ua@, ug@, a2u@, gu@, last_ung, cur, row);
                    }
                    ua.set(cur, row);
                    a2u.push(cur);
                }
                last_ung = Some(k);
            },
        }
        k = k + 1;
    }
    let mut group_unit: Vec<usize> = Vec::new();
    let mut g: usize = 0;
    while g < ng
        invariant
            n == n_actions(*plan),
            ng == plan.choice_groups@.len(),
            g <= ng,
            !groups_invent_order(*plan),
            grouper_inv(*plan, owner@, n as int, ua@, ug@, a2u@, gu@, last_ung, cur),
            group_unit@.len() == g,
            forall|h: int| 0 <= h < g ==> #[trigger] group_unit@[h] == leader_count(*plan, group_leader_of(*plan, h)),
        decreases ng - g,
    {
        proof {
            assert(group_well_formed(*plan, g as int));
            lemma_group_leader_member(*plan, g as int);
            let q = choose|q: int| 0 <= q < members(*plan, g as int).len() && members(*plan, g as int)[q] == group_leader_of(*plan, g as int);
            assert(group_leader_of(*plan, g as int) < n);
            reveal(inv_gu);
            lemma_leader_count_nonneg(*plan, group_leader_of(*plan, g as int));
            assert(gu@[g as int] == Some(leader_count(*plan, group_leader_of(*plan, g as int)) as usize));
        }
        let x = match gu[g] {
            Some(x) => x,
            None => 0,
        };
        group_unit.push(x);
        g = g + 1;
    }
    let res = Units { actions: ua, group: ug, unit_of: a2u, group_unit };
    proof {
        lemma_units_ok(*plan, owner@, res, gu@, last_ung, cur);
    }
    res
}

} // verus!
