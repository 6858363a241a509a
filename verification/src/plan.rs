//! A validated plan: actions with provenance, declared precedence and choice points,
//! read as mathematical relations, with the checks that decide whether it can be built.

use vstd::prelude::*;
use crate::relation::{closure_of, pair_set, contains_pair};
use crate::text::{blank, is_blank};

verus! {

/// One action of a validated plan and the provenance source that justifies it.
#[derive(Debug)]
pub struct PlanAction {
    /// The activity label this action becomes as a leaf.
    pub id: String,
    /// The provenance source (e.g. an artifact IRI) this action was derived from.
    pub source: String,
}

/// A choice point: mutually exclusive alternative actions (`members`, indices into
/// `Plan::actions`), of which the branches listed in `loop_branches` (indices into
/// `members`) redo the choice instead of leaving it.
#[derive(Debug)]
pub struct ChoiceGroupSpec {
    pub members: Vec<usize>,
    pub loop_branches: Vec<usize>,
}

/// The pipeline's input: actions, the plan-required precedence `(i, j)` (action `i`
/// strictly before action `j`; it need not be transitively closed) and the declared
/// choice points. `precedes` and `loop_branches` are read as sets.
#[derive(Debug)]
pub struct Plan {
    pub actions: Vec<PlanAction>,
    pub precedes: Vec<(usize, usize)>,
    pub choice_groups: Vec<ChoiceGroupSpec>,
}

// ---------------------------------------------------------------------------------------
// The plan, read mathematically.
// ---------------------------------------------------------------------------------------

/// Number of actions.
pub open spec fn n_actions(plan: Plan) -> int {
    plan.actions@.len() as int
}

/// The members of choice group `g`.
pub open spec fn members(plan: Plan, g: int) -> Seq<usize> {
    plan.choice_groups@[g].members@
}

/// The loop branches of choice group `g`.
pub open spec fn loops(plan: Plan, g: int) -> Seq<usize> {
    plan.choice_groups@[g].loop_branches@
}

/// No action, or an action whose provenance is blank.
pub open spec fn flat_only(plan: Plan) -> bool {
    plan.actions@.len() == 0 || exists|i: int| 0 <= i < plan.actions@.len() && blank(#[trigger] plan.actions@[i].source@)
}

/// Choice group `g` has at least two in-range members and in-range loop branches.
pub open spec fn group_well_formed(plan: Plan, g: int) -> bool {
    &&& members(plan, g).len() >= 2
    &&& forall|k: int| 0 <= k < members(plan, g).len() ==> (#[trigger] members(plan, g)[k]) < n_actions(plan)
    &&& forall|k: int| 0 <= k < loops(plan, g).len() ==> (#[trigger] loops(plan, g)[k]) < members(plan, g).len()
}

/// No action is listed twice across (or within) the choice groups.
pub open spec fn membership_unique(plan: Plan) -> bool {
    forall|g1: int, k1: int, g2: int, k2: int|
        0 <= g1 < plan.choice_groups@.len() && 0 <= g2 < plan.choice_groups@.len() && 0 <= k1 < members(
            plan,
            g1,
        ).len() && 0 <= k2 < members(plan, g2).len() && (g1 != g2 || k1 != k2) ==> #[trigger] members(
            plan,
            g1,
        )[k1] != #[trigger] members(plan, g2)[k2]
}

/// The choice groups are malformed.
pub open spec fn groups_invent_order(plan: Plan) -> bool {
    ||| exists|g: int| 0 <= g < plan.choice_groups@.len() && !#[trigger] group_well_formed(plan, g)
    ||| !membership_unique(plan)
}

/// Action `a` is a member of choice group `g`.
pub open spec fn in_group(plan: Plan, g: int, a: int) -> bool {
    exists|k: int| 0 <= k < members(plan, g).len() && members(plan, g)[k] == a
}

/// Action `a` is a member of some choice group.
pub open spec fn grouped(plan: Plan, a: int) -> bool {
    exists|g: int| 0 <= g < plan.choice_groups@.len() && #[trigger] in_group(plan, g, a)
}

/// A declared precedence pair that invents order.
pub open spec fn pair_invents_order(plan: Plan, p: (usize, usize)) -> bool {
    ||| p.0 >= n_actions(plan)
    ||| p.1 >= n_actions(plan)
    ||| p.0 == p.1
    ||| exists|g: int| 0 <= g < plan.choice_groups@.len() && #[trigger] in_group(plan, g, p.0 as int) && in_group(plan, g, p.1 as int)
}

/// Some declared precedence pair invents order.
pub open spec fn precedes_invent_order(plan: Plan) -> bool {
    exists|k: int| 0 <= k < plan.precedes@.len() && pair_invents_order(plan, #[trigger] plan.precedes@[k])
}

/// The plan-required order between actions: the transitive closure of `precedes`.
pub open spec fn action_order(plan: Plan) -> Set<(int, int)> {
    closure_of(pair_set(plan.precedes@))
}

/// A relation holding some pair in both directions.
pub open spec fn contradicts(r: Set<(int, int)>) -> bool {
    exists|a: int, b: int| #[trigger] r.contains((a, b)) && #[trigger] r.contains((b, a))
}


/// `owner[a] == Some(g)` exactly when action `a` is a member of choice group `g`.
pub open spec fn owners_ok(plan: Plan, owner: Seq<Option<usize>>) -> bool {
    &&& owner.len() == n_actions(plan)
    &&& forall|a: int, g: int|
        0 <= a < n_actions(plan) && 0 <= g < plan.choice_groups@.len() ==> (#[trigger] owner[a] == Some(g as usize)
            <==> #[trigger] in_group(plan, g, a))
    &&& forall|a: int| 0 <= a < n_actions(plan) ==> (owner[a] is None <==> !grouped(plan, a))
}

// ---------------------------------------------------------------------------------------
// Validation stages.
// ---------------------------------------------------------------------------------------

/// Whether some action's provenance source is blank.
pub(crate) fn some_source_blank(plan: &Plan) -> (res: bool)
    ensures
        res == exists|i: int| 0 <= i < plan.actions@.len() && blank(#[trigger] plan.actions@[i].source@),
{
    let mut i: usize = 0;
    while i < plan.actions.len()
        invariant
            i <= plan.actions@.len(),
            forall|j: int| 0 <= j < i ==> !blank(#[trigger] plan.actions@[j].source@),
        decreases plan.actions@.len() - i,
    {
        if is_blank(plan.actions[i].source.as_str()) {
            return true;
        }
        i = i + 1;
    }
    false
}

/// The group owning each action: `owner[a] == Some(g)` exactly when `a` is a member of
/// choice group `g`; `None` when the choice groups are malformed.
pub(crate) fn group_owners(plan: &Plan) -> (res: Option<Vec<Option<usize>>>)
    ensures
        res is None <==> groups_invent_order(*plan),
        res matches Some(owner) ==> {
            &&& owner@.len() == n_actions(*plan)
            &&& forall|a: int, g: int|
                0 <= a < n_actions(*plan) && 0 <= g < plan.choice_groups@.len() ==> (#[trigger] owner@[a]
                    == Some(g as usize) <==> #[trigger] in_group(*plan, g, a))
            &&& forall|a: int| 0 <= a < n_actions(*plan) ==> (owner@[a] is None <==> !grouped(*plan, a))
        },
{
    let n = plan.actions.len();
    let mut owner: Vec<Option<usize>> = Vec::new();
    let mut i: usize = 0;
    while i < n
        invariant
            i <= n,
            owner@.len() == i,
            forall|a: int| 0 <= a < i ==> owner@[a] is None,
        decreases n - i,
    {
        owner.push(None);
        i = i + 1;
    }
    let mut g: usize = 0;
    while g < plan.choice_groups.len()
        invariant
            n == n_actions(*plan),
            g <= plan.choice_groups@.len(),
            owner@.len() == n,
            forall|h: int| 0 <= h < g ==> #[trigger] group_well_formed(*plan, h),
            // Members seen so far are pairwise distinct and recorded in `owner`.
            forall|g1: int, k1: int, g2: int, k2: int|
                0 <= g1 < g && 0 <= g2 < g && 0 <= k1 < members(*plan, g1).len() && 0 <= k2 < members(*plan, g2).len()
                    && (g1 != g2 || k1 != k2) ==> #[trigger] members(*plan, g1)[k1] != #[trigger] members(*plan, g2)[k2],
            forall|a: int, h: int|
                0 <= a < n && 0 <= h < g ==> (#[trigger] owner@[a] == Some(h as usize) <==> #[trigger] in_group(*plan, h, a)),
            forall|a: int| 0 <= a < n && (#[trigger] owner@[a]) is Some ==> owner@[a]->0 < g,
        decreases plan.choice_groups@.len() - g,
    {
        let group = &plan.choice_groups[g];
        if group.members.len() < 2 {
            proof {
                assert(!group_well_formed(*plan, g as int));
            }
            return None;
        }
        let mut k: usize = 0;
        while k < group.members.len()
            invariant
                n == n_actions(*plan),
                g < plan.choice_groups@.len(),
                group == plan.choice_groups@[g as int],
                k <= members(*plan, g as int).len(),
                owner@.len() == n,
                forall|q: int| 0 <= q < k ==> (#[trigger] members(*plan, g as int)[q]) < n,
                forall|g1: int, k1: int, g2: int, k2: int|
                    0 <= g1 < g && 0 <= g2 < g && 0 <= k1 < members(*plan, g1).len() && 0 <= k2 < members(*plan, g2).len()
                        && (g1 != g2 || k1 != k2) ==> #[trigger] members(*plan, g1)[k1] != #[trigger] members(*plan, g2)[k2],
                forall|g1: int, k1: int, k2: int|
                    0 <= g1 < g && 0 <= k1 < members(*plan, g1).len() && 0 <= k2 < k ==> #[trigger] members(*plan, g1)[k1]
                        != #[trigger] members(*plan, g as int)[k2],
                forall|k1: int, k2: int| 0 <= k1 < k2 < k ==> #[trigger] members(*plan, g as int)[k1] != #[trigger] members(*plan, g as int)[k2],
                forall|a: int, h: int|
                    0 <= a < n && 0 <= h < g ==> (#[trigger] owner@[a] == Some(h as usize) <==> #[trigger] in_group(*plan, h, a)),
                forall|a: int|
                    0 <= a < n ==> (#[trigger] owner@[a] == Some(g) <==> exists|q: int| 0 <= q < k && members(*plan, g as int)[q] == a),
                forall|a: int| 0 <= a < n && (#[trigger] owner@[a]) is Some ==> owner@[a]->0 <= g,
            decreases members(*plan, g as int).len() - k,
        {
            let m = group.members[k];
            if m >= n {
                proof {
                    assert(!group_well_formed(*plan, g as int));
                }
                return None;
            }
            if owner[m].is_some() {
                proof {
                    let h = owner@[m as int]->0 as int;
                    if h < g {
                        assert(in_group(*plan, h, m as int));
                        let q = choose|q: int| 0 <= q < members(*plan, h).len() && members(*plan, h)[q] == m;
                        assert(members(*plan, h)[q] == members(*plan, g as int)[k as int]);
                    } else {
                        let q = choose|q: int| 0 <= q < k && members(*plan, g as int)[q] == m;
                        assert(members(*plan, g as int)[q] == members(*plan, g as int)[k as int]);
                    }
                    assert(!membership_unique(*plan));
                }
                return None;
            }
            let ghost before = owner@;
            owner.set(m, Some(g));
            proof {
                assert forall|a: int, h: int|
                    0 <= a < n && 0 <= h < g implies (#[trigger] owner@[a] == Some(h as usize) <==> #[trigger] in_group(*plan, h, a)) by {
                    if a == m {
                        assert(before[a] is None);
                        if in_group(*plan, h, a) {
                            let q = choose|q: int| 0 <= q < members(*plan, h).len() && members(*plan, h)[q] == a;
                            assert(members(*plan, h)[q] != members(*plan, g as int)[k as int]);
                        }
                    }
                }
                assert forall|a: int|
                    0 <= a < n implies (#[trigger] owner@[a] == Some(g) <==> exists|q: int| 0 <= q < k + 1 && members(*plan, g as int)[q] == a) by {
                    if a == m {
                        assert(members(*plan, g as int)[k as int] == a);
                    } else {
                        if exists|q: int| 0 <= q < k + 1 && members(*plan, g as int)[q] == a {
                            let q = choose|q: int| 0 <= q < k + 1 && members(*plan, g as int)[q] == a;
                            assert(q != k);
                        }
                    }
                }
                assert forall|g1: int, k1: int, k2: int|
                    0 <= g1 < g && 0 <= k1 < members(*plan, g1).len() && 0 <= k2 < k + 1 implies #[trigger] members(*plan, g1)[k1]
                        != #[trigger] members(*plan, g as int)[k2] by {
                    if k2 == k && members(*plan, g1)[k1] == m {
                        assert(in_group(*plan, g1, m as int));
                        assert(before[m as int] == Some(g1 as usize));
                    }
                }
                assert forall|k1: int, k2: int| 0 <= k1 < k2 < k + 1 implies #[trigger] members(*plan, g as int)[k1] != #[trigger] members(*plan, g as int)[k2] by {
                    if k2 == k && members(*plan, g as int)[k1] == m {
                        assert(before[m as int] == Some(g));
                    }
                }
            }
            k = k + 1;
        }
        let mut b: usize = 0;
        while b < group.loop_branches.len()
            invariant
                g < plan.choice_groups@.len(),
                group == plan.choice_groups@[g as int],
                b <= loops(*plan, g as int).len(),
                forall|q: int| 0 <= q < b ==> (#[trigger] loops(*plan, g as int)[q]) < members(*plan, g as int).len(),
            decreases loops(*plan, g as int).len() - b,
        {
            if group.loop_branches[b] >= group.members.len() {
                proof {
                    assert(!group_well_formed(*plan, g as int));
                }
                return None;
            }
            b = b + 1;
        }
        proof {
            assert(group_well_formed(*plan, g as int));
            assert forall|a: int, h: int|
                0 <= a < n && 0 <= h < g + 1 implies (#[trigger] owner@[a] == Some(h as usize) <==> #[trigger] in_group(*plan, h, a)) by {
                if h == g {
                    if in_group(*plan, h, a) {
                        let q = choose|q: int| 0 <= q < members(*plan, h).len() && members(*plan, h)[q] == a;
                        assert(exists|q2: int| 0 <= q2 < k && members(*plan, g as int)[q2] == a);
                    }
                }
            }
        }
        g = g + 1;
    }
    proof {
        assert forall|a: int| 0 <= a < n implies (owner@[a] is None <==> !grouped(*plan, a)) by {
            if owner@[a] is Some {
                let h = owner@[a]->0 as int;
                assert(owner@[a] == Some(h as usize));
                assert(in_group(*plan, h, a));
            }
            if grouped(*plan, a) {
                let h = choose|h: int| 0 <= h < plan.choice_groups@.len() && #[trigger] in_group(*plan, h, a);
                assert(owner@[a] == Some(h as usize));
            }
        }
    }
    Some(owner)
}

/// Whether some declared precedence pair invents order.
pub(crate) fn some_pair_invents_order(plan: &Plan, owner: &Vec<Option<usize>>) -> (res: bool)
    requires
        !groups_invent_order(*plan),
        owner@.len() == n_actions(*plan),
        forall|a: int, g: int|
            0 <= a < n_actions(*plan) && 0 <= g < plan.choice_groups@.len() ==> (#[trigger] owner@[a] == Some(g as usize)
                <==> #[trigger] in_group(*plan, g, a)),
        forall|a: int| 0 <= a < n_actions(*plan) ==> (owner@[a] is None <==> !grouped(*plan, a)),
    ensures
        res == precedes_invent_order(*plan),
{
    let n = plan.actions.len();
    let mut k: usize = 0;
    while k < plan.precedes.len()
        invariant
            n == n_actions(*plan),
            k <= plan.precedes@.len(),
            owner@.len() == n,
            forall|a: int, g: int|
                0 <= a < n && 0 <= g < plan.choice_groups@.len() ==> (#[trigger] owner@[a] == Some(g as usize) <==> #[trigger] in_group(*plan, g, a)),
            forall|a: int| 0 <= a < n ==> (owner@[a] is None <==> !grouped(*plan, a)),
            forall|q: int| 0 <= q < k ==> !pair_invents_order(*plan, #[trigger] plan.precedes@[q]),
        decreases plan.precedes@.len() - k,
    {
        let (i, j) = plan.precedes[k];
        if i >= n || j >= n || i == j {
            proof {
                assert(pair_invents_order(*plan, plan.precedes@[k as int]));
            }
            return true;
        }
        let same = match (owner[i], owner[j]) {
            (Some(gi), Some(gj)) => gi == gj,
            _ => false,
        };
        if same {
            proof {
                assert(owner@[i as int] is Some);
                assert(grouped(*plan, i as int));
                let h = choose|h: int| 0 <= h < plan.choice_groups@.len() && #[trigger] in_group(*plan, h, i as int);
                assert(owner@[i as int] == Some(h as usize) <==> in_group(*plan, h, i as int));
                assert(owner@[i as int] == Some(h as usize));
                assert(owner@[j as int] == Some(h as usize) <==> in_group(*plan, h, j as int));
                assert(owner@[j as int] == owner@[i as int]);
                assert(in_group(*plan, h, j as int));
                assert(pair_invents_order(*plan, plan.precedes@[k as int]));
            }
            return true;
        }
        proof {
            if exists|g: int| 0 <= g < plan.choice_groups@.len() && #[trigger] in_group(*plan, g, i as int) && in_group(*plan, g, j as int) {
                let g = choose|g: int| 0 <= g < plan.choice_groups@.len() && #[trigger] in_group(*plan, g, i as int) && in_group(*plan, g, j as int);
                assert(owner@[i as int] == Some(g as usize));
                assert(owner@[j as int] == Some(g as usize));
            }
            assert(!pair_invents_order(*plan, plan.precedes@[k as int]));
        }
        k = k + 1;
    }
    false
}

/// Whether the sorted pair list holds some pair in both directions.
pub(crate) fn has_contradiction(list: &Vec<(usize, usize)>) -> (res: bool)
    ensures
        res == contradicts(pair_set(list@)),
{
    let mut k: usize = 0;
    while k < list.len()
        invariant
            k <= list@.len(),
            forall|q: int| 0 <= q < k ==> !pair_set(list@).contains(((#[trigger] list@[q]).1 as int, list@[q].0 as int)),
        decreases list@.len() - k,
    {
        let (a, b) = list[k];
        if contains_pair(list, b, a) {
            proof {
                assert(pair_set(list@).contains((a as int, b as int)));
            }
            return true;
        }
        k = k + 1;
    }
    proof {
        assert forall|a: int, b: int| #[trigger] pair_set(list@).contains((a, b)) implies !#[trigger] pair_set(list@).contains((b, a)) by {
            let q = choose|q: int| 0 <= q < list@.len() && list@[q].0 == a && list@[q].1 == b;
            assert(!pair_set(list@).contains(((list@[q]).1 as int, list@[q].0 as int)));
        }
    }
    false
}

} // verus!
