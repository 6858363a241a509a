//! Laws of the built geometry: every action of the plan becomes exactly one leaf, never
//! invented or lost, and a model that the pipeline builds always passes the shape
//! validator.

use vstd::prelude::*;
use vstd::set_lib::{set_int_range, lemma_int_range, lemma_len_subset, lemma_set_disjoint_lens};
use crate::geometry::{
    unit_node, phase_node, choice_node, leaf_of, expected_refusal, model_of, LoopBound, POWLModel, cyclic, group_unit_of,
    has_entry_for, entry_unit,
};
use crate::powl::{
    Powl, SocketKind, kind_of, sockets_of, forest_sockets, node_at, edge_views, lemma_edges_one_fewer, socket_view, pview,
    forest_view, lemma_forest_view,
};
use crate::relation::lemma_sorted_pairs_unique;
use crate::shape::{count_kind, shape_violated, cyclic_choice_at, has_bound};
use crate::plan::{Plan, n_actions, members, in_group, grouped, groups_invent_order, group_well_formed, membership_unique};
use crate::grouping::{
    ungrouped, prev_ungrouped, phase_start, last_phase_start, phase_members_upto, group_of, group_leader_of,
    group_leader, leader, leader_count, leader_of, unit_members, unit_count, lemma_last_phase_start,
    lemma_group_leader_member, lemma_leader_count_nonneg, lemma_leader_count_mono,
};

verus! {

/// A grouped action's group is the one it is a member of.
pub proof fn lemma_group_of_unique(plan: Plan, g: int, a: int)
    requires
        !groups_invent_order(plan),
        0 <= g < plan.choice_groups@.len(),
        in_group(plan, g, a),
    ensures
        group_of(plan, a) == g,
        grouped(plan, a),
{
    assert(grouped(plan, a));
    let h = group_of(plan, a);
    assert(0 <= h < plan.choice_groups@.len() && in_group(plan, h, a));
    if h != g {
        let k1 = choose|k: int| 0 <= k < members(plan, g).len() && members(plan, g)[k] == a;
        let k2 = choose|k: int| 0 <= k < members(plan, h).len() && members(plan, h)[k] == a;
        assert(membership_unique(plan));
        assert(members(plan, g)[k1] != members(plan, h)[k2]);
    }
}

/// The leader of a group is a grouped action that leads that group.
pub proof fn lemma_group_leader_facts(plan: Plan, g: int)
    requires
        !groups_invent_order(plan),
        0 <= g < plan.choice_groups@.len(),
    ensures
        in_group(plan, g, group_leader_of(plan, g)),
        0 <= group_leader_of(plan, g) < n_actions(plan),
        group_of(plan, group_leader_of(plan, g)) == g,
        group_leader(plan, group_leader_of(plan, g)),
        leader(plan, group_leader_of(plan, g)),
        !phase_start(plan, group_leader_of(plan, g)),
        forall|q: int| 0 <= q < members(plan, g).len() ==> group_leader_of(plan, g) <= #[trigger] members(plan, g)[q],
{
    assert(group_well_formed(plan, g));
    lemma_group_leader_member(plan, g);
    let m = group_leader_of(plan, g);
    let q = choose|q: int| 0 <= q < members(plan, g).len() && members(plan, g)[q] == m;
    assert(members(plan, g)[q] < n_actions(plan));
    lemma_group_of_unique(plan, g, m);
}

/// Every action's leader is a leader at or before it.
pub proof fn lemma_leader_of(plan: Plan, a: int)
    requires
        !groups_invent_order(plan),
        0 <= a < n_actions(plan),
    ensures
        0 <= leader_of(plan, a) <= a,
        leader(plan, leader_of(plan, a)),
        grouped(plan, a) <==> grouped(plan, leader_of(plan, a)),
{
    if grouped(plan, a) {
        let g = group_of(plan, a);
        assert(0 <= g < plan.choice_groups@.len() && in_group(plan, g, a));
        lemma_group_leader_facts(plan, g);
        let k = choose|k: int| 0 <= k < members(plan, g).len() && members(plan, g)[k] == a;
        assert(group_leader_of(plan, g) <= members(plan, g)[k]);
    } else {
        lemma_last_phase_start(plan, a + 1);
        assert(ungrouped(plan, a));
        assert(prev_ungrouped(plan, a + 1) == a);
    }
}

/// The actions of the phase that `l` opens, below `k`, are exactly the ungrouped actions
/// below `k` whose phase opens at `l`, in increasing order.
pub proof fn lemma_phase_members(plan: Plan, l: int, k: int)
    requires
        0 <= k <= n_actions(plan),
    ensures
        forall|x: usize| #[trigger] phase_members_upto(plan, l, k).contains(x) <==> (x < k && ungrouped(plan, x as int)
            && last_phase_start(plan, x + 1) == l),
        forall|i: int, j: int|
            0 <= i < j < phase_members_upto(plan, l, k).len() ==> #[trigger] phase_members_upto(plan, l, k)[i]
                < #[trigger] phase_members_upto(plan, l, k)[j],
        forall|i: int| 0 <= i < phase_members_upto(plan, l, k).len() ==> #[trigger] phase_members_upto(plan, l, k)[i] < k,
    decreases k,
{
    if k > 0 {
        assert(plan.actions@.len() == plan.actions.len());
        lemma_phase_members(plan, l, k - 1);
        let s = phase_members_upto(plan, l, k - 1);
        if ungrouped(plan, k - 1) && last_phase_start(plan, k) == l {
            let t = s.push((k - 1) as usize);
            assert(phase_members_upto(plan, l, k) == t);
            assert(((k - 1) as usize) as int == k - 1);
            assert forall|i: int, j: int| 0 <= i < j < t.len() implies #[trigger] t[i] < #[trigger] t[j] by {
                if j == s.len() {
                    assert(t[i] == s[i]);
                    assert(s[i] < k - 1);
                } else {
                    assert(t[i] == s[i] && t[j] == s[j]);
                }
            }
            assert forall|x: usize| #[trigger] t.contains(x) <==> (x < k && ungrouped(plan, x as int) && last_phase_start(
                plan,
                x + 1,
            ) == l) by {
                if t.contains(x) && x != k - 1 {
                    let i = choose|i: int| 0 <= i < t.len() && t[i] == x;
                    assert(t[s.len() as int] == (k - 1) as usize);
                    assert(i < s.len());
                    assert(t[i] == s[i]);
                    assert(s[i] == x);
                    assert(s.contains(x));
                }
                if x < k && ungrouped(plan, x as int) && last_phase_start(plan, x + 1) == l {
                    if x == k - 1 {
                        assert(t[t.len() - 1] == x);
                    } else {
                        assert(s.contains(x));
                        let i = choose|i: int| 0 <= i < s.len() && s[i] == x;
                        assert(t[i] == x);
                    }
                }
            }
        } else {
            assert(phase_members_upto(plan, l, k) == s);
        }
    }
}


/// The actions whose unit leader `l` leads.
pub open spec fn led_by(plan: Plan, l: int) -> Set<int> {
    Set::new(|a: int| 0 <= a < n_actions(plan) && leader_of(plan, a) == l)
}

/// A list of indices as integers.
pub open spec fn as_ints(s: Seq<usize>) -> Seq<int> {
    s.map_values(|x: usize| x as int)
}

/// The actions of a unit are exactly the actions it leads, each once.
pub proof fn lemma_unit_members_set(plan: Plan, l: int)
    requires
        !groups_invent_order(plan),
        0 <= l < n_actions(plan),
        leader(plan, l),
    ensures
        as_ints(unit_members(plan, l)).no_duplicates(),
        as_ints(unit_members(plan, l)).to_set() == led_by(plan, l),
{
    let n = n_actions(plan);
    let um = unit_members(plan, l);
    let ms = as_ints(um);
    assert(plan.actions@.len() == plan.actions.len());
    if phase_start(plan, l) {
        lemma_phase_members(plan, l, n);
        assert(um == phase_members_upto(plan, l, n));
        assert forall|i: int, j: int| 0 <= i < ms.len() && 0 <= j < ms.len() && i != j implies ms[i] != ms[j] by {
            if i < j {
                assert(um[i] < um[j]);
            } else {
                assert(um[j] < um[i]);
            }
        }
        assert forall|a: int| ms.to_set().contains(a) <==> led_by(plan, l).contains(a) by {
            if ms.to_set().contains(a) {
                assert(ms.contains(a));
                let i = choose|i: int| 0 <= i < ms.len() && ms[i] == a;
                let x = um[i];
                assert(um.contains(x));
                assert(x < n && ungrouped(plan, x as int) && last_phase_start(plan, x + 1) == l);
                assert(leader_of(plan, a) == l);
            }
            if led_by(plan, l).contains(a) {
                lemma_leader_of(plan, a);
                if grouped(plan, a) {
                    assert(grouped(plan, l));
                    assert(false);
                }
                let x = a as usize;
                assert(x as int == a);
                assert(um.contains(x));
                let i = choose|i: int| 0 <= i < um.len() && um[i] == x;
                assert(ms[i] == a);
                assert(ms.contains(a));
            }
        }
    } else {
        assert(group_leader(plan, l));
        let g = group_of(plan, l);
        assert(0 <= g < plan.choice_groups@.len() && in_group(plan, g, l));
        assert(l == group_leader_of(plan, g));
        assert(um == members(plan, g));
        assert(group_well_formed(plan, g));
        assert(membership_unique(plan));
        assert forall|i: int, j: int| 0 <= i < ms.len() && 0 <= j < ms.len() && i != j implies ms[i] != ms[j] by {
            assert(members(plan, g)[i] != members(plan, g)[j]);
        }
        assert forall|a: int| ms.to_set().contains(a) <==> led_by(plan, l).contains(a) by {
            if ms.to_set().contains(a) {
                assert(ms.contains(a));
                let i = choose|i: int| 0 <= i < ms.len() && ms[i] == a;
                assert(members(plan, g)[i] < n);
                assert(in_group(plan, g, a));
                lemma_group_of_unique(plan, g, a);
            }
            if led_by(plan, l).contains(a) {
                lemma_leader_of(plan, a);
                if !grouped(plan, a) {
                    lemma_last_phase_start(plan, a + 1);
                    assert(prev_ungrouped(plan, a + 1) == a);
                    assert(phase_start(plan, l));
                    assert(false);
                }
                let h = group_of(plan, a);
                assert(0 <= h < plan.choice_groups@.len() && in_group(plan, h, a));
                lemma_group_leader_facts(plan, h);
                assert(group_leader_of(plan, h) == l);
                lemma_group_of_unique(plan, h, l);
                assert(h == g);
                let i = choose|i: int| 0 <= i < members(plan, g).len() && members(plan, g)[i] == a;
                assert(ms[i] == a);
                assert(ms.contains(a));
            }
        }
    }
    assert(ms.to_set() =~= led_by(plan, l));
}


/// The actions whose leader is at or after `j`.
pub open spec fn led_from(plan: Plan, j: int) -> Set<int> {
    Set::new(|a: int| 0 <= a < n_actions(plan) && leader_of(plan, a) >= j)
}

/// The actions of the units whose leaders lie in `j..n`, counted unit by unit.
pub open spec fn leaves_from(plan: Plan, j: int) -> int
    decreases n_actions(plan) - j,
{
    if j >= n_actions(plan) || j < 0 {
        0
    } else {
        leaves_from(plan, j + 1) + if leader(plan, j) {
            unit_members(plan, j).len() as int
        } else {
            0int
        }
    }
}

/// Counting the units' actions from leader `j` on counts each action led from `j` on once.
pub proof fn lemma_leaves_from(plan: Plan, j: int)
    requires
        !groups_invent_order(plan),
        0 <= j <= n_actions(plan),
    ensures
        led_from(plan, j).finite(),
        led_from(plan, j).len() == leaves_from(plan, j),
    decreases n_actions(plan) - j,
{
    let n = n_actions(plan);
    lemma_int_range(0, n);
    assert(led_from(plan, j).subset_of(set_int_range(0, n)));
    lemma_len_subset(led_from(plan, j), set_int_range(0, n));
    if j == n {
        assert forall|a: int| !led_from(plan, j).contains(a) by {
            if 0 <= a < n {
                lemma_leader_of(plan, a);
            }
        }
        assert(led_from(plan, j) =~= Set::<int>::empty());
    } else {
        lemma_leaves_from(plan, j + 1);
        assert(led_by(plan, j).subset_of(set_int_range(0, n)));
        lemma_len_subset(led_by(plan, j), set_int_range(0, n));
        assert(led_from(plan, j) =~= led_from(plan, j + 1) + led_by(plan, j));
        assert(led_from(plan, j + 1).disjoint(led_by(plan, j)));
        lemma_set_disjoint_lens(led_from(plan, j + 1), led_by(plan, j));
        if leader(plan, j) {
            lemma_unit_members_set(plan, j);
            as_ints(unit_members(plan, j)).unique_seq_to_set();
        } else {
            assert forall|a: int| !led_by(plan, j).contains(a) by {
                if 0 <= a < n {
                    lemma_leader_of(plan, a);
                }
            }
            assert(led_by(plan, j) =~= Set::<int>::empty());
        }
    }
}

/// The units hold, together, exactly as many actions as the plan has.
pub proof fn lemma_units_partition_actions(plan: Plan)
    requires
        !groups_invent_order(plan),
    ensures
        leaves_from(plan, 0) == n_actions(plan),
{
    let n = n_actions(plan);
    lemma_leaves_from(plan, 0);
    assert forall|a: int| led_from(plan, 0).contains(a) <==> set_int_range(0, n).contains(a) by {
        if 0 <= a < n {
            lemma_leader_of(plan, a);
        }
    }
    assert(led_from(plan, 0) =~= set_int_range(0, n));
    lemma_int_range(0, n);
}

/// Every unit has a leader.
pub proof fn lemma_unit_has_leader(plan: Plan, k: int, u: int)
    requires
        0 <= k,
        0 <= u < leader_count(plan, k),
    ensures
        exists|l: int| 0 <= l < k && leader(plan, l) && #[trigger] leader_count(plan, l) == u,
    decreases k,
{
    lemma_leader_count_nonneg(plan, k - 1);
    if u < leader_count(plan, k - 1) {
        lemma_unit_has_leader(plan, k - 1, u);
        let l = choose|l: int| 0 <= l < k - 1 && leader(plan, l) && #[trigger] leader_count(plan, l) == u;
    } else {
        assert(leader(plan, k - 1) && leader_count(plan, k - 1) == u);
    }
}


/// Counting a kind over a concatenation adds the counts.
pub proof fn lemma_count_kind_concat(a: Seq<(Seq<usize>, SocketKind)>, b: Seq<(Seq<usize>, SocketKind)>, k: SocketKind)
    ensures
        count_kind(a + b, k) == count_kind(a, k) + count_kind(b, k),
    decreases b.len(),
{
    if b.len() == 0 {
        assert(a + b =~= a);
    } else {
        lemma_count_kind_concat(a, b.drop_last(), k);
        assert((a + b).drop_last() =~= a + b.drop_last());
        assert((a + b).last() == b.last());
    }
}

/// Counting a kind over one socket.
pub proof fn lemma_count_kind_single(x: (Seq<usize>, SocketKind), k: SocketKind)
    ensures
        count_kind(seq![x], k) == if x.1 == k {
            1int
        } else {
            0int
        },
{
    assert(seq![x].drop_last() =~= Seq::<(Seq<usize>, SocketKind)>::empty());
    assert(count_kind(Seq::<(Seq<usize>, SocketKind)>::empty(), k) == 0);
}

/// A forest of leaves has one leaf socket per tree.
pub proof fn lemma_leaf_forest(cs: Seq<Powl>, p: Seq<usize>, i: int)
    requires
        0 <= i <= cs.len(),
        forall|q: int| i <= q < cs.len() ==> (#[trigger] cs[q]) is Leaf,
    ensures
        count_kind(forest_sockets(cs, p, i), SocketKind::Leaf) == cs.len() - i,
    decreases cs.len() - i,
{
    if i < cs.len() {
        lemma_leaf_forest(cs, p, i + 1);
        let head = sockets_of(cs[i], p.push(i as usize));
        assert(head =~= seq![(p.push(i as usize), SocketKind::Leaf)]);
        lemma_count_kind_single((p.push(i as usize), SocketKind::Leaf), SocketKind::Leaf);
        lemma_count_kind_concat(head, forest_sockets(cs, p, i + 1), SocketKind::Leaf);
    } else {
        assert(forest_sockets(cs, p, i) =~= Seq::<(Seq<usize>, SocketKind)>::empty());
    }
}

/// The node of a unit has one leaf socket per action of the unit.
pub proof fn lemma_unit_leaves(plan: Plan, node: Powl, l: int, p: Seq<usize>)
    requires
        unit_node(plan, node, l),
        phase_start(plan, l) ==> unit_members(plan, l).len() >= 1,
    ensures
        count_kind(sockets_of(node, p), SocketKind::Leaf) == unit_members(plan, l).len(),
{
    reveal(phase_node);
    reveal(choice_node);
    let head = seq![(p, kind_of(node))];
    lemma_count_kind_single((p, kind_of(node)), SocketKind::Leaf);
    match node {
        Powl::Leaf(_) => {
            assert(sockets_of(node, p) =~= head);
        },
        Powl::PartialOrder { children, .. } => {
            assert forall|q: int| 0 <= q < children@.len() implies (#[trigger] children@[q]) is Leaf by {}
            lemma_leaf_forest(children@, p, 0);
            lemma_count_kind_concat(head, forest_sockets(children@, p, 0), SocketKind::Leaf);
        },
        Powl::Choice { children, .. } => {
            assert forall|q: int| 0 <= q < children@.len() implies (#[trigger] children@[q]) is Leaf by {}
            lemma_leaf_forest(children@, p, 0);
            lemma_count_kind_concat(head, forest_sockets(children@, p, 0), SocketKind::Leaf);
        },
        Powl::ExternalCut { .. } => {},
    }
}


/// Counting the leaves of the units from leader `j` on.
pub proof fn lemma_forest_leaves(plan: Plan, cs: Seq<Powl>, j: int)
    requires
        !groups_invent_order(plan),
        cs.len() == unit_count(plan),
        forall|l: int| 0 <= l < n_actions(plan) && #[trigger] leader(plan, l) ==> unit_node(plan, cs[leader_count(plan, l)], l),
        0 <= j <= n_actions(plan),
    ensures
        count_kind(forest_sockets(cs, Seq::empty(), leader_count(plan, j)), SocketKind::Leaf) == leaves_from(plan, j),
    decreases n_actions(plan) - j,
{
    let n = n_actions(plan);
    lemma_leader_count_nonneg(plan, j);
    if j == n {
        assert(forest_sockets(cs, Seq::empty(), leader_count(plan, j)) =~= Seq::<(Seq<usize>, SocketKind)>::empty());
        assert(count_kind(Seq::<(Seq<usize>, SocketKind)>::empty(), SocketKind::Leaf) == 0);
    } else {
        lemma_forest_leaves(plan, cs, j + 1);
        if leader(plan, j) {
            let u = leader_count(plan, j);
            lemma_leader_count_mono(plan, j, n);
            assert(leader_count(plan, j + 1) == u + 1);
            let head = sockets_of(cs[u], Seq::<usize>::empty().push(u as usize));
            assert(forest_sockets(cs, Seq::empty(), u) == head + forest_sockets(cs, Seq::empty(), u + 1));
            lemma_count_kind_concat(head, forest_sockets(cs, Seq::empty(), u + 1), SocketKind::Leaf);
            if phase_start(plan, j) {
                assert(plan.actions@.len() == plan.actions.len());
                lemma_phase_members(plan, j, n);
                lemma_last_phase_start(plan, j + 1);
                assert(phase_members_upto(plan, j, n).contains(j as usize));
            }
            lemma_unit_leaves(plan, cs[u], j, Seq::<usize>::empty().push(u as usize));
        } else {
            assert(leader_count(plan, j + 1) == leader_count(plan, j));
        }
    }
}

/// Every action of a plan that builds becomes exactly one leaf of its model: the model
/// has as many leaf sockets as the plan has actions.
pub proof fn lemma_every_action_one_leaf(plan: Plan, bounds: Map<usize, LoopBound>, m: POWLModel)
    requires
        expected_refusal(plan, bounds) is None,
        model_of(plan, bounds, m),
    ensures
        count_kind(sockets_of(m.root, Seq::empty()), SocketKind::Leaf) == n_actions(plan),
{
    match m.root {
        Powl::PartialOrder { children, .. } => {
            lemma_forest_leaves(plan, children@, 0);
            lemma_units_partition_actions(plan);
            let head = seq![(Seq::<usize>::empty(), SocketKind::PartialOrder)];
            lemma_count_kind_single((Seq::<usize>::empty(), SocketKind::PartialOrder), SocketKind::Leaf);
            lemma_count_kind_concat(head, forest_sockets(children@, Seq::empty(), 0), SocketKind::Leaf);
            assert(leader_count(plan, 0) == 0);
        },
        _ => {},
    }
}

/// In a built model, a choice sits only directly under the root, as a unit.
pub proof fn lemma_choice_only_at_units(plan: Plan, bounds: Map<usize, LoopBound>, m: POWLModel, path: Seq<usize>)
    requires
        expected_refusal(plan, bounds) is None,
        model_of(plan, bounds, m),
        node_at(m.root, path) matches Some(Powl::Choice { .. }),
    ensures
        m.root matches Powl::PartialOrder { children, .. } && path.len() == 1 && path[0] < children@.len() && node_at(
            m.root,
            path,
        ) == Some(children@[path[0] as int]),
{
    reveal(phase_node);
    reveal(choice_node);
    match m.root {
        Powl::PartialOrder { children, .. } => {
            assert(path.len() > 0);
            let u = path[0] as int;
            assert(u < children@.len());
            let rest = path.drop_first();
            assert(node_at(m.root, path) == node_at(children@[u], rest));
            if rest.len() == 0 {
                assert(node_at(children@[u], rest) == Some(children@[u]));
            } else {
                lemma_unit_has_leader(plan, n_actions(plan), u);
                let l = choose|l: int| 0 <= l < n_actions(plan) && leader(plan, l) && #[trigger] leader_count(plan, l) == u;
                assert(unit_node(plan, children@[u], l));
                match children@[u] {
                    Powl::PartialOrder { children: cs, .. } => {
                        if rest[0] < cs@.len() {
                            assert(cs@[rest[0] as int] is Leaf);
                            assert(node_at(children@[u], rest) == node_at(cs@[rest[0] as int], rest.drop_first()));
                            assert(node_at(cs@[rest[0] as int], rest.drop_first()) == if rest.drop_first().len() == 0 {
                                Some(cs@[rest[0] as int])
                            } else {
                                None::<Powl>
                            });
                        } else {
                            assert(node_at(children@[u], rest) is None);
                        }
                        assert(false);
                    },
                    Powl::Choice { children: cs, .. } => {
                        if rest[0] < cs@.len() {
                            assert(cs@[rest[0] as int] is Leaf);
                            assert(node_at(children@[u], rest) == node_at(cs@[rest[0] as int], rest.drop_first()));
                            assert(node_at(cs@[rest[0] as int], rest.drop_first()) == if rest.drop_first().len() == 0 {
                                Some(cs@[rest[0] as int])
                            } else {
                                None::<Powl>
                            });
                        } else {
                            assert(node_at(children@[u], rest) is None);
                        }
                        assert(false);
                    },
                    Powl::Leaf(_) => {
                        assert(node_at(children@[u], rest) is None);
                        assert(false);
                    },
                    Powl::ExternalCut { .. } => {
                        assert(false);
                    },
                }
            }
        },
        _ => {},
    }
}


/// A model the pipeline builds always passes the shape validator: its leaves are its
/// actions, its parent-child closure is a tree over its sockets, and every cyclic choice
/// carries a loop bound.
pub proof fn lemma_built_model_is_well_shaped(plan: Plan, bounds: Map<usize, LoopBound>, m: POWLModel)
    requires
        expected_refusal(plan, bounds) is None,
        model_of(plan, bounds, m),
    ensures
        !shape_violated(m),
{
    let socks = sockets_of(m.root, Seq::empty());
    lemma_every_action_one_leaf(plan, bounds, m);
    lemma_edges_one_fewer(m.root, Seq::empty());
    assert(m.closure.edges@.len() == edge_views(m.closure.edges@).len());
    assert forall|i: int| 0 <= i < socks.len() && cyclic_choice_at(m, #[trigger] socks[i]) implies has_bound(
        m.loop_bounds@,
        socks[i],
    ) by {
        let s = socks[i];
        lemma_choice_only_at_units(plan, bounds, m, s.0);
        match m.root {
            Powl::PartialOrder { children, .. } => {
                let u = s.0[0] as int;
                lemma_unit_has_leader(plan, n_actions(plan), u);
                let l = choose|l: int| 0 <= l < n_actions(plan) && leader(plan, l) && #[trigger] leader_count(plan, l) == u;
                assert(unit_node(plan, children@[u], l));
                reveal(phase_node);
                reveal(choice_node);
                assert(!phase_start(plan, l));
                assert(group_leader(plan, l));
                let g = group_of(plan, l);
                assert(0 <= g < plan.choice_groups@.len() && in_group(plan, g, l));
                assert(cyclic(plan, g));
                assert(group_unit_of(plan, g) == u);
                assert(has_entry_for(m.loop_bounds@, group_unit_of(plan, g)));
                let k = choose|k: int| 0 <= k < m.loop_bounds@.len() && entry_unit(#[trigger] m.loop_bounds@[k]) == group_unit_of(plan, g);
                let e = m.loop_bounds@[k];
                assert(e.0.kind == SocketKind::Choice && e.0.path.segments@.len() == 1);
                assert(e.0.path.segments@ =~= s.0);
                assert(socket_view(m.loop_bounds@[k].0) == s);
            },
            _ => {},
        }
    }
}


/// Two leaves of the same action are the same leaf.
proof fn lemma_leaf_view(plan: Plan, a: Powl, b: Powl, x: int)
    requires
        leaf_of(plan, a, x),
        leaf_of(plan, b, x),
    ensures
        pview(a) == pview(b),
{
}

/// Two lists of leaves of the same actions are the same list.
proof fn lemma_leaves_view(plan: Plan, a: Seq<Powl>, b: Seq<Powl>, xs: Seq<usize>)
    requires
        a.len() == xs.len(),
        b.len() == xs.len(),
        forall|k: int| 0 <= k < xs.len() ==> leaf_of(plan, #[trigger] a[k], xs[k] as int),
        forall|k: int| 0 <= k < xs.len() ==> leaf_of(plan, #[trigger] b[k], xs[k] as int),
    ensures
        forest_view(a, 0) == forest_view(b, 0),
{
    lemma_forest_view(a, 0);
    lemma_forest_view(b, 0);
    assert forall|k: int| 0 <= k < xs.len() implies forest_view(a, 0)[k] == forest_view(b, 0)[k] by {
        assert(leaf_of(plan, a[k], xs[k] as int));
        assert(leaf_of(plan, b[k], xs[k] as int));
        lemma_leaf_view(plan, a[k], b[k], xs[k] as int);
    }
    assert(forest_view(a, 0) =~= forest_view(b, 0));
}

/// A unit's node is determined by the plan.
proof fn lemma_unit_node_view(plan: Plan, a: Powl, b: Powl, l: int)
    requires
        unit_node(plan, a, l),
        unit_node(plan, b, l),
    ensures
        pview(a) == pview(b),
{
    reveal(phase_node);
    reveal(choice_node);
    if phase_start(plan, l) {
        let xs = unit_members(plan, l);
        if xs.len() == 1 {
            lemma_leaf_view(plan, a, b, xs[0] as int);
        } else {
            match (a, b) {
                (Powl::PartialOrder { children: ca, order: oa }, Powl::PartialOrder { children: cb, order: ob }) => {
                    lemma_leaves_view(plan, ca@, cb@, xs);
                    lemma_sorted_pairs_unique(oa@, ob@);
                },
                _ => {},
            }
        }
    } else {
        let g = group_of(plan, l);
        match (a, b) {
            (Powl::Choice { children: ca, graph: ga }, Powl::Choice { children: cb, graph: gb }) => {
                lemma_leaves_view(plan, ca@, cb@, members(plan, g));
            },
            _ => {},
        }
    }
}

/// The model is determined by the plan: two models of the same plan under the same
/// loop bounds have the same tree and come from the same number of actions.
pub proof fn lemma_model_determined(plan: Plan, bounds: Map<usize, LoopBound>, m1: POWLModel, m2: POWLModel)
    requires
        expected_refusal(plan, bounds) is None,
        model_of(plan, bounds, m1),
        model_of(plan, bounds, m2),
    ensures
        pview(m1.root) == pview(m2.root),
        m1.source_action_count == m2.source_action_count,
{
    match (m1.root, m2.root) {
        (Powl::PartialOrder { children: c1, order: o1 }, Powl::PartialOrder { children: c2, order: o2 }) => {
            lemma_sorted_pairs_unique(o1@, o2@);
            lemma_forest_view(c1@, 0);
            lemma_forest_view(c2@, 0);
            assert forall|u: int| 0 <= u < c1@.len() implies forest_view(c1@, 0)[u] == forest_view(c2@, 0)[u] by {
                lemma_unit_has_leader(plan, n_actions(plan), u);
                let l = choose|l: int| 0 <= l < n_actions(plan) && leader(plan, l) && #[trigger] leader_count(plan, l) == u;
                lemma_unit_node_view(plan, c1@[u], c2@[u], l);
            }
            assert(forest_view(c1@, 0) =~= forest_view(c2@, 0));
        },
        _ => {},
    }
}

} // verus!
