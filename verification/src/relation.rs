//! Finite binary relations over `0..n` and their transitive closure.
//!
//! A relation is handed over as a list of pairs; the closure comes back as the
//! lexicographically sorted list of its pairs, which is the iteration order of an
//! ordered set of pairs.

use vstd::prelude::*;

verus! {

/// The set of pairs a list of pairs denotes.
pub open spec fn pair_set(r: Seq<(usize, usize)>) -> Set<(int, int)> {
    Set::new(|p: (int, int)| exists|k: int| 0 <= k < r.len() && r[k].0 == p.0 && r[k].1 == p.1)
}

/// Every coordinate of every pair is below `n`.
pub open spec fn pairs_below(r: Seq<(usize, usize)>, n: int) -> bool {
    forall|k: int| 0 <= k < r.len() ==> (#[trigger] r[k]).0 < n && r[k].1 < n
}

/// `s` is a walk of at least one step along `r`.
pub open spec fn is_walk<A>(r: Set<(A, A)>, s: Seq<A>) -> bool {
    &&& s.len() >= 2
    &&& forall|i: int| 0 <= i < s.len() - 1 ==> #[trigger] walk_step(r, s, i)
}

/// The `i`-th step of `s` is an edge of `r`.
pub open spec fn walk_step<A>(r: Set<(A, A)>, s: Seq<A>, i: int) -> bool {
    r.contains((s[i], s[i + 1]))
}

/// `b` can be reached from `a` in one or more steps of `r`.
pub open spec fn reaches<A>(r: Set<(A, A)>, a: A, b: A) -> bool {
    exists|s: Seq<A>| #[trigger] is_walk(r, s) && s[0] == a && s.last() == b
}

/// The transitive closure of `r`, leaving out a pair `(a, a)` unless `r` itself holds it:
/// the pairs `(a, b)` with `a != b` reachable in one or more steps, plus `r`.
pub open spec fn closure_of(r: Set<(int, int)>) -> Set<(int, int)> {
    Set::new(|p: (int, int)| r.contains(p) || (p.0 != p.1 && reaches(r, p.0, p.1)))
}

/// Strict lexicographic order on pairs.
pub open spec fn pair_lt(x: (usize, usize), y: (usize, usize)) -> bool {
    x.0 < y.0 || (x.0 == y.0 && x.1 < y.1)
}

/// The list is strictly increasing in lexicographic order: the iteration order of an
/// ordered set, with no pair twice.
pub open spec fn sorted_pairs(s: Seq<(usize, usize)>) -> bool {
    forall|i: int, j: int| 0 <= i < j < s.len() ==> pair_lt(#[trigger] s[i], #[trigger] s[j])
}

/// A step of `r` is a walk.
pub proof fn lemma_step_reaches<A>(r: Set<(A, A)>, a: A, b: A)
    requires
        r.contains((a, b)),
    ensures
        reaches(r, a, b),
{
    let s = seq![a, b];
    assert(is_walk(r, s));
}

/// Walks compose.
pub proof fn lemma_reaches_trans<A>(r: Set<(A, A)>, a: A, b: A, c: A)
    requires
        reaches(r, a, b),
        reaches(r, b, c),
    ensures
        reaches(r, a, c),
{
    let s1 = choose|s: Seq<A>| #[trigger] is_walk(r, s) && s[0] == a && s.last() == b;
    let s2 = choose|s: Seq<A>| #[trigger] is_walk(r, s) && s[0] == b && s.last() == c;
    let t = s2.skip(1);
    let s = s1 + t;
    let n1 = s1.len() as int;
    assert forall|i: int| 0 <= i < s.len() - 1 implies #[trigger] walk_step(r, s, i) by {
        if i < n1 - 1 {
            assert(walk_step(r, s1, i));
            assert(s[i] == s1[i]);
            assert(s[i + 1] == s1[i + 1]);
        } else if i == n1 - 1 {
            assert(walk_step(r, s2, 0));
            assert(s[i] == s1[i]);
            assert(s[i + 1] == t[0]);
        } else {
            let k = i - n1 + 1;
            assert(walk_step(r, s2, k));
            assert(s[i] == t[i - n1]);
            assert(s[i + 1] == t[i + 1 - n1]);
        }
    }
    assert(is_walk(r, s));
    assert(s[0] == s1[0]);
    assert(s.last() == t.last());
}

/// Membership in the closure gives a walk.
pub proof fn lemma_closure_reaches(r: Set<(int, int)>, a: int, b: int)
    requires
        closure_of(r).contains((a, b)),
    ensures
        reaches(r, a, b),
{
    if r.contains((a, b)) {
        lemma_step_reaches(r, a, b);
    }
}

/// Number of `false` cells in a row.
pub open spec fn row_falses(row: Seq<bool>) -> nat
    decreases row.len(),
{
    if row.len() == 0 {
        0
    } else {
        row_falses(row.drop_last()) + if row.last() {
            0nat
        } else {
            1nat
        }
    }
}

/// Number of `false` cells in a matrix.
pub open spec fn mat_falses(m: Seq<Vec<bool>>) -> nat
    decreases m.len(),
{
    if m.len() == 0 {
        0
    } else {
        mat_falses(m.drop_last()) + row_falses(m.last()@)
    }
}

proof fn lemma_row_set(row: Seq<bool>, j: int)
    requires
        0 <= j < row.len(),
        !row[j],
    ensures
        row_falses(row.update(j, true)) + 1 == row_falses(row),
    decreases row.len(),
{
    let u = row.update(j, true);
    if j == row.len() - 1 {
        assert(u.drop_last() =~= row.drop_last());
    } else {
        assert(u.drop_last() =~= row.drop_last().update(j, true));
        lemma_row_set(row.drop_last(), j);
    }
}

proof fn lemma_mat_set(m: Seq<Vec<bool>>, i: int, j: int, new_row: Vec<bool>)
    requires
        0 <= i < m.len(),
        0 <= j < m[i]@.len(),
        !m[i]@[j],
        new_row@ == m[i]@.update(j, true),
    ensures
        mat_falses(m.update(i, new_row)) + 1 == mat_falses(m),
    decreases m.len(),
{
    let u = m.update(i, new_row);
    lemma_row_set(m[i]@, j);
    if i == m.len() - 1 {
        assert(u.drop_last() =~= m.drop_last());
    } else {
        assert(u.drop_last() =~= m.drop_last().update(i, new_row));
        lemma_mat_set(m.drop_last(), i, j, new_row);
    }
}

/// The matrix is `n` by `n`.
pub open spec fn square(m: Seq<Vec<bool>>, n: int) -> bool {
    &&& m.len() == n
    &&& forall|i: int| 0 <= i < n ==> (#[trigger] m[i])@.len() == n
}

/// The pairs a square matrix marks.
pub open spec fn marked(m: Seq<Vec<bool>>, a: int, b: int) -> bool {
    m[a]@[b]
}

/// The marked pairs are closed under composition, the diagonal aside.
pub open spec fn mat_closed(m: Seq<Vec<bool>>, n: int) -> bool {
    forall|a: int, b: int, d: int|
        0 <= a < n && 0 <= b < n && 0 <= d < n && #[trigger] marked(m, a, b) && #[trigger] marked(
            m,
            b,
            d,
        ) && a != d ==> marked(m, a, d)
}

/// Along a walk from `s[0]`, every node `s[k]` is `s[0]` itself or marked from it.
proof fn lemma_walk_marked(m: Seq<Vec<bool>>, n: int, r: Set<(int, int)>, s: Seq<int>, k: int)
    requires
        square(m, n),
        mat_closed(m, n),
        forall|x: int, y: int| #[trigger] r.contains((x, y)) ==> 0 <= x < n && 0 <= y < n && marked(m, x, y),
        is_walk(r, s),
        1 <= k < s.len(),
    ensures
        0 <= s[0] < n,
        0 <= s[k] < n,
        s[0] == s[k] || marked(m, s[0], s[k]),
    decreases k,
{
    assert(walk_step(r, s, 0));
    if k > 1 {
        lemma_walk_marked(m, n, r, s, k - 1);
        assert(walk_step(r, s, k - 1));
        if s[0] != s[k] && s[0] != s[k - 1] {
            assert(marked(m, s[0], s[k - 1]) && marked(m, s[k - 1], s[k]));
        }
    }
}

/// A closed matrix that marks `r` marks all of `closure_of(r)`.
proof fn lemma_closed_covers(m: Seq<Vec<bool>>, n: int, r: Set<(int, int)>, a: int, b: int)
    requires
        square(m, n),
        mat_closed(m, n),
        forall|x: int, y: int| #[trigger] r.contains((x, y)) ==> 0 <= x < n && 0 <= y < n && marked(m, x, y),
        closure_of(r).contains((a, b)),
    ensures
        0 <= a < n && 0 <= b < n && marked(m, a, b),
{
    if !r.contains((a, b)) {
        let s = choose|s: Seq<int>| #[trigger] is_walk(r, s) && s[0] == a && s.last() == b;
        lemma_walk_marked(m, n, r, s, s.len() - 1);
    }
}

/// Pushing a pair adds it to the denoted set.
pub proof fn lemma_pair_set_push(s: Seq<(usize, usize)>, p: (usize, usize))
    ensures
        pair_set(s.push(p)) == pair_set(s).insert((p.0 as int, p.1 as int)),
{
    let t = s.push(p);
    assert forall|q: (int, int)| pair_set(t).contains(q) <==> pair_set(s).insert((p.0 as int, p.1 as int)).contains(q) by {
        if pair_set(s).contains(q) {
            let k = choose|k: int| 0 <= k < s.len() && s[k].0 == q.0 && s[k].1 == q.1;
            assert(t[k] == s[k]);
        }
        if q == (p.0 as int, p.1 as int) {
            assert(t[s.len() as int] == p);
        }
        if pair_set(t).contains(q) {
            let k = choose|k: int| 0 <= k < t.len() && t[k].0 == q.0 && t[k].1 == q.1;
            if k < s.len() {
                assert(t[k] == s[k]);
            }
        }
    }
    assert(pair_set(t) =~= pair_set(s).insert((p.0 as int, p.1 as int)));
}

/// Every pair of `r` lies in `0..n` and is marked.
#[verifier::opaque]
spec fn covers(m: Seq<Vec<bool>>, n: int, r: Set<(int, int)>) -> bool {
    forall|x: int, y: int| #[trigger] r.contains((x, y)) ==> 0 <= x < n && 0 <= y < n && marked(m, x, y)
}

/// Every marked pair is in the closure of `r`.
#[verifier::opaque]
spec fn sound(m: Seq<Vec<bool>>, n: int, r: Set<(int, int)>) -> bool {
    forall|x: int, y: int| 0 <= x < n && 0 <= y < n && #[trigger] marked(m, x, y) ==> closure_of(r).contains((x, y))
}

/// Marks `(a, d)`, leaving every other cell as it was.
fn set_mark(m: &mut Vec<Vec<bool>>, n: usize, a: usize, d: usize)
    requires
        square(old(m)@, n as int),
        a < n,
        d < n,
    ensures
        square(final(m)@, n as int),
        forall|x: int, y: int| 0 <= x < n && 0 <= y < n ==> (#[trigger] marked(final(m)@, x, y) <==> marked(old(m)@, x, y) || (x == a && y == d)),
        !marked(old(m)@, a as int, d as int) ==> mat_falses(final(m)@) + 1 == mat_falses(old(m)@),
{
    let ghost before = m@;
    m[a].set(d, true);
    proof {
        assert(m@ == before.update(a as int, m@[a as int]));
        if !marked(before, a as int, d as int) {
            lemma_mat_set(before, a as int, d as int, m@[a as int]);
        }
    }
}

/// With `(a, b)` marked, marks every `(a, d)` with `(b, d)` marked and `a != d`.
fn extend_through(m: &mut Vec<Vec<bool>>, n: usize, a: usize, b: usize, Ghost(r): Ghost<Set<(int, int)>>) -> (added: bool)
    requires
        square(old(m)@, n as int),
        a < n,
        b < n,
        marked(old(m)@, a as int, b as int),
        covers(old(m)@, n as int, r),
        sound(old(m)@, n as int, r),
    ensures
        square(final(m)@, n as int),
        covers(final(m)@, n as int, r),
        sound(final(m)@, n as int, r),
        !added ==> final(m)@ == old(m)@,
        !added ==> forall|z: int| 0 <= z < n && #[trigger] marked(old(m)@, b as int, z) && a != z ==> marked(old(m)@, a as int, z),
        added ==> mat_falses(final(m)@) < mat_falses(old(m)@),
{
    let ghost before = m@;
    let mut added = false;
    let mut d: usize = 0;
    while d < n
        invariant
            a < n,
            b < n,
            d <= n,
            square(m@, n as int),
            covers(m@, n as int, r),
            sound(m@, n as int, r),
            marked(m@, a as int, b as int),
            !added ==> m@ == before,
            added ==> mat_falses(m@) < mat_falses(before),
            !added ==> forall|z: int| 0 <= z < d && #[trigger] marked(before, b as int, z) && a != z ==> marked(before, a as int, z),
        decreases n - d,
    {
        if m[b][d] && a != d && !m[a][d] {
            proof {
                reveal(sound);
                assert(marked(m@, a as int, b as int));
                assert(marked(m@, b as int, d as int));
                lemma_closure_reaches(r, a as int, b as int);
                lemma_closure_reaches(r, b as int, d as int);
                lemma_reaches_trans(r, a as int, b as int, d as int);
            }
            let ghost old_m = m@;
            set_mark(m, n, a, d);
            proof {
                reveal(sound);
                reveal(covers);
                assert forall|x: int, y: int| 0 <= x < n && 0 <= y < n && #[trigger] marked(m@, x, y) implies closure_of(r).contains((x, y)) by {
                    if !(x == a && y == d) {
                        assert(marked(old_m, x, y));
                    }
                }
                assert forall|x: int, y: int| #[trigger] r.contains((x, y)) implies 0 <= x < n && 0 <= y < n && marked(m@, x, y) by {
                    assert(marked(old_m, x, y));
                }
            }
            added = true;
        }
        d = d + 1;
    }
    added
}

/// One saturation pass over every marked `(a, b)`.
fn saturate_pass(m: &mut Vec<Vec<bool>>, n: usize, Ghost(r): Ghost<Set<(int, int)>>) -> (added: bool)
    requires
        square(old(m)@, n as int),
        covers(old(m)@, n as int, r),
        sound(old(m)@, n as int, r),
    ensures
        square(final(m)@, n as int),
        covers(final(m)@, n as int, r),
        sound(final(m)@, n as int, r),
        !added ==> final(m)@ == old(m)@ && mat_closed(old(m)@, n as int),
        added ==> mat_falses(final(m)@) < mat_falses(old(m)@),
{
    let ghost before = m@;
    let mut added = false;
    let mut a: usize = 0;
    while a < n
        invariant
            a <= n,
            square(m@, n as int),
            covers(m@, n as int, r),
            sound(m@, n as int, r),
            !added ==> m@ == before,
            added ==> mat_falses(m@) < mat_falses(before),
            !added ==> forall|x: int, y: int, z: int|
                0 <= x < a && 0 <= y < n && 0 <= z < n && #[trigger] marked(before, x, y) && #[trigger] marked(before, y, z) && x != z ==> marked(before, x, z),
        decreases n - a,
    {
        let mut b: usize = 0;
        while b < n
            invariant
                a < n,
                b <= n,
                square(m@, n as int),
                covers(m@, n as int, r),
                sound(m@, n as int, r),
                !added ==> m@ == before,
                added ==> mat_falses(m@) < mat_falses(before),
                !added ==> forall|x: int, y: int, z: int|
                    0 <= x < a && 0 <= y < n && 0 <= z < n && #[trigger] marked(before, x, y) && #[trigger] marked(before, y, z) && x != z ==> marked(before, x, z),
                !added ==> forall|y: int, z: int|
                    0 <= y < b && 0 <= z < n && #[trigger] marked(before, a as int, y) && #[trigger] marked(before, y, z) && a != z ==> marked(before, a as int, z),
            decreases n - b,
        {
            if m[a][b] {
                let ghost mid = m@;
                let step = extend_through(m, n, a, b, Ghost(r));
                if step {
                    added = true;
                }
            }
            b = b + 1;
        }
        a = a + 1;
    }
    added
}

/// Transitive closure of `pairs` over the nodes `0..n`, as a lexicographically sorted
/// list of pairs: every pair of `pairs`, and every `(a, b)` with `a != b` that `pairs`
/// connects in one or more steps.
pub fn transitive_closure(n: usize, pairs: &Vec<(usize, usize)>) -> (res: Vec<(usize, usize)>)
    requires
        pairs_below(pairs@, n as int),
    ensures
        pair_set(res@) == closure_of(pair_set(pairs@)),
        sorted_pairs(res@),
        pairs_below(res@, n as int),
{
    let ghost r = pair_set(pairs@);
    // An n-by-n matrix of marks, seeded with `pairs`.
    let mut m: Vec<Vec<bool>> = Vec::new();
    let mut i: usize = 0;
    while i < n
        invariant
            i <= n,
            m@.len() == i,
            forall|x: int| 0 <= x < i ==> (#[trigger] m@[x])@.len() == n && forall|y: int| 0 <= y < n ==> !m@[x]@[y],
        decreases n - i,
    {
        let mut row: Vec<bool> = Vec::new();
        let mut j: usize = 0;
        while j < n
            invariant
                j <= n,
                row@.len() == j,
                forall|y: int| 0 <= y < j ==> !row@[y],
            decreases n - j,
        {
            row.push(false);
            j = j + 1;
        }
        m.push(row);
        i = i + 1;
    }
    let mut k: usize = 0;
    while k < pairs.len()
        invariant
            k <= pairs.len(),
            pairs_below(pairs@, n as int),
            r == pair_set(pairs@),
            square(m@, n as int),
            forall|x: int, y: int| 0 <= x < n && 0 <= y < n && #[trigger] marked(m@, x, y) ==> r.contains((x, y)),
            forall|q: int| 0 <= q < k ==> #[trigger] marked(m@, pairs@[q].0 as int, pairs@[q].1 as int),
        decreases pairs.len() - k,
    {
        let (a, b) = pairs[k];
        assert(r.contains((a as int, b as int)));
        let ghost old_m = m@;
        set_mark(&mut m, n, a, b);
        proof {
            assert forall|q: int| 0 <= q < k + 1 implies #[trigger] marked(m@, pairs@[q].0 as int, pairs@[q].1 as int) by {
                if q < k {
                    assert(marked(old_m, pairs@[q].0 as int, pairs@[q].1 as int));
                }
            }
            assert forall|x: int, y: int| 0 <= x < n && 0 <= y < n && #[trigger] marked(m@, x, y) implies r.contains((x, y)) by {
                if !(x == a && y == b) {
                    assert(marked(old_m, x, y));
                }
            }
        }
        k = k + 1;
    }
    proof {
        reveal(covers);
        reveal(sound);
        assert forall|x: int, y: int| #[trigger] r.contains((x, y)) implies 0 <= x < n && 0 <= y < n && marked(m@, x, y) by {
            let q = choose|q: int| 0 <= q < pairs@.len() && pairs@[q].0 == x && pairs@[q].1 == y;
            assert(marked(m@, pairs@[q].0 as int, pairs@[q].1 as int));
        }
        assert forall|x: int, y: int| 0 <= x < n && 0 <= y < n && #[trigger] marked(m@, x, y) implies closure_of(r).contains((x, y)) by {
            assert(r.contains((x, y)));
        }
    }
    // Saturate until a pass adds nothing.
    loop
        invariant
            square(m@, n as int),
            covers(m@, n as int, r),
            sound(m@, n as int, r),
        ensures
            square(m@, n as int),
            covers(m@, n as int, r),
            sound(m@, n as int, r),
            mat_closed(m@, n as int),
        decreases mat_falses(m@),
    {
        let added = saturate_pass(&mut m, n, Ghost(r));
        if !added {
            break;
        }
    }
    // Read the marks back in lexicographic order.
    let mut res: Vec<(usize, usize)> = Vec::new();
    let mut a: usize = 0;
    while a < n
        invariant
            a <= n,
            square(m@, n as int),
            sorted_pairs(res@),
            pairs_below(res@, n as int),
            forall|q: int| 0 <= q < res@.len() ==> (#[trigger] res@[q]).0 < a,
            forall|q: int| 0 <= q < res@.len() ==> marked(m@, (#[trigger] res@[q]).0 as int, res@[q].1 as int),
            forall|x: int, y: int| 0 <= x < a && 0 <= y < n && #[trigger] marked(m@, x, y) ==> pair_set(res@).contains((x, y)),
        decreases n - a,
    {
        let mut b: usize = 0;
        while b < n
            invariant
                a < n,
                b <= n,
                square(m@, n as int),
                sorted_pairs(res@),
                pairs_below(res@, n as int),
                forall|q: int| 0 <= q < res@.len() ==> (#[trigger] res@[q]).0 < a || (res@[q].0 == a && res@[q].1 < b),
                forall|q: int| 0 <= q < res@.len() ==> marked(m@, (#[trigger] res@[q]).0 as int, res@[q].1 as int),
                forall|x: int, y: int| 0 <= x < a && 0 <= y < n && #[trigger] marked(m@, x, y) ==> pair_set(res@).contains((x, y)),
                forall|y: int| 0 <= y < b && #[trigger] marked(m@, a as int, y) ==> pair_set(res@).contains((a as int, y)),
            decreases n - b,
        {
            if m[a][b] {
                proof {
                    lemma_pair_set_push(res@, (a, b));
                }
                res.push((a, b));
            }
            b = b + 1;
        }
        a = a + 1;
    }
    proof {
        reveal(covers);
        reveal(sound);
        let cl = closure_of(r);
        assert forall|p: (int, int)| pair_set(res@).contains(p) <==> cl.contains(p) by {
            if pair_set(res@).contains(p) {
                let q = choose|q: int| 0 <= q < res@.len() && res@[q].0 == p.0 && res@[q].1 == p.1;
                assert(marked(m@, res@[q].0 as int, res@[q].1 as int));
            }
            if cl.contains(p) {
                lemma_closed_covers(m@, n as int, r, p.0, p.1);
            }
        }
        assert(pair_set(res@) =~= cl);
    }
    res
}

/// Whether the list holds the pair `(a, b)`.
pub fn contains_pair(list: &Vec<(usize, usize)>, a: usize, b: usize) -> (res: bool)
    ensures
        res == pair_set(list@).contains((a as int, b as int)),
{
    let mut k: usize = 0;
    while k < list.len()
        invariant
            k <= list@.len(),
            forall|q: int| 0 <= q < k ==> !((#[trigger] list@[q]).0 == a && list@[q].1 == b),
        decreases list@.len() - k,
    {
        if list[k].0 == a && list[k].1 == b {
            return true;
        }
        k = k + 1;
    }
    false
}

/// Two strictly sorted lists of pairs that denote the same set are the same list.
pub proof fn lemma_sorted_pairs_unique(s: Seq<(usize, usize)>, t: Seq<(usize, usize)>)
    requires
        sorted_pairs(s),
        sorted_pairs(t),
        pair_set(s) == pair_set(t),
    ensures
        s == t,
    decreases s.len(),
{
    if s.len() == 0 {
        if t.len() > 0 {
            assert(pair_set(t).contains((t[0].0 as int, t[0].1 as int)));
        }
        assert(s =~= t);
    } else {
        assert(pair_set(s).contains((s[0].0 as int, s[0].1 as int)));
        assert(t.len() > 0);
        assert(pair_set(t).contains((t[0].0 as int, t[0].1 as int)));
        let j = choose|k: int| 0 <= k < s.len() && s[k].0 == t[0].0 && s[k].1 == t[0].1;
        let i = choose|k: int| 0 <= k < t.len() && t[k].0 == s[0].0 && t[k].1 == s[0].1;
        if j > 0 {
            assert(pair_lt(s[0], s[j]));
            if i > 0 {
                assert(pair_lt(t[0], t[i]));
            }
        }
        assert(s[0] == t[0]);
        let s1 = s.drop_first();
        let t1 = t.drop_first();
        assert forall|p: (int, int)| pair_set(s1).contains(p) <==> pair_set(t1).contains(p) by {
            if pair_set(s1).contains(p) {
                let k = choose|k: int| 0 <= k < s1.len() && s1[k].0 == p.0 && s1[k].1 == p.1;
                assert(s1[k] == s[k + 1]);
                assert(pair_lt(s[0], s[k + 1]));
                assert(pair_set(s).contains(p));
                let q = choose|q: int| 0 <= q < t.len() && t[q].0 == p.0 && t[q].1 == p.1;
                assert(q > 0);
                assert(t1[q - 1] == t[q]);
            }
            if pair_set(t1).contains(p) {
                let k = choose|k: int| 0 <= k < t1.len() && t1[k].0 == p.0 && t1[k].1 == p.1;
                assert(t1[k] == t[k + 1]);
                assert(pair_lt(t[0], t[k + 1]));
                assert(pair_set(t).contains(p));
                let q = choose|q: int| 0 <= q < s.len() && s[q].0 == p.0 && s[q].1 == p.1;
                assert(q > 0);
                assert(s1[q - 1] == s[q]);
            }
        }
        assert(pair_set(s1) =~= pair_set(t1));
        assert forall|a: int, b: int| 0 <= a < b < s1.len() implies pair_lt(#[trigger] s1[a], #[trigger] s1[b]) by {
            assert(s1[a] == s[a + 1] && s1[b] == s[b + 1]);
        }
        assert forall|a: int, b: int| 0 <= a < b < t1.len() implies pair_lt(#[trigger] t1[a], #[trigger] t1[b]) by {
            assert(t1[a] == t[a + 1] && t1[b] == t[b + 1]);
        }
        lemma_sorted_pairs_unique(s1, t1);
        assert(s =~= seq![s[0]] + s1);
        assert(t =~= seq![t[0]] + t1);
    }
}

} // verus!
