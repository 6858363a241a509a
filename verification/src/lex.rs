//! The lexicographic order on strings, by code point, and sorting by it. On UTF-8 text
//! this is the byte order that `String`'s own ordering uses.

use vstd::prelude::*;
use vstd::relations::{sorted_by, total_ordering};

verus! {

/// `a` comes before `b` or equals it, comparing code points from the front.
pub open spec fn lex_le(a: Seq<char>, b: Seq<char>) -> bool
    decreases a.len(),
{
    if a.len() == 0 {
        true
    } else if b.len() == 0 {
        false
    } else if a[0] != b[0] {
        a[0] < b[0]
    } else {
        lex_le(a.drop_first(), b.drop_first())
    }
}

/// The order as a relation.
pub open spec fn lex_leq() -> spec_fn(Seq<char>, Seq<char>) -> bool {
    |a: Seq<char>, b: Seq<char>| lex_le(a, b)
}

/// The strings a list of strings holds, in order.
pub open spec fn string_views(v: Seq<String>) -> Seq<Seq<char>> {
    v.map_values(|s: String| s@)
}

pub(crate) proof fn lemma_lex_reflexive(a: Seq<char>)
    ensures
        lex_le(a, a),
    decreases a.len(),
{
    if a.len() > 0 {
        lemma_lex_reflexive(a.drop_first());
    }
}

pub(crate) proof fn lemma_lex_antisymmetric(a: Seq<char>, b: Seq<char>)
    requires
        lex_le(a, b),
        lex_le(b, a),
    ensures
        a == b,
    decreases a.len(),
{
    if a.len() > 0 && b.len() > 0 {
        if a[0] == b[0] {
            lemma_lex_antisymmetric(a.drop_first(), b.drop_first());
            assert(a =~= seq![a[0]] + a.drop_first());
            assert(b =~= seq![b[0]] + b.drop_first());
        } else {
        }
    } else {
        assert(a =~= b);
    }
}

pub(crate) proof fn lemma_lex_transitive(a: Seq<char>, b: Seq<char>, c: Seq<char>)
    requires
        lex_le(a, b),
        lex_le(b, c),
    ensures
        lex_le(a, c),
    decreases a.len(),
{
    if a.len() > 0 && b.len() > 0 && c.len() > 0 {
        if a[0] == b[0] && b[0] == c[0] {
            lemma_lex_transitive(a.drop_first(), b.drop_first(), c.drop_first());
        }
    }
}

pub(crate) proof fn lemma_lex_total(a: Seq<char>, b: Seq<char>)
    ensures
        lex_le(a, b) || lex_le(b, a),
    decreases a.len(),
{
    if a.len() > 0 && b.len() > 0 {
        if a[0] == b[0] {
            lemma_lex_total(a.drop_first(), b.drop_first());
        } else {
        }
    }
}

/// The lexicographic order is a total order.
pub proof fn lemma_lex_total_ordering()
    ensures
        total_ordering(lex_leq()),
{
    assert forall|x: Seq<char>| #[trigger] lex_leq()(x, x) by {
        lemma_lex_reflexive(x);
    }
    assert forall|x: Seq<char>, y: Seq<char>| #[trigger] lex_leq()(x, y) && #[trigger] lex_leq()(y, x) implies x == y by {
        lemma_lex_antisymmetric(x, y);
    }
    assert forall|x: Seq<char>, y: Seq<char>, z: Seq<char>|
        #[trigger] lex_leq()(x, y) && #[trigger] lex_leq()(y, z) implies lex_leq()(x, z) by {
        lemma_lex_transitive(x, y, z);
    }
    assert forall|x: Seq<char>, y: Seq<char>| #[trigger] lex_leq()(x, y) || #[trigger] lex_leq()(y, x) by {
        lemma_lex_total(x, y);
    }
}

/// Whether `a` comes before `b` or equals it.
pub fn str_le(a: &str, b: &str) -> (res: bool)
    ensures
        res == lex_le(a@, b@),
{
    let la = a.unicode_len();
    let lb = b.unicode_len();
    let mut i: usize = 0;
    proof {
        assert(a@.skip(0) =~= a@);
        assert(b@.skip(0) =~= b@);
    }
    while i < la && i < lb
        invariant
            la == a@.len(),
            lb == b@.len(),
            i <= la,
            i <= lb,
            lex_le(a@, b@) == lex_le(a@.skip(i as int), b@.skip(i as int)),
        decreases la - i,
    {
        let ca = a.get_char(i);
        let cb = b.get_char(i);
        proof {
            assert(a@.skip(i as int)[0] == ca);
            assert(b@.skip(i as int)[0] == cb);
            assert(a@.skip(i as int).drop_first() =~= a@.skip(i + 1));
            assert(b@.skip(i as int).drop_first() =~= b@.skip(i + 1));
        }
        if ca != cb {
            return ca < cb;
        }
        i = i + 1;
    }
    proof {
        if i == la {
            assert(a@.skip(i as int).len() == 0);
        } else {
            assert(b@.skip(i as int).len() == 0);
        }
    }
    i == la
}

/// The strings of `v`, sorted lexicographically.
pub fn sort_strings(v: Vec<String>) -> (res: Vec<String>)
    ensures
        string_views(res@) == string_views(v@).sort_by(lex_leq()),
{
    proof {
        lemma_lex_total_ordering();
    }
    let ghost src = string_views(v@);
    let mut res: Vec<String> = Vec::new();
    let mut i: usize = 0;
    proof {
        assert(string_views(res@) =~= Seq::<Seq<char>>::empty());
        assert(src.take(0) =~= Seq::<Seq<char>>::empty());
    }
    while i < v.len()
        invariant
            i <= v@.len(),
            src == string_views(v@),
            total_ordering(lex_leq()),
            sorted_by(string_views(res@), lex_leq()),
            string_views(res@).to_multiset() == src.take(i as int).to_multiset(),
        decreases v@.len() - i,
    {
        let x = v[i].clone();
        let mut p: usize = 0;
        while p < res.len() && str_le(res[p].as_str(), x.as_str())
            invariant
                p <= res@.len(),
                forall|k: int| 0 <= k < p ==> lex_le((#[trigger] res@[k])@, x@),
            decreases res@.len() - p,
        {
            p = p + 1;
        }
        let ghost old_views = string_views(res@);
        res.insert(p, x);
        proof {
            let nv = string_views(res@);
            assert(nv =~= old_views.insert(p as int, x@));
            vstd::seq_lib::to_multiset_insert(old_views, p as int, x@);
            assert(src.take(i + 1) =~= src.take(i as int).push(src[i as int]));
            assert(src[i as int] == x@);
            vstd::seq_lib::to_multiset_build(src.take(i as int), x@);
            assert(src.take(i as int).push(x@) =~= src.take(i as int) + seq![x@]);
            assert forall|a: int, b: int| 0 <= a < b < nv.len() implies #[trigger] lex_leq()(nv[a], nv[b]) by {
                if b < p {
                    assert(nv[a] == old_views[a] && nv[b] == old_views[b]);
                } else if b == p {
                    assert(nv[a] == old_views[a]);
                    assert(lex_le(res@[a]@, x@));
                } else if a == p {
                    assert(nv[b] == old_views[b - 1]);
                    assert(!lex_le(old_views[p as int], x@));
                    lemma_lex_total(old_views[p as int], x@);
                    if b - 1 > p {
                        assert(lex_leq()(old_views[p as int], old_views[b - 1]));
                        lemma_lex_transitive(x@, old_views[p as int], old_views[b - 1]);
                    }
                } else if a < p {
                    assert(nv[a] == old_views[a] && nv[b] == old_views[b - 1]);
                    assert(lex_leq()(old_views[a], old_views[b - 1]));
                } else {
                    assert(nv[a] == old_views[a - 1] && nv[b] == old_views[b - 1]);
                    assert(lex_leq()(old_views[a - 1], old_views[b - 1]));
                }
            }
        }
        i = i + 1;
    }
    proof {
        assert(src.take(i as int) =~= src);
        src.lemma_sort_by_ensures(lex_leq());
        vstd::seq_lib::lemma_sorted_unique(string_views(res@), src.sort_by(lex_leq()), lex_leq());
    }
    res
}

} // verus!
