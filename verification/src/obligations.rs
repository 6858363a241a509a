//! The obligations a materialized store derived for a case, read from the store's dump:
//! the dump's lines about the case that carry the obligation predicate, and the local
//! names of the obligations they point at, sorted and without repeats.

use vstd::prelude::*;
use crate::case_text::{extract_last_angle_iri, last_angle_iri, local_name, local_name_of, CaseTextRefused};
use crate::lex::{lemma_lex_antisymmetric, lemma_lex_total, lemma_lex_transitive, lex_le, str_le, string_views};
use crate::text::{contains_str, has_part, owned, push_char, push_str};

verus! {

// ---------------------------------------------------------------------------------------
// Lines.
// ---------------------------------------------------------------------------------------

/// How many characters from `i` on come before the next `\n` (or the end).
pub open spec fn newline_offset(s: Seq<char>, i: int) -> nat
    decreases s.len() - i,
{
    if i < 0 || i >= s.len() || s[i] == '\n' {
        0
    } else {
        1 + newline_offset(s, i + 1)
    }
}

/// `l` without one trailing `\r`.
pub open spec fn trim_cr(l: Seq<char>) -> Seq<char> {
    if l.len() > 0 && l.last() == '\r' {
        l.drop_last()
    } else {
        l
    }
}

/// The lines of `s` from position `i` on.
pub open spec fn lines_from(s: Seq<char>, i: int) -> Seq<Seq<char>>
    decreases s.len() - i,
{
    if i < 0 || i >= s.len() {
        Seq::empty()
    } else {
        let j = i + newline_offset(s, i);
        let raw = s.subrange(i, j);
        if j < s.len() {
            seq![trim_cr(raw)] + lines_from(s, j + 1)
        } else {
            seq![raw]
        }
    }
}

/// The lines of `s`, as `str::lines` gives them: split at each `\n`, a `\r` just before
/// it dropped, and no line after a final `\n`.
pub open spec fn text_lines(s: Seq<char>) -> Seq<Seq<char>> {
    lines_from(s, 0)
}

proof fn lemma_newline_offset(s: Seq<char>, i: int)
    requires
        0 <= i <= s.len(),
    ensures
        i + newline_offset(s, i) <= s.len(),
        i + newline_offset(s, i) < s.len() ==> s[i + newline_offset(s, i)] == '\n',
        forall|k: int| i <= k < i + newline_offset(s, i) ==> s[k] != '\n',
    decreases s.len() - i,
{
    if i < s.len() && s[i] != '\n' {
        lemma_newline_offset(s, i + 1);
    }
}

/// The lines of `s`.
pub fn text_lines_of(s: &str) -> (res: Vec<String>)
    ensures
        string_views(res@) == text_lines(s@),
{
    let n = s.unicode_len();
    let mut res: Vec<String> = Vec::new();
    let mut i: usize = 0;
    while i < n
        invariant
            n == s@.len(),
            i <= n,
            string_views(res@) + lines_from(s@, i as int) == text_lines(s@),
        decreases n - i,
    {
        let mut j: usize = i;
        while j < n && s.get_char(j) != '\n'
            invariant
                n == s@.len(),
                i <= j <= n,
                newline_offset(s@, i as int) == (j - i) + newline_offset(s@, j as int),
            decreases n - j,
        {
            j = j + 1;
        }
        proof {
            assert(newline_offset(s@, j as int) == 0);
            lemma_newline_offset(s@, i as int);
        }
        let line = if j < n && j > i && s.get_char(j - 1) == '\r' {
            s.substring_char(i, j - 1)
        } else {
            s.substring_char(i, j)
        };
        let ghost before = string_views(res@);
        res.push(owned(line));
        proof {
            let raw = s@.subrange(i as int, j as int);
            if j < n && j > i && s@[j - 1] == '\r' {
                assert(raw.drop_last() =~= s@.subrange(i as int, j - 1));
            }
            if j < n {
                assert(string_views(res@) =~= before.push(trim_cr(raw)));
                assert(string_views(res@) + lines_from(s@, j + 1) =~= before + lines_from(s@, i as int));
            } else {
                assert(string_views(res@) =~= before.push(raw));
                assert(string_views(res@) =~= before + lines_from(s@, i as int));
            }
        }
        if j < n {
            i = j + 1;
        } else {
            i = n;
            proof {
                assert(string_views(res@) + lines_from(s@, n as int) =~= string_views(res@));
            }
        }
    }
    proof {
        assert(string_views(res@) + lines_from(s@, i as int) =~= string_views(res@));
    }
    res
}


// ---------------------------------------------------------------------------------------
// Sorted names without repeats.
// ---------------------------------------------------------------------------------------

/// `v` is in strictly increasing lexicographic order: sorted, with no repeats.
pub open spec fn strictly_sorted(v: Seq<Seq<char>>) -> bool {
    forall|a: int, b: int| 0 <= a < b < v.len() ==> lex_le(#[trigger] v[a], #[trigger] v[b]) && v[a] != v[b]
}

/// Adds `x` to a strictly sorted list, where it is not there yet.
fn insert_name(names: &mut Vec<String>, x: String)
    requires
        strictly_sorted(string_views(old(names)@)),
    ensures
        strictly_sorted(string_views(final(names)@)),
        forall|n: Seq<char>| string_views(final(names)@).contains(n) <==> string_views(old(names)@).contains(n) || n == x@,
{
    let ghost v = string_views(names@);
    let mut p: usize = 0;
    while p < names.len() && str_le(names[p].as_str(), x.as_str())
        invariant
            p <= names@.len(),
            v == string_views(names@),
            forall|k: int| 0 <= k < p ==> lex_le((#[trigger] names@[k])@, x@),
        decreases names@.len() - p,
    {
        p = p + 1;
    }
    if p > 0 && names[p - 1] == x {
        proof {
            assert(v[p - 1] == x@);
            assert forall|n: Seq<char>| v.contains(n) || n == x@ implies v.contains(n) by {
                if n == x@ {
                    assert(v[p - 1] == n);
                }
            }
        }
        return;
    }
    names.insert(p, x);
    proof {
        let nv = string_views(names@);
        assert(nv =~= v.insert(p as int, x@));
        assert forall|a: int, b: int| 0 <= a < b < nv.len() implies lex_le(#[trigger] nv[a], #[trigger] nv[b]) && nv[a] != nv[b] by {
            if b < p {
                assert(nv[a] == v[a] && nv[b] == v[b]);
            } else if b == p {
                assert(nv[a] == v[a]);
                assert(lex_le(v[a], x@));
                if a < p - 1 {
                    assert(lex_le(v[a], v[p - 1]) && v[a] != v[p - 1]);
                    assert(lex_le(v[p - 1], x@));
                    if v[a] == x@ {
                        lemma_lex_antisymmetric(v[a], v[p - 1]);
                    }
                } else {
                    assert(v[p - 1] != x@);
                }
            } else if a == p {
                assert(nv[b] == v[b - 1]);
                assert(!lex_le(v[p as int], x@));
                lemma_lex_total(v[p as int], x@);
                if b - 1 > p {
                    assert(lex_le(v[p as int], v[b - 1]));
                    lemma_lex_transitive(x@, v[p as int], v[b - 1]);
                    if x@ == v[b - 1] {
                        lemma_lex_antisymmetric(v[p as int], v[b - 1]);
                    }
                }
            } else if a < p {
                assert(nv[a] == v[a] && nv[b] == v[b - 1]);
            } else {
                assert(nv[a] == v[a - 1] && nv[b] == v[b - 1]);
            }
        }
        assert forall|n: Seq<char>| nv.contains(n) <==> v.contains(n) || n == x@ by {
            if nv.contains(n) {
                let k = choose|k: int| 0 <= k < nv.len() && nv[k] == n;
                if k < p {
                    assert(v[k] == n);
                } else if k > p {
                    assert(v[k - 1] == n);
                }
            }
            if v.contains(n) {
                let k = choose|k: int| 0 <= k < v.len() && v[k] == n;
                if k < p {
                    assert(nv[k] == n);
                } else {
                    assert(nv[k + 1] == n);
                }
            }
            if n == x@ {
                assert(nv[p as int] == n);
            }
        }
    }
}

// ---------------------------------------------------------------------------------------
// Derived obligations.
// ---------------------------------------------------------------------------------------

/// What the dump says of a case's obligations: the kept lines, as text, and the local
/// names of the obligations.
#[derive(Debug, Clone, PartialEq, Eq)]
pub struct DerivedObligations {
    pub turtle: String,
    pub local_names: Vec<String>,
}

/// A dump line is kept where it names the case subject and the obligation predicate.
pub open spec fn obligation_line(l: Seq<char>, subject: Seq<char>, predicate: Seq<char>) -> bool {
    has_part(l, subject) && has_part(l, predicate)
}

/// The local name of the obligation a line points at, where it points at one.
pub open spec fn line_name(l: Seq<char>) -> Option<Seq<char>> {
    match last_angle_iri(l) {
        Some(iri) => Some(local_name(iri)),
        None => None,
    }
}

/// `n` is the local name of an obligation some kept line of `ls` points at.
pub open spec fn names_obligation(ls: Seq<Seq<char>>, subject: Seq<char>, predicate: Seq<char>, n: Seq<char>) -> bool {
    exists|k: int| 0 <= k < ls.len() && obligation_line(ls[k], subject, predicate) && #[trigger] line_name(ls[k]) == Some(n)
}

/// The kept lines of `ls`, each followed by a newline.
pub open spec fn kept_text(ls: Seq<Seq<char>>, subject: Seq<char>, predicate: Seq<char>) -> Seq<char>
    decreases ls.len(),
{
    if ls.len() == 0 {
        Seq::empty()
    } else {
        kept_text(ls.drop_last(), subject, predicate) + if obligation_line(ls.last(), subject, predicate) {
            ls.last() + "\n"@
        } else {
            Seq::empty()
        }
    }
}

/// One more line of the dump: what the kept text gains.
proof fn lemma_kept_extend(ls: Seq<Seq<char>>, k: int, subject: Seq<char>, predicate: Seq<char>)
    requires
        0 <= k < ls.len(),
    ensures
        kept_text(ls.take(k + 1), subject, predicate) == kept_text(ls.take(k), subject, predicate) + if obligation_line(
            ls[k],
            subject,
            predicate,
        ) {
            ls[k] + "\n"@
        } else {
            Seq::empty()
        },
{
    assert(ls.take(k + 1).drop_last() =~= ls.take(k));
    assert(ls.take(k + 1).last() == ls[k]);
}

/// One more line of the dump: what the names gain.
proof fn lemma_names_extend(ls: Seq<Seq<char>>, k: int, subject: Seq<char>, predicate: Seq<char>)
    requires
        0 <= k < ls.len(),
    ensures
        forall|n: Seq<char>|
            names_obligation(ls.take(k + 1), subject, predicate, n) <==> names_obligation(ls.take(k), subject, predicate, n)
                || (obligation_line(ls[k], subject, predicate) && line_name(ls[k]) == Some(n)),
{
    let before = ls.take(k);
    let after = ls.take(k + 1);
    assert forall|n: Seq<char>|
        names_obligation(after, subject, predicate, n) <==> names_obligation(before, subject, predicate, n)
            || (obligation_line(ls[k], subject, predicate) && line_name(ls[k]) == Some(n)) by {
        if names_obligation(before, subject, predicate, n) {
            let q = choose|q: int| 0 <= q < before.len() && obligation_line(before[q], subject, predicate) && #[trigger] line_name(before[q]) == Some(n);
            assert(after[q] == before[q]);
        }
        if obligation_line(ls[k], subject, predicate) && line_name(ls[k]) == Some(n) {
            assert(after[k] == ls[k]);
        }
        if names_obligation(after, subject, predicate, n) {
            let q = choose|q: int| 0 <= q < after.len() && obligation_line(after[q], subject, predicate) && #[trigger] line_name(after[q]) == Some(n);
            if q < k {
                assert(before[q] == after[q]);
            }
        }
    }
}

/// Reads the obligations derived for `subject` from a store's dump: the lines that name
/// the subject and `predicate`, and the sorted local names of the obligations they point
/// at; refused where no kept line points at one.
pub fn derive_obligations_from_dump(dump: &str, subject: &str, predicate: &str) -> (res: Result<
    DerivedObligations,
    CaseTextRefused,
>)
    ensures
        ({
            let ls = text_lines(dump@);
            match res {
                Ok(d) => {
                    &&& d.turtle@ == kept_text(ls, subject@, predicate@)
                    &&& strictly_sorted(string_views(d.local_names@))
                    &&& d.local_names@.len() > 0
                    &&& forall|n: Seq<char>|
                        string_views(d.local_names@).contains(n) <==> names_obligation(ls, subject@, predicate@, n)
                },
                Err(e) => {
                    &&& e matches CaseTextRefused::NoObligationsDerivedForCase { subject: s } && s@ == subject@
                    &&& forall|n: Seq<char>| !names_obligation(ls, subject@, predicate@, n)
                },
            }
        }),
{
    let lines = text_lines_of(dump);
    let ghost ls = text_lines(dump@);
    let mut names: Vec<String> = Vec::new();
    let mut turtle = String::new();
    let mut k: usize = 0;
    while k < lines.len()
        invariant
            string_views(lines@) == ls,
            k <= lines@.len(),
            strictly_sorted(string_views(names@)),
            turtle@ == kept_text(ls.take(k as int), subject@, predicate@),
            forall|n: Seq<char>| string_views(names@).contains(n) <==> names_obligation(ls.take(k as int), subject@, predicate@, n),
        decreases lines@.len() - k,
    {
        let line = lines[k].as_str();
        proof {
            assert(line@ == ls[k as int]);
            lemma_kept_extend(ls, k as int, subject@, predicate@);
            lemma_names_extend(ls, k as int, subject@, predicate@);
        }
        if contains_str(line, subject) && contains_str(line, predicate) {
            match extract_last_angle_iri(line) {
                Some(iri) => {
                    let local = local_name_of(iri.as_str());
                    insert_name(&mut names, local);
                },
                None => {},
            }
            push_str(&mut turtle, line);
            push_char(&mut turtle, '\n');
            proof {
                reveal_strlit("\n");
                assert(turtle@ =~= kept_text(ls.take(k + 1), subject@, predicate@));
            }
        }
        k = k + 1;
    }
    proof {
        assert(ls.take(k as int) =~= ls);
    }
    if names.len() == 0 {
        proof {
            assert forall|n: Seq<char>| !names_obligation(ls, subject@, predicate@, n) by {
                if names_obligation(ls, subject@, predicate@, n) {
                    assert(string_views(names@).contains(n));
                }
            }
        }
        return Err(CaseTextRefused::NoObligationsDerivedForCase { subject: owned(subject) });
    }
    Ok(DerivedObligations { turtle, local_names: names })
}

} // verus!
