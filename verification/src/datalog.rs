//! Datalog closure admission: typed refusals for the stratifier's errors, the
//! order-independent digest of a closure, and the residue comparator ("derivable truth
//! is not work").

use vstd::prelude::*;
use vstd::utf8::encode_utf8;
use crate::digest::{blake3_digest, blake3_hash};
use crate::lex::{lex_leq, sort_strings, string_views};
use crate::text::{contains_str, has_part, has_prefix, owned, push_str, starts_with_str};

verus! {

/// Why a rule pack could not be closed.
#[derive(Debug, Clone, PartialEq, Eq)]
pub enum DatalogClosureRefused {
    /// A rule's head or negated body variables are not bound by a positive body literal.
    UnsafeRule { rule_pack_id: String, detail: String },
    /// A dependency cycle runs through negation or aggregation.
    StratificationCycle { rule_pack_id: String, detail: String },
    /// Materialization refused mid-fixpoint.
    MaterializationRefused { rule_pack_id: String, detail: String },
    /// Any other stratifier error, its message kept verbatim.
    Other { rule_pack_id: String, detail: String },
}

/// The kinds of closure refusal.
#[derive(Clone, Copy, Debug, PartialEq, Eq, Structural)]
pub enum ClosureRefusalKind {
    UnsafeRule,
    StratificationCycle,
    MaterializationRefused,
    Other,
}

impl DatalogClosureRefused {
    /// The refusal's kind.
    pub open spec fn kind(&self) -> ClosureRefusalKind {
        match self {
            DatalogClosureRefused::UnsafeRule { .. } => ClosureRefusalKind::UnsafeRule,
            DatalogClosureRefused::StratificationCycle { .. } => ClosureRefusalKind::StratificationCycle,
            DatalogClosureRefused::MaterializationRefused { .. } => ClosureRefusalKind::MaterializationRefused,
            DatalogClosureRefused::Other { .. } => ClosureRefusalKind::Other,
        }
    }

    /// The rule pack and the detail the refusal carries.
    pub open spec fn fields(&self) -> (Seq<char>, Seq<char>) {
        match self {
            DatalogClosureRefused::UnsafeRule { rule_pack_id, detail } => (rule_pack_id@, detail@),
            DatalogClosureRefused::StratificationCycle { rule_pack_id, detail } => (rule_pack_id@, detail@),
            DatalogClosureRefused::MaterializationRefused { rule_pack_id, detail } => (rule_pack_id@, detail@),
            DatalogClosureRefused::Other { rule_pack_id, detail } => (rule_pack_id@, detail@),
        }
    }

    /// Classifies a stratifier error by its message: one that starts with `Ruleset is
    /// not stratifiable` is a stratification cycle, else one that holds `is unsafe:` is
    /// an unsafe rule, else it is kept as another error.
    pub fn from_add_rules_error(rule_pack_id: &str, detail: String) -> (res: Self)
        ensures
            res.fields() == (rule_pack_id@, detail@),
            res.kind() == if has_prefix(detail@, "Ruleset is not stratifiable"@) {
                ClosureRefusalKind::StratificationCycle
            } else if has_part(detail@, "is unsafe:"@) {
                ClosureRefusalKind::UnsafeRule
            } else {
                ClosureRefusalKind::Other
            },
    {
        let rule_pack_id = owned(rule_pack_id);
        if starts_with_str(detail.as_str(), "Ruleset is not stratifiable") {
            DatalogClosureRefused::StratificationCycle { rule_pack_id, detail }
        } else if contains_str(detail.as_str(), "is unsafe:") {
            DatalogClosureRefused::UnsafeRule { rule_pack_id, detail }
        } else {
            DatalogClosureRefused::Other { rule_pack_id, detail }
        }
    }

    /// Renders the refusal as `DatalogClosureRefused::<kind>[<rule pack>]: <detail>`.
    pub fn to_string(&self) -> (res: String)
        ensures
            res@ == "DatalogClosureRefused::"@ + closure_kind_name(self.kind()) + "["@ + self.fields().0 + "]: "@
                + self.fields().1,
    {
        let (kind, id, detail) = match self {
            DatalogClosureRefused::UnsafeRule { rule_pack_id, detail } => ("UnsafeRule", rule_pack_id, detail),
            DatalogClosureRefused::StratificationCycle { rule_pack_id, detail } => (
                "StratificationCycle",
                rule_pack_id,
                detail,
            ),
            DatalogClosureRefused::MaterializationRefused { rule_pack_id, detail } => (
                "MaterializationRefused",
                rule_pack_id,
                detail,
            ),
            DatalogClosureRefused::Other { rule_pack_id, detail } => ("Other", rule_pack_id, detail),
        };
        let mut out = owned("DatalogClosureRefused::");
        push_str(&mut out, kind);
        push_str(&mut out, "[");
        push_str(&mut out, id.as_str());
        push_str(&mut out, "]: ");
        push_str(&mut out, detail.as_str());
        out
    }
}

/// The name of a refusal kind.
pub open spec fn closure_kind_name(k: ClosureRefusalKind) -> Seq<char> {
    match k {
        ClosureRefusalKind::UnsafeRule => "UnsafeRule"@,
        ClosureRefusalKind::StratificationCycle => "StratificationCycle"@,
        ClosureRefusalKind::MaterializationRefused => "MaterializationRefused"@,
        ClosureRefusalKind::Other => "Other"@,
    }
}

// ---------------------------------------------------------------------------------------
// The closure digest.
// ---------------------------------------------------------------------------------------

/// A BLAKE3 receipt over a closure's facts, each fact by its decoded `s p o` line.
#[derive(Debug, Clone, PartialEq, Eq)]
pub struct ClosureDigest {
    pub rule_pack_id: String,
    pub fact_count: usize,
    /// The 32 digest bytes.
    pub digest: Vec<u8>,
}

/// Each line's UTF-8 bytes followed by a newline byte.
pub open spec fn newline_framed(lines: Seq<Seq<char>>) -> Seq<u8>
    decreases lines.len(),
{
    if lines.len() == 0 {
        Seq::empty()
    } else {
        newline_framed(lines.drop_last()) + encode_utf8(lines.last()) + seq![10u8]
    }
}

/// The bytes a closure digest is taken over: the rule pack id and a zero byte, then the
/// fact lines in sorted order, each followed by a newline.
pub open spec fn closure_bytes(rule_pack_id: Seq<char>, lines: Seq<Seq<char>>) -> Seq<u8> {
    encode_utf8(rule_pack_id) + seq![0u8] + newline_framed(lines.sort_by(lex_leq()))
}

/// Appends the bytes of `s`.
fn push_utf8(buf: &mut Vec<u8>, s: &str)
    ensures
        final(buf)@ == old(buf)@ + encode_utf8(s@),
{
    let b = s.as_bytes();
    let ghost start = buf@;
    let mut k: usize = 0;
    while k < b.len()
        invariant
            k <= b@.len(),
            b@ == encode_utf8(s@),
            buf@ == start + b@.take(k as int),
        decreases b@.len() - k,
    {
        buf.push(b[k]);
        proof {
            assert(b@.take(k + 1) =~= b@.take(k as int).push(b@[k as int]));
        }
        k = k + 1;
    }
    proof {
        assert(b@.take(k as int) =~= b@);
    }
}

/// A copy of a list of strings.
fn copy_strings(v: &Vec<String>) -> (res: Vec<String>)
    ensures
        string_views(res@) == string_views(v@),
{
    let mut res: Vec<String> = Vec::new();
    let mut k: usize = 0;
    while k < v.len()
        invariant
            k <= v@.len(),
            string_views(res@) == string_views(v@).take(k as int),
        decreases v@.len() - k,
    {
        let ghost before = string_views(res@);
        res.push(v[k].clone());
        proof {
            assert(string_views(res@) =~= before.push(v@[k as int]@));
            assert(string_views(v@).take(k + 1) =~= string_views(v@).take(k as int).push(v@[k as int]@));
        }
        k = k + 1;
    }
    proof {
        assert(string_views(v@).take(k as int) =~= string_views(v@));
    }
    res
}

impl ClosureDigest {
    /// The tag's bytes followed by the bytes a closure digest of `fact_lines` under `id`
    /// is taken over.
    pub fn tagged_bytes(tag: &str, id: &str, fact_lines: &Vec<String>) -> (res: Vec<u8>)
        ensures
            res@ == encode_utf8(tag@) + closure_bytes(id@, string_views(fact_lines@)),
    {
        let sorted = sort_strings(copy_strings(fact_lines));
        let mut buf: Vec<u8> = Vec::new();
        push_utf8(&mut buf, tag);
        push_utf8(&mut buf, id);
        buf.push(0u8);
        let ghost head = buf@;
        let mut j: usize = 0;
        while j < sorted.len()
            invariant
                j <= sorted@.len(),
                buf@ == head + newline_framed(string_views(sorted@).take(j as int)),
            decreases sorted@.len() - j,
        {
            push_utf8(&mut buf, sorted[j].as_str());
            buf.push(10u8);
            proof {
                let sv = string_views(sorted@);
                assert(sv.take(j + 1).drop_last() =~= sv.take(j as int));
                assert(sv.take(j + 1).last() == sorted@[j as int]@);
                assert(buf@ =~= head + newline_framed(sv.take(j + 1)));
            }
            j = j + 1;
        }
        proof {
            assert(string_views(sorted@).take(j as int) =~= string_views(sorted@));
            assert(buf@ =~= encode_utf8(tag@) + closure_bytes(id@, string_views(fact_lines@)));
        }
        buf
    }

    /// The digest of the fact lines under the rule pack: the same for every order of the
    /// same lines.
    pub fn compute(rule_pack_id: &str, fact_lines: &Vec<String>) -> (res: ClosureDigest)
        ensures
            res.rule_pack_id@ == rule_pack_id@,
            res.fact_count == fact_lines@.len(),
            res.digest@ == blake3_digest(closure_bytes(rule_pack_id@, string_views(fact_lines@))),
    {
        let buf = Self::tagged_bytes("", rule_pack_id, fact_lines);
        proof {
            reveal_strlit("");
            assert(""@ =~= Seq::<char>::empty());
            assert(encode_utf8(""@) =~= Seq::<u8>::empty());
            assert(buf@ =~= closure_bytes(rule_pack_id@, string_views(fact_lines@)));
        }
        ClosureDigest { rule_pack_id: owned(rule_pack_id), fact_count: fact_lines.len(), digest: blake3_hash(buf.as_slice()) }
    }

    /// Whether the digest recomputed over `fact_lines` under this rule pack equals this one.
    pub fn verify(&self, fact_lines: &Vec<String>) -> (res: bool)
        ensures
            res == (self.fact_count == fact_lines@.len() && self.digest@ == blake3_digest(
                closure_bytes(self.rule_pack_id@, string_views(fact_lines@)),
            )),
    {
        let again = Self::compute(self.rule_pack_id.as_str(), fact_lines);
        again.fact_count == self.fact_count && same_bytes(&again.digest, &self.digest)
    }
}

/// Whether two byte lists are the same.
fn same_bytes(a: &Vec<u8>, b: &Vec<u8>) -> (res: bool)
    ensures
        res == (a@ == b@),
{
    if a.len() != b.len() {
        return false;
    }
    let mut k: usize = 0;
    while k < a.len()
        invariant
            a@.len() == b@.len(),
            k <= a@.len(),
            forall|q: int| 0 <= q < k ==> a@[q] == b@[q],
        decreases a@.len() - k,
    {
        if a[k] != b[k] {
            return false;
        }
        k = k + 1;
    }
    proof {
        assert(a@ =~= b@);
    }
    true
}

// ---------------------------------------------------------------------------------------
// The residue comparator.
// ---------------------------------------------------------------------------------------

/// Which planner residue items the closure already proves, and which remain.
#[derive(Debug, Clone, PartialEq, Eq, Default)]
pub struct ResidueDiff {
    pub stripped: Vec<String>,
    pub remaining: Vec<String>,
}

/// `s` without its leading and trailing angle brackets.
pub open spec fn strip_brackets(s: Seq<char>) -> Seq<char>
    decreases s.len(),
{
    if s.len() > 0 && (s[0] == '<' || s[0] == '>') {
        strip_brackets(s.drop_first())
    } else if s.len() > 0 && (s.last() == '<' || s.last() == '>') {
        strip_brackets(s.drop_last())
    } else {
        s
    }
}

/// The closure proves predicate `item`: some closure fact's predicate is `item` once
/// its angle brackets are stripped.
pub open spec fn proves(closure_predicates: Seq<Seq<char>>, item: Seq<char>) -> bool {
    exists|i: int| 0 <= i < closure_predicates.len() && strip_brackets(#[trigger] closure_predicates[i]) == item
}

/// The items of `residue` the closure proves (`true`) or leaves (`false`), in order.
pub open spec fn split_residue(closure_predicates: Seq<Seq<char>>, residue: Seq<Seq<char>>, proved: bool) -> Seq<
    Seq<char>,
> {
    residue.filter(|item: Seq<char>| proves(closure_predicates, item) == proved)
}

/// `s` without leading and trailing angle brackets.
pub fn trim_brackets(s: &str) -> (res: String)
    ensures
        res@ == strip_brackets(s@),
{
    let n = s.unicode_len();
    let mut lo: usize = 0;
    let mut hi: usize = n;
    proof {
        assert(s@.subrange(0, n as int) =~= s@);
    }
    while lo < hi && (s.get_char(lo) == '<' || s.get_char(lo) == '>')
        invariant
            n == s@.len(),
            lo <= hi,
            hi == n,
            strip_brackets(s@) == strip_brackets(s@.subrange(lo as int, hi as int)),
        decreases hi - lo,
    {
        proof {
            assert(s@.subrange(lo as int, hi as int).drop_first() =~= s@.subrange(lo + 1, hi as int));
        }
        lo = lo + 1;
    }
    while lo < hi && (s.get_char(hi - 1) == '<' || s.get_char(hi - 1) == '>')
        invariant
            n == s@.len(),
            lo <= hi <= n,
            lo == hi || (s@[lo as int] != '<' && s@[lo as int] != '>'),
            strip_brackets(s@) == strip_brackets(s@.subrange(lo as int, hi as int)),
        decreases hi - lo,
    {
        proof {
            let t = s@.subrange(lo as int, hi as int);
            assert(t[0] == s@[lo as int]);
            assert(t.drop_last() =~= s@.subrange(lo as int, hi - 1));
        }
        hi = hi - 1;
    }
    proof {
        let t = s@.subrange(lo as int, hi as int);
        if t.len() > 0 {
            assert(t[0] == s@[lo as int]);
            assert(t.last() == s@[hi - 1]);
        }
    }
    owned(s.substring_char(lo, hi))
}

/// Strips from the planner's residue the predicates the closure already proves: an item
/// is stripped where some closure fact's predicate, its angle brackets trimmed, equals
/// it, and remains otherwise; both lists keep the residue's order.
pub fn compare_residue(closure_predicates: &Vec<String>, planner_residue: &Vec<String>) -> (res: ResidueDiff)
    ensures
        string_views(res.stripped@) == split_residue(string_views(closure_predicates@), string_views(planner_residue@), true),
        string_views(res.remaining@) == split_residue(
            string_views(closure_predicates@),
            string_views(planner_residue@),
            false,
        ),
{
    let ghost cp = string_views(closure_predicates@);
    let mut closed: Vec<String> = Vec::new();
    let mut k: usize = 0;
    while k < closure_predicates.len()
        invariant
            k <= closure_predicates@.len(),
            cp == string_views(closure_predicates@),
            closed@.len() == k,
            forall|q: int| 0 <= q < k ==> (#[trigger] closed@[q])@ == strip_brackets(cp[q]),
        decreases closure_predicates@.len() - k,
    {
        closed.push(trim_brackets(closure_predicates[k].as_str()));
        k = k + 1;
    }
    let ghost rv = string_views(planner_residue@);
    let mut stripped: Vec<String> = Vec::new();
    let mut remaining: Vec<String> = Vec::new();
    let mut j: usize = 0;
    while j < planner_residue.len()
        invariant
            j <= planner_residue@.len(),
            rv == string_views(planner_residue@),
            closed@.len() == cp.len(),
            forall|q: int| 0 <= q < cp.len() ==> (#[trigger] closed@[q])@ == strip_brackets(cp[q]),
            string_views(stripped@) == split_residue(cp, rv.take(j as int), true),
            string_views(remaining@) == split_residue(cp, rv.take(j as int), false),
        decreases planner_residue@.len() - j,
    {
        let item = planner_residue[j].as_str();
        let mut found = false;
        let mut q: usize = 0;
        while q < closed.len()
            invariant
                q <= closed@.len(),
                closed@.len() == cp.len(),
                forall|r: int| 0 <= r < cp.len() ==> (#[trigger] closed@[r])@ == strip_brackets(cp[r]),
                found == exists|r: int| 0 <= r < q && strip_brackets(#[trigger] cp[r]) == item@,
            decreases closed@.len() - q,
        {
            if !found && crate::projector::str_eq(closed[q].as_str(), item) {
                found = true;
            }
            proof {
                if strip_brackets(cp[q as int]) == item@ {
                    assert(closed@[q as int]@ == item@);
                }
            }
            q = q + 1;
        }
        proof {
            assert(found == proves(cp, item@));
            let t = rv.take(j + 1);
            assert(t.drop_last() =~= rv.take(j as int));
            assert(t.last() == item@);
            reveal(Seq::filter);
        }
        let ghost bs = string_views(stripped@);
        let ghost br = string_views(remaining@);
        if found {
            stripped.push(planner_residue[j].clone());
            proof {
                assert(string_views(stripped@) =~= bs.push(item@));
            }
        } else {
            remaining.push(planner_residue[j].clone());
            proof {
                assert(string_views(remaining@) =~= br.push(item@));
            }
        }
        j = j + 1;
    }
    proof {
        assert(rv.take(j as int) =~= rv);
    }
    ResidueDiff { stripped, remaining }
}


/// A closure digest does not depend on the order of the facts: fact lists with the same
/// lines, counted with multiplicity, digest alike.
pub proof fn lemma_closure_digest_order_independent(id: Seq<char>, l1: Seq<Seq<char>>, l2: Seq<Seq<char>>)
    requires
        l1.to_multiset() == l2.to_multiset(),
    ensures
        closure_bytes(id, l1) == closure_bytes(id, l2),
{
    crate::lex::lemma_lex_total_ordering();
    l1.lemma_sort_by_ensures(lex_leq());
    l2.lemma_sort_by_ensures(lex_leq());
    vstd::seq_lib::lemma_sorted_unique(l1.sort_by(lex_leq()), l2.sort_by(lex_leq()), lex_leq());
    assert(l1.sort_by(lex_leq()) == l2.sort_by(lex_leq()));
}

/// The residue comparator partitions the residue: every item is either stripped or
/// remains, and the two lists together are as long as the residue.
pub proof fn lemma_residue_partition(closure_predicates: Seq<Seq<char>>, residue: Seq<Seq<char>>)
    ensures
        split_residue(closure_predicates, residue, true).len() + split_residue(closure_predicates, residue, false).len()
            == residue.len(),
    decreases residue.len(),
{
    reveal(Seq::filter);
    if residue.len() > 0 {
        lemma_residue_partition(closure_predicates, residue.drop_last());
    }
}

} // verus!
