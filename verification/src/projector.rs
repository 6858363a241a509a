//! The problem projector's literal selection: the planning domain and problem are
//! reached only through a predicate-keyed selection over admitted facts.

use vstd::prelude::*;

verus! {

/// The predicate under which an admitted graph holds the planning domain text.
pub const PDDL_DOMAIN_PREDICATE: &'static str = "urn:chatman:engine#pddlDomain";

/// The predicate under which an admitted graph holds the planning problem text.
pub const PDDL_PROBLEM_PREDICATE: &'static str = "urn:chatman:engine#pddlProblem";

/// The predicate under which an admitted graph holds the hook-pack catalog text.
pub const HOOK_PACK_PREDICATE: &'static str = "urn:mfw:f08#hookPack";

/// One admitted fact: a subject, a predicate IRI and its literal object.
#[derive(Debug, Clone, PartialEq, Eq)]
pub struct AdmittedTriple {
    pub subject: String,
    pub predicate: String,
    pub object_literal: String,
}

/// The literal of the first fact whose predicate is `predicate`, or `None`.
pub fn select_literal<'a>(graph: &'a [AdmittedTriple], predicate: &str) -> (res: Option<&'a str>)
    ensures
        match res {
            Some(lit) => exists|i: int|
                0 <= i < graph@.len() && (#[trigger] graph@[i]).predicate@ == predicate@ && lit@ == graph@[i].object_literal@
                    && forall|j: int| 0 <= j < i ==> (#[trigger] graph@[j]).predicate@ != predicate@,
            None => forall|i: int| 0 <= i < graph@.len() ==> (#[trigger] graph@[i]).predicate@ != predicate@,
        },
{
    let mut i: usize = 0;
    while i < graph.len()
        invariant
            i <= graph@.len(),
            forall|j: int| 0 <= j < i ==> (#[trigger] graph@[j]).predicate@ != predicate@,
        decreases graph@.len() - i,
    {
        if str_eq(graph[i].predicate.as_str(), predicate) {
            return Some(graph[i].object_literal.as_str());
        }
        i = i + 1;
    }
    None
}

/// Whether two strings hold the same characters.
pub fn str_eq(a: &str, b: &str) -> (res: bool)
    ensures
        res == (a@ == b@),
{
    let la = a.unicode_len();
    let lb = b.unicode_len();
    if la != lb {
        return false;
    }
    let mut i: usize = 0;
    while i < la
        invariant
            la == a@.len(),
            lb == b@.len(),
            la == lb,
            i <= la,
            forall|k: int| 0 <= k < i ==> a@[k] == b@[k],
        decreases la - i,
    {
        if a.get_char(i) != b.get_char(i) {
            return false;
        }
        i = i + 1;
    }
    proof {
        assert(a@ =~= b@);
    }
    true
}

} // verus!
