//! The POWL serializer: a built model as Turtle, with deterministic structural IRIs.
//! `<base>/n0` is the root; children of a partial order or choice live at `/c<i>`
//! with their bindings at `/binding/<i>`; a choice's routing graph is written as
//! `powl2:routes` edges between its `/start`, `/end` and binding terms; a choice socket
//! with an attached loop bound gets one `powl2:loopMaxIterations` literal.

use vstd::prelude::*;
use crate::geometry::{LoopBound, POWLModel};
use crate::powl::{GNode, Powl, SocketKind, SocketPath, WorkflowSocketId, socket_view};
use crate::text::{decimal, owned, push_char, push_decimal, push_str};

verus! {

/// `s` without its trailing slashes.
pub open spec fn trim_slashes(s: Seq<char>) -> Seq<char>
    decreases s.len(),
{
    if s.len() > 0 && s.last() == '/' {
        trim_slashes(s.drop_last())
    } else {
        s
    }
}

/// The escape of one character inside a double-quoted Turtle literal.
pub open spec fn escape_char(c: char) -> Seq<char> {
    if c == '\\' {
        "\\\\"@
    } else if c == '"' {
        "\\\""@
    } else if c == '\n' {
        "\\n"@
    } else if c == '\r' {
        "\\r"@
    } else if c == '\t' {
        "\\t"@
    } else {
        seq![c]
    }
}

/// `s` escaped for a double-quoted Turtle literal.
pub open spec fn escaped(s: Seq<char>) -> Seq<char>
    decreases s.len(),
{
    if s.len() == 0 {
        Seq::empty()
    } else {
        escaped(s.drop_last()) + escape_char(s.last())
    }
}

/// The IRI term `<base/path>`.
pub open spec fn iri(base: Seq<char>, path: Seq<char>) -> Seq<char> {
    "<"@ + base + "/"@ + path + ">"@
}

/// The path of binding `i` under `path`.
pub open spec fn binding_path(path: Seq<char>, i: nat) -> Seq<char> {
    path + "/binding/"@ + decimal(i)
}

/// The path of child `i` under `path`.
pub open spec fn child_path(path: Seq<char>, i: nat) -> Seq<char> {
    path + "/c"@ + decimal(i)
}

/// The term of a routing-graph node of the choice at `path`.
pub open spec fn gnode_term(base: Seq<char>, path: Seq<char>, g: GNode) -> Seq<char> {
    match g {
        GNode::Start => iri(base, path + "/start"@),
        GNode::End => iri(base, path + "/end"@),
        GNode::Child(i) => iri(base, binding_path(path, i as nat)),
    }
}

/// One `powl2:precedes` line per pair of `order`.
pub open spec fn precedes_lines(base: Seq<char>, path: Seq<char>, order: Seq<(usize, usize)>) -> Seq<char>
    decreases order.len(),
{
    if order.len() == 0 {
        Seq::empty()
    } else {
        precedes_lines(base, path, order.drop_last()) + iri(base, binding_path(path, order.last().0 as nat))
            + " powl2:precedes "@ + iri(base, binding_path(path, order.last().1 as nat)) + " .\n"@
    }
}

/// One `powl2:routes` line per edge of `edges`.
pub open spec fn routes_lines(base: Seq<char>, path: Seq<char>, edges: Seq<(GNode, GNode)>) -> Seq<char>
    decreases edges.len(),
{
    if edges.len() == 0 {
        Seq::empty()
    } else {
        routes_lines(base, path, edges.drop_last()) + gnode_term(base, path, edges.last().0) + " powl2:routes "@
            + gnode_term(base, path, edges.last().1) + " .\n"@
    }
}

/// The bound of the first entry of `lb` keyed by socket `s`.
pub open spec fn bound_lookup(lb: Seq<(WorkflowSocketId, LoopBound)>, s: (Seq<usize>, SocketKind)) -> Option<LoopBound>
    decreases lb.len(),
{
    if lb.len() == 0 {
        None
    } else if socket_view(lb[0].0) == s {
        Some(lb[0].1)
    } else {
        bound_lookup(lb.drop_first(), s)
    }
}

/// The Turtle of `node` at `path`, whose socket path is `sp`.
pub open spec fn node_turtle(
    node: Powl,
    base: Seq<char>,
    path: Seq<char>,
    sp: Seq<usize>,
    lb: Seq<(WorkflowSocketId, LoopBound)>,
) -> Seq<char>
    decreases node,
{
    match node {
        Powl::Leaf(None) => iri(base, path) + " a powl2:Leaf, powl2:SilentLeaf .\n"@,
        Powl::Leaf(Some(label)) => iri(base, path) + " a powl2:Leaf, powl2:ActivityLeaf ;\n  powl2:activityLabel \""@
            + escaped(label@) + "\" .\n"@,
        Powl::PartialOrder { children, order } => iri(base, path) + " a powl2:PartialOrder .\n"@ + children_turtle(
            children@,
            base,
            path,
            sp,
            lb,
            0,
        ) + precedes_lines(base, path, order@),
        Powl::Choice { children, graph } => iri(base, path) + " a powl2:Choice .\n"@ + iri(base, path + "/start"@)
            + " a powl2:ChoiceStart .\n"@ + iri(base, path + "/end"@) + " a powl2:ChoiceEnd .\n"@ + children_turtle(
            children@,
            base,
            path,
            sp,
            lb,
            0,
        ) + routes_lines(base, path, graph.edges@) + match bound_lookup(lb, (sp, SocketKind::Choice)) {
            Some(b) => iri(base, path) + " powl2:loopMaxIterations "@ + decimal(b.max_iterations as nat) + " .\n"@,
            None => Seq::empty(),
        },
        Powl::ExternalCut { region, projection, renderer } => iri(base, path) + " a powl2:ExternalCut .\n"@ + iri(
            base,
            path,
        ) + " powl2:cutRegion "@ + iri(base, path + "/region"@) + " ;\n  powl2:cutProjection \""@ + escaped(projection@)
            + "\" ;\n  powl2:cutRenderer \""@ + escaped(renderer@) + "\" .\n"@ + node_turtle(
            *region,
            base,
            path + "/region"@,
            sp.push(0),
            lb,
        ),
    }
}

/// The Turtle of children `cs[i..]` of the node at `path`: each child's binding, then
/// the child itself.
pub open spec fn children_turtle(
    cs: Seq<Powl>,
    base: Seq<char>,
    path: Seq<char>,
    sp: Seq<usize>,
    lb: Seq<(WorkflowSocketId, LoopBound)>,
    i: int,
) -> Seq<char>
    decreases cs, cs.len() - i,
{
    if 0 <= i < cs.len() {
        iri(base, path) + " powl2:hasChild "@ + iri(base, binding_path(path, i as nat)) + " .\n"@ + iri(
            base,
            binding_path(path, i as nat),
        ) + " a powl2:ChildBinding ;\n  powl2:childIndex "@ + decimal(i as nat) + " ;\n  powl2:childModel "@ + iri(
            base,
            child_path(path, i as nat),
        ) + " .\n"@ + node_turtle(cs[i], base, child_path(path, i as nat), sp.push(i as usize), lb) + children_turtle(
            cs,
            base,
            path,
            sp,
            lb,
            i + 1,
        )
    } else {
        Seq::empty()
    }
}

/// The Turtle of a whole model under `base` (trailing slashes dropped).
pub open spec fn turtle_of(m: POWLModel, base_iri: Seq<char>) -> Seq<char> {
    let base = trim_slashes(base_iri);
    "@prefix powl2: <"@ + "https://truex.io/ontology/powl2#"@ + "> .\n"@ + "@prefix base: <"@ + base + "/> .\n\n"@ + iri(
        base,
        "n0"@,
    ) + " a powl2:Model .\n"@ + node_turtle(m.root, base, "n0"@, Seq::empty(), m.loop_bounds@)
}

// ---------------------------------------------------------------------------------------
// The writer.
// ---------------------------------------------------------------------------------------

/// Escapes a string for a double-quoted Turtle literal.
pub fn escape_turtle_literal(value: &str) -> (res: String)
    ensures
        res@ == escaped(value@),
{
    let mut out = String::new();
    let n = value.unicode_len();
    let mut i: usize = 0;
    while i < n
        invariant
            n == value@.len(),
            i <= n,
            out@ == escaped(value@.take(i as int)),
        decreases n - i,
    {
        let c = value.get_char(i);
        proof {
            assert(value@.take(i + 1).drop_last() =~= value@.take(i as int));
        }
        if c == '\\' {
            push_str(&mut out, "\\\\");
        } else if c == '"' {
            push_str(&mut out, "\\\"");
        } else if c == '\n' {
            push_str(&mut out, "\\n");
        } else if c == '\r' {
            push_str(&mut out, "\\r");
        } else if c == '\t' {
            push_str(&mut out, "\\t");
        } else {
            push_char(&mut out, c);
            proof {
                assert(out@ =~= escaped(value@.take(i as int)) + seq![c]);
            }
        }
        i = i + 1;
    }
    proof {
        assert(value@.take(n as int) =~= value@);
    }
    out
}

/// Appends `<base/path>`.
fn push_iri(out: &mut String, base: &str, path: &str)
    ensures
        final(out)@ == old(out)@ + iri(base@, path@),
{
    push_str(out, "<");
    push_str(out, base);
    push_str(out, "/");
    push_str(out, path);
    push_str(out, ">");
    proof {
        assert(final(out)@ =~= old(out)@ + iri(base@, path@));
    }
}

/// `path` extended by `sep` and the decimal of `i`.
fn indexed_path(path: &str, sep: &str, i: usize) -> (res: String)
    ensures
        res@ == path@ + sep@ + decimal(i as nat),
{
    let mut s = owned(path);
    push_str(&mut s, sep);
    push_decimal(&mut s, i);
    proof {
        assert(s@ =~= path@ + sep@ + decimal(i as nat));
    }
    s
}

/// `path` extended by `suffix`.
fn suffixed_path(path: &str, suffix: &str) -> (res: String)
    ensures
        res@ == path@ + suffix@,
{
    let mut s = owned(path);
    push_str(&mut s, suffix);
    s
}

/// Appends the term of a routing-graph node.
fn push_gnode_term(out: &mut String, base: &str, path: &str, g: GNode)
    ensures
        final(out)@ == old(out)@ + gnode_term(base@, path@, g),
{
    match g {
        GNode::Start => {
            let p = suffixed_path(path, "/start");
            push_iri(out, base, p.as_str());
        },
        GNode::End => {
            let p = suffixed_path(path, "/end");
            push_iri(out, base, p.as_str());
        },
        GNode::Child(i) => {
            let p = indexed_path(path, "/binding/", i);
            push_iri(out, base, p.as_str());
        },
    }
}

/// Appends a string as an escaped double-quoted literal's body.
fn push_escaped(out: &mut String, value: &str)
    ensures
        final(out)@ == old(out)@ + escaped(value@),
{
    let e = escape_turtle_literal(value);
    push_str(out, e.as_str());
}

/// The bound of the first entry of `lb` keyed by `socket`.
fn find_bound(lb: &Vec<(WorkflowSocketId, LoopBound)>, socket: &WorkflowSocketId) -> (res: Option<LoopBound>)
    ensures
        res == bound_lookup(lb@, socket_view(*socket)),
{
    let mut k: usize = 0;
    proof {
        assert(lb@.subrange(0, lb@.len() as int) =~= lb@);
    }
    while k < lb.len()
        invariant
            k <= lb@.len(),
            bound_lookup(lb@, socket_view(*socket)) == bound_lookup(lb@.subrange(k as int, lb@.len() as int), socket_view(*socket)),
        decreases lb@.len() - k,
    {
        let ghost rest = lb@.subrange(k as int, lb@.len() as int);
        proof {
            assert(rest[0] == lb@[k as int]);
            assert(rest.drop_first() =~= lb@.subrange(k + 1, lb@.len() as int));
        }
        if lb[k].0.kind == socket.kind && same_segments(&lb[k].0.path.segments, &socket.path.segments) {
            return Some(lb[k].1);
        }
        k = k + 1;
    }
    proof {
        assert(lb@.subrange(k as int, lb@.len() as int) =~= Seq::<(WorkflowSocketId, LoopBound)>::empty());
    }
    None
}

/// Whether two paths are the same.
fn same_segments(a: &Vec<usize>, b: &Vec<usize>) -> (res: bool)
    ensures
        res == (a@ == b@),
{
    if a.len() != b.len() {
        return false;
    }
    let mut k: usize = 0;
    while k < a.len()
        invariant
            a@.len() == b@.len(),
            k <= a@.len(),
            forall|q: int| 0 <= q < k ==> a@[q] == b@[q],
        decreases a@.len() - k,
    {
        if a[k] != b[k] {
            return false;
        }
        k = k + 1;
    }
    proof {
        assert(a@ =~= b@);
    }
    true
}


/// Appends one `powl2:precedes` line per pair of `order`.
fn push_precedes(out: &mut String, base: &str, path: &str, order: &Vec<(usize, usize)>)
    ensures
        final(out)@ == old(out)@ + precedes_lines(base@, path@, order@),
{
    let ghost start = out@;
    let mut k: usize = 0;
    while k < order.len()
        invariant
            k <= order@.len(),
            out@ == start + precedes_lines(base@, path@, order@.take(k as int)),
        decreases order@.len() - k,
    {
        let (i, j) = order[k];
        let bi = indexed_path(path, "/binding/", i);
        let bj = indexed_path(path, "/binding/", j);
        let ghost before = out@;
        push_iri(out, base, bi.as_str());
        push_str(out, " powl2:precedes ");
        push_iri(out, base, bj.as_str());
        push_str(out, " .\n");
        proof {
            assert(order@.take(k + 1).drop_last() =~= order@.take(k as int));
            assert(order@.take(k + 1).last() == order@[k as int]);
            assert(out@ =~= before + iri(base@, binding_path(path@, i as nat)) + " powl2:precedes "@ + iri(
                base@,
                binding_path(path@, j as nat),
            ) + " .\n"@);
        }
        k = k + 1;
    }
    proof {
        assert(order@.take(k as int) =~= order@);
    }
}

/// Appends one `powl2:routes` line per edge of `edges`.
fn push_routes(out: &mut String, base: &str, path: &str, edges: &Vec<(GNode, GNode)>)
    ensures
        final(out)@ == old(out)@ + routes_lines(base@, path@, edges@),
{
    let ghost start = out@;
    let mut k: usize = 0;
    while k < edges.len()
        invariant
            k <= edges@.len(),
            out@ == start + routes_lines(base@, path@, edges@.take(k as int)),
        decreases edges@.len() - k,
    {
        let (u, v) = edges[k];
        let ghost before = out@;
        push_gnode_term(out, base, path, u);
        push_str(out, " powl2:routes ");
        push_gnode_term(out, base, path, v);
        push_str(out, " .\n");
        proof {
            assert(edges@.take(k + 1).drop_last() =~= edges@.take(k as int));
            assert(edges@.take(k + 1).last() == edges@[k as int]);
            assert(out@ =~= before + gnode_term(base@, path@, u) + " powl2:routes "@ + gnode_term(base@, path@, v) + " .\n"@);
        }
        k = k + 1;
    }
    proof {
        assert(edges@.take(k as int) =~= edges@);
    }
}

/// Appends the Turtle of `node` at `path`, whose socket path is `sp`.
#[verifier::spinoff_prover]
#[verifier::rlimit(60)]
fn emit_node(
    node: &Powl,
    base: &str,
    path: &str,
    sp: &SocketPath,
    lb: &Vec<(WorkflowSocketId, LoopBound)>,
    out: &mut String,
)
    ensures
        final(out)@ == old(out)@ + node_turtle(*node, base@, path@, sp.segments@, lb@),
    decreases node,
{
    let ghost start = out@;
    match node {
        Powl::Leaf(None) => {
            push_iri(out, base, path);
            push_str(out, " a powl2:Leaf, powl2:SilentLeaf .\n");
            proof {
                assert(out@ =~= start + node_turtle(*node, base@, path@, sp.segments@, lb@));
            }
        },
        Powl::Leaf(Some(label)) => {
            push_iri(out, base, path);
            push_str(out, " a powl2:Leaf, powl2:ActivityLeaf ;\n  powl2:activityLabel \"");
            push_escaped(out, label.as_str());
            push_str(out, "\" .\n");
            proof {
                assert(out@ =~= start + node_turtle(*node, base@, path@, sp.segments@, lb@));
            }
        },
        Powl::PartialOrder { children, order } => {
            push_iri(out, base, path);
            push_str(out, " a powl2:PartialOrder .\n");
            let ghost a = out@;
            emit_children(children, base, path, sp, lb, out);
            let ghost b = out@;
            push_precedes(out, base, path, order);
            proof {
                assert(a == start + iri(base@, path@) + " a powl2:PartialOrder .\n"@);
                assert(out@ =~= start + node_turtle(*node, base@, path@, sp.segments@, lb@));
            }
        },
        Powl::Choice { children, graph } => {
            push_iri(out, base, path);
            push_str(out, " a powl2:Choice .\n");
            let sp_start = suffixed_path(path, "/start");
            let sp_end = suffixed_path(path, "/end");
            push_iri(out, base, sp_start.as_str());
            push_str(out, " a powl2:ChoiceStart .\n");
            push_iri(out, base, sp_end.as_str());
            push_str(out, " a powl2:ChoiceEnd .\n");
            let ghost a = out@;
            emit_children(children, base, path, sp, lb, out);
            push_routes(out, base, path, &graph.edges);
            let ghost b = out@;
            let socket = WorkflowSocketId { path: sp.copy(), kind: SocketKind::Choice };
            match find_bound(lb, &socket) {
                Some(bound) => {
                    push_iri(out, base, path);
                    push_str(out, " powl2:loopMaxIterations ");
                    push_decimal(out, bound.max_iterations as usize);
                    push_str(out, " .\n");
                    proof {
                        assert(out@ =~= b + iri(base@, path@) + " powl2:loopMaxIterations "@ + decimal(bound.max_iterations as nat)
                            + " .\n"@);
                    }
                },
                None => {},
            }
            proof {
                assert(a == start + iri(base@, path@) + " a powl2:Choice .\n"@ + iri(base@, path@ + "/start"@)
                    + " a powl2:ChoiceStart .\n"@ + iri(base@, path@ + "/end"@) + " a powl2:ChoiceEnd .\n"@);
                assert(out@ =~= start + node_turtle(*node, base@, path@, sp.segments@, lb@));
            }
        },
        Powl::ExternalCut { region, projection, renderer } => {
            let rp = suffixed_path(path, "/region");
            push_iri(out, base, path);
            push_str(out, " a powl2:ExternalCut .\n");
            push_iri(out, base, path);
            push_str(out, " powl2:cutRegion ");
            push_iri(out, base, rp.as_str());
            push_str(out, " ;\n  powl2:cutProjection \"");
            push_escaped(out, projection.as_str());
            push_str(out, "\" ;\n  powl2:cutRenderer \"");
            push_escaped(out, renderer.as_str());
            push_str(out, "\" .\n");
            let ghost a = out@;
            let region_sp = sp.child(0);
            emit_node(region, base, rp.as_str(), &region_sp, lb, out);
            proof {
                assert(out@ =~= start + node_turtle(*node, base@, path@, sp.segments@, lb@));
            }
        },
    }
}

/// Appends the Turtle of the children `cs` of the node at `path`.
fn emit_children(
    cs: &Vec<Powl>,
    base: &str,
    path: &str,
    sp: &SocketPath,
    lb: &Vec<(WorkflowSocketId, LoopBound)>,
    out: &mut String,
)
    ensures
        final(out)@ == old(out)@ + children_turtle(cs@, base@, path@, sp.segments@, lb@, 0),
    decreases cs@,
{
    let ghost start = out@;
    let mut i: usize = 0;
    while i < cs.len()
        invariant
            i <= cs@.len(),
            start + children_turtle(cs@, base@, path@, sp.segments@, lb@, 0) == out@ + children_turtle(
                cs@,
                base@,
                path@,
                sp.segments@,
                lb@,
                i as int,
            ),
        decreases cs@.len() - i,
    {
        let ghost before = out@;
        let bp = indexed_path(path, "/binding/", i);
        let cp = indexed_path(path, "/c", i);
        push_iri(out, base, path);
        push_str(out, " powl2:hasChild ");
        push_iri(out, base, bp.as_str());
        push_str(out, " .\n");
        push_iri(out, base, bp.as_str());
        push_str(out, " a powl2:ChildBinding ;\n  powl2:childIndex ");
        push_decimal(out, i);
        push_str(out, " ;\n  powl2:childModel ");
        push_iri(out, base, cp.as_str());
        push_str(out, " .\n");
        let ghost mid = out@;
        let child_sp = sp.child(i);
        proof {
            assert(decreases_to!(cs@ => cs@[i as int]));
        }
        emit_node(&cs[i], base, cp.as_str(), &child_sp, lb, out);
        proof {
            let head = iri(base@, path@) + " powl2:hasChild "@ + iri(base@, binding_path(path@, i as nat)) + " .\n"@ + iri(
                base@,
                binding_path(path@, i as nat),
            ) + " a powl2:ChildBinding ;\n  powl2:childIndex "@ + decimal(i as nat) + " ;\n  powl2:childModel "@ + iri(
                base@,
                child_path(path@, i as nat),
            ) + " .\n"@;
            assert(mid =~= before + head);
            assert(children_turtle(cs@, base@, path@, sp.segments@, lb@, i as int) == head + node_turtle(
                cs@[i as int],
                base@,
                child_path(path@, i as nat),
                sp.segments@.push(i),
                lb@,
            ) + children_turtle(cs@, base@, path@, sp.segments@, lb@, i + 1));
            assert(before + children_turtle(cs@, base@, path@, sp.segments@, lb@, i as int) =~= out@ + children_turtle(
                cs@,
                base@,
                path@,
                sp.segments@,
                lb@,
                i + 1,
            ));
        }
        i = i + 1;
    }
    proof {
        assert(children_turtle(cs@, base@, path@, sp.segments@, lb@, i as int) =~= Seq::<char>::empty());
        assert(out@ + Seq::<char>::empty() =~= out@);
    }
}

/// Serializes a model as Turtle under `base_iri`, trailing slashes dropped.
pub fn to_turtle(model: &POWLModel, base_iri: &str) -> (res: String)
    ensures
        res@ == turtle_of(*model, base_iri@),
{
    let mut k = base_iri.unicode_len();
    proof {
        assert(base_iri@.take(k as int) =~= base_iri@);
    }
    while k > 0 && base_iri.get_char(k - 1) == '/'
        invariant
            k <= base_iri@.len(),
            trim_slashes(base_iri@) == trim_slashes(base_iri@.take(k as int)),
        decreases k,
    {
        proof {
            assert(base_iri@.take(k as int).drop_last() =~= base_iri@.take(k - 1));
        }
        k = k - 1;
    }
    let base = base_iri.substring_char(0, k);
    proof {
        assert(base@ =~= base_iri@.take(k as int));
        assert(trim_slashes(base@) == base@);
    }
    let mut out = owned("@prefix powl2: <");
    push_str(&mut out, "https://truex.io/ontology/powl2#");
    push_str(&mut out, "> .\n");
    push_str(&mut out, "@prefix base: <");
    push_str(&mut out, base);
    push_str(&mut out, "/> .\n\n");
    push_iri(&mut out, base, "n0");
    push_str(&mut out, " a powl2:Model .\n");
    let ghost head = out@;
    let root = SocketPath::root();
    emit_node(&model.root, base, "n0", &root, &model.loop_bounds, &mut out);
    proof {
        assert(out@ =~= turtle_of(*model, base_iri@));
    }
    out
}

} // verus!
