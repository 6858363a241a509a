//! The POWL 2.0 process tree: leaves, partial orders, choice graphs and external cuts,
//! addressed by socket paths.

use vstd::prelude::*;

verus! {

/// A node of a choice's routing graph: the start sentinel, the end sentinel, or one of
/// the choice's children.
#[derive(Clone, Copy, Debug, PartialEq, Eq, Structural)]
pub enum GNode {
    Start,
    End,
    Child(usize),
}

/// A choice's routing graph over `n` children: directed edges between `Start`, `End`
/// and `Child(i)` nodes, in the order of an ordered edge set (`Start < End < Child(i)`,
/// children by index, pairs lexicographically).
#[derive(Debug)]
pub struct ChoiceGraph {
    pub n: usize,
    pub edges: Vec<(GNode, GNode)>,
}

/// A POWL 2.0 model.
#[derive(Debug)]
pub enum Powl {
    /// An activity (`Some(label)`) or a silent step (`None`).
    Leaf(Option<String>),
    /// Children with a strict order over child indices (a lexicographically sorted list
    /// of pairs; pairs absent from it stay incomparable).
    PartialOrder { children: Vec<Powl>, order: Vec<(usize, usize)> },
    /// Children routed through a choice graph.
    Choice { children: Vec<Powl>, graph: ChoiceGraph },
    /// A region handed to an external engine, with its projection and renderer.
    ExternalCut { region: Box<Powl>, projection: String, renderer: String },
}

/// The kind of node a socket addresses.
#[derive(Clone, Copy, Debug, PartialEq, Eq, Structural)]
pub enum SocketKind {
    Leaf,
    PartialOrder,
    Choice,
    ExternalCut,
}

/// A path of child indices from the root.
#[derive(Debug, Clone, PartialEq, Eq)]
pub struct SocketPath {
    pub segments: Vec<usize>,
}

/// A socket: a node's path and kind.
#[derive(Debug, Clone, PartialEq, Eq)]
pub struct WorkflowSocketId {
    pub path: SocketPath,
    pub kind: SocketKind,
}

impl SocketPath {
    /// The root path (no segments).
    pub fn root() -> (res: SocketPath)
        ensures
            res.segments@ == Seq::<usize>::empty(),
    {
        SocketPath { segments: Vec::new() }
    }

    /// This path extended by child index `i`.
    pub fn child(&self, i: usize) -> (res: SocketPath)
        ensures
            res.segments@ == self.segments@.push(i),
    {
        let mut segments: Vec<usize> = Vec::new();
        let mut k: usize = 0;
        while k < self.segments.len()
            invariant
                k <= self.segments@.len(),
                segments@ == self.segments@.take(k as int),
            decreases self.segments@.len() - k,
        {
            segments.push(self.segments[k]);
            proof {
                assert(self.segments@.take(k + 1) =~= self.segments@.take(k as int).push(self.segments@[k as int]));
            }
            k = k + 1;
        }
        proof {
            assert(self.segments@.take(k as int) =~= self.segments@);
        }
        segments.push(i);
        SocketPath { segments }
    }
}

/// The kind of a node.
pub open spec fn kind_of(p: Powl) -> SocketKind {
    match p {
        Powl::Leaf(_) => SocketKind::Leaf,
        Powl::PartialOrder { .. } => SocketKind::PartialOrder,
        Powl::Choice { .. } => SocketKind::Choice,
        Powl::ExternalCut { .. } => SocketKind::ExternalCut,
    }
}

/// The kind of a node.
pub fn socket_kind(p: &Powl) -> (res: SocketKind)
    ensures
        res == kind_of(*p),
{
    match p {
        Powl::Leaf(_) => SocketKind::Leaf,
        Powl::PartialOrder { .. } => SocketKind::PartialOrder,
        Powl::Choice { .. } => SocketKind::Choice,
        Powl::ExternalCut { .. } => SocketKind::ExternalCut,
    }
}


/// The sockets of `p` rooted at `path`, in preorder: the node itself, then each child's
/// sockets in child order (an external cut's region is its child 0).
pub open spec fn sockets_of(p: Powl, path: Seq<usize>) -> Seq<(Seq<usize>, SocketKind)>
    decreases p,
{
    seq![(path, kind_of(p))] + match p {
        Powl::Leaf(_) => Seq::empty(),
        Powl::PartialOrder { children, .. } => forest_sockets(children@, path, 0),
        Powl::Choice { children, .. } => forest_sockets(children@, path, 0),
        Powl::ExternalCut { region, .. } => sockets_of(*region, path.push(0)),
    }
}

/// The sockets of the trees `cs[i..]`, child `k` of `cs` at `path` extended by `k`.
pub open spec fn forest_sockets(cs: Seq<Powl>, path: Seq<usize>, i: int) -> Seq<(Seq<usize>, SocketKind)>
    decreases cs, cs.len() - i,
{
    if 0 <= i < cs.len() {
        sockets_of(cs[i], path.push(i as usize)) + forest_sockets(cs, path, i + 1)
    } else {
        Seq::empty()
    }
}


/// A socket as a plain value: its path and kind.
pub open spec fn socket_view(s: WorkflowSocketId) -> (Seq<usize>, SocketKind) {
    (s.path.segments@, s.kind)
}

/// The sockets a list of socket ids denotes, in order.
pub open spec fn socket_views(v: Seq<WorkflowSocketId>) -> Seq<(Seq<usize>, SocketKind)> {
    v.map_values(|s: WorkflowSocketId| socket_view(s))
}

/// The parent-child edges of `p` rooted at `path`, in preorder: an edge from `path` to
/// each child's path, each followed by the child's own edges.
pub open spec fn edges_of(p: Powl, path: Seq<usize>) -> Seq<((Seq<usize>, SocketKind), (Seq<usize>, SocketKind))>
    decreases p,
{
    match p {
        Powl::Leaf(_) => Seq::empty(),
        Powl::PartialOrder { children, .. } => forest_edges(children@, path, kind_of(p), 0),
        Powl::Choice { children, .. } => forest_edges(children@, path, kind_of(p), 0),
        Powl::ExternalCut { region, .. } => seq![((path, kind_of(p)), (path.push(0), kind_of(*region)))] + edges_of(
            *region,
            path.push(0),
        ),
    }
}

/// The edges from a parent at `path` of kind `k` to the trees `cs[i..]`, each followed
/// by that tree's own edges.
pub open spec fn forest_edges(cs: Seq<Powl>, path: Seq<usize>, k: SocketKind, i: int) -> Seq<
    ((Seq<usize>, SocketKind), (Seq<usize>, SocketKind)),
>
    decreases cs, cs.len() - i,
{
    if 0 <= i < cs.len() {
        seq![((path, k), (path.push(i as usize), kind_of(cs[i])))] + edges_of(cs[i], path.push(i as usize)) + forest_edges(
            cs,
            path,
            k,
            i + 1,
        )
    } else {
        Seq::empty()
    }
}

/// The node at `path` below `p`, if the path leads to one.
pub open spec fn node_at(p: Powl, path: Seq<usize>) -> Option<Powl>
    decreases path.len(),
{
    if path.len() == 0 {
        Some(p)
    } else {
        match p {
            Powl::PartialOrder { children, .. } => if path[0] < children@.len() {
                node_at(children@[path[0] as int], path.drop_first())
            } else {
                None
            },
            Powl::Choice { children, .. } => if path[0] < children@.len() {
                node_at(children@[path[0] as int], path.drop_first())
            } else {
                None
            },
            Powl::ExternalCut { region, .. } => if path[0] == 0 {
                node_at(*region, path.drop_first())
            } else {
                None
            },
            Powl::Leaf(_) => None,
        }
    }
}

/// One direct parent-child edge of a model.
#[derive(Debug)]
pub struct ParentChildEdge {
    pub parent: WorkflowSocketId,
    pub child: WorkflowSocketId,
}

/// The direct parent-child edges of a model, in preorder.
#[derive(Debug)]
pub struct ParentChildClosure {
    pub edges: Vec<ParentChildEdge>,
}

/// An edge as a pair of socket views.
pub open spec fn edge_view(e: ParentChildEdge) -> ((Seq<usize>, SocketKind), (Seq<usize>, SocketKind)) {
    (socket_view(e.parent), socket_view(e.child))
}

/// The edges a list of edges denotes, in order.
pub open spec fn edge_views(v: Seq<ParentChildEdge>) -> Seq<((Seq<usize>, SocketKind), (Seq<usize>, SocketKind))> {
    v.map_values(|e: ParentChildEdge| edge_view(e))
}

impl ParentChildClosure {
    /// The direct edges.
    pub fn edges(&self) -> (res: &Vec<ParentChildEdge>)
        ensures
            res == &self.edges,
    {
        &self.edges
    }
}

impl SocketPath {
    /// A copy of this path.
    pub fn copy(&self) -> (res: SocketPath)
        ensures
            res.segments@ == self.segments@,
    {
        let mut segments: Vec<usize> = Vec::new();
        let mut k: usize = 0;
        while k < self.segments.len()
            invariant
                k <= self.segments@.len(),
                segments@ == self.segments@.take(k as int),
            decreases self.segments@.len() - k,
        {
            segments.push(self.segments[k]);
            proof {
                assert(self.segments@.take(k + 1) =~= self.segments@.take(k as int).push(self.segments@[k as int]));
            }
            k = k + 1;
        }
        proof {
            assert(self.segments@.take(k as int) =~= self.segments@);
        }
        SocketPath { segments }
    }
}

/// Appends the sockets of `p` at `path` to `out`.
fn collect_sockets(p: &Powl, path: &SocketPath, out: &mut Vec<WorkflowSocketId>)
    ensures
        socket_views(final(out)@) == socket_views(old(out)@) + sockets_of(*p, path.segments@),
    decreases p,
{
    let ghost before = socket_views(out@);
    out.push(WorkflowSocketId { path: path.copy(), kind: socket_kind(p) });
    proof {
        assert(socket_views(out@) =~= before + seq![(path.segments@, kind_of(*p))]);
    }
    let ghost mid = socket_views(out@);
    match p {
        Powl::Leaf(_) => {
            proof {
                assert(socket_views(out@) =~= before + sockets_of(*p, path.segments@));
            }
        },
        Powl::PartialOrder { children, .. } => {
            collect_forest(children, path, out);
            proof {
                assert(before + sockets_of(*p, path.segments@) =~= mid + forest_sockets(children@, path.segments@, 0));
            }
        },
        Powl::Choice { children, .. } => {
            collect_forest(children, path, out);
            proof {
                assert(before + sockets_of(*p, path.segments@) =~= mid + forest_sockets(children@, path.segments@, 0));
            }
        },
        Powl::ExternalCut { region, .. } => {
            let child_path = path.child(0);
            collect_sockets(region, &child_path, out);
            proof {
                assert(before + sockets_of(*p, path.segments@) =~= mid + sockets_of(**region, path.segments@.push(0)));
            }
        },
    }
}

/// Appends the sockets of the trees `cs` under `path` to `out`.
fn collect_forest(cs: &Vec<Powl>, path: &SocketPath, out: &mut Vec<WorkflowSocketId>)
    ensures
        socket_views(final(out)@) == socket_views(old(out)@) + forest_sockets(cs@, path.segments@, 0),
    decreases cs@,
{
    let ghost start = socket_views(out@);
    let mut i: usize = 0;
    while i < cs.len()
        invariant
            i <= cs@.len(),
            start + forest_sockets(cs@, path.segments@, 0) == socket_views(out@) + forest_sockets(cs@, path.segments@, i as int),
        decreases cs@.len() - i,
    {
        let ghost before = socket_views(out@);
        let child_path = path.child(i);
        proof {
            assert(decreases_to!(cs@ => cs@[i as int]));
        }
        collect_sockets(&cs[i], &child_path, out);
        proof {
            assert(forest_sockets(cs@, path.segments@, i as int) =~= sockets_of(cs@[i as int], path.segments@.push(i)) + forest_sockets(
                cs@,
                path.segments@,
                i + 1,
            ));
            assert(before + forest_sockets(cs@, path.segments@, i as int) =~= socket_views(out@) + forest_sockets(
                cs@,
                path.segments@,
                i + 1,
            ));
        }
        i = i + 1;
    }
    proof {
        assert(forest_sockets(cs@, path.segments@, i as int) =~= Seq::<(Seq<usize>, SocketKind)>::empty());
        assert(socket_views(out@) + Seq::<(Seq<usize>, SocketKind)>::empty() =~= socket_views(out@));
    }
}

impl Powl {
    /// Every socket of the model, in preorder from the root.
    pub fn sockets(&self) -> (res: Vec<WorkflowSocketId>)
        ensures
            socket_views(res@) == sockets_of(*self, Seq::empty()),
    {
        let mut out: Vec<WorkflowSocketId> = Vec::new();
        let root = SocketPath::root();
        collect_sockets(self, &root, &mut out);
        proof {
            assert(socket_views(Seq::<WorkflowSocketId>::empty()) =~= Seq::<(Seq<usize>, SocketKind)>::empty());
            assert(Seq::<(Seq<usize>, SocketKind)>::empty() + sockets_of(*self, Seq::empty()) =~= sockets_of(*self, Seq::empty()));
        }
        out
    }
}


/// Appends the parent-child edges of `p` at `path` to `out`.
fn collect_edges(p: &Powl, path: &SocketPath, out: &mut Vec<ParentChildEdge>)
    ensures
        edge_views(final(out)@) == edge_views(old(out)@) + edges_of(*p, path.segments@),
    decreases p,
{
    let ghost before = edge_views(out@);
    match p {
        Powl::Leaf(_) => {
            proof {
                assert(edge_views(out@) =~= before + edges_of(*p, path.segments@));
            }
        },
        Powl::PartialOrder { children, .. } => {
            collect_forest_edges(children, path, SocketKind::PartialOrder, out);
        },
        Powl::Choice { children, .. } => {
            collect_forest_edges(children, path, SocketKind::Choice, out);
        },
        Powl::ExternalCut { region, .. } => {
            let child_path = path.child(0);
            out.push(
                ParentChildEdge {
                    parent: WorkflowSocketId { path: path.copy(), kind: SocketKind::ExternalCut },
                    child: WorkflowSocketId { path: child_path.copy(), kind: socket_kind(region) },
                },
            );
            let ghost mid = edge_views(out@);
            proof {
                assert(mid =~= before + seq![((path.segments@, kind_of(*p)), (path.segments@.push(0), kind_of(**region)))]);
            }
            collect_edges(region, &child_path, out);
            proof {
                assert(before + edges_of(*p, path.segments@) =~= mid + edges_of(**region, path.segments@.push(0)));
            }
        },
    }
}

/// Appends the edges from the parent at `path` of kind `k` to each tree of `cs`, each
/// followed by that tree's own edges.
fn collect_forest_edges(cs: &Vec<Powl>, path: &SocketPath, k: SocketKind, out: &mut Vec<ParentChildEdge>)
    ensures
        edge_views(final(out)@) == edge_views(old(out)@) + forest_edges(cs@, path.segments@, k, 0),
    decreases cs@,
{
    let ghost start = edge_views(out@);
    let mut i: usize = 0;
    while i < cs.len()
        invariant
            i <= cs@.len(),
            start + forest_edges(cs@, path.segments@, k, 0) == edge_views(out@) + forest_edges(cs@, path.segments@, k, i as int),
        decreases cs@.len() - i,
    {
        let ghost before = edge_views(out@);
        let child_path = path.child(i);
        out.push(
            ParentChildEdge {
                parent: WorkflowSocketId { path: path.copy(), kind: k },
                child: WorkflowSocketId { path: child_path.copy(), kind: socket_kind(&cs[i]) },
            },
        );
        let ghost mid = edge_views(out@);
        proof {
            assert(mid =~= before + seq![((path.segments@, k), (path.segments@.push(i), kind_of(cs@[i as int])))]);
            assert(decreases_to!(cs@ => cs@[i as int]));
        }
        collect_edges(&cs[i], &child_path, out);
        proof {
            assert(forest_edges(cs@, path.segments@, k, i as int) =~= seq![((path.segments@, k), (path.segments@.push(i), kind_of(cs@[i as int])))]
                + edges_of(cs@[i as int], path.segments@.push(i)) + forest_edges(cs@, path.segments@, k, i + 1));
            assert(before + forest_edges(cs@, path.segments@, k, i as int) =~= edge_views(out@) + forest_edges(
                cs@,
                path.segments@,
                k,
                i + 1,
            ));
        }
        i = i + 1;
    }
    proof {
        assert(forest_edges(cs@, path.segments@, k, i as int) =~= Seq::<((Seq<usize>, SocketKind), (Seq<usize>, SocketKind))>::empty());
        assert(edge_views(out@) + Seq::<((Seq<usize>, SocketKind), (Seq<usize>, SocketKind))>::empty() =~= edge_views(out@));
    }
}

/// A tree has one edge fewer than it has sockets.
pub proof fn lemma_edges_one_fewer(p: Powl, path: Seq<usize>)
    ensures
        edges_of(p, path).len() + 1 == sockets_of(p, path).len(),
    decreases p,
{
    match p {
        Powl::Leaf(_) => {},
        Powl::PartialOrder { children, .. } => {
            lemma_forest_edges_count(children@, path, kind_of(p), 0);
        },
        Powl::Choice { children, .. } => {
            lemma_forest_edges_count(children@, path, kind_of(p), 0);
        },
        Powl::ExternalCut { region, .. } => {
            lemma_edges_one_fewer(*region, path.push(0));
        },
    }
}

/// A forest has as many edges (counting each root's edge from the parent) as sockets.
pub proof fn lemma_forest_edges_count(cs: Seq<Powl>, path: Seq<usize>, k: SocketKind, i: int)
    ensures
        forest_edges(cs, path, k, i).len() == forest_sockets(cs, path, i).len(),
    decreases cs, cs.len() - i,
{
    if 0 <= i < cs.len() {
        lemma_edges_one_fewer(cs[i], path.push(i as usize));
        lemma_forest_edges_count(cs, path, k, i + 1);
    }
}

impl Powl {
    /// The model's direct parent-child edges, in preorder.
    pub fn parent_child_closure(&self) -> (res: ParentChildClosure)
        ensures
            edge_views(res.edges@) == edges_of(*self, Seq::empty()),
    {
        let mut out: Vec<ParentChildEdge> = Vec::new();
        let root = SocketPath::root();
        collect_edges(self, &root, &mut out);
        proof {
            assert(edge_views(Seq::<ParentChildEdge>::empty()) =~= Seq::<((Seq<usize>, SocketKind), (Seq<usize>, SocketKind))>::empty());
            assert(Seq::<((Seq<usize>, SocketKind), (Seq<usize>, SocketKind))>::empty() + edges_of(*self, Seq::empty()) =~= edges_of(
                *self,
                Seq::empty(),
            ));
        }
        ParentChildClosure { edges: out }
    }

    /// The node at `path`, if the path leads to one.
    pub fn socket_at(&self, path: &SocketPath) -> (res: Option<&Powl>)
        ensures
            match res {
                Some(n) => node_at(*self, path.segments@) == Some(*n),
                None => node_at(*self, path.segments@) is None,
            },
    {
        let mut cur: &Powl = self;
        let mut k: usize = 0;
        proof {
            assert(path.segments@.subrange(0, path.segments@.len() as int) =~= path.segments@);
        }
        while k < path.segments.len()
            invariant
                k <= path.segments@.len(),
                node_at(*self, path.segments@) == node_at(*cur, path.segments@.subrange(k as int, path.segments@.len() as int)),
            decreases path.segments@.len() - k,
        {
            let ghost rest = path.segments@.subrange(k as int, path.segments@.len() as int);
            let i = path.segments[k];
            proof {
                assert(rest[0] == i);
                assert(rest.drop_first() =~= path.segments@.subrange(k + 1, path.segments@.len() as int));
            }
            match cur {
                Powl::PartialOrder { children, .. } => {
                    if i >= children.len() {
                        return None;
                    }
                    cur = &children[i];
                },
                Powl::Choice { children, .. } => {
                    if i >= children.len() {
                        return None;
                    }
                    cur = &children[i];
                },
                Powl::ExternalCut { region, .. } => {
                    if i != 0 {
                        return None;
                    }
                    cur = region;
                },
                Powl::Leaf(_) => {
                    return None;
                },
            }
            k = k + 1;
        }
        proof {
            assert(path.segments@.subrange(k as int, path.segments@.len() as int) =~= Seq::<usize>::empty());
        }
        Some(cur)
    }
}


/// A model as plain values.
pub enum PowlView {
    Leaf(Option<Seq<char>>),
    PartialOrder(Seq<PowlView>, Seq<(usize, usize)>),
    Choice(Seq<PowlView>, usize, Seq<(GNode, GNode)>),
    ExternalCut(Box<PowlView>, Seq<char>, Seq<char>),
}

/// The plain values of a model.
pub open spec fn pview(p: Powl) -> PowlView
    decreases p,
{
    match p {
        Powl::Leaf(label) => PowlView::Leaf(
            match label {
                Some(l) => Some(l@),
                None => None,
            },
        ),
        Powl::PartialOrder { children, order } => PowlView::PartialOrder(forest_view(children@, 0), order@),
        Powl::Choice { children, graph } => PowlView::Choice(forest_view(children@, 0), graph.n, graph.edges@),
        Powl::ExternalCut { region, projection, renderer } => PowlView::ExternalCut(
            Box::new(pview(*region)),
            projection@,
            renderer@,
        ),
    }
}

/// The plain values of the trees `cs[i..]`.
pub open spec fn forest_view(cs: Seq<Powl>, i: int) -> Seq<PowlView>
    decreases cs, cs.len() - i,
{
    if 0 <= i < cs.len() {
        seq![pview(cs[i])] + forest_view(cs, i + 1)
    } else {
        Seq::empty()
    }
}

/// The plain values of a list of trees, one per tree.
pub proof fn lemma_forest_view(cs: Seq<Powl>, i: int)
    requires
        0 <= i <= cs.len(),
    ensures
        forest_view(cs, i).len() == cs.len() - i,
        forall|k: int| 0 <= k < cs.len() - i ==> #[trigger] forest_view(cs, i)[k] == pview(cs[i + k]),
    decreases cs.len() - i,
{
    if i < cs.len() {
        lemma_forest_view(cs, i + 1);
        assert forall|k: int| 0 <= k < cs.len() - i implies #[trigger] forest_view(cs, i)[k] == pview(cs[i + k]) by {
            if k > 0 {
                assert(forest_view(cs, i)[k] == forest_view(cs, i + 1)[k - 1]);
            }
        }
    }
}

/// A copy of a list of index pairs.
pub fn copy_pairs(v: &Vec<(usize, usize)>) -> (res: Vec<(usize, usize)>)
    ensures
        res@ == v@,
{
    let mut res: Vec<(usize, usize)> = Vec::new();
    let mut k: usize = 0;
    while k < v.len()
        invariant
            k <= v@.len(),
            res@ == v@.take(k as int),
        decreases v@.len() - k,
    {
        res.push(v[k]);
        proof {
            assert(v@.take(k + 1) =~= v@.take(k as int).push(v@[k as int]));
        }
        k = k + 1;
    }
    proof {
        assert(v@.take(k as int) =~= v@);
    }
    res
}

/// A copy of a list of routing edges.
pub fn copy_edges(v: &Vec<(GNode, GNode)>) -> (res: Vec<(GNode, GNode)>)
    ensures
        res@ == v@,
{
    let mut res: Vec<(GNode, GNode)> = Vec::new();
    let mut k: usize = 0;
    while k < v.len()
        invariant
            k <= v@.len(),
            res@ == v@.take(k as int),
        decreases v@.len() - k,
    {
        res.push(v[k]);
        proof {
            assert(v@.take(k + 1) =~= v@.take(k as int).push(v@[k as int]));
        }
        k = k + 1;
    }
    proof {
        assert(v@.take(k as int) =~= v@);
    }
    res
}

impl Powl {
    /// A deep copy of the model.
    pub fn copy(&self) -> (res: Powl)
        ensures
            pview(res) == pview(*self),
        decreases *self,
    {
        match self {
            Powl::Leaf(label) => {
                let l = match label {
                    Some(s) => Some(s.clone()),
                    None => None,
                };
                Powl::Leaf(l)
            },
            Powl::PartialOrder { children, order } => {
                let cs = copy_forest(children);
                let o = copy_pairs(order);
                Powl::PartialOrder { children: cs, order: o }
            },
            Powl::Choice { children, graph } => {
                let cs = copy_forest(children);
                let e = copy_edges(&graph.edges);
                Powl::Choice { children: cs, graph: ChoiceGraph { n: graph.n, edges: e } }
            },
            Powl::ExternalCut { region, projection, renderer } => {
                let r = region.copy();
                Powl::ExternalCut { region: Box::new(r), projection: projection.clone(), renderer: renderer.clone() }
            },
        }
    }
}

/// A deep copy of a list of trees.
pub fn copy_forest(cs: &Vec<Powl>) -> (res: Vec<Powl>)
    ensures
        forest_view(res@, 0) == forest_view(cs@, 0),
    decreases cs@,
{
    let mut res: Vec<Powl> = Vec::new();
    let mut k: usize = 0;
    while k < cs.len()
        invariant
            k <= cs@.len(),
            res@.len() == k,
            forall|q: int| 0 <= q < k ==> pview(#[trigger] res@[q]) == pview(cs@[q]),
        decreases cs@.len() - k,
    {
        proof {
            assert(decreases_to!(cs@ => cs@[k as int]));
        }
        let c = cs[k].copy();
        res.push(c);
        k = k + 1;
    }
    proof {
        lemma_forest_view(res@, 0);
        lemma_forest_view(cs@, 0);
        assert(forest_view(res@, 0) =~= forest_view(cs@, 0));
    }
    res
}


impl WorkflowSocketId {
    /// A copy of this socket id.
    pub fn copy(&self) -> (res: WorkflowSocketId)
        ensures
            socket_view(res) == socket_view(*self),
    {
        WorkflowSocketId { path: self.path.copy(), kind: self.kind }
    }
}

} // verus!
