//! Dependency graph over a function body.
//!
//! One node per storage location (locals first, then marker nodes created
//! for projections and constants), one edge per data dependency.  Nodes
//! carry an ordered list of operation tags, one per write; edges carry
//! the dependency kind and the sequence number of the write that created
//! them.  Queries run over the adjacency lists with an explicit worklist,
//! so deep or cyclic graphs cannot overflow the stack.

use vstd::prelude::*;

use crate::ir::{AggCtor, BasicBlock, BorrowKind, CallFunc, FnBody, Operand, Place, ProjElem,
    Rvalue, Statement, Terminator};

verus! {

/// The operation recorded on a node for one write.
#[derive(Debug, Clone, Copy, PartialEq, Eq)]
pub enum NodeOp {
    Nop,
    Unsupported,
    Const(i64),
    Use,
    Repeat,
    Ref,
    ThreadLocalRef,
    AddressOf,
    Len,
    Cast,
    BinaryOp,
    CheckedBinaryOp,
    NullaryOp,
    UnaryOp,
    Discriminant,
    Aggregate(AggCtor),
    ShallowInitBox,
    CopyForDeref,
    RawPtr,
    Call(usize),
    /// An indirect call; the first incoming edge is the function operand.
    CallOperand,
}

/// The dependency kind of an edge.
#[derive(Debug, Clone, Copy, PartialEq, Eq)]
pub enum EdgeOp {
    Nop,
    Move,
    Copy,
    Const,
    Immut,
    Mut,
    Deref,
    Field(usize),
    Downcast(usize),
    Index,
    ConstIndex,
    SubSlice,
    SubType,
}

/// A data-dependency edge from `src` to `dst`.
#[derive(Debug, Clone, Copy, PartialEq, Eq)]
pub struct GraphEdge {
    pub src: usize,
    pub dst: usize,
    pub op: EdgeOp,
    pub seq: usize,
}

/// A graph node: its write operations and its adjacency lists of edge
/// indices.
#[derive(Debug)]
pub struct GraphNode {
    pub ops: Vec<NodeOp>,
    pub seq: usize,
    pub out_edges: Vec<usize>,
    pub in_edges: Vec<usize>,
}

impl GraphNode {
    /// A fresh node with a single `Nop` tag.
    pub fn new() -> (r: GraphNode)
        ensures
            r.ops@.len() == 1,
            r.ops@[0] == NodeOp::Nop,
            r.seq == 0,
            r.out_edges@.len() == 0,
            r.in_edges@.len() == 0,
    {
        let mut ops: Vec<NodeOp> = Vec::new();
        ops.push(NodeOp::Nop);
        GraphNode { ops, seq: 0, out_edges: Vec::new(), in_edges: Vec::new() }
    }
}

/// Traversal direction: follow edges backward to sources, forward to
/// destinations, or both ways.
#[derive(Debug, Clone, Copy)]
pub enum Direction {
    Upside,
    Downside,
    Both,
}

/// Whether a traversal goes on below a node or stops there.
#[derive(Debug)]
pub enum DFSStatus {
    Continue,
    Stop,
}

impl DFSStatus {
    /// Continue only when both do.
    pub fn and(s1: DFSStatus, s2: DFSStatus) -> (r: DFSStatus)
        ensures
            (r is Continue) == ((s1 is Continue) && (s2 is Continue)),
    {
        if matches!(s1, DFSStatus::Stop) || matches!(s2, DFSStatus::Stop) {
            DFSStatus::Stop
        } else {
            DFSStatus::Continue
        }
    }

    /// Continue when either does.
    pub fn or(s1: DFSStatus, s2: DFSStatus) -> (r: DFSStatus)
        ensures
            (r is Continue) == ((s1 is Continue) || (s2 is Continue)),
    {
        if matches!(s1, DFSStatus::Continue) || matches!(s2, DFSStatus::Continue) {
            DFSStatus::Continue
        } else {
            DFSStatus::Stop
        }
    }
}

/// Which edges a traversal may follow.
#[derive(Debug, Clone, Copy)]
pub enum EdgeFilter {
    /// Follow every edge.
    AllEdges,
    /// Follow only value-identity edges (copy, move, borrow).
    EquivalentOnly,
}

/// Which nodes a traversal may pass through.
#[derive(Debug, Clone, Copy)]
pub enum NodeGate {
    /// Pass through every node.
    AllNodes,
    /// Pass only through nodes all of whose operations preserve identity.
    EquivStrict,
    /// Pass through nodes with at least one identity-preserving operation.
    EquivLenient,
}

/// Does an edge kind preserve value identity?
pub open spec fn spec_edge_equiv(op: EdgeOp) -> bool {
    op == EdgeOp::Copy || op == EdgeOp::Move || op == EdgeOp::Mut || op == EdgeOp::Immut
}

/// Does a node operation preserve value identity?
pub open spec fn spec_op_equiv(op: NodeOp) -> bool {
    op == NodeOp::Nop || op == NodeOp::Use || op == NodeOp::Ref
}

/// The node admission rule of the equivalence walk.
pub open spec fn spec_equiv_gate(strict: bool) -> NodeGate {
    if strict {
        NodeGate::EquivStrict
    } else {
        NodeGate::EquivLenient
    }
}

/// The dependency graph of one function.
pub struct Graph {
    /// The function's identity.
    pub fn_id: usize,
    /// Its argument count.
    pub argc: usize,
    /// Locals first, then marker nodes.
    pub nodes: Vec<GraphNode>,
    /// Append-only edge list.
    pub edges: Vec<GraphEdge>,
    /// Number of locals (nodes below this index are locals).
    pub n_locals: usize,
    /// Closures constructed in the body.
    pub closures: Vec<usize>,
}

impl Graph {
    /// Adjacency lists and edge endpoints are consistent and in bounds.
    pub open spec fn wf(self) -> bool {
        &&& forall|e: int|
            0 <= e < self.edges@.len() ==> (#[trigger] self.edges@[e]).src < self.nodes@.len()
                && self.edges@[e].dst < self.nodes@.len()
        &&& forall|n: int, k: int|
            0 <= n < self.nodes@.len() && 0 <= k < self.nodes@[n].out_edges@.len() ==> (
            #[trigger] self.nodes@[n].out_edges@[k]) < self.edges@.len()
                && self.edges@[self.nodes@[n].out_edges@[k] as int].src == n
        &&& forall|n: int, k: int|
            0 <= n < self.nodes@.len() && 0 <= k < self.nodes@[n].in_edges@.len() ==> (
            #[trigger] self.nodes@[n].in_edges@[k]) < self.edges@.len()
                && self.edges@[self.nodes@[n].in_edges@[k] as int].dst == n
    }

    /// An edge passes the filter.
    pub open spec fn spec_edge_admitted(self, e: int, filter: EdgeFilter) -> bool {
        match filter {
            EdgeFilter::AllEdges => true,
            EdgeFilter::EquivalentOnly => spec_edge_equiv(self.edges@[e].op),
        }
    }

    /// Is the node admitted by the rule?
    pub open spec fn spec_node_ok(self, n: int, gate: NodeGate) -> bool {
        match gate {
            NodeGate::AllNodes => true,
            NodeGate::EquivStrict => forall|k: int|
                0 <= k < self.nodes@[n].ops@.len() ==> spec_op_equiv(#[trigger] self.nodes@[n].ops@[k]),
            NodeGate::EquivLenient => exists|k: int|
                0 <= k < self.nodes@[n].ops@.len() && spec_op_equiv(#[trigger] self.nodes@[n].ops@[k]),
        }
    }

    /// One admitted traversal step from `a` to `b`.
    pub open spec fn spec_step(
        self,
        direction: Direction,
        filter: EdgeFilter,
        gate: NodeGate,
        a: int,
        b: int,
    ) -> bool {
        &&& 0 <= a < self.nodes@.len()
        &&& 0 <= b < self.nodes@.len()
        &&& self.spec_node_ok(a, gate)
        &&& self.spec_node_ok(b, gate)
        &&& match direction {
            Direction::Downside => self.spec_down_edge(filter, a, b),
            Direction::Upside => self.spec_up_edge(filter, a, b),
            Direction::Both => self.spec_down_edge(filter, a, b) || self.spec_up_edge(filter, a, b),
        }
    }

    /// An admitted out-edge of `a` ends in `b`.
    pub open spec fn spec_down_edge(self, filter: EdgeFilter, a: int, b: int) -> bool {
        exists|k: int|
            0 <= k < self.nodes@[a].out_edges@.len() && {
                let e = #[trigger] self.nodes@[a].out_edges@[k] as int;
                self.spec_edge_admitted(e, filter) && self.edges@[e].dst == b
            }
    }

    /// An admitted in-edge of `a` starts in `b`.
    pub open spec fn spec_up_edge(self, filter: EdgeFilter, a: int, b: int) -> bool {
        exists|k: int|
            0 <= k < self.nodes@[a].in_edges@.len() && {
                let e = #[trigger] self.nodes@[a].in_edges@[k] as int;
                self.spec_edge_admitted(e, filter) && self.edges@[e].src == b
            }
    }

    /// `p` is an admitted traversal path.
    pub open spec fn spec_path_ok(
        self,
        direction: Direction,
        filter: EdgeFilter,
        gate: NodeGate,
        p: Seq<int>,
    ) -> bool {
        &&& p.len() >= 1
        &&& forall|t: int| 0 <= t < p.len() ==> 0 <= #[trigger] p[t] < self.nodes@.len()
        &&& forall|t: int| 0 <= t < p.len() ==> self.spec_node_ok(#[trigger] p[t], gate)
        &&& forall|t: int|
            0 <= t < p.len() - 1 ==> self.spec_step(direction, filter, gate, #[trigger] p[t], p[t + 1])
    }

    /// `b` is reachable from `a` along admitted steps (through admitted
    /// nodes, `a` and `b` included).
    pub open spec fn spec_reaches(
        self,
        direction: Direction,
        filter: EdgeFilter,
        gate: NodeGate,
        a: int,
        b: int,
    ) -> bool {
        exists|p: Seq<int>|
            self.spec_path_ok(direction, filter, gate, p) && p[0] == a && p.last() == b
    }
}

/// The edge kinds of an edge list, in order.
pub open spec fn edge_ops_of(edges: Seq<GraphEdge>) -> Seq<EdgeOp> {
    edges.map_values(|e: GraphEdge| e.op)
}

/// The edge kinds one projection step contributes.
pub open spec fn spec_proj_ops(p: ProjElem) -> Seq<EdgeOp> {
    match p {
        ProjElem::Deref => seq![EdgeOp::Deref],
        ProjElem::Field(i) => seq![EdgeOp::Field(i)],
        ProjElem::Downcast(i) => seq![EdgeOp::Downcast(i)],
        ProjElem::Index(_) => seq![EdgeOp::Index, EdgeOp::Index],
        ProjElem::ConstIndex => seq![EdgeOp::ConstIndex],
        ProjElem::SubSlice => seq![EdgeOp::SubSlice],
        ProjElem::SubType => seq![EdgeOp::SubType],
    }
}

/// The edge kinds a projection list contributes.
pub open spec fn spec_projs_ops(proj: Seq<ProjElem>) -> Seq<EdgeOp>
    decreases proj.len(),
{
    if proj.len() == 0 {
        Seq::empty()
    } else {
        spec_proj_ops(proj[0]) + spec_projs_ops(proj.skip(1))
    }
}

/// The edge kind of an operand use.
pub open spec fn spec_operand_op(op: Operand) -> EdgeOp {
    match op {
        Operand::Copy(_) => EdgeOp::Copy,
        Operand::Move(_) => EdgeOp::Move,
        Operand::Constant(_) => EdgeOp::Const,
    }
}

/// The edge kinds wiring one operand to its target: the operand place's
/// projection chain, then the use edge itself.
pub open spec fn spec_operand_ops(op: Operand) -> Seq<EdgeOp> {
    match op {
        Operand::Copy(p) => spec_projs_ops(p.projection@) + seq![EdgeOp::Copy],
        Operand::Move(p) => spec_projs_ops(p.projection@) + seq![EdgeOp::Move],
        Operand::Constant(_) => seq![EdgeOp::Const],
    }
}

/// The edge kinds of a list of operands, from index `t` on.
pub open spec fn spec_operands_ops(ops: Seq<Operand>, t: int) -> Seq<EdgeOp>
    decreases ops.len() - t,
{
    if t < 0 || t >= ops.len() {
        Seq::empty()
    } else {
        spec_operand_ops(ops[t]) + spec_operands_ops(ops, t + 1)
    }
}

/// The operation an assignment records on its target node.
pub open spec fn spec_rvalue_node_op(rv: Rvalue) -> NodeOp {
    match rv {
        Rvalue::Use(_) => NodeOp::Use,
        Rvalue::Repeat(_) => NodeOp::Repeat,
        Rvalue::Ref(_, _) => NodeOp::Ref,
        Rvalue::Len(_) => NodeOp::Len,
        Rvalue::Cast(_) => NodeOp::Cast,
        Rvalue::BinaryOp(_, _, _) => NodeOp::CheckedBinaryOp,
        Rvalue::NullaryOp => NodeOp::NullaryOp,
        Rvalue::UnaryOp(_, _) => NodeOp::UnaryOp,
        Rvalue::Discriminant(_) => NodeOp::Discriminant,
        Rvalue::Aggregate(ctor, _) => NodeOp::Aggregate(ctor),
        Rvalue::ShallowInitBox(_) => NodeOp::ShallowInitBox,
        Rvalue::CopyForDeref(_) => NodeOp::CopyForDeref,
        Rvalue::RawPtr(_) => NodeOp::RawPtr,
        Rvalue::ThreadLocalRef => NodeOp::ThreadLocalRef,
    }
}

/// The edge kinds an assignment's right-hand side contributes.
pub open spec fn spec_rvalue_edge_ops(rv: Rvalue) -> Seq<EdgeOp> {
    match rv {
        Rvalue::Use(op) => spec_operand_ops(op),
        Rvalue::Repeat(op) => spec_operand_ops(op),
        Rvalue::Ref(bk, p) => spec_projs_ops(p.projection@) + seq![
            match bk {
                BorrowKind::Shared => EdgeOp::Immut,
                BorrowKind::Mutable => EdgeOp::Mut,
                BorrowKind::Fake => EdgeOp::Nop,
            },
        ],
        Rvalue::Len(p) => spec_projs_ops(p.projection@) + seq![EdgeOp::Nop],
        Rvalue::Cast(op) => spec_operand_ops(op),
        Rvalue::BinaryOp(_, op1, op2) => spec_operand_ops(op1) + spec_operand_ops(op2),
        Rvalue::NullaryOp => seq![EdgeOp::Nop],
        Rvalue::UnaryOp(_, op) => spec_operand_ops(op),
        Rvalue::Discriminant(p) => spec_projs_ops(p.projection@) + seq![EdgeOp::Nop],
        Rvalue::Aggregate(_, ops) => spec_operands_ops(ops@, 0),
        Rvalue::ShallowInitBox(op) => spec_operand_ops(op),
        Rvalue::CopyForDeref(p) => spec_projs_ops(p.projection@) + seq![EdgeOp::Nop],
        Rvalue::RawPtr(p) => spec_projs_ops(p.projection@) + seq![EdgeOp::Nop],
        Rvalue::ThreadLocalRef => Seq::empty(),
    }
}

impl Graph {
    /// Every local mentioned by the place is a node.
    pub open spec fn place_ok(self, p: Place) -> bool {
        place_bounded(p, self.nodes@.len() as int)
    }

    /// Every local mentioned by the operand is a node.
    pub open spec fn operand_ok(self, op: Operand) -> bool {
        operand_bounded(op, self.nodes@.len() as int)
    }

    /// All operands in a list are in bounds.
    pub open spec fn operands_ok(self, ops: Seq<Operand>) -> bool {
        operands_bounded(ops, self.nodes@.len() as int)
    }

    /// Node count, every node's operations and write counter, and the
    /// bookkeeping fields are untouched (only adjacency lists changed).
    pub open spec fn nodes_ops_unchanged(self, old_g: Graph) -> bool {
        &&& self.nodes@.len() == old_g.nodes@.len()
        &&& forall|t: int|
            0 <= t < self.nodes@.len() ==> (#[trigger] self.nodes@[t].ops@) == old_g.nodes@[t].ops@
                && self.nodes@[t].seq == old_g.nodes@[t].seq
    }

    /// Old nodes keep their operations and write counters (new marker
    /// nodes may have been appended).
    pub open spec fn old_nodes_ops_unchanged(self, old_g: Graph) -> bool {
        &&& self.nodes@.len() >= old_g.nodes@.len()
        &&& forall|t: int|
            0 <= t < old_g.nodes@.len() ==> (#[trigger] self.nodes@[t].ops@)
                == old_g.nodes@[t].ops@ && self.nodes@[t].seq == old_g.nodes@[t].seq
    }

    /// The administrative fields are untouched.
    pub open spec fn admin_unchanged(self, old_g: Graph) -> bool {
        &&& self.fn_id == old_g.fn_id
        &&& self.argc == old_g.argc
        &&& self.n_locals == old_g.n_locals
    }

    /// A fresh graph for one function: one node per declared local, no
    /// edges yet.
    #[verifier::loop_isolation(false)]
    #[verifier::rlimit(60)]
    #[verifier::spinoff_prover]
    pub fn new(fn_id: usize, argc: usize, n_locals: usize) -> (r: Graph)
        ensures
            r.wf(),
            r.fn_id == fn_id,
            r.argc == argc,
            r.n_locals == n_locals,
            r.nodes@.len() == n_locals,
            r.edges@.len() == 0,
            forall|t: int|
                0 <= t < n_locals ==> (#[trigger] r.nodes@[t].ops@).len() == 1
                    && r.nodes@[t].ops@[0] == NodeOp::Nop && r.nodes@[t].seq == 0,
    {
        let mut nodes: Vec<GraphNode> = Vec::new();
        let mut i: usize = 0;
        while i < n_locals
            invariant
                i <= n_locals,
                nodes@.len() == i,
                forall|t: int|
                    0 <= t < i ==> (#[trigger] nodes@[t].ops@).len() == 1 && nodes@[t].ops@[0]
                        == NodeOp::Nop && nodes@[t].seq == 0 && nodes@[t].out_edges@.len() == 0
                        && nodes@[t].in_edges@.len() == 0,
            decreases n_locals - i,
        {
            nodes.push(GraphNode::new());
            i = i + 1;
        }
        let ghost nv = nodes@;
        let r = Graph { fn_id, argc, nodes, edges: Vec::new(), n_locals, closures: Vec::new() };
        proof {
            assert(r.nodes@ == nv);
            assert(r.edges@.len() == 0);
            assert forall|t: int| 0 <= t < n_locals implies (#[trigger] r.nodes@[t].ops@).len()
                == 1 && r.nodes@[t].ops@[0] == NodeOp::Nop && r.nodes@[t].seq == 0 by {
                assert(r.nodes@[t].ops@ == nv[t].ops@);
            }
            assert forall|n: int, k: int|
                0 <= n < r.nodes@.len() && 0 <= k < r.nodes@[n].out_edges@.len() implies (
            #[trigger] r.nodes@[n].out_edges@[k]) < r.edges@.len()
                && r.edges@[r.nodes@[n].out_edges@[k] as int].src == n by {
                assert(r.nodes@[n].ops@ == nv[n].ops@);
                assert(r.nodes@[n].out_edges@.len() == 0);
            }
            assert forall|n: int, k: int|
                0 <= n < r.nodes@.len() && 0 <= k < r.nodes@[n].in_edges@.len() implies (
            #[trigger] r.nodes@[n].in_edges@[k]) < r.edges@.len()
                && r.edges@[r.nodes@[n].in_edges@[k] as int].dst == n by {
                assert(r.nodes@[n].ops@ == nv[n].ops@);
                assert(r.nodes@[n].in_edges@.len() == 0);
            }
        }
        r
    }

    /// Append `e` to the incoming-edge list of node `n`.
    fn push_in_edge(&mut self, n: usize, e: usize)
        requires
            n < old(self).nodes@.len(),
        ensures
            final(self).nodes@.len() == old(self).nodes@.len(),
            final(self).nodes@[n as int].in_edges@ == old(self).nodes@[n as int].in_edges@.push(e),
            final(self).nodes@[n as int].out_edges@ == old(self).nodes@[n as int].out_edges@,
            final(self).nodes@[n as int].ops@ == old(self).nodes@[n as int].ops@,
            final(self).nodes@[n as int].seq == old(self).nodes@[n as int].seq,
            forall|t: int|
                0 <= t < old(self).nodes@.len() && t != n ==> #[trigger] final(self).nodes@[t]
                    == old(self).nodes@[t],
            final(self).edges@ == old(self).edges@,
            final(self).admin_unchanged(*old(self)),
            final(self).closures@ == old(self).closures@,
    {
        let mut node = GraphNode::new();
        self.nodes.set_and_swap(n, &mut node);
        node.in_edges.push(e);
        self.nodes.set_and_swap(n, &mut node);
    }

    /// Append `e` to the outgoing-edge list of node `n`.
    fn push_out_edge(&mut self, n: usize, e: usize)
        requires
            n < old(self).nodes@.len(),
        ensures
            final(self).nodes@.len() == old(self).nodes@.len(),
            final(self).nodes@[n as int].out_edges@ == old(self).nodes@[n as int].out_edges@.push(
                e,
            ),
            final(self).nodes@[n as int].in_edges@ == old(self).nodes@[n as int].in_edges@,
            final(self).nodes@[n as int].ops@ == old(self).nodes@[n as int].ops@,
            final(self).nodes@[n as int].seq == old(self).nodes@[n as int].seq,
            forall|t: int|
                0 <= t < old(self).nodes@.len() && t != n ==> #[trigger] final(self).nodes@[t]
                    == old(self).nodes@[t],
            final(self).edges@ == old(self).edges@,
            final(self).admin_unchanged(*old(self)),
            final(self).closures@ == old(self).closures@,
    {
        let mut node = GraphNode::new();
        self.nodes.set_and_swap(n, &mut node);
        node.out_edges.push(e);
        self.nodes.set_and_swap(n, &mut node);
    }

    /// The appended edge extends a well-formed graph.
    proof fn lemma_wf_after_edge(old_g: Graph, cur: Graph, src: int, dst: int)
        requires
            old_g.wf(),
            old_g.edges@.len() < usize::MAX,
            0 <= src < old_g.nodes@.len(),
            0 <= dst < old_g.nodes@.len(),
            cur.nodes@.len() == old_g.nodes@.len(),
            cur.edges@.len() == old_g.edges@.len() + 1,
            forall|e: int| 0 <= e < old_g.edges@.len() ==> #[trigger] cur.edges@[e] == old_g.edges@[e],
            cur.edges@.last().src == src,
            cur.edges@.last().dst == dst,
            cur.nodes@[src].out_edges@ == old_g.nodes@[src].out_edges@.push(
                (old_g.edges@.len() as usize),
            ),
            cur.nodes@[dst].in_edges@ == old_g.nodes@[dst].in_edges@.push(
                (old_g.edges@.len() as usize),
            ),
            src != dst ==> cur.nodes@[src].in_edges@ == old_g.nodes@[src].in_edges@,
            src != dst ==> cur.nodes@[dst].out_edges@ == old_g.nodes@[dst].out_edges@,
            forall|t: int|
                0 <= t < old_g.nodes@.len() && t != src && t != dst ==> #[trigger] cur.nodes@[t].out_edges@
                    == old_g.nodes@[t].out_edges@,
            forall|t: int|
                0 <= t < old_g.nodes@.len() && t != src && t != dst ==> #[trigger] cur.nodes@[t].in_edges@
                    == old_g.nodes@[t].in_edges@,
        ensures
            cur.wf(),
    {
        let ne = old_g.edges@.len() as int;
        assert forall|n: int, k: int|
            0 <= n < cur.nodes@.len() && 0 <= k < cur.nodes@[n].out_edges@.len() implies (
        #[trigger] cur.nodes@[n].out_edges@[k]) < cur.edges@.len()
            && cur.edges@[cur.nodes@[n].out_edges@[k] as int].src == n by {
            if n == src && k == cur.nodes@[n].out_edges@.len() - 1 {
                assert(cur.nodes@[n].out_edges@[k] == ne);
            } else {
                assert(cur.nodes@[n].out_edges@[k] == old_g.nodes@[n].out_edges@[k]);
                assert(old_g.nodes@[n].out_edges@[k] < old_g.edges@.len());
            }
        }
        assert forall|n: int, k: int|
            0 <= n < cur.nodes@.len() && 0 <= k < cur.nodes@[n].in_edges@.len() implies (
        #[trigger] cur.nodes@[n].in_edges@[k]) < cur.edges@.len()
            && cur.edges@[cur.nodes@[n].in_edges@[k] as int].dst == n by {
            if n == dst && k == cur.nodes@[n].in_edges@.len() - 1 {
                assert(cur.nodes@[n].in_edges@[k] == ne);
            } else {
                assert(cur.nodes@[n].in_edges@[k] == old_g.nodes@[n].in_edges@[k]);
                assert(old_g.nodes@[n].in_edges@[k] < old_g.edges@.len());
            }
        }
    }

    /// Append one edge between existing nodes; its sequence number is the
    /// target's current write counter.
    pub fn add_node_edge(&mut self, src: usize, dst: usize, op: EdgeOp) -> (idx: usize)
        requires
            old(self).wf(),
            src < old(self).nodes@.len(),
            dst < old(self).nodes@.len(),
        ensures
            final(self).wf(),
            idx == old(self).edges@.len(),
            final(self).edges@ == old(self).edges@.push(
                GraphEdge { src, dst, op, seq: old(self).nodes@[dst as int].seq },
            ),
            final(self).nodes@.len() == old(self).nodes@.len(),
            final(self).nodes_ops_unchanged(*old(self)),
            final(self).admin_unchanged(*old(self)),
            final(self).closures@ == old(self).closures@,
            // The new index joins exactly the target's incoming and the
            // source's outgoing adjacency lists.
            final(self).nodes@[dst as int].in_edges@ == old(self).nodes@[dst as int].in_edges@.push(
                idx,
            ),
            final(self).nodes@[src as int].out_edges@ == old(self).nodes@[src as int].out_edges@.push(
                idx,
            ),
            src != dst ==> final(self).nodes@[dst as int].out_edges@ == old(self).nodes@[dst as int].out_edges@,
            src != dst ==> final(self).nodes@[src as int].in_edges@ == old(self).nodes@[src as int].in_edges@,
            forall|t: int|
                0 <= t < old(self).nodes@.len() && t != src && t != dst
                    ==> #[trigger] final(self).nodes@[t] == old(self).nodes@[t],
    {
        let seq = self.nodes[dst].seq;
        let edge_idx = self.edges.len();
        proof {
            vstd::std_specs::vec::axiom_spec_len(&self.edges);
            vstd::std_specs::vec::axiom_spec_len(&self.nodes);
        }
        assert(self.edges@.len() <= usize::MAX);
        self.edges.push(GraphEdge { src, dst, op, seq });
        proof {
            vstd::std_specs::vec::axiom_spec_len(&self.edges);
        }
        self.push_in_edge(dst, edge_idx);
        self.push_out_edge(src, edge_idx);
        proof {
            Graph::lemma_wf_after_edge(*old(self), *self, src as int, dst as int);
        }
        edge_idx
    }
}

/// The edge kinds one statement appends.
pub open spec fn spec_stmt_edge_ops(st: Statement) -> Seq<EdgeOp> {
    match st {
        Statement::Assign(place, rv) => spec_projs_ops(place.projection@) + spec_rvalue_edge_ops(
            rv,
        ),
        Statement::Nop => Seq::empty(),
    }
}

/// The edge kinds one terminator appends.
pub open spec fn spec_term_edge_ops(t: Terminator) -> Seq<EdgeOp> {
    match t {
        Terminator::Call { func, args, .. } => (match func {
            CallFunc::Operand(p) => spec_operand_ops(Operand::Move(p)),
            CallFunc::Direct(_) => Seq::empty(),
        }) + spec_operands_ops(args@, 0),
        _ => Seq::empty(),
    }
}

/// The edge kinds the statements from index `i` on append.
pub open spec fn spec_stmts_edge_ops(stmts: Seq<Statement>, i: int) -> Seq<EdgeOp>
    decreases stmts.len() - i,
{
    if i < 0 || i >= stmts.len() {
        Seq::empty()
    } else {
        spec_stmt_edge_ops(stmts[i]) + spec_stmts_edge_ops(stmts, i + 1)
    }
}

/// The edge kinds the blocks from index `b` on append: statements first,
/// then the terminator.
pub open spec fn spec_blocks_edge_ops(blocks: Seq<BasicBlock>, b: int) -> Seq<EdgeOp>
    decreases blocks.len() - b,
{
    if b < 0 || b >= blocks.len() {
        Seq::empty()
    } else {
        spec_stmts_edge_ops(blocks[b].statements@, 0) + spec_term_edge_ops(blocks[b].terminator)
            + spec_blocks_edge_ops(blocks, b + 1)
    }
}

/// How many marker nodes wiring one operand inserts: one per
/// projection step of its place, or one for a constant.
pub open spec fn spec_operand_marker_count(op: Operand) -> int {
    match op {
        Operand::Copy(p) => p.projection@.len() as int,
        Operand::Move(p) => p.projection@.len() as int,
        Operand::Constant(_) => 1,
    }
}

/// How many marker nodes wiring the operands from index `t` on inserts.
pub open spec fn spec_operands_marker_count(ops: Seq<Operand>, t: int) -> int
    decreases ops.len() - t,
{
    if t < 0 || t >= ops.len() {
        0
    } else {
        spec_operand_marker_count(ops[t]) + spec_operands_marker_count(ops, t + 1)
    }
}

/// How many marker nodes one right-hand side inserts.
pub open spec fn spec_rvalue_marker_count(rv: Rvalue) -> int {
    match rv {
        Rvalue::Use(op) => spec_operand_marker_count(op),
        Rvalue::Repeat(op) => spec_operand_marker_count(op),
        Rvalue::Ref(_, p) => p.projection@.len() as int,
        Rvalue::Len(p) => p.projection@.len() as int,
        Rvalue::Cast(op) => spec_operand_marker_count(op),
        Rvalue::BinaryOp(_, op1, op2) => spec_operand_marker_count(op1)
            + spec_operand_marker_count(op2),
        Rvalue::NullaryOp => 1,
        Rvalue::UnaryOp(_, op) => spec_operand_marker_count(op),
        Rvalue::Discriminant(p) => p.projection@.len() as int,
        Rvalue::Aggregate(_, ops) => spec_operands_marker_count(ops@, 0),
        Rvalue::ShallowInitBox(op) => spec_operand_marker_count(op),
        Rvalue::CopyForDeref(p) => p.projection@.len() as int,
        Rvalue::RawPtr(p) => p.projection@.len() as int,
        Rvalue::ThreadLocalRef => 0,
    }
}

/// The edge kind one projection step is tagged with (an array index
/// contributes two edges of this kind).
pub open spec fn spec_proj_kind(p: ProjElem) -> EdgeOp {
    match p {
        ProjElem::Deref => EdgeOp::Deref,
        ProjElem::Field(i) => EdgeOp::Field(i),
        ProjElem::Downcast(i) => EdgeOp::Downcast(i),
        ProjElem::Index(_) => EdgeOp::Index,
        ProjElem::ConstIndex => EdgeOp::ConstIndex,
        ProjElem::SubSlice => EdgeOp::SubSlice,
        ProjElem::SubType => EdgeOp::SubType,
    }
}

/// The edge kind one borrow is tagged with.
pub open spec fn spec_borrow_op(bk: BorrowKind) -> EdgeOp {
    match bk {
        BorrowKind::Shared => EdgeOp::Immut,
        BorrowKind::Mutable => EdgeOp::Mut,
        BorrowKind::Fake => EdgeOp::Nop,
    }
}

/// The exact edges a place's projection chain appends, from step `i`
/// on: each step's edge leaves the previous chain node (`prev`; the
/// place's local for the first step) and enters the fresh marker
/// `base + i`; an array-index step adds a second edge from the index
/// local into the same marker.  Markers are fresh, so every chain edge
/// carries write counter 0.
pub open spec fn spec_chain_edges(proj: Seq<ProjElem>, i: int, prev: int, base: int) -> Seq<
    GraphEdge,
>
    decreases proj.len() - i,
{
    if i < 0 || i >= proj.len() {
        Seq::empty()
    } else {
        let marker = base + i;
        let first = GraphEdge {
            src: prev as usize,
            dst: marker as usize,
            op: spec_proj_kind(proj[i]),
            seq: 0,
        };
        (match proj[i] {
            ProjElem::Index(v) => seq![
                first,
                GraphEdge { src: v, dst: marker as usize, op: EdgeOp::Index, seq: 0 },
            ],
            _ => seq![first],
        }) + spec_chain_edges(proj, i + 1, marker, base)
    }
}

/// The exact edges resolving one place appends when the graph has
/// `base` nodes.
pub open spec fn spec_place_edges(place: Place, base: int) -> Seq<GraphEdge> {
    spec_chain_edges(place.projection@, 0, place.local as int, base)
}

/// The node a place resolves to when the graph has `base` nodes: its
/// bare local, or the last marker of its projection chain.
pub open spec fn spec_resolved_node(place: Place, base: int) -> int {
    if place.projection@.len() == 0 {
        place.local as int
    } else {
        base + place.projection@.len() - 1
    }
}

/// The exact edges wiring one operand into `dst` appends: the operand's
/// place chain, then one use edge from its resolved node into `dst` (or
/// one edge from a fresh constant marker), at `dst`'s current write
/// counter `dseq`.
pub open spec fn spec_operand_edges(op: Operand, dst: int, base: int, dseq: int) -> Seq<GraphEdge> {
    match op {
        Operand::Copy(p) => spec_place_edges(p, base).push(
            GraphEdge {
                src: (spec_resolved_node(p, base) as usize),
                dst: dst as usize,
                op: EdgeOp::Copy,
                seq: dseq as usize,
            },
        ),
        Operand::Move(p) => spec_place_edges(p, base).push(
            GraphEdge {
                src: (spec_resolved_node(p, base) as usize),
                dst: dst as usize,
                op: EdgeOp::Move,
                seq: dseq as usize,
            },
        ),
        Operand::Constant(_) => seq![
            GraphEdge { src: base as usize, dst: dst as usize, op: EdgeOp::Const, seq: dseq as usize },
        ],
    }
}

/// The exact edges wiring the operands from index `t` on into `dst`
/// appends; each operand's fresh markers shift the base for the next.
pub open spec fn spec_operands_edges(
    ops: Seq<Operand>,
    t: int,
    dst: int,
    base: int,
    dseq: int,
) -> Seq<GraphEdge>
    decreases ops.len() - t,
{
    if t < 0 || t >= ops.len() {
        Seq::empty()
    } else {
        spec_operand_edges(ops[t], dst, base, dseq) + spec_operands_edges(
            ops,
            t + 1,
            dst,
            base + spec_operand_marker_count(ops[t]),
            dseq,
        )
    }
}

/// The exact edges one right-hand side appends when wired into `dst`
/// with the graph holding `base` nodes and `dst`'s write counter at
/// `dseq`.
pub open spec fn spec_rvalue_edges(rv: Rvalue, dst: int, base: int, dseq: int) -> Seq<GraphEdge> {
    match rv {
        Rvalue::Use(op) => spec_operand_edges(op, dst, base, dseq),
        Rvalue::Repeat(op) => spec_operand_edges(op, dst, base, dseq),
        Rvalue::Ref(bk, p) => spec_place_edges(p, base).push(
            GraphEdge {
                src: (spec_resolved_node(p, base) as usize),
                dst: dst as usize,
                op: spec_borrow_op(bk),
                seq: dseq as usize,
            },
        ),
        Rvalue::Len(p) => spec_place_edges(p, base).push(
            GraphEdge {
                src: (spec_resolved_node(p, base) as usize),
                dst: dst as usize,
                op: EdgeOp::Nop,
                seq: dseq as usize,
            },
        ),
        Rvalue::Cast(op) => spec_operand_edges(op, dst, base, dseq),
        Rvalue::BinaryOp(_, op1, op2) => spec_operand_edges(op1, dst, base, dseq)
            + spec_operand_edges(op2, dst, base + spec_operand_marker_count(op1), dseq),
        Rvalue::NullaryOp => seq![
            GraphEdge { src: base as usize, dst: dst as usize, op: EdgeOp::Nop, seq: dseq as usize },
        ],
        Rvalue::UnaryOp(_, op) => spec_operand_edges(op, dst, base, dseq),
        Rvalue::Discriminant(p) => spec_place_edges(p, base).push(
            GraphEdge {
                src: (spec_resolved_node(p, base) as usize),
                dst: dst as usize,
                op: EdgeOp::Nop,
                seq: dseq as usize,
            },
        ),
        Rvalue::Aggregate(_, ops) => spec_operands_edges(ops@, 0, dst, base, dseq),
        Rvalue::ShallowInitBox(op) => spec_operand_edges(op, dst, base, dseq),
        Rvalue::CopyForDeref(p) => spec_place_edges(p, base).push(
            GraphEdge {
                src: (spec_resolved_node(p, base) as usize),
                dst: dst as usize,
                op: EdgeOp::Nop,
                seq: dseq as usize,
            },
        ),
        Rvalue::RawPtr(p) => spec_place_edges(p, base).push(
            GraphEdge {
                src: (spec_resolved_node(p, base) as usize),
                dst: dst as usize,
                op: EdgeOp::Nop,
                seq: dseq as usize,
            },
        ),
        Rvalue::ThreadLocalRef => Seq::empty(),
    }
}

/// A freshly built graph for a body: one empty node per local, no
/// edges.
pub open spec fn spec_fresh_graph(g: Graph, fn_id: usize, argc: usize, n_locals: usize) -> bool {
    &&& g.fn_id == fn_id
    &&& g.argc == argc
    &&& g.n_locals == n_locals
    &&& g.nodes@.len() == n_locals
    &&& g.edges@.len() == 0
    &&& forall|t: int|
        0 <= t < n_locals ==> (#[trigger] g.nodes@[t].ops@).len() == 1 && g.nodes@[t].ops@[0]
            == NodeOp::Nop && g.nodes@[t].seq == 0
}

/// One statement's exact effect on the graph's wiring: the appended
/// edges with their endpoints, the node count, and the recorded
/// operation at the resolved target.
pub open spec fn spec_stmt_graph_step(prev: Graph, next: Graph, st: Statement) -> bool {
    match st {
        Statement::Assign(place, rv) => {
            let base = prev.nodes@.len() as int;
            let dst = spec_assign_target(prev, place);
            let dseq = spec_assign_seq(prev, place);
            &&& next.edges@ == prev.edges@ + spec_place_edges(place, base) + spec_rvalue_edges(
                rv,
                dst,
                base + place.projection@.len() as int,
                dseq,
            )
            &&& next.nodes@.len() == base + place.projection@.len() + spec_rvalue_marker_count(rv)
            &&& dst < next.nodes@.len()
            &&& next.nodes@[dst].ops@[dseq] == spec_rvalue_node_op(rv)
            &&& next.nodes@[dst].seq == dseq + 1
        },
        Statement::Nop => next == prev,
    }
}

/// One terminator's exact effect on the graph's wiring.
pub open spec fn spec_term_graph_step(prev: Graph, next: Graph, term: Terminator) -> bool {
    match term {
        Terminator::Call { func, args, destination, .. } => {
            let dst = destination.local as int;
            let dseq = prev.nodes@[dst].seq as int;
            &&& next.edges@ == prev.edges@ + (match func {
                CallFunc::Operand(p) => spec_operand_edges(
                    Operand::Move(p),
                    dst,
                    prev.nodes@.len() as int,
                    dseq,
                ),
                CallFunc::Direct(_) => Seq::empty(),
            }) + spec_operands_edges(
                args@,
                0,
                dst,
                prev.nodes@.len() + (match func {
                    CallFunc::Operand(p) => spec_operand_marker_count(Operand::Move(p)),
                    CallFunc::Direct(_) => 0int,
                }),
                dseq,
            )
            &&& next.nodes@[dst].ops@[dseq] == (match func {
                CallFunc::Direct(id) => NodeOp::Call(id),
                CallFunc::Operand(_) => NodeOp::CallOperand,
            })
            &&& next.nodes@[dst].seq == dseq + 1
        },
        _ => next == prev,
    }
}

/// `mid` walks `prev` through `stmts` one exact statement step at a
/// time.
pub open spec fn spec_stmt_chain_ok(mid: Seq<Graph>, prev: Graph, stmts: Seq<Statement>) -> bool {
    &&& mid.len() == stmts.len() + 1
    &&& mid[0] == prev
    &&& forall|i: int|
        0 <= i < stmts.len() ==> spec_stmt_graph_step(mid[i], mid[i + 1], #[trigger] stmts[i])
}

/// One block's exact effect: its statements in order, then its
/// terminator.
pub open spec fn spec_block_graph_step(prev: Graph, next: Graph, blk: BasicBlock) -> bool {
    exists|mid: Seq<Graph>|
        #[trigger] spec_stmt_chain_ok(mid, prev, blk.statements@) && spec_term_graph_step(
            mid.last(),
            next,
            blk.terminator,
        )
}

/// `chain` walks its first graph through the blocks one exact block
/// step at a time.
pub open spec fn spec_graph_chain_ok(chain: Seq<Graph>, blocks: Seq<BasicBlock>) -> bool {
    &&& chain.len() == blocks.len() + 1
    &&& forall|b: int|
        0 <= b < blocks.len() ==> spec_block_graph_step(chain[b], chain[b + 1], #[trigger] blocks[b])
}

/// Every local mentioned by the place is below `n`.
pub open spec fn place_bounded(p: Place, n: int) -> bool {
    p.local < n && forall|t: int|
        0 <= t < p.projection@.len() ==> match #[trigger] p.projection@[t] {
            ProjElem::Index(v) => v < n,
            _ => true,
        }
}

/// Every local mentioned by the operand is below `n`.
pub open spec fn operand_bounded(op: Operand, n: int) -> bool {
    match op {
        Operand::Copy(p) => place_bounded(p, n),
        Operand::Move(p) => place_bounded(p, n),
        Operand::Constant(_) => true,
    }
}

/// Every local mentioned by the operands is below `n`.
pub open spec fn operands_bounded(ops: Seq<Operand>, n: int) -> bool {
    forall|t: int| 0 <= t < ops.len() ==> operand_bounded(#[trigger] ops[t], n)
}

/// Every local mentioned by the rvalue is below `n`.
pub open spec fn rvalue_bounded(rv: Rvalue, n: int) -> bool {
    match rv {
        Rvalue::Use(op) => operand_bounded(op, n),
        Rvalue::Repeat(op) => operand_bounded(op, n),
        Rvalue::Ref(_, p) => place_bounded(p, n),
        Rvalue::Len(p) => place_bounded(p, n),
        Rvalue::Cast(op) => operand_bounded(op, n),
        Rvalue::BinaryOp(_, op1, op2) => operand_bounded(op1, n) && operand_bounded(op2, n),
        Rvalue::NullaryOp => true,
        Rvalue::UnaryOp(_, op) => operand_bounded(op, n),
        Rvalue::Discriminant(p) => place_bounded(p, n),
        Rvalue::Aggregate(_, ops) => operands_bounded(ops@, n),
        Rvalue::ShallowInitBox(op) => operand_bounded(op, n),
        Rvalue::CopyForDeref(p) => place_bounded(p, n),
        Rvalue::RawPtr(p) => place_bounded(p, n),
        Rvalue::ThreadLocalRef => true,
    }
}

/// Every local mentioned by the statement is below `n`.
pub open spec fn statement_bounded(st: Statement, n: int) -> bool {
    match st {
        Statement::Assign(place, rv) => place_bounded(place, n) && rvalue_bounded(rv, n),
        Statement::Nop => true,
    }
}

/// Every local mentioned by the terminator is below `n`.
pub open spec fn terminator_bounded(term: Terminator, n: int) -> bool {
    match term {
        Terminator::SwitchInt { discr, .. } => operand_bounded(discr, n),
        Terminator::Call { func, args, destination, .. } => {
            &&& destination.local < n
            &&& operands_bounded(args@, n)
            &&& match func {
                CallFunc::Operand(p) => place_bounded(p, n),
                CallFunc::Direct(_) => true,
            }
        },
        _ => true,
    }
}

/// Every local the body mentions is below its declared local count.
pub open spec fn body_bounded(body: FnBody) -> bool {
    forall|b: int|
        0 <= b < body.blocks@.len() ==> {
            let blk = #[trigger] body.blocks@[b];
            (forall|st: int|
                0 <= st < blk.statements@.len() ==> statement_bounded(
                    #[trigger] blk.statements@[st],
                    body.local_count as int,
                )) && terminator_bounded(blk.terminator, body.local_count as int)
        }
}

/// The node an assignment to `place` resolves to: the local itself, or
/// the last marker node its projection chain creates.
pub open spec fn spec_assign_target(g: Graph, place: Place) -> int {
    if place.projection@.len() == 0 {
        place.local as int
    } else {
        g.nodes@.len() + place.projection@.len() - 1
    }
}

/// The write position the assignment records its operation at.
pub open spec fn spec_assign_seq(g: Graph, place: Place) -> int {
    if place.projection@.len() == 0 {
        g.nodes@[place.local as int].seq as int
    } else {
        0
    }
}

impl Graph {
    /// Write counters never run past the operation lists.
    pub open spec fn seqs_ok(self) -> bool {
        forall|n: int|
            0 <= n < self.nodes@.len() ==> (#[trigger] self.nodes@[n].seq)
                <= self.nodes@[n].ops@.len()
    }

    /// Append a fresh marker node carrying the given operation list.
    fn push_marker_node(&mut self, ops: Vec<NodeOp>) -> (idx: usize)
        requires
            old(self).wf(),
            old(self).seqs_ok(),
            ops@.len() > 0,
        ensures
            final(self).wf(),
            final(self).seqs_ok(),
            idx == old(self).nodes@.len(),
            final(self).nodes@.len() == old(self).nodes@.len() + 1,
            forall|t: int|
                0 <= t < old(self).nodes@.len() ==> #[trigger] final(self).nodes@[t]
                    == old(self).nodes@[t],
            final(self).nodes@[idx as int].ops@ == ops@,
            final(self).nodes@[idx as int].seq == 0,
            final(self).nodes@[idx as int].out_edges@.len() == 0,
            final(self).nodes@[idx as int].in_edges@.len() == 0,
            final(self).edges@ == old(self).edges@,
            final(self).admin_unchanged(*old(self)),
            final(self).closures@ == old(self).closures@,
    {
        let idx = self.nodes.len();
        self.nodes.push(GraphNode { ops, seq: 0, out_edges: Vec::new(), in_edges: Vec::new() });
        proof {
            assert forall|n: int, k: int|
                0 <= n < self.nodes@.len() && 0 <= k < self.nodes@[n].out_edges@.len() implies (
            #[trigger] self.nodes@[n].out_edges@[k]) < self.edges@.len()
                && self.edges@[self.nodes@[n].out_edges@[k] as int].src == n by {
                assert(n < old(self).nodes@.len());
                assert(self.nodes@[n] == old(self).nodes@[n]);
            }
            assert forall|n: int, k: int|
                0 <= n < self.nodes@.len() && 0 <= k < self.nodes@[n].in_edges@.len() implies (
            #[trigger] self.nodes@[n].in_edges@[k]) < self.edges@.len()
                && self.edges@[self.nodes@[n].in_edges@[k] as int].dst == n by {
                assert(n < old(self).nodes@.len());
                assert(self.nodes@[n] == old(self).nodes@[n]);
            }
        }
        idx
    }

    /// Add an edge whose source is a fresh constant marker node.
    pub fn add_const_edge(&mut self, val: i64, dst: usize, op: EdgeOp) -> (idx: usize)
        requires
            old(self).wf(),
            old(self).seqs_ok(),
            dst < old(self).nodes@.len(),
        ensures
            final(self).wf(),
            final(self).seqs_ok(),
            idx == old(self).edges@.len(),
            final(self).nodes@.len() == old(self).nodes@.len() + 1,
            final(self).nodes@[old(self).nodes@.len() as int].ops@.len() == 1,
            final(self).nodes@[old(self).nodes@.len() as int].ops@[0] == NodeOp::Const(val),
            edge_ops_of(final(self).edges@) == edge_ops_of(old(self).edges@).push(op),
            // One edge from the fresh constant marker into the target,
            // at the target's current write counter.  Only the target's
            // incoming list records it: a constant marker keeps an empty
            // outgoing list, so a downside traversal never leaves one.
            final(self).edges@ == old(self).edges@.push(
                GraphEdge {
                    src: (old(self).nodes@.len() as usize),
                    dst,
                    op,
                    seq: old(self).nodes@[dst as int].seq,
                },
            ),
            final(self).nodes@[dst as int].in_edges@ == old(self).nodes@[dst as int].in_edges@.push(
                idx,
            ),
            final(self).nodes@[old(self).nodes@.len() as int].out_edges@.len() == 0,
            final(self).nodes@[old(self).nodes@.len() as int].in_edges@.len() == 0,
            final(self).nodes@[dst as int].out_edges@ == old(self).nodes@[dst as int].out_edges@,
            forall|t: int|
                0 <= t < old(self).nodes@.len() && t != dst ==> #[trigger] final(self).nodes@[t]
                    == old(self).nodes@[t],
            final(self).old_nodes_ops_unchanged(*old(self)),
            final(self).admin_unchanged(*old(self)),
            final(self).closures@ == old(self).closures@,
    {
        let mut ops: Vec<NodeOp> = Vec::new();
        ops.push(NodeOp::Const(val));
        let src = self.push_marker_node(ops);
        let ghost mid = *self;
        let seq = self.nodes[dst].seq;
        let idx = self.edges.len();
        proof {
            vstd::std_specs::vec::axiom_spec_len(&self.edges);
            vstd::std_specs::vec::axiom_spec_len(&self.nodes);
        }
        assert(self.edges@.len() <= usize::MAX);
        self.edges.push(GraphEdge { src, dst, op, seq });
        proof {
            vstd::std_specs::vec::axiom_spec_len(&self.edges);
        }
        self.push_in_edge(dst, idx);
        proof {
            let ne = mid.edges@.len() as int;
            assert forall|n: int, k: int|
                0 <= n < self.nodes@.len() && 0 <= k < self.nodes@[n].out_edges@.len() implies (
            #[trigger] self.nodes@[n].out_edges@[k]) < self.edges@.len()
                && self.edges@[self.nodes@[n].out_edges@[k] as int].src == n by {
                assert(self.nodes@[n].out_edges@ == mid.nodes@[n].out_edges@);
                assert(mid.nodes@[n].out_edges@[k] < mid.edges@.len());
            }
            assert forall|n: int, k: int|
                0 <= n < self.nodes@.len() && 0 <= k < self.nodes@[n].in_edges@.len() implies (
            #[trigger] self.nodes@[n].in_edges@[k]) < self.edges@.len()
                && self.edges@[self.nodes@[n].in_edges@[k] as int].dst == n by {
                if n == dst as int && k == self.nodes@[n].in_edges@.len() - 1 {
                    assert(self.nodes@[n].in_edges@[k] == ne);
                } else {
                    assert(self.nodes@[n].in_edges@[k] == mid.nodes@[n].in_edges@[k]);
                    assert(mid.nodes@[n].in_edges@[k] < mid.edges@.len());
                }
            }
            assert(edge_ops_of(self.edges@) =~= edge_ops_of(old(self).edges@).push(op));
        }
        idx
    }

    /// Resolve a place to its graph node, inserting one marker node and
    /// one edge (two for an array index) per projection step.  The
    /// rightmost node stands for the place.
    #[verifier::loop_isolation(false)]
    #[verifier::rlimit(100)]
    #[verifier::spinoff_prover]
    pub fn parse_place(&mut self, place: &Place) -> (r: usize)
        requires
            old(self).wf(),
            old(self).seqs_ok(),
            old(self).place_ok(*place),
        ensures
            final(self).wf(),
            final(self).seqs_ok(),
            r < final(self).nodes@.len(),
            final(self).nodes@.len() == old(self).nodes@.len() + place.projection@.len(),
            r as int == (if place.projection@.len() == 0 {
                place.local as int
            } else {
                final(self).nodes@.len() - 1
            }),
            edge_ops_of(final(self).edges@) == edge_ops_of(old(self).edges@) + spec_projs_ops(
                place.projection@,
            ),
            // The exact appended edges: the chain leaves the place's
            // local and threads the fresh markers in order.
            final(self).edges@ == old(self).edges@ + spec_place_edges(
                *place,
                old(self).nodes@.len() as int,
            ),
            place.projection@.len() == 0 ==> *final(self) == *old(self),
            // Every appended edge ends in one of the fresh marker nodes;
            // the chain's first edge leaves the place's local.
            forall|e: int|
                old(self).edges@.len() <= e < final(self).edges@.len()
                    ==> (#[trigger] final(self).edges@[e]).dst >= old(self).nodes@.len()
                    && final(self).edges@[e].dst < final(self).nodes@.len(),
            place.projection@.len() > 0 ==> final(self).edges@[old(self).edges@.len() as int].src
                == place.local,
            final(self).old_nodes_ops_unchanged(*old(self)),
            place.projection@.len() > 0 ==> final(self).nodes@[r as int].ops@.len() == 1
                && final(self).nodes@[r as int].ops@[0] == NodeOp::Nop
                && final(self).nodes@[r as int].seq == 0,
            final(self).admin_unchanged(*old(self)),
            final(self).closures@ == old(self).closures@,
    {
        let mut ret: usize = place.local;
        let mut i: usize = 0;
        let ghost orig = *old(self);
        while i < place.projection.len()
            invariant
                self.wf(),
                self.seqs_ok(),
                orig.wf(),
                orig.place_ok(*place),
                i <= place.projection@.len(),
                ret < self.nodes@.len(),
                self.nodes@.len() == orig.nodes@.len() + i,
                ret as int == (if i == 0 {
                    place.local as int
                } else {
                    self.nodes@.len() - 1
                }),
                edge_ops_of(self.edges@) == edge_ops_of(orig.edges@) + spec_projs_ops(
                    place.projection@.subrange(0, i as int),
                ),
                self.edges@ + spec_chain_edges(
                    place.projection@,
                    i as int,
                    ret as int,
                    orig.nodes@.len() as int,
                ) == orig.edges@ + spec_place_edges(*place, orig.nodes@.len() as int),
                i == 0 ==> *self == *old(self),
                forall|e: int|
                    orig.edges@.len() <= e < self.edges@.len() ==> (#[trigger] self.edges@[e]).dst
                        >= orig.nodes@.len() && self.edges@[e].dst < self.nodes@.len(),
                i > 0 ==> self.edges@[orig.edges@.len() as int].src == place.local,
                self.old_nodes_ops_unchanged(orig),
                i > 0 ==> self.nodes@[ret as int].ops@.len() == 1 && self.nodes@[ret as int].ops@[0]
                    == NodeOp::Nop && self.nodes@[ret as int].seq == 0,
                self.admin_unchanged(orig),
                self.closures@ == orig.closures@,
            decreases place.projection@.len() - i,
        {
            let elem = place.projection[i];
            let ghost before = *self;
            let mut ops: Vec<NodeOp> = Vec::new();
            ops.push(NodeOp::Nop);
            proof {
                assert(ops@ =~= seq![NodeOp::Nop]);
            }
            let dst = self.push_marker_node(ops);
            let ghost after_marker = *self;
            match elem {
                ProjElem::Deref => {
                    self.add_node_edge(ret, dst, EdgeOp::Deref);
                    proof {
                        assert(edge_ops_of(self.edges@) =~= edge_ops_of(before.edges@)
                            + spec_proj_ops(elem));
                    }
                },
                ProjElem::Field(field_idx) => {
                    self.add_node_edge(ret, dst, EdgeOp::Field(field_idx));
                    proof {
                        assert(edge_ops_of(self.edges@) =~= edge_ops_of(before.edges@)
                            + spec_proj_ops(elem));
                    }
                },
                ProjElem::Downcast(variant) => {
                    self.add_node_edge(ret, dst, EdgeOp::Downcast(variant));
                    proof {
                        assert(edge_ops_of(self.edges@) =~= edge_ops_of(before.edges@)
                            + spec_proj_ops(elem));
                    }
                },
                ProjElem::Index(idx_local) => {
                    self.add_node_edge(ret, dst, EdgeOp::Index);
                    let ghost between = *self;
                    self.add_node_edge(idx_local, dst, EdgeOp::Index);
                    proof {
                        assert(between.nodes_ops_unchanged(after_marker));
                        assert(self.nodes_ops_unchanged(between));
                        assert forall|t: int| 0 <= t < after_marker.nodes@.len() implies (
                        #[trigger] self.nodes@[t].ops@) == after_marker.nodes@[t].ops@
                            && self.nodes@[t].seq == after_marker.nodes@[t].seq by {
                            assert(between.nodes@[t].ops@ == after_marker.nodes@[t].ops@);
                            assert(self.nodes@[t].ops@ == between.nodes@[t].ops@);
                        }
                    }
                    proof {
                        assert(edge_ops_of(self.edges@) =~= edge_ops_of(before.edges@)
                            + spec_proj_ops(elem));
                    }
                },
                ProjElem::ConstIndex => {
                    self.add_node_edge(ret, dst, EdgeOp::ConstIndex);
                    proof {
                        assert(edge_ops_of(self.edges@) =~= edge_ops_of(before.edges@)
                            + spec_proj_ops(elem));
                    }
                },
                ProjElem::SubSlice => {
                    self.add_node_edge(ret, dst, EdgeOp::SubSlice);
                    proof {
                        assert(edge_ops_of(self.edges@) =~= edge_ops_of(before.edges@)
                            + spec_proj_ops(elem));
                    }
                },
                ProjElem::SubType => {
                    self.add_node_edge(ret, dst, EdgeOp::SubType);
                    proof {
                        assert(edge_ops_of(self.edges@) =~= edge_ops_of(before.edges@)
                            + spec_proj_ops(elem));
                    }
                },
            }
            proof {
                assert forall|t: int| 0 <= t < orig.nodes@.len() implies (
                #[trigger] self.nodes@[t].ops@) == orig.nodes@[t].ops@ && self.nodes@[t].seq
                    == orig.nodes@[t].seq by {
                    assert(before.nodes@[t].ops@ == orig.nodes@[t].ops@ && before.nodes@[t].seq
                        == orig.nodes@[t].seq);
                    assert(after_marker.nodes@[t] == before.nodes@[t]);
                    assert(self.nodes@[t].ops@ == after_marker.nodes@[t].ops@ && self.nodes@[t].seq
                        == after_marker.nodes@[t].seq);
                }
                assert(self.nodes@[dst as int].ops@ =~= after_marker.nodes@[dst as int].ops@);
                assert(self.nodes@[dst as int].seq == after_marker.nodes@[dst as int].seq);
                assert(place.projection@.subrange(0, i + 1) =~= place.projection@.subrange(
                    0,
                    i as int,
                ).push(place.projection@[i as int]));
                lemma_projs_ops_push(
                    place.projection@.subrange(0, i as int),
                    place.projection@[i as int],
                );
                assert(edge_ops_of(before.edges@) == edge_ops_of(orig.edges@) + spec_projs_ops(
                    place.projection@.subrange(0, i as int),
                ));
                assert((edge_ops_of(orig.edges@) + spec_projs_ops(
                    place.projection@.subrange(0, i as int),
                )) + spec_proj_ops(place.projection@[i as int]) =~= edge_ops_of(orig.edges@) + (
                spec_projs_ops(place.projection@.subrange(0, i as int)) + spec_proj_ops(
                    place.projection@[i as int],
                )));
                assert(edge_ops_of(self.edges@) =~= edge_ops_of(orig.edges@) + spec_projs_ops(
                    place.projection@.subrange(0, i + 1),
                ));
                let base = orig.nodes@.len() as int;
                assert(dst as int == base + i);
                let stepe = (match elem {
                    ProjElem::Index(v) => seq![
                        GraphEdge { src: ret, dst, op: spec_proj_kind(elem), seq: 0 },
                        GraphEdge { src: v, dst, op: EdgeOp::Index, seq: 0 },
                    ],
                    _ => seq![GraphEdge { src: ret, dst, op: spec_proj_kind(elem), seq: 0 }],
                });
                assert(self.edges@ =~= before.edges@ + stepe);
                assert(spec_chain_edges(place.projection@, i as int, ret as int, base) == stepe
                    + spec_chain_edges(place.projection@, i + 1, base + i, base));
                assert(self.edges@ + spec_chain_edges(place.projection@, i + 1, dst as int, base)
                    =~= before.edges@ + spec_chain_edges(
                    place.projection@,
                    i as int,
                    ret as int,
                    base,
                ));
            }
            ret = dst;
            i = i + 1;
        }
        proof {
            assert(place.projection@.subrange(0, place.projection@.len() as int)
                =~= place.projection@);
            assert(spec_chain_edges(
                place.projection@,
                place.projection@.len() as int,
                ret as int,
                orig.nodes@.len() as int,
            ) =~= Seq::<GraphEdge>::empty());
            assert(self.edges@ =~= self.edges@ + Seq::<GraphEdge>::empty());
        }
        ret
    }

    /// Wire one operand into `dst`: resolve its place (or make a constant
    /// marker) and add the use edge.
    #[verifier::loop_isolation(false)]
    #[verifier::rlimit(100)]
    #[verifier::spinoff_prover]
    pub fn add_operand(&mut self, operand: &Operand, dst: usize) -> (r: ())
        requires
            old(self).wf(),
            old(self).seqs_ok(),
            old(self).operand_ok(*operand),
            dst < old(self).nodes@.len(),
        ensures
            final(self).wf(),
            final(self).seqs_ok(),
            final(self).nodes@.len() == old(self).nodes@.len() + spec_operand_marker_count(
                *operand,
            ),
            edge_ops_of(final(self).edges@) == edge_ops_of(old(self).edges@) + spec_operand_ops(
                *operand,
            ),
            // The exact appended edges: the operand's place chain, then
            // the use edge from its resolved node into `dst`.
            final(self).edges@ == old(self).edges@ + spec_operand_edges(
                *operand,
                dst as int,
                old(self).nodes@.len() as int,
                old(self).nodes@[dst as int].seq as int,
            ),
            final(self).old_nodes_ops_unchanged(*old(self)),
            final(self).admin_unchanged(*old(self)),
            final(self).closures@ == old(self).closures@,
    {
        match operand {
            Operand::Copy(place) => {
                let src = self.parse_place(place);
                let ghost mid = *self;
                self.add_node_edge(src, dst, EdgeOp::Copy);
                proof {
                    lemma_edge_ops_push(mid.edges@, self.edges@, self.edges@.last());
                    assert(edge_ops_of(self.edges@) =~= edge_ops_of(mid.edges@).push(EdgeOp::Copy));
                    assert((edge_ops_of(old(self).edges@) + spec_projs_ops(place.projection@))
                        .push(EdgeOp::Copy) =~= edge_ops_of(old(self).edges@) + (spec_projs_ops(
                        place.projection@,
                    ) + seq![EdgeOp::Copy]));
                    assert(edge_ops_of(self.edges@) =~= edge_ops_of(old(self).edges@)
                        + spec_operand_ops(*operand));
                    assert(mid.nodes@[dst as int].seq == old(self).nodes@[dst as int].seq);
                    assert(src as int == spec_resolved_node(
                        *place,
                        old(self).nodes@.len() as int,
                    ));
                    assert(self.edges@ =~= old(self).edges@ + spec_operand_edges(
                        *operand,
                        dst as int,
                        old(self).nodes@.len() as int,
                        old(self).nodes@[dst as int].seq as int,
                    ));
                    assert forall|t: int| 0 <= t < old(self).nodes@.len() implies (
                    #[trigger] self.nodes@[t].ops@) == old(self).nodes@[t].ops@
                        && self.nodes@[t].seq == old(self).nodes@[t].seq by {
                        assert(mid.nodes@[t].ops@ == old(self).nodes@[t].ops@
                            && mid.nodes@[t].seq == old(self).nodes@[t].seq);
                        assert(self.nodes@.len() == mid.nodes@.len());
                        assert(self.nodes@[t].ops@ == mid.nodes@[t].ops@);
                        assert(self.nodes@[t].seq == mid.nodes@[t].seq);
                    }
                }
            },
            Operand::Move(place) => {
                let src = self.parse_place(place);
                let ghost mid = *self;
                self.add_node_edge(src, dst, EdgeOp::Move);
                proof {
                    lemma_edge_ops_push(mid.edges@, self.edges@, self.edges@.last());
                    assert(edge_ops_of(self.edges@) =~= edge_ops_of(mid.edges@).push(EdgeOp::Move));
                    assert((edge_ops_of(old(self).edges@) + spec_projs_ops(place.projection@))
                        .push(EdgeOp::Move) =~= edge_ops_of(old(self).edges@) + (spec_projs_ops(
                        place.projection@,
                    ) + seq![EdgeOp::Move]));
                    assert(edge_ops_of(self.edges@) =~= edge_ops_of(old(self).edges@)
                        + spec_operand_ops(*operand));
                    assert(mid.nodes@[dst as int].seq == old(self).nodes@[dst as int].seq);
                    assert(src as int == spec_resolved_node(
                        *place,
                        old(self).nodes@.len() as int,
                    ));
                    assert(self.edges@ =~= old(self).edges@ + spec_operand_edges(
                        *operand,
                        dst as int,
                        old(self).nodes@.len() as int,
                        old(self).nodes@[dst as int].seq as int,
                    ));
                    assert forall|t: int| 0 <= t < old(self).nodes@.len() implies (
                    #[trigger] self.nodes@[t].ops@) == old(self).nodes@[t].ops@
                        && self.nodes@[t].seq == old(self).nodes@[t].seq by {
                        assert(mid.nodes@[t].ops@ == old(self).nodes@[t].ops@
                            && mid.nodes@[t].seq == old(self).nodes@[t].seq);
                        assert(self.nodes@.len() == mid.nodes@.len());
                        assert(self.nodes@[t].ops@ == mid.nodes@[t].ops@);
                        assert(self.nodes@[t].seq == mid.nodes@[t].seq);
                    }
                }
            },
            Operand::Constant(val) => {
                self.add_const_edge(*val, dst, EdgeOp::Const);
                proof {
                    assert(edge_ops_of(self.edges@) =~= edge_ops_of(old(self).edges@)
                        + spec_operand_ops(*operand));
                    assert(self.edges@ =~= old(self).edges@ + spec_operand_edges(
                        *operand,
                        dst as int,
                        old(self).nodes@.len() as int,
                        old(self).nodes@[dst as int].seq as int,
                    ));
                }
            },
        }
    }

    /// Wire a list of operands into `dst`.
    #[verifier::loop_isolation(false)]
    fn add_operands(&mut self, operands: &Vec<Operand>, dst: usize)
        requires
            old(self).wf(),
            old(self).seqs_ok(),
            old(self).operands_ok(operands@),
            dst < old(self).nodes@.len(),
        ensures
            final(self).wf(),
            final(self).seqs_ok(),
            final(self).nodes@.len() == old(self).nodes@.len() + spec_operands_marker_count(
                operands@,
                0,
            ),
            edge_ops_of(final(self).edges@) == edge_ops_of(old(self).edges@) + spec_operands_ops(
                operands@,
                0,
            ),
            // The exact appended edges, operand by operand.
            final(self).edges@ == old(self).edges@ + spec_operands_edges(
                operands@,
                0,
                dst as int,
                old(self).nodes@.len() as int,
                old(self).nodes@[dst as int].seq as int,
            ),
            final(self).old_nodes_ops_unchanged(*old(self)),
            final(self).admin_unchanged(*old(self)),
            final(self).closures@ == old(self).closures@,
    {
        let ghost orig = *old(self);
        let mut i: usize = 0;
        while i < operands.len()
            invariant
                self.wf(),
                self.seqs_ok(),
                orig.operands_ok(operands@),
                dst < orig.nodes@.len(),
                i <= operands@.len(),
                self.nodes@.len() + spec_operands_marker_count(operands@, i as int)
                    == orig.nodes@.len() + spec_operands_marker_count(operands@, 0),
                spec_operands_ops(operands@, i as int) + Seq::<EdgeOp>::empty() ==
                    spec_operands_ops(operands@, i as int),
                edge_ops_of(self.edges@) + spec_operands_ops(operands@, i as int) == edge_ops_of(
                    orig.edges@,
                ) + spec_operands_ops(operands@, 0),
                self.edges@ + spec_operands_edges(
                    operands@,
                    i as int,
                    dst as int,
                    self.nodes@.len() as int,
                    orig.nodes@[dst as int].seq as int,
                ) == orig.edges@ + spec_operands_edges(
                    operands@,
                    0,
                    dst as int,
                    orig.nodes@.len() as int,
                    orig.nodes@[dst as int].seq as int,
                ),
                self.old_nodes_ops_unchanged(orig),
                self.admin_unchanged(orig),
                self.closures@ == orig.closures@,
            decreases operands@.len() - i,
        {
            let ghost before = *self;
            self.add_operand(&operands[i], dst);
            proof {
                assert(spec_operands_ops(operands@, i as int) == spec_operand_ops(
                    operands@[i as int],
                ) + spec_operands_ops(operands@, i + 1));
                assert(edge_ops_of(self.edges@) + spec_operands_ops(operands@, i + 1)
                    =~= edge_ops_of(before.edges@) + spec_operands_ops(operands@, i as int));
                assert(spec_operands_marker_count(operands@, i as int)
                    == spec_operand_marker_count(operands@[i as int])
                    + spec_operands_marker_count(operands@, i + 1));
                assert(self.nodes@[dst as int].seq == orig.nodes@[dst as int].seq);
                assert(before.nodes@[dst as int].seq == orig.nodes@[dst as int].seq);
                assert(spec_operands_edges(
                    operands@,
                    i as int,
                    dst as int,
                    before.nodes@.len() as int,
                    orig.nodes@[dst as int].seq as int,
                ) == spec_operand_edges(
                    operands@[i as int],
                    dst as int,
                    before.nodes@.len() as int,
                    orig.nodes@[dst as int].seq as int,
                ) + spec_operands_edges(
                    operands@,
                    i + 1,
                    dst as int,
                    before.nodes@.len() + spec_operand_marker_count(operands@[i as int]),
                    orig.nodes@[dst as int].seq as int,
                ));
                assert(self.edges@ + spec_operands_edges(
                    operands@,
                    i + 1,
                    dst as int,
                    self.nodes@.len() as int,
                    orig.nodes@[dst as int].seq as int,
                ) =~= before.edges@ + spec_operands_edges(
                    operands@,
                    i as int,
                    dst as int,
                    before.nodes@.len() as int,
                    orig.nodes@[dst as int].seq as int,
                ));
            }
            i = i + 1;
        }
        proof {
            assert(spec_operands_ops(operands@, operands@.len() as int)
                =~= Seq::<EdgeOp>::empty());
            assert(edge_ops_of(self.edges@) =~= edge_ops_of(self.edges@) + Seq::<
                EdgeOp,
            >::empty());
            assert(edge_ops_of(self.edges@) =~= edge_ops_of(orig.edges@) + spec_operands_ops(
                operands@,
                0,
            ));
            assert(spec_operands_edges(
                operands@,
                operands@.len() as int,
                dst as int,
                self.nodes@.len() as int,
                orig.nodes@[dst as int].seq as int,
            ) =~= Seq::<GraphEdge>::empty());
            assert(self.edges@ =~= self.edges@ + Seq::<GraphEdge>::empty());
        }
    }

    /// Record one write operation on node `n` at its current sequence
    /// position, extending the operation list if needed.
    fn record_node_op(&mut self, n: usize, op: NodeOp)
        requires
            old(self).wf(),
            old(self).seqs_ok(),
            n < old(self).nodes@.len(),
        ensures
            final(self).wf(),
            final(self).seqs_ok(),
            final(self).nodes@.len() == old(self).nodes@.len(),
            forall|t: int|
                0 <= t < old(self).nodes@.len() && t != n ==> #[trigger] final(self).nodes@[t]
                    == old(self).nodes@[t],
            final(self).nodes@[n as int].seq == old(self).nodes@[n as int].seq + 1,
            final(self).nodes@[n as int].ops@[old(self).nodes@[n as int].seq as int] == op,
            final(self).nodes@[n as int].ops@.len() >= old(self).nodes@[n as int].ops@.len(),
            final(self).nodes@[n as int].out_edges@ == old(self).nodes@[n as int].out_edges@,
            final(self).nodes@[n as int].in_edges@ == old(self).nodes@[n as int].in_edges@,
            final(self).edges@ == old(self).edges@,
            final(self).admin_unchanged(*old(self)),
            final(self).closures@ == old(self).closures@,
    {
        let mut node = GraphNode::new();
        self.nodes.set_and_swap(n, &mut node);
        let seq = node.seq;
        if seq == node.ops.len() {
            node.ops.push(NodeOp::Nop);
        }
        let grown = node.ops.len();
        proof {
            assert(seq < grown);
        }
        node.ops.set(seq, op);
        node.seq = seq + 1;
        self.nodes.set_and_swap(n, &mut node);
        proof {
            assert forall|n2: int, k: int|
                0 <= n2 < self.nodes@.len() && 0 <= k < self.nodes@[n2].out_edges@.len() implies (
            #[trigger] self.nodes@[n2].out_edges@[k]) < self.edges@.len()
                && self.edges@[self.nodes@[n2].out_edges@[k] as int].src == n2 by {
                if n2 != n {
                    assert(self.nodes@[n2] == old(self).nodes@[n2]);
                }
            }
            assert forall|n2: int, k: int|
                0 <= n2 < self.nodes@.len() && 0 <= k < self.nodes@[n2].in_edges@.len() implies (
            #[trigger] self.nodes@[n2].in_edges@[k]) < self.edges@.len()
                && self.edges@[self.nodes@[n2].in_edges@[k] as int].dst == n2 by {
                if n2 != n {
                    assert(self.nodes@[n2] == old(self).nodes@[n2]);
                }
            }
        }
    }

    /// Keep a closure identity, once.
    #[verifier::loop_isolation(false)]
    fn note_closure(&mut self, id: usize)
        requires
            old(self).wf(),
            old(self).seqs_ok(),
        ensures
            final(self).wf(),
            final(self).seqs_ok(),
            final(self).nodes@ == old(self).nodes@,
            final(self).edges@ == old(self).edges@,
            final(self).admin_unchanged(*old(self)),
            final(self).closures@ == old(self).closures@ || final(self).closures@ == old(
                self,
            ).closures@.push(id),
    {
        let mut i: usize = 0;
        while i < self.closures.len()
            invariant
                *self == *old(self),
                i <= self.closures@.len(),
            decreases self.closures.len() - i,
        {
            if self.closures[i] == id {
                return ;
            }
            i = i + 1;
        }
        self.closures.push(id);
    }

    /// Add an assignment statement to the graph: resolve the left-hand
    /// place, record the right-hand side's operation on the target node,
    /// and wire the operand edges.
    #[verifier::loop_isolation(false)]
    #[verifier::rlimit(100)]
    #[verifier::spinoff_prover]
    pub fn add_statm_to_graph(&mut self, statement: &Statement)
        requires
            old(self).wf(),
            old(self).seqs_ok(),
            old(self).statement_ok(*statement),
        ensures
            final(self).wf(),
            final(self).seqs_ok(),
            final(self).admin_unchanged(*old(self)),
            final(self).nodes@.len() >= old(self).nodes@.len(),
            // Exactly the statement's marker nodes are inserted: one per
            // projection step of the target place, plus the right-hand
            // side's own markers.
            match *statement {
                Statement::Assign(place, rv) => final(self).nodes@.len() == old(
                    self,
                ).nodes@.len() + place.projection@.len() + spec_rvalue_marker_count(rv),
                Statement::Nop => true,
            },
            match *statement {
                Statement::Assign(place, rv) => edge_ops_of(final(self).edges@) == edge_ops_of(
                    old(self).edges@,
                ) + spec_projs_ops(place.projection@) + spec_rvalue_edge_ops(rv),
                Statement::Nop => *final(self) == *old(self),
            },
            // The exact appended edges: the target place's chain, then
            // the right-hand side's wiring into the resolved target.
            match *statement {
                Statement::Assign(place, rv) => final(self).edges@ == old(self).edges@
                    + spec_place_edges(place, old(self).nodes@.len() as int) + spec_rvalue_edges(
                    rv,
                    spec_assign_target(*old(self), place),
                    old(self).nodes@.len() + place.projection@.len() as int,
                    spec_assign_seq(*old(self), place),
                ),
                Statement::Nop => true,
            },
            match *statement {
                Statement::Assign(place, rv) => ({
                    let dst = spec_assign_target(*old(self), place);
                    let seq = spec_assign_seq(*old(self), place);
                    &&& dst < final(self).nodes@.len()
                    &&& final(self).nodes@[dst].ops@[seq] == spec_rvalue_node_op(rv)
                    &&& final(self).nodes@[dst].seq == seq + 1
                }),
                Statement::Nop => true,
            },
    {
        match statement {
            Statement::Nop => {},
            Statement::Assign(place, rvalue) => {
                let dst = self.parse_place(place);
                let ghost after_place = *self;
                proof {
                    assert(dst as int == spec_assign_target(*old(self), *place));
                    assert(after_place.nodes@.len() as int == old(self).nodes@.len()
                        + place.projection@.len());
                    assert(after_place.nodes@[dst as int].seq as int == spec_assign_seq(
                        *old(self),
                        *place,
                    ));
                }
                match rvalue {
                    Rvalue::Use(op) => {
                        self.add_operand(op, dst);
                        proof {
                            assert(self.edges@ =~= old(self).edges@ + spec_place_edges(
                                *place,
                                old(self).nodes@.len() as int,
                            ) + spec_rvalue_edges(
                                *rvalue,
                                dst as int,
                                after_place.nodes@.len() as int,
                                spec_assign_seq(*old(self), *place),
                            ));
                        }
                        self.record_node_op(dst, NodeOp::Use);
                    },
                    Rvalue::Repeat(op) => {
                        self.add_operand(op, dst);
                        proof {
                            assert(self.edges@ =~= old(self).edges@ + spec_place_edges(
                                *place,
                                old(self).nodes@.len() as int,
                            ) + spec_rvalue_edges(
                                *rvalue,
                                dst as int,
                                after_place.nodes@.len() as int,
                                spec_assign_seq(*old(self), *place),
                            ));
                        }
                        self.record_node_op(dst, NodeOp::Repeat);
                    },
                    Rvalue::Ref(borrow_kind, place2) => {
                        let op = match borrow_kind {
                            BorrowKind::Shared => EdgeOp::Immut,
                            BorrowKind::Mutable => EdgeOp::Mut,
                            BorrowKind::Fake => EdgeOp::Nop,
                        };
                        let src = self.parse_place(place2);
                        let ghost mid = *self;
                        self.add_node_edge(src, dst, op);
                        proof {
                            lemma_edge_ops_push(mid.edges@, self.edges@, self.edges@.last());
                            assert(edge_ops_of(self.edges@) =~= edge_ops_of(old(self).edges@)
                                + spec_projs_ops(place.projection@) + spec_rvalue_edge_ops(
                                *rvalue,
                            ));
                            assert(src as int == spec_resolved_node(
                                *place2,
                                after_place.nodes@.len() as int,
                            ));
                            assert(mid.nodes@[dst as int].seq
                                == after_place.nodes@[dst as int].seq);
                            assert(self.edges@ =~= old(self).edges@ + spec_place_edges(
                                *place,
                                old(self).nodes@.len() as int,
                            ) + spec_rvalue_edges(
                                *rvalue,
                                dst as int,
                                after_place.nodes@.len() as int,
                                spec_assign_seq(*old(self), *place),
                            ));
                        }
                        self.record_node_op(dst, NodeOp::Ref);
                    },
                    Rvalue::Len(place2) => {
                        let src = self.parse_place(place2);
                        let ghost mid = *self;
                        self.add_node_edge(src, dst, EdgeOp::Nop);
                        proof {
                            lemma_edge_ops_push(mid.edges@, self.edges@, self.edges@.last());
                            assert(edge_ops_of(self.edges@) =~= edge_ops_of(old(self).edges@)
                                + spec_projs_ops(place.projection@) + spec_rvalue_edge_ops(
                                *rvalue,
                            ));
                            assert(src as int == spec_resolved_node(
                                *place2,
                                after_place.nodes@.len() as int,
                            ));
                            assert(mid.nodes@[dst as int].seq
                                == after_place.nodes@[dst as int].seq);
                            assert(self.edges@ =~= old(self).edges@ + spec_place_edges(
                                *place,
                                old(self).nodes@.len() as int,
                            ) + spec_rvalue_edges(
                                *rvalue,
                                dst as int,
                                after_place.nodes@.len() as int,
                                spec_assign_seq(*old(self), *place),
                            ));
                        }
                        self.record_node_op(dst, NodeOp::Len);
                    },
                    Rvalue::Cast(op) => {
                        self.add_operand(op, dst);
                        proof {
                            assert(self.edges@ =~= old(self).edges@ + spec_place_edges(
                                *place,
                                old(self).nodes@.len() as int,
                            ) + spec_rvalue_edges(
                                *rvalue,
                                dst as int,
                                after_place.nodes@.len() as int,
                                spec_assign_seq(*old(self), *place),
                            ));
                        }
                        self.record_node_op(dst, NodeOp::Cast);
                    },
                    Rvalue::BinaryOp(_, op1, op2) => {
                        self.add_operand(op1, dst);
                        let ghost mid1 = *self;
                        self.add_operand(op2, dst);
                        proof {
                            assert(mid1.nodes@.len() == after_place.nodes@.len()
                                + spec_operand_marker_count(*op1));
                            assert(mid1.nodes@[dst as int].seq
                                == after_place.nodes@[dst as int].seq);
                            assert(self.edges@ =~= old(self).edges@ + spec_place_edges(
                                *place,
                                old(self).nodes@.len() as int,
                            ) + spec_rvalue_edges(
                                *rvalue,
                                dst as int,
                                after_place.nodes@.len() as int,
                                spec_assign_seq(*old(self), *place),
                            ));
                        }
                        self.record_node_op(dst, NodeOp::CheckedBinaryOp);
                    },
                    Rvalue::NullaryOp => {
                        self.add_const_edge(0, dst, EdgeOp::Nop);
                        proof {
                            assert(self.edges@ =~= old(self).edges@ + spec_place_edges(
                                *place,
                                old(self).nodes@.len() as int,
                            ) + spec_rvalue_edges(
                                *rvalue,
                                dst as int,
                                after_place.nodes@.len() as int,
                                spec_assign_seq(*old(self), *place),
                            ));
                        }
                        self.record_node_op(dst, NodeOp::NullaryOp);
                    },
                    Rvalue::UnaryOp(_, op) => {
                        self.add_operand(op, dst);
                        proof {
                            assert(self.edges@ =~= old(self).edges@ + spec_place_edges(
                                *place,
                                old(self).nodes@.len() as int,
                            ) + spec_rvalue_edges(
                                *rvalue,
                                dst as int,
                                after_place.nodes@.len() as int,
                                spec_assign_seq(*old(self), *place),
                            ));
                        }
                        self.record_node_op(dst, NodeOp::UnaryOp);
                    },
                    Rvalue::Discriminant(place2) => {
                        let src = self.parse_place(place2);
                        let ghost mid = *self;
                        self.add_node_edge(src, dst, EdgeOp::Nop);
                        proof {
                            lemma_edge_ops_push(mid.edges@, self.edges@, self.edges@.last());
                            assert(edge_ops_of(self.edges@) =~= edge_ops_of(old(self).edges@)
                                + spec_projs_ops(place.projection@) + spec_rvalue_edge_ops(
                                *rvalue,
                            ));
                            assert(src as int == spec_resolved_node(
                                *place2,
                                after_place.nodes@.len() as int,
                            ));
                            assert(mid.nodes@[dst as int].seq
                                == after_place.nodes@[dst as int].seq);
                            assert(self.edges@ =~= old(self).edges@ + spec_place_edges(
                                *place,
                                old(self).nodes@.len() as int,
                            ) + spec_rvalue_edges(
                                *rvalue,
                                dst as int,
                                after_place.nodes@.len() as int,
                                spec_assign_seq(*old(self), *place),
                            ));
                        }
                        self.record_node_op(dst, NodeOp::Discriminant);
                    },
                    Rvalue::Aggregate(ctor, operands) => {
                        self.add_operands(operands, dst);
                        match ctor {
                            AggCtor::Closure(id) => {
                                self.note_closure(*id);
                            },
                            _ => {},
                        }
                        proof {
                            assert(self.edges@ =~= old(self).edges@ + spec_place_edges(
                                *place,
                                old(self).nodes@.len() as int,
                            ) + spec_rvalue_edges(
                                *rvalue,
                                dst as int,
                                after_place.nodes@.len() as int,
                                spec_assign_seq(*old(self), *place),
                            ));
                        }
                        self.record_node_op(dst, NodeOp::Aggregate(*ctor));
                    },
                    Rvalue::ShallowInitBox(op) => {
                        self.add_operand(op, dst);
                        proof {
                            assert(self.edges@ =~= old(self).edges@ + spec_place_edges(
                                *place,
                                old(self).nodes@.len() as int,
                            ) + spec_rvalue_edges(
                                *rvalue,
                                dst as int,
                                after_place.nodes@.len() as int,
                                spec_assign_seq(*old(self), *place),
                            ));
                        }
                        self.record_node_op(dst, NodeOp::ShallowInitBox);
                    },
                    Rvalue::CopyForDeref(place2) => {
                        let src = self.parse_place(place2);
                        let ghost mid = *self;
                        self.add_node_edge(src, dst, EdgeOp::Nop);
                        proof {
                            lemma_edge_ops_push(mid.edges@, self.edges@, self.edges@.last());
                            assert(edge_ops_of(self.edges@) =~= edge_ops_of(old(self).edges@)
                                + spec_projs_ops(place.projection@) + spec_rvalue_edge_ops(
                                *rvalue,
                            ));
                            assert(src as int == spec_resolved_node(
                                *place2,
                                after_place.nodes@.len() as int,
                            ));
                            assert(mid.nodes@[dst as int].seq
                                == after_place.nodes@[dst as int].seq);
                            assert(self.edges@ =~= old(self).edges@ + spec_place_edges(
                                *place,
                                old(self).nodes@.len() as int,
                            ) + spec_rvalue_edges(
                                *rvalue,
                                dst as int,
                                after_place.nodes@.len() as int,
                                spec_assign_seq(*old(self), *place),
                            ));
                        }
                        self.record_node_op(dst, NodeOp::CopyForDeref);
                    },
                    Rvalue::RawPtr(place2) => {
                        let src = self.parse_place(place2);
                        let ghost mid = *self;
                        self.add_node_edge(src, dst, EdgeOp::Nop);
                        proof {
                            lemma_edge_ops_push(mid.edges@, self.edges@, self.edges@.last());
                            assert(edge_ops_of(self.edges@) =~= edge_ops_of(old(self).edges@)
                                + spec_projs_ops(place.projection@) + spec_rvalue_edge_ops(
                                *rvalue,
                            ));
                            assert(src as int == spec_resolved_node(
                                *place2,
                                after_place.nodes@.len() as int,
                            ));
                            assert(mid.nodes@[dst as int].seq
                                == after_place.nodes@[dst as int].seq);
                            assert(self.edges@ =~= old(self).edges@ + spec_place_edges(
                                *place,
                                old(self).nodes@.len() as int,
                            ) + spec_rvalue_edges(
                                *rvalue,
                                dst as int,
                                after_place.nodes@.len() as int,
                                spec_assign_seq(*old(self), *place),
                            ));
                        }
                        self.record_node_op(dst, NodeOp::RawPtr);
                    },
                    Rvalue::ThreadLocalRef => {
                        proof {
                            assert(self.edges@ =~= old(self).edges@ + spec_place_edges(
                                *place,
                                old(self).nodes@.len() as int,
                            ) + spec_rvalue_edges(
                                *rvalue,
                                dst as int,
                                after_place.nodes@.len() as int,
                                spec_assign_seq(*old(self), *place),
                            ));
                        }
                        self.record_node_op(dst, NodeOp::ThreadLocalRef);
                    },
                }
                proof {
                    assert(edge_ops_of(self.edges@) =~= edge_ops_of(old(self).edges@)
                        + spec_projs_ops(place.projection@) + spec_rvalue_edge_ops(*rvalue));
                }
            },
        }
    }

    /// All locals a statement mentions are nodes.
    pub open spec fn statement_ok(self, st: Statement) -> bool {
        statement_bounded(st, self.nodes@.len() as int)
    }

    /// All locals a terminator mentions are nodes.
    pub open spec fn terminator_ok(self, term: Terminator) -> bool {
        terminator_bounded(term, self.nodes@.len() as int)
    }

    /// Add a call terminator to the graph: wire each argument (and, for
    /// an indirect call, the function operand first) into the
    /// destination local and record the call operation there.  Other
    /// terminators leave the graph alone.
    #[verifier::loop_isolation(false)]
    pub fn add_terminator_to_graph(&mut self, terminator: &Terminator)
        requires
            old(self).wf(),
            old(self).seqs_ok(),
            old(self).terminator_ok(*terminator),
        ensures
            final(self).wf(),
            final(self).seqs_ok(),
            final(self).admin_unchanged(*old(self)),
            final(self).nodes@.len() >= old(self).nodes@.len(),
            match *terminator {
                Terminator::Call { func, args, destination, .. } => edge_ops_of(
                    final(self).edges@,
                ) == edge_ops_of(old(self).edges@) + (match func {
                    CallFunc::Operand(p) => spec_operand_ops(Operand::Move(p)),
                    CallFunc::Direct(_) => Seq::empty(),
                }) + spec_operands_ops(args@, 0),
                _ => *final(self) == *old(self),
            },
            // The exact appended edges: for an indirect call the
            // function operand's wiring first, then every argument wired
            // into the destination local.
            match *terminator {
                Terminator::Call { func, args, destination, .. } => final(self).edges@ == old(
                    self,
                ).edges@ + (match func {
                    CallFunc::Operand(p) => spec_operand_edges(
                        Operand::Move(p),
                        destination.local as int,
                        old(self).nodes@.len() as int,
                        old(self).nodes@[destination.local as int].seq as int,
                    ),
                    CallFunc::Direct(_) => Seq::empty(),
                }) + spec_operands_edges(
                    args@,
                    0,
                    destination.local as int,
                    old(self).nodes@.len() + (match func {
                        CallFunc::Operand(p) => spec_operand_marker_count(Operand::Move(p)),
                        CallFunc::Direct(_) => 0int,
                    }),
                    old(self).nodes@[destination.local as int].seq as int,
                ),
                _ => true,
            },
            match *terminator {
                Terminator::Call { func, destination, .. } => ({
                    let dst = destination.local as int;
                    let seq = old(self).nodes@[dst].seq as int;
                    &&& final(self).nodes@[dst].ops@[seq] == (match func {
                        CallFunc::Direct(id) => NodeOp::Call(id),
                        CallFunc::Operand(_) => NodeOp::CallOperand,
                    })
                    &&& final(self).nodes@[dst].seq == seq + 1
                }),
                _ => true,
            },
    {
        match terminator {
            Terminator::Call { func, args, destination, .. } => {
                let dst = destination.local;
                match func {
                    CallFunc::Direct(fn_id) => {
                        self.add_operands(args, dst);
                        proof {
                            assert(self.edges@ =~= old(self).edges@ + Seq::<GraphEdge>::empty()
                                + spec_operands_edges(
                                args@,
                                0,
                                dst as int,
                                old(self).nodes@.len() as int,
                                old(self).nodes@[dst as int].seq as int,
                            ));
                        }
                        self.record_node_op(dst, NodeOp::Call(*fn_id));
                        proof {
                            assert(edge_ops_of(self.edges@) =~= edge_ops_of(old(self).edges@)
                                + Seq::<EdgeOp>::empty() + spec_operands_ops(args@, 0));
                        }
                    },
                    CallFunc::Operand(place) => {
                        let func_operand = Operand::Move(place.clone());
                        proof {
                            assert(self.operand_ok(func_operand));
                            assert(spec_operand_ops(func_operand) == spec_operand_ops(
                                Operand::Move(*place),
                            ));
                        }
                        self.add_operand(&func_operand, dst);
                        let ghost mid = *self;
                        self.add_operands(args, dst);
                        proof {
                            assert(mid.nodes@.len() == old(self).nodes@.len()
                                + spec_operand_marker_count(Operand::Move(*place)));
                            assert(mid.nodes@[dst as int].seq == old(self).nodes@[dst as int].seq);
                            assert(self.edges@ =~= old(self).edges@ + spec_operand_edges(
                                Operand::Move(*place),
                                dst as int,
                                old(self).nodes@.len() as int,
                                old(self).nodes@[dst as int].seq as int,
                            ) + spec_operands_edges(
                                args@,
                                0,
                                dst as int,
                                old(self).nodes@.len() + spec_operand_marker_count(
                                    Operand::Move(*place),
                                ),
                                old(self).nodes@[dst as int].seq as int,
                            ));
                        }
                        self.record_node_op(dst, NodeOp::CallOperand);
                        proof {
                            assert(edge_ops_of(self.edges@) =~= edge_ops_of(old(self).edges@)
                                + spec_operand_ops(Operand::Move(*place)) + spec_operands_ops(
                                args@,
                                0,
                            ));
                        }
                    },
                }
            },
            _ => {},
        }
    }

    /// Build the dependency graph of a whole body in one pass over its
    /// statements and terminators.
    #[verifier::loop_isolation(false)]
    pub fn build_graph(fn_id: usize, body: &FnBody) -> (g: Graph)
        requires
            body_bounded(*body),
        ensures
            g.wf(),
            g.fn_id == fn_id,
            g.argc == body.arg_count,
            g.n_locals == body.local_count,
            g.nodes@.len() >= body.local_count,
            edge_ops_of(g.edges@) == spec_blocks_edge_ops(body.blocks@, 0),
            // The whole construction, block by block and statement by
            // statement: a chain of graphs runs from the fresh graph to
            // the result, each link the exact wiring step stated for one
            // statement or terminator.
            exists|chain: Seq<Graph>|
                #[trigger] spec_graph_chain_ok(chain, body.blocks@) && spec_fresh_graph(
                    chain[0],
                    fn_id,
                    body.arg_count,
                    body.local_count,
                ) && chain.last() == g,
    {
        let mut g = Graph::new(fn_id, body.arg_count, body.local_count);
        let ghost g0 = g;
        let ghost mut chain: Seq<Graph> = seq![g];
        let mut b: usize = 0;
        while b < body.blocks.len()
            invariant
                g.wf(),
                g.seqs_ok(),
                body_bounded(*body),
                g0.nodes@.len() == body.local_count,
                g.admin_unchanged(g0),
                g.fn_id == fn_id,
                g.argc == body.arg_count,
                g.n_locals == body.local_count,
                g.nodes@.len() >= g0.nodes@.len(),
                b <= body.blocks@.len(),
                edge_ops_of(g.edges@) + spec_blocks_edge_ops(body.blocks@, b as int)
                    == spec_blocks_edge_ops(body.blocks@, 0),
                chain.len() == b + 1,
                chain[0] == g0,
                chain.last() == g,
                forall|t: int|
                    0 <= t < b ==> spec_block_graph_step(
                        chain[t],
                        chain[t + 1],
                        #[trigger] body.blocks@[t],
                    ),
            decreases body.blocks@.len() - b,
        {
            let blk = &body.blocks[b];
            let ghost block_start_ops = edge_ops_of(g.edges@);
            let ghost gblock = g;
            let ghost mut mid: Seq<Graph> = seq![g];
            let mut st: usize = 0;
            while st < blk.statements.len()
                invariant
                    g.wf(),
                    g.seqs_ok(),
                    body_bounded(*body),
                    g0.nodes@.len() == body.local_count,
                    b < body.blocks@.len(),
                    blk == body.blocks@[b as int],
                    g.admin_unchanged(g0),
                    g.fn_id == fn_id,
                    g.argc == body.arg_count,
                    g.n_locals == body.local_count,
                    g.nodes@.len() >= g0.nodes@.len(),
                    st <= blk.statements@.len(),
                    edge_ops_of(g.edges@) + spec_stmts_edge_ops(blk.statements@, st as int)
                        == block_start_ops + spec_stmts_edge_ops(blk.statements@, 0),
                    chain.len() == b + 1,
                    chain[0] == g0,
                    chain.last() == gblock,
                    forall|t: int|
                        0 <= t < b ==> spec_block_graph_step(
                            chain[t],
                            chain[t + 1],
                            #[trigger] body.blocks@[t],
                        ),
                    mid.len() == st + 1,
                    mid[0] == gblock,
                    mid.last() == g,
                    forall|i: int|
                        0 <= i < st ==> spec_stmt_graph_step(
                            mid[i],
                            mid[i + 1],
                            #[trigger] blk.statements@[i],
                        ),
                decreases blk.statements@.len() - st,
            {
                proof {
                    lemma_bounded_mono_statement(
                        body.blocks@[b as int].statements@[st as int],
                        body.local_count as int,
                        g.nodes@.len() as int,
                    );
                }
                let ghost before_ops = edge_ops_of(g.edges@);
                let ghost gprev = g;
                g.add_statm_to_graph(&blk.statements[st]);
                proof {
                    assert(spec_stmt_graph_step(gprev, g, blk.statements@[st as int]));
                    let mid_old = mid;
                    mid = mid.push(g);
                    assert(mid.last() == g);
                    assert(mid[0] == mid_old[0]);
                    assert forall|i: int|
                        0 <= i < st + 1 implies spec_stmt_graph_step(
                        mid[i],
                        mid[i + 1],
                        #[trigger] blk.statements@[i],
                    ) by {
                        assert(mid[i] == mid_old[i]);
                        if i < st {
                            assert(mid[i + 1] == mid_old[i + 1]);
                        } else {
                            assert(mid[i + 1] == g);
                            assert(mid[i] == gprev);
                        }
                    }
                    assert(edge_ops_of(g.edges@) == before_ops + spec_stmt_edge_ops(
                        blk.statements@[st as int],
                    )) by {
                        match blk.statements@[st as int] {
                            Statement::Assign(place, rv) => {
                                assert(edge_ops_of(g.edges@) =~= before_ops + (spec_projs_ops(
                                    place.projection@,
                                ) + spec_rvalue_edge_ops(rv)));
                            },
                            Statement::Nop => {
                                assert(edge_ops_of(g.edges@) =~= before_ops + Seq::<
                                    EdgeOp,
                                >::empty());
                            },
                        }
                    }
                    assert((before_ops + spec_stmt_edge_ops(blk.statements@[st as int]))
                        + spec_stmts_edge_ops(blk.statements@, st + 1) =~= before_ops + (
                    spec_stmt_edge_ops(blk.statements@[st as int]) + spec_stmts_edge_ops(
                        blk.statements@,
                        st + 1,
                    )));
                }
                st = st + 1;
            }
            proof {
                lemma_bounded_mono_terminator(
                    body.blocks@[b as int].terminator,
                    body.local_count as int,
                    g.nodes@.len() as int,
                );
                assert(spec_stmts_edge_ops(blk.statements@, blk.statements@.len() as int)
                    =~= Seq::<EdgeOp>::empty());
            }
            let ghost before_term = edge_ops_of(g.edges@);
            let ghost gtprev = g;
            g.add_terminator_to_graph(&blk.terminator);
            proof {
                assert(spec_term_graph_step(gtprev, g, blk.terminator));
                assert(mid.last() == gtprev);
                assert(spec_stmt_chain_ok(mid, gblock, blk.statements@));
                assert(spec_block_graph_step(gblock, g, body.blocks@[b as int]));
                let chain_old = chain;
                chain = chain.push(g);
                assert(chain.last() == g);
                assert(chain[0] == chain_old[0]);
                assert forall|t: int|
                    0 <= t < b + 1 implies spec_block_graph_step(
                    chain[t],
                    chain[t + 1],
                    #[trigger] body.blocks@[t],
                ) by {
                    assert(chain[t] == chain_old[t]);
                    if t < b {
                        assert(chain[t + 1] == chain_old[t + 1]);
                    } else {
                        assert(chain[t + 1] == g);
                        assert(chain[t] == gblock);
                    }
                }
                assert(edge_ops_of(g.edges@) == before_term + spec_term_edge_ops(
                    blk.terminator,
                )) by {
                    match blk.terminator {
                        Terminator::Call { func, args, .. } => {
                            assert(edge_ops_of(g.edges@) =~= before_term + ((match func {
                                CallFunc::Operand(p) => spec_operand_ops(Operand::Move(p)),
                                CallFunc::Direct(_) => Seq::<EdgeOp>::empty(),
                            }) + spec_operands_ops(args@, 0)));
                        },
                        _ => {
                            assert(edge_ops_of(g.edges@) =~= before_term + Seq::<EdgeOp>::empty());
                        },
                    }
                }
                assert(edge_ops_of(g.edges@) + spec_blocks_edge_ops(body.blocks@, b + 1)
                    =~= block_start_ops + (spec_stmts_edge_ops(blk.statements@, 0)
                    + spec_term_edge_ops(blk.terminator) + spec_blocks_edge_ops(
                    body.blocks@,
                    b + 1,
                )));
                assert(edge_ops_of(g.edges@) + spec_blocks_edge_ops(body.blocks@, b + 1)
                    =~= spec_blocks_edge_ops(body.blocks@, 0));
            }
            b = b + 1;
        }
        proof {
            assert(spec_blocks_edge_ops(body.blocks@, body.blocks@.len() as int) =~= Seq::<
                EdgeOp,
            >::empty());
            assert(edge_ops_of(g.edges@) =~= edge_ops_of(g.edges@) + Seq::<EdgeOp>::empty());
            assert(spec_graph_chain_ok(chain, body.blocks@));
            assert(spec_fresh_graph(chain[0], fn_id, body.arg_count, body.local_count));
            assert(chain.last() == g);
        }
        g
    }
}

/// The edge kinds of a pushed edge list.
proof fn lemma_edge_ops_push(pre: Seq<GraphEdge>, post: Seq<GraphEdge>, e: GraphEdge)
    requires
        post == pre.push(e),
    ensures
        edge_ops_of(post) == edge_ops_of(pre).push(e.op),
{
    assert(edge_ops_of(post) =~= edge_ops_of(pre).push(e.op));
}

/// The edge kinds of a projection list extend one step at a time.
proof fn lemma_projs_ops_push(s: Seq<ProjElem>, x: ProjElem)
    ensures
        spec_projs_ops(s.push(x)) == spec_projs_ops(s) + spec_proj_ops(x),
    decreases s.len(),
{
    if s.len() == 0 {
        assert(s.push(x)[0] == x);
        assert(s.push(x).skip(1) =~= Seq::<ProjElem>::empty());
        assert(spec_projs_ops(s.push(x)) == spec_proj_ops(x) + spec_projs_ops(
            Seq::<ProjElem>::empty(),
        ));
        assert(spec_proj_ops(x) + Seq::<EdgeOp>::empty() =~= spec_proj_ops(x));
        assert(spec_projs_ops(s) + spec_proj_ops(x) =~= spec_proj_ops(x));
    } else {
        assert(s.push(x)[0] == s[0]);
        assert(s.push(x).skip(1) =~= s.skip(1).push(x));
        lemma_projs_ops_push(s.skip(1), x);
        assert(spec_projs_ops(s.push(x)) == spec_proj_ops(s[0]) + spec_projs_ops(
            s.skip(1).push(x),
        ));
        assert(spec_proj_ops(s[0]) + (spec_projs_ops(s.skip(1)) + spec_proj_ops(x))
            =~= (spec_proj_ops(s[0]) + spec_projs_ops(s.skip(1))) + spec_proj_ops(x));
        assert(spec_projs_ops(s) == spec_proj_ops(s[0]) + spec_projs_ops(s.skip(1)));
    }
}

/// Bound checks only loosen as the node set grows.
proof fn lemma_bounded_mono_operand(op: Operand, n: int, m: int)
    requires
        n <= m,
        operand_bounded(op, n),
    ensures
        operand_bounded(op, m),
{
}

proof fn lemma_bounded_mono_statement(st: Statement, n: int, m: int)
    requires
        n <= m,
        statement_bounded(st, n),
    ensures
        statement_bounded(st, m),
{
    match st {
        Statement::Assign(place, rv) => {
            match rv {
                Rvalue::Aggregate(_, ops) => {
                    assert forall|t: int| 0 <= t < ops@.len() implies operand_bounded(
                        #[trigger] ops@[t],
                        m,
                    ) by {
                        lemma_bounded_mono_operand(ops@[t], n, m);
                    }
                },
                _ => {},
            }
        },
        Statement::Nop => {},
    }
}

proof fn lemma_bounded_mono_terminator(term: Terminator, n: int, m: int)
    requires
        n <= m,
        terminator_bounded(term, n),
    ensures
        terminator_bounded(term, m),
{
    match term {
        Terminator::Call { func, args, .. } => {
            assert forall|t: int| 0 <= t < args@.len() implies operand_bounded(
                #[trigger] args@[t],
                m,
            ) by {
                lemma_bounded_mono_operand(args@[t], n, m);
            }
        },
        _ => {},
    }
}

/// Number of unmarked entries (used as a termination measure).
pub open spec fn count_false(s: Seq<bool>) -> nat
    decreases s.len(),
{
    if s.len() == 0 {
        0
    } else {
        count_false(s.drop_last()) + (if s.last() {
            0nat
        } else {
            1nat
        })
    }
}

pub proof fn lemma_count_false_update(s: Seq<bool>, i: int)
    requires
        0 <= i < s.len(),
        !s[i],
    ensures
        count_false(s.update(i, true)) + 1 == count_false(s),
        count_false(s.update(i, true)) < count_false(s),
    decreases s.len(),
{
    if i == s.len() - 1 {
        assert(s.update(i, true).drop_last() =~= s.drop_last());
    } else {
        assert(s.update(i, true).drop_last() =~= s.drop_last().update(i, true));
        lemma_count_false_update(s.drop_last(), i);
    }
}

impl Graph {
    /// A marked set closed under admitted steps contains everything
    /// reachable from a marked start.
    proof fn lemma_closed_complete(
        self,
        direction: Direction,
        filter: EdgeFilter,
        gate: NodeGate,
        marked: Seq<bool>,
        p: Seq<int>,
    )
        requires
            marked.len() == self.nodes@.len(),
            self.spec_path_ok(direction, filter, gate, p),
            marked[p[0]],
            forall|i: int, j: int|
                0 <= i < marked.len() && marked[i] && self.spec_step(direction, filter, gate, i, j)
                    ==> marked[j],
        ensures
            marked[p.last()],
        decreases p.len(),
    {
        if p.len() > 1 {
            let q = p.drop_last();
            assert(self.spec_path_ok(direction, filter, gate, q));
            self.lemma_closed_complete(direction, filter, gate, marked, q);
            assert(self.spec_step(direction, filter, gate, p[p.len() - 2], p.last()));
        }
    }

    /// Traversal by saturation: mark exactly the nodes reachable from
    /// `start` along edges passing `filter`, through nodes passing
    /// the node rule, in the given direction.  The marking runs as an explicit
    /// iterative fixpoint, not by recursion, so deep or cyclic graphs are
    /// safe.
    #[verifier::loop_isolation(false)]
    pub fn dfs(&self, start: usize, direction: Direction, filter: EdgeFilter, gate: NodeGate) -> (
        marked: Vec<bool>)
        requires
            self.wf(),
            start < self.nodes@.len(),
        ensures
            marked@.len() == self.nodes@.len(),
            forall|i: int|
                0 <= i < marked@.len() ==> #[trigger] marked@[i] == self.spec_reaches(
                    direction,
                    filter,
                    gate,
                    start as int,
                    i,
                ),
    {
        let n = self.nodes.len();
        let mut marked: Vec<bool> = Vec::new();
        let mut i: usize = 0;
        while i < n
            invariant
                i <= n,
                marked@.len() == i,
                forall|t: int| 0 <= t < i ==> !(#[trigger] marked@[t]),
            decreases n - i,
        {
            marked.push(false);
            i = i + 1;
        }
        if self.node_ok(start, gate) {
            marked.set(start, true);
            proof {
                let p0 = seq![start as int];
                assert(self.spec_path_ok(direction, filter, gate, p0));
                assert(p0[0] == start as int && p0.last() == start as int);
                assert(self.spec_reaches(direction, filter, gate, start as int, start as int));
            }
        }
        let mut changed = true;
        while changed
            invariant
                self.wf(),
                start < self.nodes@.len(),
                n == self.nodes@.len(),
                marked@.len() == n,
                self.spec_node_ok(start as int, gate) ==> marked@[start as int],
                forall|t: int|
                    0 <= t < n && #[trigger] marked@[t] ==> self.spec_reaches(
                        direction,
                        filter,
                        gate,
                        start as int,
                        t,
                    ) && self.spec_node_ok(t, gate),
                !changed ==> (forall|i2: int, j2: int|
                    0 <= i2 < n && marked@[i2] && self.spec_step(direction, filter, gate, i2, j2)
                        ==> marked@[j2]),
            decreases count_false(marked@) + (if changed {
                1int
            } else {
                0int
            }),
        {
            changed = false;
            let ghost pass_start = marked@;
            let mut cur: usize = 0;
            while cur < n
                invariant
                    self.wf(),
                    start < self.nodes@.len(),
                    n == self.nodes@.len(),
                    marked@.len() == n,
                    cur <= n,
                    pass_start.len() == n,
                    self.spec_node_ok(start as int, gate) ==> marked@[start as int],
                    forall|t: int| 0 <= t < n && pass_start[t] ==> #[trigger] marked@[t],
                    forall|t: int|
                        0 <= t < n && #[trigger] marked@[t] ==> self.spec_reaches(
                            direction,
                            filter,
                            gate,
                            start as int,
                            t,
                        ) && self.spec_node_ok(t, gate),
                    changed ==> count_false(marked@) < count_false(pass_start),
                    !changed ==> marked@ == pass_start,
                    !changed ==> (forall|i2: int, j2: int|
                        0 <= i2 < cur && marked@[i2] && self.spec_step(
                            direction,
                            filter,
                            gate,
                            i2,
                            j2,
                        ) ==> marked@[j2]),
                decreases n - cur,
            {
                if marked[cur] {
                    let c = self.expand(cur, direction, filter, gate, &mut marked, Ghost(start));
                    if c {
                        changed = true;
                    }
                }
                cur = cur + 1;
            }
        }
        proof {
            assert forall|i2: int|
                0 <= i2 < marked@.len() && self.spec_reaches(
                    direction,
                    filter,
                    gate,
                    start as int,
                    i2,
                ) implies marked@[i2] by {
                let p = choose|p: Seq<int>|
                    self.spec_path_ok(direction, filter, gate, p) && p[0] == start as int
                        && p.last() == i2;
                assert(self.spec_node_ok(start as int, gate));
                assert(marked@[start as int]);
                self.lemma_closed_complete(direction, filter, gate, marked@, p);
            }
        }
        marked
    }

    /// Mark every unmarked direct successor of `cur`; report whether any
    /// mark was added.
    #[verifier::loop_isolation(false)]
    fn expand(
        &self,
        cur: usize,
        direction: Direction,
        filter: EdgeFilter,
        gate: NodeGate,
        marked: &mut Vec<bool>,
        start: Ghost<usize>,
    ) -> (changed: bool)
        requires
            self.wf(),
            start@ < self.nodes@.len(),
            cur < self.nodes@.len(),
            old(marked)@.len() == self.nodes@.len(),
            old(marked)@[cur as int],
            forall|t: int|
                0 <= t < old(marked)@.len() && #[trigger] old(marked)@[t] ==> self.spec_reaches(
                    direction,
                    filter,
                    gate,
                    start@ as int,
                    t,
                ) && self.spec_node_ok(t, gate),
        ensures
            final(marked)@.len() == old(marked)@.len(),
            forall|t: int|
                0 <= t < old(marked)@.len() && old(marked)@[t] ==> #[trigger] final(marked)@[t],
            forall|t: int|
                0 <= t < final(marked)@.len() && #[trigger] final(marked)@[t]
                    ==> self.spec_reaches(direction, filter, gate, start@ as int, t)
                    && self.spec_node_ok(t, gate),
            changed ==> count_false(final(marked)@) < count_false(old(marked)@),
            !changed ==> final(marked)@ == old(marked)@,
            !changed ==> (forall|j2: int|
                self.spec_step(direction, filter, gate, cur as int, j2) ==> final(marked)@[j2]),
    {
        let mut changed = false;
        let ghost orig = old(marked)@;
        let down = matches!(direction, Direction::Downside) || matches!(direction, Direction::Both);
        let up = matches!(direction, Direction::Upside) || matches!(direction, Direction::Both);
        if down {
            let out_len = self.nodes[cur].out_edges.len();
            let mut k: usize = 0;
            while k < out_len
                invariant
                    self.wf(),
                    start@ < self.nodes@.len(),
                    cur < self.nodes@.len(),
                    down == ((direction is Downside) || (direction is Both)),
                    out_len == self.nodes@[cur as int].out_edges@.len(),
                    k <= out_len,
                    marked@.len() == orig.len(),
                    orig.len() == self.nodes@.len(),
                    orig[cur as int],
                    forall|t: int| 0 <= t < orig.len() && orig[t] ==> #[trigger] marked@[t],
                    forall|t: int|
                        0 <= t < marked@.len() && #[trigger] marked@[t] ==> self.spec_reaches(
                            direction,
                            filter,
                            gate,
                            start@ as int,
                            t,
                        ) && self.spec_node_ok(t, gate),
                    changed ==> count_false(marked@) < count_false(orig),
                    !changed ==> marked@ == orig,
                    forall|t: int|
                        0 <= t < k && self.spec_edge_admitted(
                            #[trigger] self.nodes@[cur as int].out_edges@[t] as int,
                            filter,
                        ) && self.spec_node_ok(
                            self.edges@[self.nodes@[cur as int].out_edges@[t] as int].dst as int,
                            gate,
                        ) ==> marked@[self.edges@[self.nodes@[cur as int].out_edges@[t] as int].dst as int],
                decreases out_len - k,
            {
                let e = self.nodes[cur].out_edges[k];
                let dst = self.edges[e].dst;
                if self.edge_admitted(e, filter) && self.node_ok(dst, gate) && !marked[dst] {
                    proof {
                        lemma_count_false_update(marked@, dst as int);
                        assert(marked@[cur as int]);
                        assert(self.spec_node_ok(cur as int, gate));
                        assert(self.spec_reaches(direction, filter, gate, start@ as int, cur as int));
                        assert(self.edges@[e as int].dst == dst && dst < self.nodes@.len());
                        assert(self.nodes@[cur as int].out_edges@[k as int] == e);
                        assert(self.spec_down_edge(filter, cur as int, dst as int));
                        assert(self.spec_step(direction, filter, gate, cur as int, dst as int));
                        self.lemma_reach_step(direction, filter, gate, start@ as int, cur as int,
                            dst as int);
                    }
                    let ghost before = marked@;
                    marked.set(dst, true);
                    proof {
                        if !changed {
                            assert(count_false(marked@) < count_false(orig));
                        }
                    }
                    changed = true;
                }
                k = k + 1;
            }
        }
        if up {
            let in_len = self.nodes[cur].in_edges.len();
            let mut k: usize = 0;
            while k < in_len
                invariant
                    self.wf(),
                    start@ < self.nodes@.len(),
                    cur < self.nodes@.len(),
                    down == ((direction is Downside) || (direction is Both)),
                    up == ((direction is Upside) || (direction is Both)),
                    in_len == self.nodes@[cur as int].in_edges@.len(),
                    k <= in_len,
                    marked@.len() == orig.len(),
                    orig.len() == self.nodes@.len(),
                    orig[cur as int],
                    forall|t: int| 0 <= t < orig.len() && orig[t] ==> #[trigger] marked@[t],
                    forall|t: int|
                        0 <= t < marked@.len() && #[trigger] marked@[t] ==> self.spec_reaches(
                            direction,
                            filter,
                            gate,
                            start@ as int,
                            t,
                        ) && self.spec_node_ok(t, gate),
                    changed ==> count_false(marked@) < count_false(orig),
                    !changed ==> marked@ == orig,
                    down ==> (forall|t: int|
                        0 <= t < self.nodes@[cur as int].out_edges@.len()
                            && self.spec_edge_admitted(
                            #[trigger] self.nodes@[cur as int].out_edges@[t] as int,
                            filter,
                        ) && self.spec_node_ok(
                            self.edges@[self.nodes@[cur as int].out_edges@[t] as int].dst as int,
                            gate,
                        ) ==> marked@[self.edges@[self.nodes@[cur as int].out_edges@[t] as int].dst as int]),
                    forall|t: int|
                        0 <= t < k && self.spec_edge_admitted(
                            #[trigger] self.nodes@[cur as int].in_edges@[t] as int,
                            filter,
                        ) && self.spec_node_ok(
                            self.edges@[self.nodes@[cur as int].in_edges@[t] as int].src as int,
                            gate,
                        ) ==> marked@[self.edges@[self.nodes@[cur as int].in_edges@[t] as int].src as int],
                decreases in_len - k,
            {
                let e = self.nodes[cur].in_edges[k];
                let src = self.edges[e].src;
                if self.edge_admitted(e, filter) && self.node_ok(src, gate) && !marked[src] {
                    proof {
                        lemma_count_false_update(marked@, src as int);
                        assert(marked@[cur as int]);
                        assert(self.spec_node_ok(cur as int, gate));
                        assert(self.spec_reaches(direction, filter, gate, start@ as int, cur as int));
                        assert(self.edges@[e as int].src == src && src < self.nodes@.len());
                        assert(self.nodes@[cur as int].in_edges@[k as int] == e);
                        assert(self.spec_up_edge(filter, cur as int, src as int));
                        assert(self.spec_step(direction, filter, gate, cur as int, src as int));
                        self.lemma_reach_step(direction, filter, gate, start@ as int, cur as int,
                            src as int);
                    }
                    let ghost before = marked@;
                    marked.set(src, true);
                    proof {
                        if !changed {
                            assert(count_false(marked@) < count_false(orig));
                        }
                    }
                    changed = true;
                }
                k = k + 1;
            }
        }
        proof {
            if !changed {
                assert forall|j2: int|
                    self.spec_step(direction, filter, gate, cur as int, j2) implies marked@[j2] by {
                    if down && self.spec_down_edge(filter, cur as int, j2) {
                        let kk = choose|kk: int|
                            0 <= kk < self.nodes@[cur as int].out_edges@.len() && {
                                let e = #[trigger] self.nodes@[cur as int].out_edges@[kk] as int;
                                self.spec_edge_admitted(e, filter) && self.edges@[e].dst == j2
                            };
                        assert(marked@[j2]);
                    }
                    if up && self.spec_up_edge(filter, cur as int, j2) {
                        let kk = choose|kk: int|
                            0 <= kk < self.nodes@[cur as int].in_edges@.len() && {
                                let e = #[trigger] self.nodes@[cur as int].in_edges@[kk] as int;
                                self.spec_edge_admitted(e, filter) && self.edges@[e].src == j2
                            };
                        assert(marked@[j2]);
                    }
                }
            }
        }
        changed
    }

    /// Extend reachability by one admitted step.
    proof fn lemma_reach_step(
        self,
        direction: Direction,
        filter: EdgeFilter,
        gate: NodeGate,
        start: int,
        a: int,
        b: int,
    )
        requires
            self.spec_reaches(direction, filter, gate, start, a),
            self.spec_step(direction, filter, gate, a, b),
        ensures
            self.spec_reaches(direction, filter, gate, start, b),
    {
        let p = choose|p: Seq<int>|
            self.spec_path_ok(direction, filter, gate, p) && p[0] == start && p.last() == a;
        let p2 = p.push(b);
        assert forall|t: int| 0 <= t < p2.len() - 1 implies self.spec_step(
            direction,
            filter,
            gate,
            #[trigger] p2[t],
            p2[t + 1],
        ) by {
            if t < p.len() - 1 {
                assert(p2[t] == p[t] && p2[t + 1] == p[t + 1]);
            } else {
                assert(p2[t] == a && p2[t + 1] == b);
            }
        }
        assert(self.spec_path_ok(direction, filter, gate, p2));
        assert(p2[0] == start && p2.last() == b);
    }

    /// Exec check of the edge filter.
    #[verifier::loop_isolation(false)]
    fn edge_admitted(&self, e: usize, filter: EdgeFilter) -> (r: bool)
        requires
            self.wf(),
            e < self.edges@.len(),
        ensures
            r == self.spec_edge_admitted(e as int, filter),
    {
        match filter {
            EdgeFilter::AllEdges => true,
            EdgeFilter::EquivalentOnly => {
                let op = self.edges[e].op;
                matches!(op, EdgeOp::Copy) || matches!(op, EdgeOp::Move) || matches!(
                    op,
                    EdgeOp::Mut,
                ) || matches!(op, EdgeOp::Immut)
            },
        }
    }

    /// Exec check of the node admission rule.
    #[verifier::loop_isolation(false)]
    fn node_ok(&self, n: usize, gate: NodeGate) -> (r: bool)
        requires
            self.wf(),
            n < self.nodes@.len(),
        ensures
            r == self.spec_node_ok(n as int, gate),
    {
        match gate {
            NodeGate::AllNodes => true,
            NodeGate::EquivStrict => {
                let ops = &self.nodes[n].ops;
                let mut k: usize = 0;
                while k < ops.len()
                    invariant
                        ops@ == self.nodes@[n as int].ops@,
                        k <= ops@.len(),
                        forall|t: int| 0 <= t < k ==> spec_op_equiv(#[trigger] ops@[t]),
                    decreases ops.len() - k,
                {
                    let op = ops[k];
                    if !(matches!(op, NodeOp::Nop) || matches!(op, NodeOp::Use) || matches!(
                        op,
                        NodeOp::Ref,
                    )) {
                        proof {
                            assert(!spec_op_equiv(self.nodes@[n as int].ops@[k as int]));
                            assert(gate is EquivStrict);
                            assert(!self.spec_node_ok(n as int, gate));
                        }
                        return false;
                    }
                    k = k + 1;
                }
                true
            },
            NodeGate::EquivLenient => {
                let ops = &self.nodes[n].ops;
                let mut k: usize = 0;
                while k < ops.len()
                    invariant
                        ops@ == self.nodes@[n as int].ops@,
                        k <= ops@.len(),
                        forall|t: int| 0 <= t < k ==> !spec_op_equiv(#[trigger] ops@[t]),
                    decreases ops.len() - k,
                {
                    let op = ops[k];
                    if matches!(op, NodeOp::Nop) || matches!(op, NodeOp::Use) || matches!(
                        op,
                        NodeOp::Ref,
                    ) {
                        proof {
                            assert(spec_op_equiv(self.nodes@[n as int].ops@[k as int]));
                        }
                        return true;
                    }
                    k = k + 1;
                }
                proof {
                    if self.spec_node_ok(n as int, gate) {
                        let w = choose|w: int|
                            0 <= w < self.nodes@[n as int].ops@.len() && spec_op_equiv(
                                #[trigger] self.nodes@[n as int].ops@[w],
                            );
                    }
                }
                false
            },
        }
    }

    /// May an edge be crossed when collecting value-equivalent locals?
    pub fn equivalent_edge_validator(&self, idx: usize) -> (r: DFSStatus)
        requires
            self.wf(),
            idx < self.edges@.len(),
        ensures
            (r is Continue) == spec_edge_equiv(self.edges@[idx as int].op),
    {
        if self.edge_admitted(idx, EdgeFilter::EquivalentOnly) {
            DFSStatus::Continue
        } else {
            DFSStatus::Stop
        }
    }

    /// A validator that admits every edge.
    pub fn always_true_edge_validator(&self, _idx: usize) -> (r: DFSStatus)
        ensures
            r is Continue,
    {
        DFSStatus::Continue
    }

    /// Bidirectional reachability between two nodes.
    pub fn is_connected(&self, idx_1: usize, idx_2: usize) -> (r: bool)
        requires
            self.wf(),
            idx_1 < self.nodes@.len(),
            idx_2 < self.nodes@.len(),
        ensures
            r == (self.spec_reaches(
                Direction::Downside,
                EdgeFilter::AllEdges,
                NodeGate::AllNodes,
                idx_1 as int,
                idx_2 as int,
            ) || self.spec_reaches(
                Direction::Upside,
                EdgeFilter::AllEdges,
                NodeGate::AllNodes,
                idx_1 as int,
                idx_2 as int,
            )),
    {
        let down = self.dfs(idx_1, Direction::Downside, EdgeFilter::AllEdges, NodeGate::AllNodes);
        if down[idx_2] {
            return true;
        }
        let upward = self.dfs(idx_1, Direction::Upside, EdgeFilter::AllEdges, NodeGate::AllNodes);
        upward[idx_2]
    }

    /// For the return value and each argument: does dataflow connect it
    /// to the return value?
    pub fn param_return_deps(&self) -> (deps: Vec<bool>)
        requires
            self.wf(),
            self.argc < self.n_locals,
            self.n_locals <= self.nodes@.len(),
        ensures
            deps@.len() == self.argc + 1,
            forall|i: int|
                0 <= i <= self.argc ==> #[trigger] deps@[i] == (self.spec_reaches(
                    Direction::Downside,
                    EdgeFilter::AllEdges,
                    NodeGate::AllNodes,
                    i,
                    0,
                ) || self.spec_reaches(
                    Direction::Upside,
                    EdgeFilter::AllEdges,
                    NodeGate::AllNodes,
                    i,
                    0,
                )),
    {
        let mut deps: Vec<bool> = Vec::new();
        let mut i: usize = 0;
        while i <= self.argc
            invariant
                self.wf(),
                self.argc < self.n_locals <= self.nodes@.len(),
                i <= self.argc + 1,
                deps@.len() == i,
                forall|t: int|
                    0 <= t < i ==> #[trigger] deps@[t] == (self.spec_reaches(
                        Direction::Downside,
                        EdgeFilter::AllEdges,
                        NodeGate::AllNodes,
                        t,
                        0,
                    ) || self.spec_reaches(
                        Direction::Upside,
                        EdgeFilter::AllEdges,
                        NodeGate::AllNodes,
                        t,
                        0,
                    )),
            decreases self.argc + 1 - i,
        {
            let c = self.is_connected(i, 0);
            deps.push(c);
            i = i + 1;
        }
        deps
    }

    /// The source node of the `order`-th incoming edge, if any.
    pub fn get_upside_idx(&self, node_idx: usize, order: usize) -> (r: Option<usize>)
        requires
            self.wf(),
            node_idx < self.nodes@.len(),
        ensures
            match r {
                Option::Some(s) => order < self.nodes@[node_idx as int].in_edges@.len() && s
                    == self.edges@[self.nodes@[node_idx as int].in_edges@[order as int] as int].src,
                Option::None => order >= self.nodes@[node_idx as int].in_edges@.len(),
            },
    {
        if order < self.nodes[node_idx].in_edges.len() {
            let e = self.nodes[node_idx].in_edges[order];
            Option::Some(self.edges[e].src)
        } else {
            Option::None
        }
    }

    /// The destination node of the `order`-th outgoing edge, if any.
    pub fn get_downside_idx(&self, node_idx: usize, order: usize) -> (r: Option<usize>)
        requires
            self.wf(),
            node_idx < self.nodes@.len(),
        ensures
            match r {
                Option::Some(s) => order < self.nodes@[node_idx as int].out_edges@.len() && s
                    == self.edges@[self.nodes@[node_idx as int].out_edges@[order as int] as int].dst,
                Option::None => order >= self.nodes@[node_idx as int].out_edges@.len(),
            },
    {
        if order < self.nodes[node_idx].out_edges.len() {
            let e = self.nodes[node_idx].out_edges[order];
            Option::Some(self.edges[e].dst)
        } else {
            Option::None
        }
    }

    /// `rt` is the chain's root for `local`: the smallest node
    /// upside-reachable from `local` through identity-preserving nodes
    /// and edges.  The chain can have several heads; taking the smallest
    /// makes the choice deterministic.
    pub open spec fn spec_chain_root(self, local: int, strict: bool, rt: int) -> bool {
        &&& self.spec_reaches(
            Direction::Upside,
            EdgeFilter::EquivalentOnly,
            spec_equiv_gate(strict),
            local,
            rt,
        )
        &&& forall|u: int|
            0 <= u < rt ==> !self.spec_reaches(
                Direction::Upside,
                EdgeFilter::EquivalentOnly,
                spec_equiv_gate(strict),
                local,
                u,
            )
    }

    /// `i` is in the value-equivalence class of `local`: walking upside
    /// through identity-preserving nodes and edges finds the chain's
    /// root, and `i` is downside-reachable from that one root the same
    /// way.
    pub open spec fn spec_equivalent(self, local: int, strict: bool, i: int) -> bool {
        exists|rt: int|
            #[trigger] self.spec_chain_root(local, strict, rt) && self.spec_reaches(
                Direction::Downside,
                EdgeFilter::EquivalentOnly,
                spec_equiv_gate(strict),
                rt,
                i,
            )
    }

    /// Collect the value-equivalence class of `local`: walk upside
    /// through identity-preserving nodes and edges to the chain's root
    /// (the smallest upside-reachable node, a deterministic choice among
    /// the chain's heads), then collect everything reachable downside
    /// from that one root the same way.  Strict mode demands every
    /// operation on a passed node preserve identity; lenient mode
    /// demands one.  The result holds exactly the equivalent locals, in
    /// ascending order.
    #[verifier::loop_isolation(false)]
    pub fn collect_equivalent_locals(&self, local: usize, strict: bool) -> (r: Vec<usize>)
        requires
            self.wf(),
            local < self.nodes@.len(),
        ensures
            forall|t: int|
                0 <= t < r@.len() ==> (#[trigger] r@[t]) < self.nodes@.len()
                    && self.spec_equivalent(local as int, strict, r@[t] as int),
            forall|i: int|
                0 <= i < self.nodes@.len() && self.spec_equivalent(local as int, strict, i)
                    ==> #[trigger] r@.contains(i as usize),
    {
        let gate = if strict {
            NodeGate::EquivStrict
        } else {
            NodeGate::EquivLenient
        };
        let ghost gate_spec = spec_equiv_gate(strict);
        let ups = self.dfs(local, Direction::Upside, EdgeFilter::EquivalentOnly, gate);
        let n = self.nodes.len();
        let mut root: usize = 0;
        let mut found: bool = false;
        while !found && root < n
            invariant
                root <= n,
                ups@.len() == n,
                gate == gate_spec,
                forall|t: int|
                    0 <= t < ups@.len() ==> #[trigger] ups@[t] == self.spec_reaches(
                        Direction::Upside,
                        EdgeFilter::EquivalentOnly,
                        gate_spec,
                        local as int,
                        t,
                    ),
                !found ==> forall|u: int|
                    0 <= u < root ==> !self.spec_reaches(
                        Direction::Upside,
                        EdgeFilter::EquivalentOnly,
                        gate_spec,
                        local as int,
                        u,
                    ),
                found ==> root < n && self.spec_chain_root(local as int, strict, root as int),
            decreases n - root + (if found {
                0int
            } else {
                1int
            }),
        {
            if ups[root] {
                found = true;
            } else {
                root = root + 1;
            }
        }
        let mut r: Vec<usize> = Vec::new();
        if found {
            let downs = self.dfs(root, Direction::Downside, EdgeFilter::EquivalentOnly, gate);
            let mut k: usize = 0;
            while k < n
                invariant
                    k <= n,
                    n == self.nodes@.len(),
                    downs@.len() == n,
                    gate == gate_spec,
                    root < n,
                    self.spec_chain_root(local as int, strict, root as int),
                    forall|t: int|
                        0 <= t < downs@.len() ==> #[trigger] downs@[t] == self.spec_reaches(
                            Direction::Downside,
                            EdgeFilter::EquivalentOnly,
                            gate_spec,
                            root as int,
                            t,
                        ),
                    forall|t: int|
                        0 <= t < r@.len() ==> (#[trigger] r@[t]) < n && downs@[r@[t] as int],
                    forall|i2: int|
                        0 <= i2 < k && downs@[i2] ==> #[trigger] r@.contains(i2 as usize),
                decreases n - k,
            {
                if downs[k] {
                    let ghost r_before = r@;
                    r.push(k);
                    proof {
                        assert(r@ == r_before.push(k));
                        assert(r@.last() == k);
                        assert(r@.contains(k));
                        assert forall|i2: int|
                            0 <= i2 < k + 1 && downs@[i2] implies #[trigger] r@.contains(
                            i2 as usize,
                        ) by {
                            if i2 < k {
                                assert(r_before.contains(i2 as usize));
                                let t = choose|t: int|
                                    0 <= t < r_before.len() && #[trigger] r_before[t]
                                        == i2 as usize;
                                assert(r@[t] == r_before[t]);
                                assert(r@[t] == i2 as usize);
                            }
                        }
                    }
                }
                k = k + 1;
            }
            proof {
                assert forall|t: int|
                    0 <= t < r@.len() implies (#[trigger] r@[t]) < self.nodes@.len()
                    && self.spec_equivalent(local as int, strict, r@[t] as int) by {
                    assert(downs@[r@[t] as int]);
                    assert(self.spec_chain_root(local as int, strict, root as int)
                        && self.spec_reaches(
                        Direction::Downside,
                        EdgeFilter::EquivalentOnly,
                        gate_spec,
                        root as int,
                        r@[t] as int,
                    ));
                }
                assert forall|i: int|
                    0 <= i < self.nodes@.len() && self.spec_equivalent(local as int, strict, i)
                        implies #[trigger] r@.contains(i as usize) by {
                    let rt = choose|rt: int|
                        #[trigger] self.spec_chain_root(local as int, strict, rt)
                            && self.spec_reaches(
                            Direction::Downside,
                            EdgeFilter::EquivalentOnly,
                            gate_spec,
                            rt,
                            i,
                        );
                    // The chain root is unique: each of the two is at
                    // most the other.
                    assert(rt == root as int);
                    assert(downs@[i]);
                }
            }
        } else {
            proof {
                assert forall|i: int|
                    0 <= i < self.nodes@.len() && self.spec_equivalent(local as int, strict, i)
                        implies #[trigger] r@.contains(i as usize) by {
                    let rt = choose|rt: int|
                        #[trigger] self.spec_chain_root(local as int, strict, rt)
                            && self.spec_reaches(
                            Direction::Downside,
                            EdgeFilter::EquivalentOnly,
                            gate_spec,
                            rt,
                            i,
                        );
                    let p = choose|p: Seq<int>|
                        self.spec_path_ok(
                            Direction::Upside,
                            EdgeFilter::EquivalentOnly,
                            gate_spec,
                            p,
                        ) && p[0] == local as int && p.last() == rt;
                    assert(0 <= rt < self.nodes@.len());
                    assert(ups@[rt]);
                    assert(false);
                }
            }
        }
        r
    }
}

} // verus!
