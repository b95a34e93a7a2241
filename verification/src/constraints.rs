//! Constraint graph and interval fixpoint engine.
//!
//! Over an e-SSA body, every storage local gets a variable node holding a
//! range, and every assignment becomes one operation: binary, unary,
//! phi-merge, bound-intersection (recognized by the marker identities the
//! rewriting pass inserted), or plain copy.  Branch conditions yield, per
//! compared variable, the interval each branch implies.  Strongly
//! connected components of the def-use graph are found with an iterative
//! reachability pass (no recursion), then resolved in topological order
//! by a widen-then-narrow fixpoint with hard iteration caps.

use vstd::prelude::*;

use crate::ir::{BinOp, BasicBlock, FnBody, Operand, Place, Rvalue, Statement, Terminator, UnOp};
use crate::range::{
    Range,
    RangeType,
    spec_range_add,
    spec_range_intersect,
    spec_range_mul,
    spec_range_sub,
    spec_range_unite,
    apply_comparison,
    flipped_binop,
    range_add,
    range_intersect,
    range_mul,
    range_sub,
    range_unite,
    widen_step,
    narrow_step,
};

verus! {

/// Iteration cap for the narrowing worklist, a safety valve against
/// non-convergence: exceeding it leaves a sound but coarser result.
pub const NARROW_ITERATION_CAP: usize = 1000;

/// Iteration cap for the widening worklist.
pub const WIDEN_ITERATION_CAP: usize = 10000;

/// A variable node: the range computed for one storage local.
#[derive(Debug, Clone, Copy, PartialEq, Eq)]
pub struct VarNode {
    pub range: Range,
}

/// The interval constraint of a bound-intersection operation: either a
/// concrete interval or a symbolic reference to another variable's range
/// under a comparison operator.
#[derive(Debug, Clone, Copy, PartialEq, Eq)]
pub enum IntervalConstraint {
    Basic(Range),
    Symb { bound: usize, op: BinOp },
}

/// The intervals a branch implies for one compared variable.
#[derive(Debug, Clone, Copy, PartialEq, Eq)]
pub struct ValueBranchMap {
    pub variable: usize,
    pub bb_false: usize,
    pub bb_true: usize,
    pub itv_false: IntervalConstraint,
    pub itv_true: IntervalConstraint,
}

/// One operation of the constraint graph.
#[derive(Debug, Clone, PartialEq, Eq)]
pub enum BasicOp {
    /// `sink = src1 op src2`, either source possibly a constant.
    Binary {
        sink: usize,
        src1: Option<usize>,
        const1: Option<i64>,
        src2: Option<usize>,
        const2: Option<i64>,
        op: BinOp,
    },
    /// `sink = op source`.
    Unary { sink: usize, source: usize, op: UnOp },
    /// `sink = phi(sources)`: a merge point.
    Phi { sink: usize, sources: Vec<usize> },
    /// `sink = source /\\ intersect`: branch refinement.
    Essa { sink: usize, source: usize, intersect: IntervalConstraint, unresolved: bool },
    /// `sink = source` or `sink = constant`.
    Use { sink: usize, source: Option<usize>, constv: Option<i64> },
    /// Synthetic control-dependence edge used only while components are
    /// detected.
    ControlDep { sink: usize, source: usize },
}

impl BasicOp {
    /// The operation's target local.
    pub open spec fn spec_sink(self) -> usize {
        match self {
            BasicOp::Binary { sink, .. } => sink,
            BasicOp::Unary { sink, .. } => sink,
            BasicOp::Phi { sink, .. } => sink,
            BasicOp::Essa { sink, .. } => sink,
            BasicOp::Use { sink, .. } => sink,
            BasicOp::ControlDep { sink, .. } => sink,
        }
    }

    /// All locals mentioned lie below `n`.
    pub open spec fn bounded(self, n: int) -> bool {
        match self {
            BasicOp::Binary { sink, src1, src2, .. } => {
                &&& sink < n
                &&& (src1 is Some ==> src1.unwrap() < n)
                &&& (src2 is Some ==> src2.unwrap() < n)
            },
            BasicOp::Unary { sink, source, .. } => sink < n && source < n,
            BasicOp::Phi { sink, sources } => sink < n && forall|t: int|
                0 <= t < sources@.len() ==> (#[trigger] sources@[t]) < n,
            BasicOp::Essa { sink, source, intersect, .. } => sink < n && source < n && (match intersect {
                IntervalConstraint::Symb { bound, .. } => bound < n,
                IntervalConstraint::Basic(_) => true,
            }),
            BasicOp::Use { sink, source, .. } => sink < n && (source is Some ==> source.unwrap()
                < n),
            BasicOp::ControlDep { sink, source } => sink < n && source < n,
        }
    }

    /// The target local.
    pub fn get_sink(&self) -> (r: usize)
        ensures
            r == self.spec_sink(),
    {
        match self {
            BasicOp::Binary { sink, .. } => *sink,
            BasicOp::Unary { sink, .. } => *sink,
            BasicOp::Phi { sink, .. } => *sink,
            BasicOp::Essa { sink, .. } => *sink,
            BasicOp::Use { sink, .. } => *sink,
            BasicOp::ControlDep { sink, .. } => *sink,
        }
    }
}

/// The constraint graph of one function.
pub struct ConstraintGraph {
    /// Per-local variable node (dense; absent when the local never
    /// appears in a tracked operation).
    pub vars: Vec<Option<VarNode>>,
    /// The operations.
    pub oprs: Vec<BasicOp>,
    /// Per-local index of its defining operation.
    pub defmap: Vec<Option<usize>>,
    /// Per-local indices of the operations that read it.
    pub usemap: Vec<Vec<usize>>,
    /// Per-local indices of the bound-intersection operations whose
    /// symbolic bound it is.
    pub symbmap: Vec<Vec<usize>>,
    /// Per-local branch intervals.
    pub values_branchmap: Vec<Option<ValueBranchMap>>,
    /// Marker identity of bound-intersection pseudo-statements.
    pub essa: usize,
    /// Marker identity of phi pseudo-statements.
    pub ssa: usize,
    /// Representatives of the components, in topological order.
    pub worklist: Vec<usize>,
    /// The members of each component, aligned with `worklist`.
    pub components: Vec<Vec<usize>>,
    /// Number of components found.
    pub num_sccs: usize,
    /// Number of singleton components found.
    pub num_alone_sccs: usize,
    /// The function's argument count.
    pub arg_count: usize,
}

impl ConstraintGraph {
    /// Number of tracked locals.
    pub open spec fn n(self) -> int {
        self.vars@.len() as int
    }

    /// Dense maps are aligned and every stored index is in bounds.
    pub open spec fn wf(self) -> bool {
        &&& self.defmap@.len() == self.n()
        &&& self.usemap@.len() == self.n()
        &&& self.symbmap@.len() == self.n()
        &&& self.values_branchmap@.len() == self.n()
        &&& forall|t: int|
            0 <= t < self.oprs@.len() ==> (#[trigger] self.oprs@[t]).bounded(self.n())
        &&& forall|v: int, k: int|
            0 <= v < self.n() && 0 <= k < self.usemap@[v]@.len() ==> (
            #[trigger] self.usemap@[v]@[k]) < self.oprs@.len()
        &&& forall|v: int, k: int|
            0 <= v < self.n() && 0 <= k < self.symbmap@[v]@.len() ==> (
            #[trigger] self.symbmap@[v]@[k]) < self.oprs@.len()
        &&& forall|v: int|
            0 <= v < self.n() && (#[trigger] self.defmap@[v]) is Some ==> self.defmap@[v].unwrap()
                < self.oprs@.len()
        &&& forall|v: int|
            0 <= v < self.n() && (#[trigger] self.values_branchmap@[v]) is Some
                ==> spec_vbm_bounded(self.values_branchmap@[v].unwrap(), self.n())
        &&& forall|c: int, t: int|
            0 <= c < self.components@.len() && 0 <= t < self.components@[c]@.len() ==> (
            #[trigger] self.components@[c]@[t]) < self.n()
    }

    /// An empty graph for `local_count` locals, with the two marker
    /// identities the rewriting pass used.
    pub fn new(essa: usize, ssa: usize, local_count: usize) -> (r: ConstraintGraph)
        ensures
            r.wf(),
            r.n() == local_count,
            r.oprs@.len() == 0,
    {
        let mut vars: Vec<Option<VarNode>> = Vec::new();
        let mut defmap: Vec<Option<usize>> = Vec::new();
        let mut usemap: Vec<Vec<usize>> = Vec::new();
        let mut symbmap: Vec<Vec<usize>> = Vec::new();
        let mut vbm: Vec<Option<ValueBranchMap>> = Vec::new();
        let mut i: usize = 0;
        while i < local_count
            invariant
                i <= local_count,
                vars@.len() == i,
                defmap@.len() == i,
                usemap@.len() == i,
                symbmap@.len() == i,
                vbm@.len() == i,
                forall|t: int| 0 <= t < i ==> (#[trigger] usemap@[t])@.len() == 0,
                forall|t: int| 0 <= t < i ==> (#[trigger] symbmap@[t])@.len() == 0,
                forall|t: int| 0 <= t < i ==> (#[trigger] defmap@[t]) is None,
                forall|t: int| 0 <= t < i ==> (#[trigger] vbm@[t]) is None,
            decreases local_count - i,
        {
            vars.push(Option::None);
            defmap.push(Option::None);
            usemap.push(Vec::new());
            symbmap.push(Vec::new());
            vbm.push(Option::None);
            i = i + 1;
        }
        ConstraintGraph {
            vars,
            oprs: Vec::new(),
            defmap,
            usemap,
            symbmap,
            values_branchmap: vbm,
            essa,
            ssa,
            worklist: Vec::new(),
            components: Vec::new(),
            num_sccs: 0,
            num_alone_sccs: 0,
            arg_count: 0,
        }
    }

    /// Ensure a variable node exists for local `v`.
    pub fn add_varnode(&mut self, v: usize)
        requires
            old(self).wf(),
            v < old(self).n(),
        ensures
            final(self).wf(),
            final(self).n() == old(self).n(),
            final(self).oprs@ == old(self).oprs@,
            final(self).usemap@ == old(self).usemap@,
            final(self).symbmap@ == old(self).symbmap@,
            final(self).defmap@ == old(self).defmap@,
            final(self).values_branchmap@ == old(self).values_branchmap@,
            final(self).essa == old(self).essa,
            final(self).ssa == old(self).ssa,
            final(self).arg_count == old(self).arg_count,
            final(self).vars@ == old(self).vars@.update(
                v as int,
                (if old(self).vars@[v as int] is Some {
                    old(self).vars@[v as int]
                } else {
                    Option::Some(VarNode { range: Range { lower: i64::MIN, upper: i64::MAX, rtype: RangeType::Unknown } })
                }),
            ),
            final(self).vars@[v as int] is Some,
    {
        if self.vars[v].is_none() {
            self.vars.set(v, Option::Some(VarNode { range: Range::full_unknown() }));
        } else {
            let existing = self.vars[v];
            self.vars.set(v, existing);
        }
        proof {
            assert(final(self).vars@ =~= old(self).vars@.update(
                v as int,
                (if old(self).vars@[v as int] is Some {
                    old(self).vars@[v as int]
                } else {
                    Option::Some(VarNode { range: Range { lower: i64::MIN, upper: i64::MAX, rtype: RangeType::Unknown } })
                }),
            ));
        }
    }

    /// Record that operation `op_idx` reads local `v`.
    fn push_use(&mut self, v: usize, op_idx: usize)
        requires
            old(self).wf(),
            v < old(self).n(),
            op_idx < old(self).oprs@.len(),
        ensures
            final(self).wf(),
            final(self).n() == old(self).n(),
            final(self).oprs@ == old(self).oprs@,
            final(self).defmap@ == old(self).defmap@,
            final(self).vars@ == old(self).vars@,
            final(self).symbmap@ == old(self).symbmap@,
            final(self).values_branchmap@ == old(self).values_branchmap@,
            final(self).essa == old(self).essa,
            final(self).ssa == old(self).ssa,
            final(self).arg_count == old(self).arg_count,
            final(self).usemap@[v as int]@ == old(self).usemap@[v as int]@.push(op_idx),
            forall|v2: int|
                0 <= v2 < final(self).n() && v2 != v ==> #[trigger] final(self).usemap@[v2]
                    == old(self).usemap@[v2],
    {
        let mut lst: Vec<usize> = Vec::new();
        self.usemap.set_and_swap(v, &mut lst);
        lst.push(op_idx);
        self.usemap.set_and_swap(v, &mut lst);
        proof {
            assert forall|v2: int, k: int|
                0 <= v2 < self.n() && 0 <= k < self.usemap@[v2]@.len() implies (
            #[trigger] self.usemap@[v2]@[k]) < self.oprs@.len() by {
                if v2 != v as int {
                    assert(self.usemap@[v2] == old(self).usemap@[v2]);
                }
            }
        }
    }

    /// Record that bound-intersection `op_idx` symbolically bounds `v`.
    fn push_symb(&mut self, v: usize, op_idx: usize)
        requires
            old(self).wf(),
            v < old(self).n(),
            op_idx < old(self).oprs@.len(),
        ensures
            final(self).wf(),
            final(self).n() == old(self).n(),
            final(self).oprs@ == old(self).oprs@,
            final(self).defmap@ == old(self).defmap@,
            final(self).vars@ == old(self).vars@,
            final(self).usemap@ == old(self).usemap@,
            final(self).values_branchmap@ == old(self).values_branchmap@,
            final(self).essa == old(self).essa,
            final(self).ssa == old(self).ssa,
            final(self).arg_count == old(self).arg_count,
            final(self).symbmap@[v as int]@ == old(self).symbmap@[v as int]@.push(op_idx),
            forall|v2: int|
                0 <= v2 < final(self).n() && v2 != v ==> #[trigger] final(self).symbmap@[v2]
                    == old(self).symbmap@[v2],
    {
        let mut lst: Vec<usize> = Vec::new();
        self.symbmap.set_and_swap(v, &mut lst);
        lst.push(op_idx);
        self.symbmap.set_and_swap(v, &mut lst);
        proof {
            assert forall|v2: int, k: int|
                0 <= v2 < self.n() && 0 <= k < self.symbmap@[v2]@.len() implies (
            #[trigger] self.symbmap@[v2]@[k]) < self.oprs@.len() by {
                if v2 != v as int {
                    assert(self.symbmap@[v2] == old(self).symbmap@[v2]);
                }
            }
        }
    }

    /// Append an operation and record its definition and uses: the
    /// operation index goes onto the use list of each source (once per
    /// occurrence) and becomes the sink's defining operation.
    #[verifier::loop_isolation(false)]
    fn push_op(&mut self, op: BasicOp, sources: &Vec<usize>) -> (idx: usize)
        requires
            old(self).wf(),
            op.bounded(old(self).n()),
            forall|t: int| 0 <= t < sources@.len() ==> (#[trigger] sources@[t]) < old(self).n(),
        ensures
            final(self).wf(),
            final(self).n() == old(self).n(),
            idx == old(self).oprs@.len(),
            final(self).oprs@ == old(self).oprs@.push(op),
            final(self).defmap@ == old(self).defmap@.update(
                op.spec_sink() as int,
                Option::Some(idx),
            ),
            final(self).vars@ == old(self).vars@,
            final(self).symbmap@ == old(self).symbmap@,
            final(self).values_branchmap@ == old(self).values_branchmap@,
            final(self).essa == old(self).essa,
            final(self).ssa == old(self).ssa,
            final(self).arg_count == old(self).arg_count,
            forall|v: int|
                0 <= v < final(self).n() ==> #[trigger] final(self).usemap@[v]@ == old(
                    self,
                ).usemap@[v]@ + spec_all_idx(spec_count_of(sources@, v as usize), idx),
    {
        let idx = self.oprs.len();
        let sink = op.get_sink();
        self.oprs.push(op);
        proof {
            assert forall|t: int| 0 <= t < self.oprs@.len() implies (#[trigger] self.oprs@[t]).bounded(
                self.n(),
            ) by {
                if t < old(self).oprs@.len() {
                    assert(self.oprs@[t] == old(self).oprs@[t]);
                }
            }
        }
        let mut k: usize = 0;
        while k < sources.len()
            invariant
                self.wf(),
                self.n() == old(self).n(),
                self.oprs@ == old(self).oprs@.push(op),
                self.defmap@ == old(self).defmap@,
                self.vars@ == old(self).vars@,
                self.symbmap@ == old(self).symbmap@,
                self.values_branchmap@ == old(self).values_branchmap@,
                self.essa == old(self).essa,
                self.ssa == old(self).ssa,
                self.arg_count == old(self).arg_count,
                idx < self.oprs@.len(),
                k <= sources@.len(),
                forall|v: int|
                    0 <= v < self.n() ==> #[trigger] self.usemap@[v]@ == old(self).usemap@[v]@
                        + spec_all_idx(spec_count_upto(sources@, k as int, v as usize), idx),
            decreases sources.len() - k,
        {
            let ghost before = *self;
            self.push_use(sources[k], idx);
            proof {
                vstd::std_specs::vec::axiom_spec_len(&self.vars);
                assert forall|v: int| 0 <= v < self.n() implies #[trigger] self.usemap@[v]@ == old(
                    self,
                ).usemap@[v]@ + spec_all_idx(spec_count_upto(sources@, k + 1, v as usize), idx) by {
                    lemma_count_upto_step(sources@, k as int, v as usize);
                    if v == sources@[k as int] as int {
                        assert(self.usemap@[v]@ == before.usemap@[v]@.push(idx));
                        assert(old(self).usemap@[v]@ + spec_all_idx(
                            spec_count_upto(sources@, k + 1, v as usize),
                            idx,
                        ) =~= (old(self).usemap@[v]@ + spec_all_idx(
                            spec_count_upto(sources@, k as int, v as usize),
                            idx,
                        )).push(idx));
                    } else {
                        assert(sources@[k as int] != v as usize);
                        assert(self.usemap@[v] == before.usemap@[v]);
                        assert(spec_all_idx(spec_count_upto(sources@, k + 1, v as usize), idx)
                            =~= spec_all_idx(spec_count_upto(sources@, k as int, v as usize), idx));
                    }
                }
            }
            k = k + 1;
        }
        self.defmap.set(sink, Option::Some(idx));
        proof {
            assert forall|v: int|
                0 <= v < self.n() && (#[trigger] self.defmap@[v]) is Some implies self.defmap@[v].unwrap()
                < self.oprs@.len() by {
                if v != sink as int {
                    assert(self.defmap@[v] == old(self).defmap@[v]);
                }
            }
            assert forall|v: int| 0 <= v < self.n() implies #[trigger] self.usemap@[v]@ == old(
                self,
            ).usemap@[v]@ + spec_all_idx(spec_count_of(sources@, v as usize), idx) by {
                assert(spec_count_upto(sources@, sources@.len() as int, v as usize)
                    == spec_count_of(sources@, v as usize));
            }
        }
        idx
    }
}

/// The constraint mentions only locals below `n`.
pub open spec fn spec_constraint_bounded(c: IntervalConstraint, n: int) -> bool {
    match c {
        IntervalConstraint::Symb { bound, .. } => bound < n,
        IntervalConstraint::Basic(_) => true,
    }
}

/// The branch-interval record mentions only locals below `n`.
pub open spec fn spec_vbm_bounded(m: ValueBranchMap, n: int) -> bool {
    m.variable < n && spec_constraint_bounded(m.itv_false, n) && spec_constraint_bounded(
        m.itv_true,
        n,
    )
}

/// The range stored for `v` (the full unresolved range when absent).
pub open spec fn spec_range_of(g: ConstraintGraph, v: int) -> Range {
    if 0 <= v < g.n() && g.vars@[v] is Some {
        g.vars@[v].unwrap().range
    } else {
        Range { lower: i64::MIN, upper: i64::MAX, rtype: RangeType::Unknown }
    }
}

/// The range of one operand of a binary operation.
pub open spec fn spec_binary_operand(g: ConstraintGraph, src: Option<usize>, c: Option<i64>) -> Range {
    match src {
        Option::Some(v) => spec_range_of(g, v as int),
        Option::None => match c {
            Option::Some(k) => Range { lower: k, upper: k, rtype: RangeType::Regular },
            Option::None => Range { lower: i64::MIN, upper: i64::MAX, rtype: RangeType::Unknown },
        },
    }
}

/// The merge of phi sources from index `t` on: unknown sources are
/// skipped; with no known source yet the accumulator stays unknown.
pub open spec fn spec_phi_eval(g: ConstraintGraph, sources: Seq<usize>, t: int, acc: Range, started: bool) -> Range
    decreases sources.len() - t,
{
    if t < 0 || t >= sources.len() {
        acc
    } else {
        let rs = spec_range_of(g, sources[t] as int);
        if !(rs.rtype is Unknown) {
            if started {
                spec_phi_eval(g, sources, t + 1, spec_range_unite(acc, rs), true)
            } else {
                spec_phi_eval(g, sources, t + 1, rs, true)
            }
        } else {
            spec_phi_eval(g, sources, t + 1, acc, started)
        }
    }
}

/// The concrete interval a symbolic bound implies once the bound's range
/// is known.
pub open spec fn spec_symb_range(cmp: BinOp, bound_range: Range) -> Range {
    match cmp {
        BinOp::Lt => Range {
            lower: i64::MIN,
            upper: crate::range::spec_clip(bound_range.upper - 1),
            rtype: RangeType::Regular,
        },
        BinOp::Le => Range { lower: i64::MIN, upper: bound_range.upper, rtype: RangeType::Regular },
        BinOp::Gt => Range {
            lower: crate::range::spec_clip(bound_range.lower + 1),
            upper: i64::MAX,
            rtype: RangeType::Regular,
        },
        BinOp::Ge => Range { lower: bound_range.lower, upper: i64::MAX, rtype: RangeType::Regular },
        BinOp::Eq => Range {
            lower: bound_range.lower,
            upper: bound_range.upper,
            rtype: RangeType::Regular,
        },
        _ => Range { lower: i64::MIN, upper: i64::MAX, rtype: RangeType::Regular },
    }
}

/// The range one operation evaluates to over the current variable
/// ranges: unknown operands stay unknown, arithmetic saturates, merges
/// take hulls, refinements take meets.
pub open spec fn spec_eval_op(g: ConstraintGraph, op: BasicOp) -> Range {
    match op {
        BasicOp::Binary { src1, const1, src2, const2, op, .. } => {
            let r1 = spec_binary_operand(g, src1, const1);
            let r2 = spec_binary_operand(g, src2, const2);
            if r1.rtype is Unknown || r2.rtype is Unknown {
                Range { lower: i64::MIN, upper: i64::MAX, rtype: RangeType::Unknown }
            } else {
                match op {
                    BinOp::Add => spec_range_add(r1, r2),
                    BinOp::AddUnchecked => spec_range_add(r1, r2),
                    BinOp::AddWithOverflow => spec_range_add(r1, r2),
                    BinOp::Sub => spec_range_sub(r1, r2),
                    BinOp::SubUnchecked => spec_range_sub(r1, r2),
                    BinOp::SubWithOverflow => spec_range_sub(r1, r2),
                    BinOp::Mul => spec_range_mul(r1, r2),
                    BinOp::MulUnchecked => spec_range_mul(r1, r2),
                    BinOp::MulWithOverflow => spec_range_mul(r1, r2),
                    _ => Range { lower: i64::MIN, upper: i64::MAX, rtype: RangeType::Regular },
                }
            }
        },
        BasicOp::Unary { source, op, .. } => {
            let rs = spec_range_of(g, source as int);
            if rs.rtype is Unknown {
                Range { lower: i64::MIN, upper: i64::MAX, rtype: RangeType::Unknown }
            } else {
                match op {
                    UnOp::Neg => spec_range_sub(
                        Range { lower: 0, upper: 0, rtype: RangeType::Regular },
                        rs,
                    ),
                    _ => Range { lower: i64::MIN, upper: i64::MAX, rtype: RangeType::Regular },
                }
            }
        },
        BasicOp::Phi { sources, .. } => spec_phi_eval(
            g,
            sources@,
            0,
            Range { lower: i64::MIN, upper: i64::MAX, rtype: RangeType::Unknown },
            false,
        ),
        BasicOp::Essa { source, intersect, .. } => {
            let rs = spec_range_of(g, source as int);
            if rs.rtype is Unknown {
                Range { lower: i64::MIN, upper: i64::MAX, rtype: RangeType::Unknown }
            } else {
                match intersect {
                    IntervalConstraint::Basic(c) => if c.rtype is Unknown {
                        rs
                    } else {
                        spec_range_intersect(rs, c)
                    },
                    IntervalConstraint::Symb { bound, op } => {
                        let rb = spec_range_of(g, bound as int);
                        if rb.rtype is Unknown {
                            rs
                        } else {
                            spec_range_intersect(rs, spec_symb_range(op, rb))
                        }
                    },
                }
            }
        },
        BasicOp::Use { source, constv, .. } => match source {
            Option::Some(v) => spec_range_of(g, v as int),
            Option::None => match constv {
                Option::Some(c) => Range { lower: c, upper: c, rtype: RangeType::Regular },
                Option::None => Range { lower: i64::MIN, upper: i64::MAX, rtype: RangeType::Unknown },
            },
        },
        BasicOp::ControlDep { source, .. } => spec_range_of(g, source as int),
    }
}

/// The branch record a constant comparison yields for its variable: the
/// false side's interval first, the true side's second, both resolved
/// from the exact comparison table.
pub open spec fn spec_const_branch_record(
    variable: usize,
    bb_false: usize,
    bb_true: usize,
    c: i64,
    cmp: BinOp,
    const_in_left: bool,
) -> ValueBranchMap {
    let t = crate::range::spec_apply_comparison(c, cmp, true, const_in_left);
    let f = crate::range::spec_apply_comparison(c, cmp, false, const_in_left);
    ValueBranchMap {
        variable,
        bb_false,
        bb_true,
        itv_false: IntervalConstraint::Basic(
            Range { lower: f.lower, upper: f.upper, rtype: RangeType::Regular },
        ),
        itv_true: IntervalConstraint::Basic(
            Range { lower: t.lower, upper: t.upper, rtype: RangeType::Regular },
        ),
    }
}

/// The operands name the same value: the same variant reading the same
/// location, or the same constant.
pub open spec fn spec_operand_like(a: Operand, b: Operand) -> bool {
    match (a, b) {
        (Operand::Copy(p), Operand::Copy(q)) => p.local == q.local && p.projection@
            == q.projection@,
        (Operand::Move(p), Operand::Move(q)) => p.local == q.local && p.projection@
            == q.projection@,
        (Operand::Constant(x), Operand::Constant(y)) => x == y,
        _ => false,
    }
}

/// Is statement `i` the bare assignment of a binary operation to
/// `place_local`?
pub open spec fn spec_cmp_assign_at(stmts: Seq<Statement>, place_local: usize, i: int) -> bool {
    match stmts[i] {
        Statement::Assign(lhs, Rvalue::BinaryOp(_, _, _)) => lhs.projection@.len() == 0
            && lhs.local == place_local,
        _ => false,
    }
}

/// The first such statement at or after `i`.
pub open spec fn spec_first_cmp_idx(stmts: Seq<Statement>, place_local: usize, i: int) -> Option<
    int,
>
    decreases stmts.len() - i,
{
    if i < 0 || i >= stmts.len() {
        Option::None
    } else if spec_cmp_assign_at(stmts, place_local, i) {
        Option::Some(i)
    } else {
        spec_first_cmp_idx(stmts, place_local, i + 1)
    }
}

/// The operand after the block's first `j` statements folded one copy
/// step into it: the source of the last bare copy into the operand's
/// bare location, or the operand itself.
pub open spec fn spec_fold_operand(stmts: Seq<Statement>, j: int, op: Operand) -> Operand
    decreases j,
{
    if j <= 0 {
        op
    } else {
        let prev = spec_fold_operand(stmts, j - 1, op);
        match stmts[j - 1] {
            Statement::Assign(l2, Rvalue::Use(src)) => match op {
                Operand::Copy(p) => if l2.projection@.len() == 0 && p.projection@.len() == 0
                    && l2.local == p.local {
                    src
                } else {
                    prev
                },
                Operand::Move(p) => if l2.projection@.len() == 0 && p.projection@.len() == 0
                    && l2.local == p.local {
                    src
                } else {
                    prev
                },
                Operand::Constant(_) => prev,
            },
            _ => prev,
        }
    }
}

/// The comparison a block's condition folds to for `place_local`: the
/// first binary assignment to it, its operands rewritten by one
/// in-block copy step each.
pub open spec fn spec_cond_of(stmts: Seq<Statement>, place_local: usize) -> Option<
    (Operand, Operand, BinOp),
> {
    match spec_first_cmp_idx(stmts, place_local, 0) {
        Option::Some(i) => match stmts[i] {
            Statement::Assign(_, Rvalue::BinaryOp(bop, o1, o2)) => Option::Some(
                (
                    spec_fold_operand(stmts, stmts.len() as int, o1),
                    spec_fold_operand(stmts, stmts.len() as int, o2),
                    bop,
                ),
            ),
            _ => Option::None,
        },
        Option::None => Option::None,
    }
}

/// The bare local an operand reads, if any.
pub open spec fn spec_branch_local(discr: Operand) -> Option<usize> {
    match discr {
        Operand::Copy(p) => if p.projection@.len() == 0 {
            Option::Some(p.local)
        } else {
            Option::None
        },
        Operand::Move(p) => if p.projection@.len() == 0 {
            Option::Some(p.local)
        } else {
            Option::None
        },
        Operand::Constant(_) => Option::None,
    }
}

/// The table change a constant-against-variable comparison makes: the
/// exact record from the comparison table when the variable is bare and
/// tracked, nothing otherwise.
pub open spec fn spec_branch_const_update(
    prev: Seq<Option<ValueBranchMap>>,
    cur: Seq<Option<ValueBranchMap>>,
    c: i64,
    p: Place,
    cmp: BinOp,
    const_in_left: bool,
    bb_false: usize,
    bb_true: usize,
    nvars: int,
) -> bool {
    if p.projection@.len() == 0 && (p.local as int) < nvars {
        cur == prev.update(
            p.local as int,
            Option::Some(
                spec_const_branch_record(p.local, bb_false, bb_true, c, cmp, const_in_left),
            ),
        )
    } else {
        cur == prev
    }
}

/// The table change a variable-against-variable comparison makes: the
/// two symbolic records, one under each variable, with the operator
/// mirrored for the right one; nothing when either side is not a bare
/// tracked local or the operator has no mirror.
pub open spec fn spec_branch_symb_update(
    prev: Seq<Option<ValueBranchMap>>,
    cur: Seq<Option<ValueBranchMap>>,
    o1: Operand,
    o2: Operand,
    cmp: BinOp,
    bb_false: usize,
    bb_true: usize,
    nvars: int,
) -> bool {
    match (spec_branch_local(o1), spec_branch_local(o2)) {
        (Option::Some(p1), Option::Some(p2)) => if (p1 as int) < nvars && (p2 as int) < nvars
            && crate::range::spec_flipped_binop(cmp) is Some {
            cur == prev.update(
                p1 as int,
                Option::Some(
                    ValueBranchMap {
                        variable: p1,
                        bb_false,
                        bb_true,
                        itv_false: IntervalConstraint::Symb { bound: p2, op: cmp },
                        itv_true: IntervalConstraint::Symb { bound: p2, op: cmp },
                    },
                ),
            ).update(
                p2 as int,
                Option::Some(
                    ValueBranchMap {
                        variable: p2,
                        bb_false,
                        bb_true,
                        itv_false: IntervalConstraint::Symb {
                            bound: p1,
                            op: crate::range::spec_flipped_binop(cmp).unwrap(),
                        },
                        itv_true: IntervalConstraint::Symb {
                            bound: p1,
                            op: crate::range::spec_flipped_binop(cmp).unwrap(),
                        },
                    },
                ),
            )
        } else {
            cur == prev
        },
        _ => cur == prev,
    }
}

/// The table change one comparison makes, by the shape of its folded
/// operands.
pub open spec fn spec_branch_update(
    prev: Seq<Option<ValueBranchMap>>,
    cur: Seq<Option<ValueBranchMap>>,
    o1: Operand,
    o2: Operand,
    cmp: BinOp,
    bb_false: usize,
    bb_true: usize,
    nvars: int,
) -> bool {
    match (o1, o2) {
        (Operand::Constant(_), Operand::Constant(_)) => cur == prev,
        (Operand::Constant(c), Operand::Copy(p)) => spec_branch_const_update(
            prev, cur, c, p, cmp, true, bb_false, bb_true, nvars,
        ),
        (Operand::Constant(c), Operand::Move(p)) => spec_branch_const_update(
            prev, cur, c, p, cmp, true, bb_false, bb_true, nvars,
        ),
        (Operand::Copy(p), Operand::Constant(c)) => spec_branch_const_update(
            prev, cur, c, p, cmp, false, bb_false, bb_true, nvars,
        ),
        (Operand::Move(p), Operand::Constant(c)) => spec_branch_const_update(
            prev, cur, c, p, cmp, false, bb_false, bb_true, nvars,
        ),
        _ => spec_branch_symb_update(prev, cur, o1, o2, cmp, bb_false, bb_true, nvars),
    }
}

/// What one switch does to the branch table: exactly nothing when its
/// discriminant is not a bare local or no comparison defines it in the
/// block, and otherwise exactly the update its folded comparison
/// dictates.
pub open spec fn spec_branch_map_step(
    prev: Seq<Option<ValueBranchMap>>,
    cur: Seq<Option<ValueBranchMap>>,
    discr: Operand,
    bb_false: usize,
    bb_true: usize,
    stmts: Seq<Statement>,
    nvars: int,
) -> bool {
    match spec_branch_local(discr) {
        Option::None => cur == prev,
        Option::Some(pl) => match spec_cond_of(stmts, pl) {
            Option::None => cur == prev,
            Option::Some(t) => spec_branch_update(
                prev,
                cur,
                t.0,
                t.1,
                t.2,
                bb_false,
                bb_true,
                nvars,
            ),
        },
    }
}

/// What one statement does to the operation list and definition map:
/// exactly the recorded operation of its kind, or nothing for untracked
/// shapes.
pub open spec fn spec_op_appended(
    prev_oprs: Seq<BasicOp>,
    cur_oprs: Seq<BasicOp>,
    prev_defmap: Seq<Option<usize>>,
    cur_defmap: Seq<Option<usize>>,
    vbm: Seq<Option<ValueBranchMap>>,
    essa: usize,
    ssa: usize,
    stmt: Statement,
    block: usize,
) -> bool {
    match stmt {
        Statement::Assign(place, rvalue) => {
            if place.projection@.len() != 0 {
                cur_oprs == prev_oprs && cur_defmap == prev_defmap
            } else {
                let sink = place.local;
                match rvalue {
                    Rvalue::BinaryOp(op, op1, op2) => if spec_tracked_binop(op) {
                        cur_oprs == prev_oprs.push(spec_binary_effect(sink, op1, op2, op))
                            && cur_defmap == prev_defmap.update(
                            sink as int,
                            Option::Some(prev_oprs.len() as usize),
                        )
                    } else {
                        cur_oprs == prev_oprs && cur_defmap == prev_defmap
                    },
                    Rvalue::UnaryOp(unop, operand) => match spec_unary_effect(sink, operand, unop) {
                        Option::Some(newop) => cur_oprs == prev_oprs.push(newop) && cur_defmap
                            == prev_defmap.update(
                            sink as int,
                            Option::Some(prev_oprs.len() as usize),
                        ),
                        Option::None => cur_oprs == prev_oprs && cur_defmap == prev_defmap,
                    },
                    Rvalue::Use(operand) => match spec_use_effect(sink, operand) {
                        Option::Some(newop) => cur_oprs == prev_oprs.push(newop) && cur_defmap
                            == prev_defmap.update(
                            sink as int,
                            Option::Some(prev_oprs.len() as usize),
                        ),
                        Option::None => cur_oprs == prev_oprs && cur_defmap == prev_defmap,
                    },
                    Rvalue::Aggregate(ctor, operands) => match ctor {
                        crate::ir::AggCtor::Adt(id) => if id == essa {
                            ({
                                let source = spec_operand_source(operands@[0]);
                                let entry = (if operands@.len() >= 1 && source is Some {
                                    vbm[source.unwrap() as int]
                                } else {
                                    Option::None
                                });
                                match spec_essa_effect(entry, sink, operands@, block) {
                                    Option::Some(newop) => cur_oprs == prev_oprs.push(newop)
                                        && cur_defmap == prev_defmap.update(
                                        sink as int,
                                        Option::Some(prev_oprs.len() as usize),
                                    ),
                                    Option::None => cur_oprs == prev_oprs && cur_defmap
                                        == prev_defmap,
                                }
                            })
                        } else if id == ssa {
                            cur_oprs.len() == prev_oprs.len() + 1 && (forall|t: int|
                                0 <= t < prev_oprs.len() ==> #[trigger] cur_oprs[t]
                                    == prev_oprs[t]) && cur_oprs.last() is Phi
                                && cur_oprs.last()->Phi_sink == sink
                                && cur_oprs.last()->Phi_sources@ == spec_phi_sources(operands@, 0)
                                && cur_defmap == prev_defmap.update(
                                sink as int,
                                Option::Some(prev_oprs.len() as usize),
                            )
                        } else {
                            cur_oprs == prev_oprs && cur_defmap == prev_defmap
                        },
                        _ => cur_oprs == prev_oprs && cur_defmap == prev_defmap,
                    },
                    _ => cur_oprs == prev_oprs && cur_defmap == prev_defmap,
                }
            }
        },
        Statement::Nop => cur_oprs == prev_oprs && cur_defmap == prev_defmap,
    }
}

/// What one block's terminator may do to the branch-interval table.
pub open spec fn spec_vbm_block_step(
    prev: Seq<Option<ValueBranchMap>>,
    cur: Seq<Option<ValueBranchMap>>,
    blk: BasicBlock,
    nvars: int,
) -> bool {
    match blk.terminator {
        Terminator::SwitchInt { discr, false_target, true_target } => spec_branch_map_step(
            prev,
            cur,
            discr,
            false_target,
            true_target,
            blk.statements@,
            nvars,
        ),
        _ => cur == prev,
    }
}

/// A valid evolution of the branch-interval table over the blocks: one
/// block step between each consecutive pair of states.
pub open spec fn spec_vbm_chain_ok(
    chain: Seq<Seq<Option<ValueBranchMap>>>,
    blocks: Seq<BasicBlock>,
    nvars: int,
) -> bool {
    chain.len() == blocks.len() + 1 && forall|b: int|
        0 <= b < blocks.len() ==> spec_vbm_block_step(
            chain[b],
            #[trigger] chain[b + 1],
            blocks[b],
            nvars,
        )
}

/// `mo`/`md` walk an operation list and definition map through the
/// statements of one block, one exact statement step at a time.
pub open spec fn spec_ops_stmt_chain_ok(
    mo: Seq<Seq<BasicOp>>,
    md: Seq<Seq<Option<usize>>>,
    stmts: Seq<Statement>,
    vbm: Seq<Option<ValueBranchMap>>,
    essa: usize,
    ssa: usize,
    block: usize,
) -> bool {
    &&& mo.len() == stmts.len() + 1
    &&& md.len() == stmts.len() + 1
    &&& forall|i: int|
        0 <= i < stmts.len() ==> spec_op_appended(
            mo[i],
            mo[i + 1],
            md[i],
            md[i + 1],
            vbm,
            essa,
            ssa,
            #[trigger] stmts[i],
            block,
        )
}

/// One block's exact effect on the operation list and definition map.
pub open spec fn spec_ops_block_step(
    prev_oprs: Seq<BasicOp>,
    next_oprs: Seq<BasicOp>,
    prev_defmap: Seq<Option<usize>>,
    next_defmap: Seq<Option<usize>>,
    blk: BasicBlock,
    block: usize,
    vbm: Seq<Option<ValueBranchMap>>,
    essa: usize,
    ssa: usize,
) -> bool {
    exists|mo: Seq<Seq<BasicOp>>, md: Seq<Seq<Option<usize>>>|
        #[trigger] spec_ops_stmt_chain_ok(mo, md, blk.statements@, vbm, essa, ssa, block)
            && mo[0] == prev_oprs && md[0] == prev_defmap && mo.last() == next_oprs && md.last()
            == next_defmap
}

/// `co`/`cd` walk the operation list and definition map through the
/// blocks, one exact block step at a time.
pub open spec fn spec_ops_chain_ok(
    co: Seq<Seq<BasicOp>>,
    cd: Seq<Seq<Option<usize>>>,
    blocks: Seq<BasicBlock>,
    vbm: Seq<Option<ValueBranchMap>>,
    essa: usize,
    ssa: usize,
) -> bool {
    &&& co.len() == blocks.len() + 1
    &&& cd.len() == blocks.len() + 1
    &&& forall|b: int|
        0 <= b < blocks.len() ==> spec_ops_block_step(
            co[b],
            co[b + 1],
            cd[b],
            cd[b + 1],
            #[trigger] blocks[b],
            b as usize,
            vbm,
            essa,
            ssa,
        )
}

/// `newop` is `oldop` with its symbolic constraint replaced by the
/// concrete interval the bound's resolved range implies.
pub open spec fn spec_symb_resolved(g: ConstraintGraph, oldop: BasicOp, newop: BasicOp) -> bool {
    &&& oldop is Essa
    &&& oldop->Essa_intersect is Symb
    &&& !(spec_range_of(g, oldop->Essa_intersect->Symb_bound as int).rtype is Unknown)
    &&& newop == (BasicOp::Essa {
        sink: oldop->Essa_sink,
        source: oldop->Essa_source,
        intersect: IntervalConstraint::Basic(
            spec_symb_range(
                oldop->Essa_intersect->Symb_op,
                spec_range_of(g, oldop->Essa_intersect->Symb_bound as int),
            ),
        ),
        unresolved: false,
    })
}

/// The operation's unresolved flag was cleared, everything else kept.
pub open spec fn spec_essa_flagged_resolved(o: BasicOp, r: BasicOp) -> bool {
    &&& o is Essa
    &&& o->Essa_unresolved
    &&& r == (BasicOp::Essa {
        sink: o->Essa_sink,
        source: o->Essa_source,
        intersect: o->Essa_intersect,
        unresolved: false,
    })
}

/// The arithmetic operators the range engine tracks.
pub open spec fn spec_tracked_binop(op: BinOp) -> bool {
    ||| op == BinOp::Add
    ||| op == BinOp::Sub
    ||| op == BinOp::Mul
    ||| op == BinOp::Div
    ||| op == BinOp::Rem
    ||| op == BinOp::AddUnchecked
    ||| op == BinOp::AddWithOverflow
    ||| op == BinOp::SubUnchecked
    ||| op == BinOp::SubWithOverflow
    ||| op == BinOp::MulUnchecked
    ||| op == BinOp::MulWithOverflow
}

/// The source local an operand contributes: a bare local read, if any.
pub open spec fn spec_operand_source(op: Operand) -> Option<usize> {
    match op {
        Operand::Copy(p) => if p.projection@.len() == 0 {
            Option::Some(p.local)
        } else {
            Option::None
        },
        Operand::Move(p) => if p.projection@.len() == 0 {
            Option::Some(p.local)
        } else {
            Option::None
        },
        Operand::Constant(_) => Option::None,
    }
}

/// The constant an operand contributes, if any.
pub open spec fn spec_operand_const(op: Operand) -> Option<i64> {
    match op {
        Operand::Constant(c) => Option::Some(c),
        _ => Option::None,
    }
}

/// The copy operation a `sink = operand` assignment records: a tracked
/// source or a constant; an unrepresentable operand records nothing.
pub open spec fn spec_use_effect(sink: usize, op: Operand) -> Option<BasicOp> {
    match op {
        Operand::Constant(c) => Option::Some(
            BasicOp::Use { sink, source: Option::None, constv: Option::Some(c) },
        ),
        _ => match spec_operand_source(op) {
            Option::Some(src) => Option::Some(
                BasicOp::Use { sink, source: Option::Some(src), constv: Option::None },
            ),
            Option::None => Option::None,
        },
    }
}

/// The unary operation recorded, when the operand is a bare local.
pub open spec fn spec_unary_effect(sink: usize, operand: Operand, op: UnOp) -> Option<BasicOp> {
    match spec_operand_source(operand) {
        Option::Some(src) => Option::Some(BasicOp::Unary { sink, source: src, op }),
        Option::None => Option::None,
    }
}

/// The binary operation recorded: each side a tracked source or a
/// constant.
pub open spec fn spec_binary_effect(sink: usize, op1: Operand, op2: Operand, bin_op: BinOp) -> BasicOp {
    BasicOp::Binary {
        sink,
        src1: spec_operand_source(op1),
        const1: spec_operand_const(op1),
        src2: spec_operand_source(op2),
        const2: spec_operand_const(op2),
        op: bin_op,
    }
}

/// The merge sources of a phi pseudo-assignment: its bare-local
/// operands, in order.
pub open spec fn spec_phi_sources(ops: Seq<Operand>, t: int) -> Seq<usize>
    decreases ops.len() - t,
{
    if t < 0 || t >= ops.len() {
        Seq::empty()
    } else {
        match spec_operand_source(ops[t]) {
            Option::Some(src) => seq![src] + spec_phi_sources(ops, t + 1),
            Option::None => spec_phi_sources(ops, t + 1),
        }
    }
}

/// The bound-intersection a marker aggregate records: the recorded
/// branch interval of the source on the side `block` belongs to;
/// nothing when the source is not a bare local or carries no branch
/// record.
pub open spec fn spec_essa_effect(
    vbm: Option<ValueBranchMap>,
    sink: usize,
    operands: Seq<Operand>,
    block: usize,
) -> Option<BasicOp> {
    if operands.len() < 2 {
        Option::None
    } else {
        match spec_operand_source(operands[0]) {
            Option::Some(source) => match vbm {
                Option::Some(m) => {
                    let constraint = if block == m.bb_true {
                        m.itv_true
                    } else {
                        m.itv_false
                    };
                    let unresolved = !(operands[1] is Constant);
                    Option::Some(BasicOp::Essa { sink, source, intersect: constraint, unresolved })
                },
                Option::None => Option::None,
            },
            Option::None => Option::None,
        }
    }
}

/// `c` copies of the operation index `idx`.
pub open spec fn spec_all_idx(c: nat, idx: usize) -> Seq<usize> {
    Seq::new(c, |i: int| idx)
}

/// Use lists only grow, and every added entry is the new operation.
pub open spec fn spec_usemap_appended(cur: ConstraintGraph, prev: ConstraintGraph, idx: int) -> bool {
    forall|v: int|
        0 <= v < cur.n() ==> (#[trigger] cur.usemap@[v]@.len()) >= prev.usemap@[v]@.len()
            && cur.usemap@[v]@.subrange(0, prev.usemap@[v]@.len() as int) == prev.usemap@[v]@
            && (forall|t: int|
            prev.usemap@[v]@.len() <= t < cur.usemap@[v]@.len() ==> (#[trigger] cur.usemap@[v]@[t])
                == idx)
}

proof fn lemma_usemap_unchanged_appended(g: ConstraintGraph, idx: int)
    ensures
        spec_usemap_appended(g, g, idx),
{
    assert forall|v: int| 0 <= v < g.n() implies (#[trigger] g.usemap@[v]@.len())
        >= g.usemap@[v]@.len() && g.usemap@[v]@.subrange(0, g.usemap@[v]@.len() as int)
        == g.usemap@[v]@ && (forall|t: int|
        g.usemap@[v]@.len() <= t < g.usemap@[v]@.len() ==> (#[trigger] g.usemap@[v]@[t])
            == idx) by {
        assert(g.usemap@[v]@.subrange(0, g.usemap@[v]@.len() as int) =~= g.usemap@[v]@);
    }
}

proof fn lemma_usemap_appended_of(
    cur: ConstraintGraph,
    prev: ConstraintGraph,
    idx: usize,
    sources: Seq<usize>,
)
    requires
        cur.n() == prev.n(),
        forall|v: int|
            0 <= v < cur.n() ==> #[trigger] cur.usemap@[v]@ == prev.usemap@[v]@ + spec_all_idx(
                spec_count_of(sources, v as usize),
                idx,
            ),
    ensures
        spec_usemap_appended(cur, prev, idx as int),
{
    assert forall|v: int| 0 <= v < cur.n() implies (#[trigger] cur.usemap@[v]@.len())
        >= prev.usemap@[v]@.len() && cur.usemap@[v]@.subrange(0, prev.usemap@[v]@.len() as int)
        == prev.usemap@[v]@ && (forall|t: int|
        prev.usemap@[v]@.len() <= t < cur.usemap@[v]@.len() ==> (#[trigger] cur.usemap@[v]@[t])
            == idx as int) by {
        assert(cur.usemap@[v]@ == prev.usemap@[v]@ + spec_all_idx(
            spec_count_of(sources, v as usize),
            idx,
        ));
        assert(cur.usemap@[v]@.subrange(0, prev.usemap@[v]@.len() as int) =~= prev.usemap@[v]@);
    }
}

/// Occurrences of `v` among the first `k` entries of `s`.
pub open spec fn spec_count_upto(s: Seq<usize>, k: int, v: usize) -> nat
    decreases k,
{
    if k <= 0 || k > s.len() {
        0
    } else {
        spec_count_upto(s, k - 1, v) + (if s[k - 1] == v {
            1nat
        } else {
            0nat
        })
    }
}

/// Occurrences of `v` in `s`.
pub open spec fn spec_count_of(s: Seq<usize>, v: usize) -> nat {
    spec_count_upto(s, s.len() as int, v)
}

proof fn lemma_count_upto_step(s: Seq<usize>, k: int, v: usize)
    requires
        0 <= k < s.len(),
    ensures
        spec_count_upto(s, k + 1, v) == spec_count_upto(s, k, v) + (if s[k] == v {
            1nat
        } else {
            0nat
        }),
{
}

/// Number of merge sources of a phi operation (zero otherwise).
pub open spec fn spec_phi_count(op: BasicOp) -> int {
    match op {
        BasicOp::Phi { sources, .. } => sources@.len() as int,
        _ => 0,
    }
}

impl ConstraintGraph {
    /// Store a range for local `v`.
    fn set_var_range(&mut self, v: usize, r: Range)
        requires
            old(self).wf(),
            v < old(self).n(),
        ensures
            final(self).wf(),
            final(self).n() == old(self).n(),
            final(self).oprs@ == old(self).oprs@,
            final(self).usemap@ == old(self).usemap@,
            final(self).symbmap@ == old(self).symbmap@,
            final(self).defmap@ == old(self).defmap@,
            final(self).values_branchmap@ == old(self).values_branchmap@,
            final(self).components@ == old(self).components@,
            final(self).worklist@ == old(self).worklist@,
            final(self).essa == old(self).essa,
            final(self).ssa == old(self).ssa,
            final(self).arg_count == old(self).arg_count,
            final(self).vars@ == old(self).vars@.update(v as int, Option::Some(VarNode { range: r })),
            final(self).vars@[v as int] == Option::Some(VarNode { range: r }),
    {
        self.vars.set(v, Option::Some(VarNode { range: r }));
    }

    /// The range currently stored for `v` (full and unresolved when the
    /// local has no node yet).
    pub fn range_of(&self, v: usize) -> (r: Range)
        requires
            self.wf(),
            v < self.n(),
        ensures
            r == spec_range_of(*self, v as int),
    {
        match &self.vars[v] {
            Option::Some(node) => node.range,
            Option::None => Range::full_unknown(),
        }
    }

    /// The final range computed for `v`, if the local was tracked.
    pub fn get_range(&self, v: usize) -> (r: Option<Range>)
        requires
            self.wf(),
        ensures
            v < self.n() && (self.vars@[v as int] is Some) ==> r == Option::Some(
                self.vars@[v as int].unwrap().range,
            ),
            v >= self.n() || (self.vars@[v as int] is None) ==> r is None,
    {
        if v < self.vars.len() {
            match &self.vars[v] {
                Option::Some(node) => Option::Some(node.range),
                Option::None => Option::None,
            }
        } else {
            Option::None
        }
    }

    /// Exact equality of two ranges.
    fn ranges_equal(a: Range, b: Range) -> (r: bool)
        ensures
            r == (a == b),
    {
        let tags = match (a.rtype, b.rtype) {
            (RangeType::Unknown, RangeType::Unknown) => true,
            (RangeType::Regular, RangeType::Regular) => true,
            (RangeType::Empty, RangeType::Empty) => true,
            _ => false,
        };
        tags && a.lower == b.lower && a.upper == b.upper
    }

    /// The concrete interval a symbolic bound implies once the bound's
    /// range is known: for `x < bound` everything up to the bound's upper
    /// end minus one, and so on.
    fn symb_to_range(cmp: BinOp, bound_range: Range) -> (r: Range)
        ensures
            r == spec_symb_range(cmp, bound_range),
    {
        match cmp {
            BinOp::Lt => Range {
                lower: i64::MIN,
                upper: crate::range::sat_sub(bound_range.upper, 1),
                rtype: RangeType::Regular,
            },
            BinOp::Le => Range { lower: i64::MIN, upper: bound_range.upper, rtype: RangeType::Regular },
            BinOp::Gt => Range {
                lower: crate::range::sat_add(bound_range.lower, 1),
                upper: i64::MAX,
                rtype: RangeType::Regular,
            },
            BinOp::Ge => Range { lower: bound_range.lower, upper: i64::MAX, rtype: RangeType::Regular },
            BinOp::Eq => Range {
                lower: bound_range.lower,
                upper: bound_range.upper,
                rtype: RangeType::Regular,
            },
            _ => Range::full_regular(),
        }
    }

    /// Number of merge sources of a phi operation (zero otherwise).
    pub fn phi_source_count(&self, op_idx: usize) -> (r: usize)
        requires
            self.wf(),
            op_idx < self.oprs@.len(),
        ensures
            r == spec_phi_count(self.oprs@[op_idx as int]),
    {
        match &self.oprs[op_idx] {
            BasicOp::Phi { sources, .. } => sources.len(),
            _ => 0,
        }
    }

    /// The `k`-th merge source of a phi operation.
    pub fn phi_source(&self, op_idx: usize, k: usize) -> (r: usize)
        requires
            self.wf(),
            op_idx < self.oprs@.len(),
            k < spec_phi_count(self.oprs@[op_idx as int]),
        ensures
            r < self.n(),
            r == self.oprs@[op_idx as int]->Phi_sources@[k as int],
    {
        proof {
            assert(self.oprs@[op_idx as int].bounded(self.n()));
        }
        match &self.oprs[op_idx] {
            BasicOp::Phi { sources, .. } => sources[k],
            _ => {
                proof {
                    assert(false);
                }
                0
            },
        }
    }

    /// Evaluate one operation over the current variable ranges.  Unknown
    /// operands stay unknown (they must not feed joins yet); unresolved
    /// symbolic bounds leave the source range unrefined.
    pub fn eval_op(&self, op_idx: usize) -> (r: Range)
        requires
            self.wf(),
            op_idx < self.oprs@.len(),
        ensures
            r == spec_eval_op(*self, self.oprs@[op_idx as int]),
    {
        proof {
            assert(self.oprs@[op_idx as int].bounded(self.n()));
        }
        match &self.oprs[op_idx] {
            BasicOp::Binary { src1, const1, src2, const2, op, .. } => {
                let r1 = match src1 {
                    Option::Some(v) => self.range_of(*v),
                    Option::None => match const1 {
                        Option::Some(c) => Range { lower: *c, upper: *c, rtype: RangeType::Regular },
                        Option::None => Range::full_unknown(),
                    },
                };
                let r2 = match src2 {
                    Option::Some(v) => self.range_of(*v),
                    Option::None => match const2 {
                        Option::Some(c) => Range { lower: *c, upper: *c, rtype: RangeType::Regular },
                        Option::None => Range::full_unknown(),
                    },
                };
                if r1.is_unknown() || r2.is_unknown() {
                    Range::full_unknown()
                } else {
                    match op {
                        BinOp::Add => range_add(r1, r2),
                        BinOp::AddUnchecked => range_add(r1, r2),
                        BinOp::AddWithOverflow => range_add(r1, r2),
                        BinOp::Sub => range_sub(r1, r2),
                        BinOp::SubUnchecked => range_sub(r1, r2),
                        BinOp::SubWithOverflow => range_sub(r1, r2),
                        BinOp::Mul => range_mul(r1, r2),
                        BinOp::MulUnchecked => range_mul(r1, r2),
                        BinOp::MulWithOverflow => range_mul(r1, r2),
                        _ => Range::full_regular(),
                    }
                }
            },
            BasicOp::Unary { source, op, .. } => {
                let rs = self.range_of(*source);
                if rs.is_unknown() {
                    Range::full_unknown()
                } else {
                    match op {
                        UnOp::Neg => range_sub(
                            Range { lower: 0, upper: 0, rtype: RangeType::Regular },
                            rs,
                        ),
                        _ => Range::full_regular(),
                    }
                }
            },
            BasicOp::Phi { .. } => {
                let cnt = self.phi_source_count(op_idx);
                let mut acc = Range::full_unknown();
                let mut started = false;
                let mut k: usize = 0;
                let ghost srcs = self.oprs@[op_idx as int]->Phi_sources@;
                while k < cnt
                    invariant
                        self.wf(),
                        op_idx < self.oprs@.len(),
                        cnt == spec_phi_count(self.oprs@[op_idx as int]),
                        srcs == self.oprs@[op_idx as int]->Phi_sources@,
                        srcs.len() == cnt,
                        k <= cnt,
                        spec_phi_eval(*self, srcs, k as int, acc, started) == spec_phi_eval(
                            *self,
                            srcs,
                            0,
                            Range { lower: i64::MIN, upper: i64::MAX, rtype: RangeType::Unknown },
                            false,
                        ),
                    decreases cnt - k,
                {
                    let v = self.phi_source(op_idx, k);
                    proof {
                        assert(v == srcs[k as int]);
                    }
                    let rs = self.range_of(v);
                    if !rs.is_unknown() {
                        if started {
                            acc = range_unite(acc, rs);
                        } else {
                            acc = rs;
                            started = true;
                        }
                    }
                    k = k + 1;
                }
                acc
            },
            BasicOp::Essa { source, intersect, .. } => {
                let rs = self.range_of(*source);
                if rs.is_unknown() {
                    Range::full_unknown()
                } else {
                    match intersect {
                        IntervalConstraint::Basic(c) => {
                            if c.is_unknown() {
                                rs
                            } else {
                                range_intersect(rs, *c)
                            }
                        },
                        IntervalConstraint::Symb { bound, op } => {
                            let rb = self.range_of(*bound);
                            if rb.is_unknown() {
                                rs
                            } else {
                                range_intersect(rs, Self::symb_to_range(*op, rb))
                            }
                        },
                    }
                }
            },
            BasicOp::Use { source, constv, .. } => {
                match source {
                    Option::Some(v) => self.range_of(*v),
                    Option::None => match constv {
                        Option::Some(c) => Range { lower: *c, upper: *c, rtype: RangeType::Regular },
                        Option::None => Range::full_unknown(),
                    },
                }
            },
            BasicOp::ControlDep { source, .. } => self.range_of(*source),
        }
    }

    /// One widening step on an operation's sink.  Returns whether the
    /// stored range changed.  Bounds only move toward the type extremes:
    /// the lower bound never increases, the upper never decreases.
    pub fn widen(&mut self, op_idx: usize) -> (changed: bool)
        requires
            old(self).wf(),
            op_idx < old(self).oprs@.len(),
        ensures
            final(self).wf(),
            final(self).n() == old(self).n(),
            final(self).oprs@ == old(self).oprs@,
            final(self).usemap@ == old(self).usemap@,
            final(self).symbmap@ == old(self).symbmap@,
            final(self).defmap@ == old(self).defmap@,
            final(self).values_branchmap@ == old(self).values_branchmap@,
            final(self).components@ == old(self).components@,
            final(self).worklist@ == old(self).worklist@,
            forall|v: int|
                0 <= v < final(self).n() && v != old(self).oprs@[op_idx as int].spec_sink() as int
                    ==> #[trigger] final(self).vars@[v] == old(self).vars@[v],
            ({
                let sink = old(self).oprs@[op_idx as int].spec_sink() as int;
                let old_r = (if old(self).vars@[sink] is Some {
                    old(self).vars@[sink].unwrap().range
                } else {
                    Range { lower: i64::MIN, upper: i64::MAX, rtype: RangeType::Unknown }
                });
                let new_r = final(self).vars@[sink].unwrap().range;
                &&& new_r == crate::range::spec_widen_step(
                    old_r,
                    spec_eval_op(*old(self), old(self).oprs@[op_idx as int]),
                )
                &&& !(old_r.rtype is Unknown) ==> new_r.lower <= old_r.lower && new_r.upper
                    >= old_r.upper
                &&& !(old_r.rtype is Unknown) ==> (new_r.lower == old_r.lower || new_r.lower
                    == i64::MIN) && (new_r.upper == old_r.upper || new_r.upper == i64::MAX)
                &&& changed == (new_r != old_r)
            }),
    {
        let sink = self.oprs[op_idx].get_sink();
        proof {
            assert(self.oprs@[op_idx as int].bounded(self.n()));
        }
        let old_r = self.range_of(sink);
        let est = self.eval_op(op_idx);
        let updated = widen_step(old_r, est);
        self.set_var_range(sink, updated);
        !Self::ranges_equal(old_r, updated)
    }

    /// One narrowing step on an operation's sink.  Returns whether the
    /// stored range changed.  The result is never wider than the range
    /// just widened to.
    pub fn narrow(&mut self, op_idx: usize) -> (changed: bool)
        requires
            old(self).wf(),
            op_idx < old(self).oprs@.len(),
        ensures
            final(self).wf(),
            final(self).n() == old(self).n(),
            final(self).oprs@ == old(self).oprs@,
            final(self).usemap@ == old(self).usemap@,
            final(self).symbmap@ == old(self).symbmap@,
            final(self).components@ == old(self).components@,
            final(self).worklist@ == old(self).worklist@,
            final(self).defmap@ == old(self).defmap@,
            final(self).values_branchmap@ == old(self).values_branchmap@,
            forall|v: int|
                0 <= v < final(self).n() && v != old(self).oprs@[op_idx as int].spec_sink() as int
                    ==> #[trigger] final(self).vars@[v] == old(self).vars@[v],
            ({
                let sink = old(self).oprs@[op_idx as int].spec_sink() as int;
                let old_r = (if old(self).vars@[sink] is Some {
                    old(self).vars@[sink].unwrap().range
                } else {
                    Range { lower: i64::MIN, upper: i64::MAX, rtype: RangeType::Unknown }
                });
                let new_r = final(self).vars@[sink].unwrap().range;
                &&& new_r == crate::range::spec_narrow_step(
                    old_r,
                    spec_eval_op(*old(self), old(self).oprs@[op_idx as int]),
                )
                &&& new_r.lower >= old_r.lower && new_r.upper <= old_r.upper
                &&& changed == (new_r != old_r)
            }),
    {
        let sink = self.oprs[op_idx].get_sink();
        proof {
            assert(self.oprs@[op_idx as int].bounded(self.n()));
        }
        let old_r = self.range_of(sink);
        let est = self.eval_op(op_idx);
        let updated = narrow_step(old_r, est);
        self.set_var_range(sink, updated);
        !Self::ranges_equal(old_r, updated)
    }
}

impl ConstraintGraph {
    /// Record a copy (or constant) assignment `sink = op`.
    fn add_use_op(&mut self, sink: usize, op: &Operand)
        requires
            old(self).wf(),
            sink < old(self).n(),
            crate::dataflow::operand_bounded(*op, old(self).n()),
        ensures
            final(self).wf(),
            final(self).n() == old(self).n(),
            final(self).values_branchmap@ == old(self).values_branchmap@,
            final(self).symbmap@ == old(self).symbmap@,
            spec_usemap_appended(*final(self), *old(self), old(self).oprs@.len() as int),
            final(self).essa == old(self).essa,
            final(self).ssa == old(self).ssa,
            final(self).arg_count == old(self).arg_count,
            match spec_use_effect(sink, *op) {
                Option::Some(newop) => final(self).oprs@ == old(self).oprs@.push(newop)
                    && final(self).defmap@ == old(self).defmap@.update(
                    sink as int,
                    Option::Some(old(self).oprs@.len() as usize),
                ),
                Option::None => final(self).oprs@ == old(self).oprs@
                    && final(self).defmap@ == old(self).defmap@,
            },
            (op is Constant) ==> final(self).vars@[sink as int] == Option::Some(
                VarNode {
                    range: Range {
                        lower: op->Constant_0,
                        upper: op->Constant_0,
                        rtype: RangeType::Regular,
                    },
                },
            ),
    {
        let op_index = self.oprs.len();
        match op {
            Operand::Copy(place) | Operand::Move(place) => {
                if place.projection.len() == 0 {
                    self.add_varnode(place.local);
                    self.add_varnode(sink);
                    let source = place.local;
                    let mut sources: Vec<usize> = Vec::new();
                    sources.push(source);
                    self.push_op(
                        BasicOp::Use { sink, source: Option::Some(source), constv: Option::None },
                        &sources,
                    );
                proof {
                    lemma_usemap_appended_of(*self, *old(self), op_index, sources@);
                }
                } else {
                proof {
                    assert forall|v: int| 0 <= v < self.n() implies #[trigger] self.usemap@[v]@
                        == old(self).usemap@[v]@ + spec_all_idx(
                        spec_count_of(Seq::empty(), v as usize),
                        op_index,
                    ) by {
                        assert(self.usemap@[v]@ =~= old(self).usemap@[v]@ + spec_all_idx(0, op_index));
                    }
                    lemma_usemap_appended_of(*self, *old(self), op_index, Seq::empty());
                }
                }
            },
            Operand::Constant(c) => {
                self.add_varnode(sink);
                let sources: Vec<usize> = Vec::new();
                self.push_op(
                    BasicOp::Use { sink, source: Option::None, constv: Option::Some(*c) },
                    &sources,
                );
                self.set_var_range(
                    sink,
                    Range { lower: *c, upper: *c, rtype: RangeType::Regular },
                );
                proof {
                    lemma_usemap_appended_of(*self, *old(self), op_index, sources@);
                }
            },
        }
    }

    /// Record a unary assignment `sink = op source`.
    fn add_unary_op(&mut self, sink: usize, operand: &Operand, op: UnOp)
        requires
            old(self).wf(),
            sink < old(self).n(),
            crate::dataflow::operand_bounded(*operand, old(self).n()),
        ensures
            final(self).wf(),
            final(self).n() == old(self).n(),
            final(self).values_branchmap@ == old(self).values_branchmap@,
            final(self).symbmap@ == old(self).symbmap@,
            spec_usemap_appended(*final(self), *old(self), old(self).oprs@.len() as int),
            final(self).essa == old(self).essa,
            final(self).ssa == old(self).ssa,
            final(self).arg_count == old(self).arg_count,
            match spec_unary_effect(sink, *operand, op) {
                Option::Some(newop) => final(self).oprs@ == old(self).oprs@.push(newop)
                    && final(self).defmap@ == old(self).defmap@.update(
                    sink as int,
                    Option::Some(old(self).oprs@.len() as usize),
                ),
                Option::None => final(self).oprs@ == old(self).oprs@
                    && final(self).defmap@ == old(self).defmap@,
            },
    {
        let op_index = self.oprs.len();
        match operand {
            Operand::Copy(place) | Operand::Move(place) => {
                if place.projection.len() == 0 {
                    self.add_varnode(place.local);
                    self.add_varnode(sink);
                    let mut sources: Vec<usize> = Vec::new();
                    sources.push(place.local);
                    self.push_op(BasicOp::Unary { sink, source: place.local, op }, &sources);
                proof {
                    lemma_usemap_appended_of(*self, *old(self), op_index, sources@);
                }
                } else {
                proof {
                    assert forall|v: int| 0 <= v < self.n() implies #[trigger] self.usemap@[v]@
                        == old(self).usemap@[v]@ + spec_all_idx(
                        spec_count_of(Seq::empty(), v as usize),
                        op_index,
                    ) by {
                        assert(self.usemap@[v]@ =~= old(self).usemap@[v]@ + spec_all_idx(0, op_index));
                    }
                    lemma_usemap_appended_of(*self, *old(self), op_index, Seq::empty());
                }
                }
            },
            Operand::Constant(_) => {
                proof {
                    assert forall|v: int| 0 <= v < self.n() implies #[trigger] self.usemap@[v]@
                        == old(self).usemap@[v]@ + spec_all_idx(
                        spec_count_of(Seq::empty(), v as usize),
                        op_index,
                    ) by {
                        assert(self.usemap@[v]@ =~= old(self).usemap@[v]@ + spec_all_idx(0, op_index));
                    }
                    lemma_usemap_appended_of(*self, *old(self), op_index, Seq::empty());
                }
            },
        }
    }

    /// Record a binary assignment `sink = op1 bin_op op2`.
    fn add_binary_op(&mut self, sink: usize, op1: &Operand, op2: &Operand, bin_op: BinOp)
        requires
            old(self).wf(),
            sink < old(self).n(),
            crate::dataflow::operand_bounded(*op1, old(self).n()),
            crate::dataflow::operand_bounded(*op2, old(self).n()),
        ensures
            final(self).wf(),
            final(self).n() == old(self).n(),
            final(self).values_branchmap@ == old(self).values_branchmap@,
            final(self).symbmap@ == old(self).symbmap@,
            spec_usemap_appended(*final(self), *old(self), old(self).oprs@.len() as int),
            final(self).essa == old(self).essa,
            final(self).ssa == old(self).ssa,
            final(self).arg_count == old(self).arg_count,
            final(self).oprs@ == old(self).oprs@.push(
                spec_binary_effect(sink, *op1, *op2, bin_op),
            ),
            final(self).defmap@ == old(self).defmap@.update(
                sink as int,
                Option::Some(old(self).oprs@.len() as usize),
            ),
    {
        let op_index = self.oprs.len();
        self.add_varnode(sink);
        let mut sources: Vec<usize> = Vec::new();
        let (src1, const1): (Option<usize>, Option<i64>) = match op1 {
            Operand::Copy(place) | Operand::Move(place) => {
                if place.projection.len() == 0 {
                    self.add_varnode(place.local);
                    sources.push(place.local);
                    (Option::Some(place.local), Option::None)
                } else {
                    (Option::None, Option::None)
                }
            },
            Operand::Constant(c) => (Option::None, Option::Some(*c)),
        };
        let (src2, const2): (Option<usize>, Option<i64>) = match op2 {
            Operand::Copy(place) | Operand::Move(place) => {
                if place.projection.len() == 0 {
                    self.add_varnode(place.local);
                    sources.push(place.local);
                    (Option::Some(place.local), Option::None)
                } else {
                    (Option::None, Option::None)
                }
            },
            Operand::Constant(c) => (Option::None, Option::Some(*c)),
        };
        proof {
            assert(src1 == spec_operand_source(*op1));
            assert(const1 == spec_operand_const(*op1));
            assert(src2 == spec_operand_source(*op2));
            assert(const2 == spec_operand_const(*op2));
        }
        self.push_op(
            BasicOp::Binary { sink, src1, const1, src2, const2, op: bin_op },
            &sources,
        );
        proof {
            lemma_usemap_appended_of(*self, *old(self), op_index, sources@);
        }
    }

    /// Record a phi merge `sink = phi(operands)` (an aggregate built with
    /// the phi marker identity).
    fn add_ssa_op(&mut self, sink: usize, operands: &Vec<Operand>)
        requires
            old(self).wf(),
            sink < old(self).n(),
            crate::dataflow::operands_bounded(operands@, old(self).n()),
        ensures
            final(self).wf(),
            final(self).n() == old(self).n(),
            final(self).values_branchmap@ == old(self).values_branchmap@,
            final(self).symbmap@ == old(self).symbmap@,
            spec_usemap_appended(*final(self), *old(self), old(self).oprs@.len() as int),
            final(self).essa == old(self).essa,
            final(self).ssa == old(self).ssa,
            final(self).arg_count == old(self).arg_count,
            final(self).oprs@.len() == old(self).oprs@.len() + 1,
            forall|t: int|
                0 <= t < old(self).oprs@.len() ==> #[trigger] final(self).oprs@[t] == old(
                    self,
                ).oprs@[t],
            final(self).oprs@.last() is Phi,
            final(self).oprs@.last()->Phi_sink == sink,
            final(self).oprs@.last()->Phi_sources@ == spec_phi_sources(operands@, 0),
            final(self).defmap@ == old(self).defmap@.update(
                sink as int,
                Option::Some(old(self).oprs@.len() as usize),
            ),
    {
        let op_index = self.oprs.len();
        self.add_varnode(sink);
        let ghost entry = *self;
        let mut sources: Vec<usize> = Vec::new();
        let mut i: usize = 0;
        while i < operands.len()
            invariant
                self.wf(),
                self.n() == old(self).n(),
                self.oprs@ == entry.oprs@,
                self.defmap@ == entry.defmap@,
                self.usemap@ == entry.usemap@,
                self.symbmap@ == entry.symbmap@,
                self.values_branchmap@ == entry.values_branchmap@,
                entry.oprs@ == old(self).oprs@,
                entry.defmap@ == old(self).defmap@,
                entry.usemap@ == old(self).usemap@,
                entry.symbmap@ == old(self).symbmap@,
                entry.values_branchmap@ == old(self).values_branchmap@,
                self.essa == old(self).essa,
                self.ssa == old(self).ssa,
                self.arg_count == old(self).arg_count,
                op_index == old(self).oprs@.len(),
                sink < self.n(),
                crate::dataflow::operands_bounded(operands@, self.n()),
                i <= operands@.len(),
                forall|t: int| 0 <= t < sources@.len() ==> (#[trigger] sources@[t]) < self.n(),
                sources@ + spec_phi_sources(operands@, i as int) == spec_phi_sources(operands@, 0),
            decreases operands.len() - i,
        {
            proof {
                assert(crate::dataflow::operand_bounded(operands@[i as int], self.n()));
            }
            let ghost before_sources = sources@;
            match &operands[i] {
                Operand::Copy(place) | Operand::Move(place) => {
                    if place.projection.len() == 0 {
                        self.add_varnode(place.local);
                        sources.push(place.local);
                        proof {
                            assert(spec_operand_source(operands@[i as int]) == Option::Some(
                                place.local,
                            ));
                            assert(before_sources + (seq![place.local] + spec_phi_sources(
                                operands@,
                                i + 1,
                            )) =~= before_sources.push(place.local) + spec_phi_sources(
                                operands@,
                                i + 1,
                            ));
                        }
                    } else {
                        proof {
                            assert(spec_operand_source(operands@[i as int])
                                == Option::<usize>::None);
                        }
                    }
                },
                Operand::Constant(_) => {},
            }
            i = i + 1;
        }
        proof {
            assert(spec_phi_sources(operands@, operands@.len() as int) =~= Seq::<usize>::empty());
            assert(sources@ + Seq::<usize>::empty() =~= sources@);
            assert(sources@ == spec_phi_sources(operands@, 0));
        }
        let source_list = sources;
        let mut phi_sources: Vec<usize> = Vec::new();
        let mut k: usize = 0;
        while k < source_list.len()
            invariant
                k <= source_list@.len(),
                forall|t: int| 0 <= t < source_list@.len() ==> (#[trigger] source_list@[t]) < self.n(),
                phi_sources@ == source_list@.subrange(0, k as int),
            decreases source_list.len() - k,
        {
            phi_sources.push(source_list[k]);
            assert(source_list@.subrange(0, k + 1) =~= source_list@.subrange(0, k as int).push(
                source_list@[k as int],
            ));
            k = k + 1;
        }
        proof {
            assert(source_list@.subrange(0, source_list@.len() as int) =~= source_list@);
            assert forall|t: int| 0 <= t < phi_sources@.len() implies (#[trigger] phi_sources@[t])
                < self.n() by {}
        }
        self.push_op(BasicOp::Phi { sink, sources: phi_sources }, &source_list);
        proof {
            lemma_usemap_appended_of(*self, *old(self), op_index, source_list@);
        }
    }

    /// Record a bound intersection `sink = source /\ constraint` (an
    /// aggregate built with the bound marker identity): the constraint
    /// comes from the branch interval recorded for the source.
    fn add_essa_op(&mut self, sink: usize, operands: &Vec<Operand>, block: usize)
        requires
            old(self).wf(),
            sink < old(self).n(),
            crate::dataflow::operands_bounded(operands@, old(self).n()),
        ensures
            final(self).wf(),
            final(self).n() == old(self).n(),
            final(self).values_branchmap@ == old(self).values_branchmap@,
            final(self).symbmap@ == old(self).symbmap@,
            spec_usemap_appended(*final(self), *old(self), old(self).oprs@.len() as int),
            final(self).essa == old(self).essa,
            final(self).ssa == old(self).ssa,
            final(self).arg_count == old(self).arg_count,
            ({
                let source = spec_operand_source(operands@[0]);
                let vbm = (if operands@.len() >= 1 && source is Some {
                    old(self).values_branchmap@[source.unwrap() as int]
                } else {
                    Option::None
                });
                match spec_essa_effect(vbm, sink, operands@, block) {
                    Option::Some(newop) => final(self).oprs@ == old(self).oprs@.push(newop)
                        && final(self).defmap@ == old(self).defmap@.update(
                        sink as int,
                        Option::Some(old(self).oprs@.len() as usize),
                    ),
                    Option::None => final(self).oprs@ == old(self).oprs@ && final(self).defmap@
                        == old(self).defmap@,
                }
            }),
    {
        let op_index = self.oprs.len();
        if operands.len() < 2 {
        proof {
            assert forall|v: int| 0 <= v < self.n() implies #[trigger] self.usemap@[v]@
                == old(self).usemap@[v]@ + spec_all_idx(
                spec_count_of(Seq::empty(), v as usize),
                op_index,
            ) by {
                assert(self.usemap@[v]@ =~= old(self).usemap@[v]@ + spec_all_idx(0, op_index));
            }
            lemma_usemap_appended_of(*self, *old(self), op_index, Seq::empty());
        }
            return ;
        }
        proof {
            assert(crate::dataflow::operand_bounded(operands@[0], self.n()));
            assert(crate::dataflow::operand_bounded(operands@[1], self.n()));
        }
        let source: usize = match &operands[0] {
            Operand::Copy(place) | Operand::Move(place) => {
                if place.projection.len() != 0 {
        proof {
            assert forall|v: int| 0 <= v < self.n() implies #[trigger] self.usemap@[v]@
                == old(self).usemap@[v]@ + spec_all_idx(
                spec_count_of(Seq::empty(), v as usize),
                op_index,
            ) by {
                assert(self.usemap@[v]@ =~= old(self).usemap@[v]@ + spec_all_idx(0, op_index));
            }
            lemma_usemap_appended_of(*self, *old(self), op_index, Seq::empty());
        }
                    return ;
                }
                place.local
            },
            Operand::Constant(_) => {
        proof {
            assert forall|v: int| 0 <= v < self.n() implies #[trigger] self.usemap@[v]@
                == old(self).usemap@[v]@ + spec_all_idx(
                spec_count_of(Seq::empty(), v as usize),
                op_index,
            ) by {
                assert(self.usemap@[v]@ =~= old(self).usemap@[v]@ + spec_all_idx(0, op_index));
            }
            lemma_usemap_appended_of(*self, *old(self), op_index, Seq::empty());
        }
                return ;
            },
        };
        self.add_varnode(source);
        self.add_varnode(sink);
        let vbm = match &self.values_branchmap[source] {
            Option::Some(v) => *v,
            Option::None => {
        proof {
            assert forall|v: int| 0 <= v < self.n() implies #[trigger] self.usemap@[v]@
                == old(self).usemap@[v]@ + spec_all_idx(
                spec_count_of(Seq::empty(), v as usize),
                op_index,
            ) by {
                assert(self.usemap@[v]@ =~= old(self).usemap@[v]@ + spec_all_idx(0, op_index));
            }
            lemma_usemap_appended_of(*self, *old(self), op_index, Seq::empty());
        }
                return ;
            },
        };
        let constraint: IntervalConstraint = if block == vbm.bb_true {
            vbm.itv_true
        } else {
            vbm.itv_false
        };
        let unresolved = match &operands[1] {
            Operand::Constant(_) => false,
            _ => true,
        };
        proof {
            assert(match constraint {
                IntervalConstraint::Symb { bound, .. } => bound < self.n(),
                IntervalConstraint::Basic(_) => true,
            });
        }
        let mut sources: Vec<usize> = Vec::new();
        sources.push(source);
        self.push_op(
            BasicOp::Essa { sink, source, intersect: constraint, unresolved },
            &sources,
        );
        proof {
            lemma_usemap_appended_of(*self, *old(self), op_index, sources@);
        }
    }
}

impl ConstraintGraph {
    /// Recover the comparison that feeds a switch: find the assignment
    /// of the discriminant in the same block, then fold simple copy
    /// chains back to the compared operands.
    /// Copy one operand value: the same variant over the same location
    /// or constant.
    fn clone_operand(op: &Operand) -> (r: Operand)
        ensures
            spec_operand_like(r, *op),
    {
        match op {
            Operand::Copy(p) => Operand::Copy(p.clone()),
            Operand::Move(p) => Operand::Move(p.clone()),
            Operand::Constant(c) => Operand::Constant(*c),
        }
    }

    fn extract_condition(&self, place_local: usize, block: &BasicBlock) -> (r: Option<
        (Operand, Operand, BinOp),
    >)
        requires
            self.wf(),
        ensures
            match r {
                Option::Some(t) => spec_cond_of(block.statements@, place_local) is Some
                    && spec_operand_like(
                    t.0,
                    spec_cond_of(block.statements@, place_local).unwrap().0,
                ) && spec_operand_like(
                    t.1,
                    spec_cond_of(block.statements@, place_local).unwrap().1,
                ) && t.2 == spec_cond_of(block.statements@, place_local).unwrap().2,
                Option::None => spec_cond_of(block.statements@, place_local) is None,
            },
    {
        let n = block.statements.len();
        let mut i: usize = 0;
        while i < n
            invariant
                i <= n,
                n == block.statements@.len(),
                spec_first_cmp_idx(block.statements@, place_local, 0) == spec_first_cmp_idx(
                    block.statements@,
                    place_local,
                    i as int,
                ),
            decreases n - i,
        {
            match &block.statements[i] {
                Statement::Assign(lhs, Rvalue::BinaryOp(bin_op, op1, op2)) => {
                    if lhs.projection.len() == 0 && lhs.local == place_local {
                        proof {
                            assert(spec_cmp_assign_at(block.statements@, place_local, i as int));
                            assert(spec_first_cmp_idx(block.statements@, place_local, 0)
                                == Option::Some(i as int));
                        }
                        let mut ret1 = Self::clone_operand(op1);
                        let mut ret2 = Self::clone_operand(op2);
                        // Fold one copy step per operand within the block.
                        let mut j: usize = 0;
                        while j < n
                            invariant
                                j <= n,
                                n == block.statements@.len(),
                                i < n,
                                block.statements@[i as int] == Statement::Assign(
                                    *lhs,
                                    Rvalue::BinaryOp(*bin_op, *op1, *op2),
                                ),
                                spec_operand_like(
                                    ret1,
                                    spec_fold_operand(block.statements@, j as int, *op1),
                                ),
                                spec_operand_like(
                                    ret2,
                                    spec_fold_operand(block.statements@, j as int, *op2),
                                ),
                            decreases n - j,
                        {
                            match &block.statements[j] {
                                Statement::Assign(l2, Rvalue::Use(src)) => {
                                    match op1 {
                                        Operand::Copy(p1) | Operand::Move(p1) => {
                                            if l2.projection.len() == 0 && p1.projection.len() == 0
                                                && l2.local == p1.local {
                                                ret1 = Self::clone_operand(src);
                                            }
                                        },
                                        _ => {},
                                    }
                                    match op2 {
                                        Operand::Copy(p2) | Operand::Move(p2) => {
                                            if l2.projection.len() == 0 && p2.projection.len() == 0
                                                && l2.local == p2.local {
                                                ret2 = Self::clone_operand(src);
                                            }
                                        },
                                        _ => {},
                                    }
                                },
                                _ => {},
                            }
                            j = j + 1;
                        }
                        return Option::Some((ret1, ret2, *bin_op));
                    }
                },
                _ => {},
            }
            proof {
                assert(!spec_cmp_assign_at(block.statements@, place_local, i as int));
                assert(spec_first_cmp_idx(block.statements@, place_local, i as int)
                    == spec_first_cmp_idx(block.statements@, place_local, i + 1));
            }
            i = i + 1;
        }
        Option::None
    }

    /// Record, for each side of a switch, the interval it implies for the
    /// compared variable: a concrete interval against a constant, or a
    /// symbolic bound against another variable.
    fn build_value_branch_map(
        &mut self,
        discr: &Operand,
        false_target: usize,
        true_target: usize,
        block: &BasicBlock,
    )
        requires
            old(self).wf(),
            crate::dataflow::operand_bounded(*discr, old(self).n()),
            forall|st: int|
                0 <= st < block.statements@.len() ==> crate::dataflow::statement_bounded(
                    #[trigger] block.statements@[st],
                    old(self).n(),
                ),
        ensures
            final(self).wf(),
            final(self).n() == old(self).n(),
            final(self).oprs@ == old(self).oprs@,
            final(self).defmap@ == old(self).defmap@,
            final(self).usemap@ == old(self).usemap@,
            final(self).symbmap@ == old(self).symbmap@,
            final(self).essa == old(self).essa,
            final(self).ssa == old(self).ssa,
            final(self).arg_count == old(self).arg_count,
            spec_branch_map_step(
                old(self).values_branchmap@,
                final(self).values_branchmap@,
                *discr,
                false_target,
                true_target,
                block.statements@,
                old(self).n(),
            ),
    {
        let place_local: usize = match discr {
            Operand::Copy(p) | Operand::Move(p) => {
                if p.projection.len() != 0 {
                    return ;
                }
                p.local
            },
            Operand::Constant(_) => { return ; },
        };
        let cond = self.extract_condition(place_local, block);
        let (op1, op2, cmp_op) = match cond {
            Option::Some(c) => c,
            Option::None => { return ; },
        };
        let ghost n0 = self.n();
        match (&op1, &op2) {
            (Operand::Constant(_), Operand::Constant(_)) => {},
            (Operand::Constant(c), Operand::Copy(p)) | (Operand::Constant(c), Operand::Move(p)) => {
                if p.projection.len() == 0 && p.local < self.vars.len() {
                    let variable = p.local;
                    self.add_varnode(variable);
                    let mut true_range = apply_comparison(*c, cmp_op, true, true);
                    let mut false_range = apply_comparison(*c, cmp_op, false, true);
                    true_range.set_regular();
                    false_range.set_regular();
                    self.set_branch_map(
                        variable,
                        false_target,
                        true_target,
                        IntervalConstraint::Basic(false_range),
                        IntervalConstraint::Basic(true_range),
                    );
                    proof {
                        assert(self.values_branchmap@ == old(self).values_branchmap@.update(
                            variable as int,
                            Option::Some(spec_const_branch_record(
                                variable,
                                false_target,
                                true_target,
                                *c,
                                cmp_op,
                                true,
                            )),
                        ));
                    }
                }
            },
            (Operand::Copy(p), Operand::Constant(c)) | (Operand::Move(p), Operand::Constant(c)) => {
                if p.projection.len() == 0 && p.local < self.vars.len() {
                    let variable = p.local;
                    self.add_varnode(variable);
                    let mut true_range = apply_comparison(*c, cmp_op, true, false);
                    let mut false_range = apply_comparison(*c, cmp_op, false, false);
                    true_range.set_regular();
                    false_range.set_regular();
                    self.set_branch_map(
                        variable,
                        false_target,
                        true_target,
                        IntervalConstraint::Basic(false_range),
                        IntervalConstraint::Basic(true_range),
                    );
                    proof {
                        assert(self.values_branchmap@ == old(self).values_branchmap@.update(
                            variable as int,
                            Option::Some(spec_const_branch_record(
                                variable,
                                false_target,
                                true_target,
                                *c,
                                cmp_op,
                                false,
                            )),
                        ));
                    }
                }
            },
            _ => {
                // Variable against variable: symbolic bounds both ways.
                let p1: usize = match &op1 {
                    Operand::Copy(p) | Operand::Move(p) => {
                        if p.projection.len() != 0 {
                            return ;
                        }
                        p.local
                    },
                    Operand::Constant(_) => { return ; },
                };
                let p2: usize = match &op2 {
                    Operand::Copy(p) | Operand::Move(p) => {
                        if p.projection.len() != 0 {
                            return ;
                        }
                        p.local
                    },
                    Operand::Constant(_) => { return ; },
                };
                if p1 >= self.vars.len() || p2 >= self.vars.len() {
                    return ;
                }
                let flipped = match flipped_binop(cmp_op) {
                    Option::Some(f) => f,
                    Option::None => { return ; },
                };
                self.add_varnode(p1);
                self.add_varnode(p2);
                self.set_branch_map(
                    p1,
                    false_target,
                    true_target,
                    IntervalConstraint::Symb { bound: p2, op: cmp_op },
                    IntervalConstraint::Symb { bound: p2, op: cmp_op },
                );
                let ghost mid_vbm = self.values_branchmap@;
                self.set_branch_map(
                    p2,
                    false_target,
                    true_target,
                    IntervalConstraint::Symb { bound: p1, op: flipped },
                    IntervalConstraint::Symb { bound: p1, op: flipped },
                );
                proof {
                    assert(self.values_branchmap@ == old(self).values_branchmap@.update(
                        p1 as int,
                        Option::Some(
                            ValueBranchMap {
                                variable: p1,
                                bb_false: false_target,
                                bb_true: true_target,
                                itv_false: IntervalConstraint::Symb { bound: p2, op: cmp_op },
                                itv_true: IntervalConstraint::Symb { bound: p2, op: cmp_op },
                            },
                        ),
                    ).update(
                        p2 as int,
                        Option::Some(
                            ValueBranchMap {
                                variable: p2,
                                bb_false: false_target,
                                bb_true: true_target,
                                itv_false: IntervalConstraint::Symb { bound: p1, op: flipped },
                                itv_true: IntervalConstraint::Symb { bound: p1, op: flipped },
                            },
                        ),
                    ));
                }
            },
        }
    }

    /// Store one branch-interval record.
    fn set_branch_map(
        &mut self,
        variable: usize,
        bb_false: usize,
        bb_true: usize,
        itv_false: IntervalConstraint,
        itv_true: IntervalConstraint,
    )
        requires
            old(self).wf(),
            variable < old(self).n(),
            spec_constraint_bounded(itv_false, old(self).n()),
            spec_constraint_bounded(itv_true, old(self).n()),
        ensures
            final(self).wf(),
            final(self).n() == old(self).n(),
            final(self).oprs@ == old(self).oprs@,
            final(self).defmap@ == old(self).defmap@,
            final(self).usemap@ == old(self).usemap@,
            final(self).symbmap@ == old(self).symbmap@,
            final(self).essa == old(self).essa,
            final(self).ssa == old(self).ssa,
            final(self).arg_count == old(self).arg_count,
            final(self).values_branchmap@ == old(self).values_branchmap@.update(
                variable as int,
                Option::Some(
                    ValueBranchMap { variable, bb_false, bb_true, itv_false, itv_true },
                ),
            ),
    {
        let m = ValueBranchMap { variable, bb_false, bb_true, itv_false, itv_true };
        self.values_branchmap.set(variable, Option::Some(m));
        proof {
            assert forall|v: int|
                0 <= v < self.n() && (#[trigger] self.values_branchmap@[v]) is Some
                    implies spec_vbm_bounded(self.values_branchmap@[v].unwrap(), self.n()) by {
                if v != variable as int {
                    assert(self.values_branchmap@[v] == old(self).values_branchmap@[v]);
                }
            }
        }
    }

    /// Record the branch intervals of every switch in the body.
    pub fn build_value_maps(&mut self, body: &FnBody)
        requires
            old(self).wf(),
            crate::dataflow::body_bounded(*body),
            body.local_count == old(self).n(),
        ensures
            final(self).wf(),
            final(self).n() == old(self).n(),
            final(self).oprs@ == old(self).oprs@,
            final(self).defmap@ == old(self).defmap@,
            final(self).usemap@ == old(self).usemap@,
            final(self).symbmap@ == old(self).symbmap@,
            final(self).essa == old(self).essa,
            final(self).ssa == old(self).ssa,
            final(self).arg_count == old(self).arg_count,
            exists|chain: Seq<Seq<Option<ValueBranchMap>>>|
                #[trigger] spec_vbm_chain_ok(chain, body.blocks@, old(self).n()) && chain[0] == old(
                    self,
                ).values_branchmap@ && chain.last() == final(self).values_branchmap@,
    {
        let ghost mut chain: Seq<Seq<Option<ValueBranchMap>>> = seq![
            old(self).values_branchmap@,
        ];
        let mut b: usize = 0;
        while b < body.blocks.len()
            invariant
                self.wf(),
                self.n() == old(self).n(),
                self.oprs@ == old(self).oprs@,
                self.defmap@ == old(self).defmap@,
                self.usemap@ == old(self).usemap@,
                self.symbmap@ == old(self).symbmap@,
                self.essa == old(self).essa,
                self.ssa == old(self).ssa,
                self.arg_count == old(self).arg_count,
                crate::dataflow::body_bounded(*body),
                body.local_count == self.n(),
                b <= body.blocks@.len(),
                chain.len() == b + 1,
                chain[0] == old(self).values_branchmap@,
                chain.last() == self.values_branchmap@,
                forall|t: int|
                    0 <= t < b ==> spec_vbm_block_step(
                        chain[t],
                        #[trigger] chain[t + 1],
                        body.blocks@[t],
                        old(self).n(),
                    ),
            decreases body.blocks.len() - b,
        {
            let blk = &body.blocks[b];
            let ghost before_vbm = self.values_branchmap@;
            match &blk.terminator {
                Terminator::SwitchInt { discr, false_target, true_target } => {
                    proof {
                        assert(crate::dataflow::terminator_bounded(
                            body.blocks@[b as int].terminator,
                            self.n(),
                        ));
                        assert forall|st: int|
                            0 <= st < blk.statements@.len()
                                implies crate::dataflow::statement_bounded(
                            #[trigger] blk.statements@[st],
                            self.n(),
                        ) by {}
                    }
                    self.build_value_branch_map(discr, *false_target, *true_target, blk);
                },
                _ => {},
            }
            proof {
                assert(body.blocks@[b as int] == *blk);
                assert(spec_vbm_block_step(
                    before_vbm,
                    self.values_branchmap@,
                    *blk,
                    old(self).n(),
                ));
                chain = chain.push(self.values_branchmap@);
                assert forall|t: int| 0 <= t < b + 1 implies spec_vbm_block_step(
                    chain[t],
                    #[trigger] chain[t + 1],
                    body.blocks@[t],
                    old(self).n(),
                ) by {
                    if t < b {
                        assert(chain[t] == chain.drop_last()[t]);
                        assert(chain[t + 1] == chain.drop_last()[t + 1]);
                    }
                }
            }
            b = b + 1;
        }
        proof {
            assert(spec_vbm_chain_ok(chain, body.blocks@, old(self).n()));
        }
    }

    /// Turn one assignment into a graph operation: arithmetic becomes a
    /// binary or unary operation, aggregates carrying the marker
    /// identities become phi or bound-intersection, plain uses become
    /// copies.
    pub fn build_operations(&mut self, stmt: &Statement, block: usize)
        requires
            old(self).wf(),
            crate::dataflow::statement_bounded(*stmt, old(self).n()),
        ensures
            final(self).wf(),
            final(self).n() == old(self).n(),
            final(self).values_branchmap@ == old(self).values_branchmap@,
            final(self).symbmap@ == old(self).symbmap@,
            spec_usemap_appended(*final(self), *old(self), old(self).oprs@.len() as int),
            spec_op_appended(
                old(self).oprs@,
                final(self).oprs@,
                old(self).defmap@,
                final(self).defmap@,
                old(self).values_branchmap@,
                old(self).essa,
                old(self).ssa,
                *stmt,
                block,
            ),
            final(self).essa == old(self).essa,
            final(self).ssa == old(self).ssa,
            final(self).arg_count == old(self).arg_count,
    {
        let ghost op_index = old(self).oprs@.len();
        match stmt {
            Statement::Assign(place, rvalue) => {
                if place.projection.len() != 0 {
                    proof {
                        lemma_usemap_unchanged_appended(*self, op_index as int);
                    }
                    return ;
                }
                let sink = place.local;
                match rvalue {
                    Rvalue::BinaryOp(op, op1, op2) => {
                        match op {
                            BinOp::Add | BinOp::Sub | BinOp::Mul | BinOp::Div | BinOp::Rem
                                | BinOp::AddUnchecked | BinOp::AddWithOverflow
                                | BinOp::SubUnchecked | BinOp::SubWithOverflow
                                | BinOp::MulUnchecked | BinOp::MulWithOverflow => {
                                self.add_binary_op(sink, op1, op2, *op);
                            },
                            _ => {
                                proof {
                                    assert(!spec_tracked_binop(*op));
                                    lemma_usemap_unchanged_appended(*self, op_index as int);
                                }
                            },
                        }
                    },
                    Rvalue::UnaryOp(unop, operand) => {
                        self.add_unary_op(sink, operand, *unop);
                    },
                    Rvalue::Aggregate(ctor, operands) => {
                        match ctor {
                            crate::ir::AggCtor::Adt(id) => {
                                if *id == self.essa {
                                    self.add_essa_op(sink, operands, block);
                                } else if *id == self.ssa {
                                    self.add_ssa_op(sink, operands);
                                } else {
                                    proof {
                                        lemma_usemap_unchanged_appended(*self, op_index as int);
                                    }
                                }
                            },
                            _ => {
                                proof {
                                    lemma_usemap_unchanged_appended(*self, op_index as int);
                                }
                            },
                        }
                    },
                    Rvalue::Use(operand) => {
                        self.add_use_op(sink, operand);
                    },
                    _ => {
                        proof {
                            lemma_usemap_unchanged_appended(*self, op_index as int);
                        }
                    },
                }
            },
            Statement::Nop => {
                proof {
                    lemma_usemap_unchanged_appended(*self, op_index as int);
                }
            },
        }
    }

    /// Build the whole graph for a body: branch intervals first, then one
    /// operation per tracked assignment.
    pub fn build_graph(&mut self, body: &FnBody)
        requires
            old(self).wf(),
            crate::dataflow::body_bounded(*body),
            body.local_count == old(self).n(),
        ensures
            final(self).wf(),
            final(self).n() == old(self).n(),
            final(self).arg_count == body.arg_count,
            final(self).essa == old(self).essa,
            final(self).ssa == old(self).ssa,
            old(self).oprs@.len() <= final(self).oprs@.len(),
            forall|t: int|
                0 <= t < old(self).oprs@.len() ==> #[trigger] final(self).oprs@[t] == old(
                    self,
                ).oprs@[t],
            exists|chain: Seq<Seq<Option<ValueBranchMap>>>|
                #[trigger] spec_vbm_chain_ok(chain, body.blocks@, old(self).n()) && chain[0] == old(
                    self,
                ).values_branchmap@ && chain.last() == final(self).values_branchmap@,
            // The whole operation list, block by block and statement by
            // statement: each step appends exactly what its statement
            // dictates against the branch table built first, and
            // nothing else.
            exists|co: Seq<Seq<BasicOp>>, cd: Seq<Seq<Option<usize>>>|
                #[trigger] spec_ops_chain_ok(
                    co,
                    cd,
                    body.blocks@,
                    final(self).values_branchmap@,
                    old(self).essa,
                    old(self).ssa,
                ) && co[0] == old(self).oprs@ && cd[0] == old(self).defmap@
                    && co.last() == final(self).oprs@ && cd.last() == final(self).defmap@,
    {
        self.arg_count = body.arg_count;
        self.build_value_maps(body);
        let ghost vbm_built = self.values_branchmap@;
        let ghost mut co: Seq<Seq<BasicOp>> = seq![self.oprs@];
        let ghost mut cd: Seq<Seq<Option<usize>>> = seq![self.defmap@];
        let mut b: usize = 0;
        while b < body.blocks.len()
            invariant
                self.wf(),
                self.n() == old(self).n(),
                self.arg_count == body.arg_count,
                self.essa == old(self).essa,
                self.ssa == old(self).ssa,
                self.values_branchmap@ == vbm_built,
                exists|chain: Seq<Seq<Option<ValueBranchMap>>>|
                    #[trigger] spec_vbm_chain_ok(chain, body.blocks@, old(self).n()) && chain[0] == old(
                        self,
                    ).values_branchmap@ && chain.last() == vbm_built,
                old(self).oprs@.len() <= self.oprs@.len(),
                forall|t: int|
                    0 <= t < old(self).oprs@.len() ==> #[trigger] self.oprs@[t] == old(
                        self,
                    ).oprs@[t],
                crate::dataflow::body_bounded(*body),
                body.local_count == self.n(),
                b <= body.blocks@.len(),
                co.len() == b + 1,
                cd.len() == b + 1,
                co[0] == old(self).oprs@,
                cd[0] == old(self).defmap@,
                co.last() == self.oprs@,
                cd.last() == self.defmap@,
                forall|t: int|
                    0 <= t < b ==> spec_ops_block_step(
                        co[t],
                        co[t + 1],
                        cd[t],
                        cd[t + 1],
                        #[trigger] body.blocks@[t],
                        t as usize,
                        vbm_built,
                        old(self).essa,
                        old(self).ssa,
                    ),
            decreases body.blocks.len() - b,
        {
            let blk = &body.blocks[b];
            let ghost oprs_block = self.oprs@;
            let ghost defmap_block = self.defmap@;
            let ghost mut mo: Seq<Seq<BasicOp>> = seq![self.oprs@];
            let ghost mut md: Seq<Seq<Option<usize>>> = seq![self.defmap@];
            let mut st: usize = 0;
            while st < blk.statements.len()
                invariant
                    self.wf(),
                    self.n() == old(self).n(),
                    self.arg_count == body.arg_count,
                    self.essa == old(self).essa,
                    self.ssa == old(self).ssa,
                    self.values_branchmap@ == vbm_built,
                    old(self).oprs@.len() <= self.oprs@.len(),
                    forall|t: int|
                        0 <= t < old(self).oprs@.len() ==> #[trigger] self.oprs@[t] == old(
                            self,
                        ).oprs@[t],
                    crate::dataflow::body_bounded(*body),
                    body.local_count == self.n(),
                    b < body.blocks@.len(),
                    blk == body.blocks@[b as int],
                    st <= blk.statements@.len(),
                    co.len() == b + 1,
                    cd.len() == b + 1,
                    co[0] == old(self).oprs@,
                    cd[0] == old(self).defmap@,
                    co.last() == oprs_block,
                    cd.last() == defmap_block,
                    forall|t: int|
                        0 <= t < b ==> spec_ops_block_step(
                            co[t],
                            co[t + 1],
                            cd[t],
                            cd[t + 1],
                            #[trigger] body.blocks@[t],
                            t as usize,
                            vbm_built,
                            old(self).essa,
                            old(self).ssa,
                        ),
                    mo.len() == st + 1,
                    md.len() == st + 1,
                    mo[0] == oprs_block,
                    md[0] == defmap_block,
                    mo.last() == self.oprs@,
                    md.last() == self.defmap@,
                    forall|i: int|
                        0 <= i < st ==> spec_op_appended(
                            mo[i],
                            mo[i + 1],
                            md[i],
                            md[i + 1],
                            vbm_built,
                            old(self).essa,
                            old(self).ssa,
                            #[trigger] blk.statements@[i],
                            b,
                        ),
                decreases blk.statements.len() - st,
            {
                proof {
                    assert(crate::dataflow::statement_bounded(
                        body.blocks@[b as int].statements@[st as int],
                        self.n(),
                    ));
                }
                let ghost before = *self;
                self.build_operations(&blk.statements[st], b);
                proof {
                    assert forall|t: int| 0 <= t < old(self).oprs@.len() implies
                        #[trigger] self.oprs@[t] == old(self).oprs@[t] by {
                        assert(self.oprs@[t] == before.oprs@[t]);
                    }
                    assert(spec_op_appended(
                        before.oprs@,
                        self.oprs@,
                        before.defmap@,
                        self.defmap@,
                        vbm_built,
                        old(self).essa,
                        old(self).ssa,
                        blk.statements@[st as int],
                        b,
                    ));
                    let mo_old = mo;
                    let md_old = md;
                    mo = mo.push(self.oprs@);
                    md = md.push(self.defmap@);
                    assert(mo.last() == self.oprs@ && md.last() == self.defmap@);
                    assert(mo[0] == mo_old[0] && md[0] == md_old[0]);
                    assert forall|i: int|
                        0 <= i < st + 1 implies spec_op_appended(
                        mo[i],
                        mo[i + 1],
                        md[i],
                        md[i + 1],
                        vbm_built,
                        old(self).essa,
                        old(self).ssa,
                        #[trigger] blk.statements@[i],
                        b,
                    ) by {
                        assert(mo[i] == mo_old[i] && md[i] == md_old[i]);
                        if i < st {
                            assert(mo[i + 1] == mo_old[i + 1] && md[i + 1] == md_old[i + 1]);
                        } else {
                            assert(mo[i + 1] == self.oprs@ && md[i + 1] == self.defmap@);
                            assert(mo[i] == before.oprs@ && md[i] == before.defmap@);
                        }
                    }
                }
                st = st + 1;
            }
            proof {
                assert(spec_ops_stmt_chain_ok(
                    mo,
                    md,
                    blk.statements@,
                    vbm_built,
                    old(self).essa,
                    old(self).ssa,
                    b,
                ));
                assert(spec_ops_block_step(
                    oprs_block,
                    self.oprs@,
                    defmap_block,
                    self.defmap@,
                    body.blocks@[b as int],
                    b,
                    vbm_built,
                    old(self).essa,
                    old(self).ssa,
                ));
                let co_old = co;
                let cd_old = cd;
                co = co.push(self.oprs@);
                cd = cd.push(self.defmap@);
                assert(co.last() == self.oprs@ && cd.last() == self.defmap@);
                assert(co[0] == co_old[0] && cd[0] == cd_old[0]);
                assert forall|t: int|
                    0 <= t < b + 1 implies spec_ops_block_step(
                    co[t],
                    co[t + 1],
                    cd[t],
                    cd[t + 1],
                    #[trigger] body.blocks@[t],
                    t as usize,
                    vbm_built,
                    old(self).essa,
                    old(self).ssa,
                ) by {
                    assert(co[t] == co_old[t] && cd[t] == cd_old[t]);
                    if t < b {
                        assert(co[t + 1] == co_old[t + 1] && cd[t + 1] == cd_old[t + 1]);
                    } else {
                        assert(co[t + 1] == self.oprs@ && cd[t + 1] == self.defmap@);
                        assert(co[t] == oprs_block && cd[t] == defmap_block);
                        assert(t as usize == b);
                    }
                }
            }
            b = b + 1;
        }
        proof {
            assert(spec_ops_chain_ok(
                co,
                cd,
                body.blocks@,
                vbm_built,
                old(self).essa,
                old(self).ssa,
            ));
        }
    }

    /// Give every variable without a defining operation (an argument or
    /// other free input) the type's full range.
    pub fn build_varnodes(&mut self)
        requires
            old(self).wf(),
        ensures
            final(self).wf(),
            final(self).n() == old(self).n(),
            final(self).oprs@ == old(self).oprs@,
            final(self).defmap@ == old(self).defmap@,
            forall|v: int|
                0 <= v < final(self).n() ==> #[trigger] final(self).vars@[v] == (if old(
                    self,
                ).vars@[v] is Some && old(self).defmap@[v] is None {
                    Option::Some(
                        VarNode {
                            range: Range {
                                lower: i64::MIN,
                                upper: i64::MAX,
                                rtype: RangeType::Regular,
                            },
                        },
                    )
                } else {
                    old(self).vars@[v]
                }),
    {
        let mut v: usize = 0;
        while v < self.vars.len()
            invariant
                self.wf(),
                self.n() == old(self).n(),
                self.oprs@ == old(self).oprs@,
                self.defmap@ == old(self).defmap@,
                v <= self.n(),
                forall|t: int|
                    0 <= t < v ==> #[trigger] self.vars@[t] == (if old(self).vars@[t] is Some
                        && old(self).defmap@[t] is None {
                        Option::Some(
                            VarNode {
                                range: Range {
                                    lower: i64::MIN,
                                    upper: i64::MAX,
                                    rtype: RangeType::Regular,
                                },
                            },
                        )
                    } else {
                        old(self).vars@[t]
                    }),
                forall|t: int|
                    v <= t < self.n() ==> #[trigger] self.vars@[t] == old(self).vars@[t],
            decreases self.vars.len() - v,
        {
            let present = self.vars[v].is_some();
            let undefined = self.defmap[v].is_none();
            if present && undefined {
                self.set_var_range(v, Range::full_regular());
            }
            v = v + 1;
        }
    }

    /// Register every bound-intersection with a symbolic bound under the
    /// bound's local.
    pub fn build_symbolic_intersect_map(&mut self)
        requires
            old(self).wf(),
        ensures
            final(self).wf(),
            final(self).n() == old(self).n(),
            final(self).oprs@ == old(self).oprs@,
            final(self).vars@ == old(self).vars@,
            final(self).defmap@ == old(self).defmap@,
            final(self).usemap@ == old(self).usemap@,
            forall|t: int|
                0 <= t < final(self).oprs@.len() && (#[trigger] final(self).oprs@[t]) is Essa
                    && final(self).oprs@[t]->Essa_intersect is Symb ==> final(self).symbmap@[
                    final(self).oprs@[t]->Essa_intersect->Symb_bound as int
                ]@.contains(t as usize),
    {
        let mut i: usize = 0;
        while i < self.oprs.len()
            invariant
                self.wf(),
                self.n() == old(self).n(),
                self.oprs@ == old(self).oprs@,
                self.vars@ == old(self).vars@,
                self.defmap@ == old(self).defmap@,
                self.usemap@ == old(self).usemap@,
                i <= self.oprs@.len(),
                forall|v: int, k: int|
                    0 <= v < self.n() && 0 <= k < old(self).symbmap@[v]@.len()
                        ==> #[trigger] self.symbmap@[v]@[k] == old(self).symbmap@[v]@[k],
                forall|v: int|
                    0 <= v < self.n() ==> (#[trigger] self.symbmap@[v]@.len()) >= old(
                        self,
                    ).symbmap@[v]@.len(),
                forall|t: int|
                    0 <= t < i && (#[trigger] self.oprs@[t]) is Essa
                        && self.oprs@[t]->Essa_intersect is Symb ==> self.symbmap@[
                        self.oprs@[t]->Essa_intersect->Symb_bound as int
                    ]@.contains(t as usize),
            decreases self.oprs.len() - i,
        {
            proof {
                assert(self.oprs@[i as int].bounded(self.n()));
            }
            let bound_opt: Option<usize> = match &self.oprs[i] {
                BasicOp::Essa { intersect: IntervalConstraint::Symb { bound, .. }, .. } => {
                    Option::Some(*bound)
                },
                _ => Option::None,
            };
            let ghost before = *self;
            match bound_opt {
                Option::Some(bound) => {
                    self.push_symb(bound, i);
                },
                Option::None => {},
            }
            proof {
                assert forall|t: int|
                    0 <= t < i + 1 && (#[trigger] self.oprs@[t]) is Essa
                        && self.oprs@[t]->Essa_intersect is Symb implies self.symbmap@[
                    self.oprs@[t]->Essa_intersect->Symb_bound as int
                ]@.contains(t as usize) by {
                    let bv = self.oprs@[t]->Essa_intersect->Symb_bound as int;
                    if t < i {
                        assert(before.symbmap@[bv]@.contains(t as usize));
                        let k = choose|k: int|
                            0 <= k < before.symbmap@[bv]@.len() && #[trigger] before.symbmap@[bv]@[k]
                                == t as usize;
                        assert(self.symbmap@[bv]@[k] == t as usize);
                    } else {
                        assert(bound_opt is Some && bound_opt.unwrap() as int == bv);
                        assert(self.symbmap@[bv]@ == before.symbmap@[bv]@.push(i));
                        assert(self.symbmap@[bv]@[self.symbmap@[bv]@.len() - 1] == t as usize);
                    }
                }
                assert forall|v: int, k: int|
                    0 <= v < self.n() && 0 <= k < old(self).symbmap@[v]@.len()
                        implies #[trigger] self.symbmap@[v]@[k] == old(self).symbmap@[v]@[k] by {
                    assert(before.symbmap@[v]@[k] == old(self).symbmap@[v]@[k]);
                }
            }
            i = i + 1;
        }
    }
}

/// One dataflow step: an operation reading `a` (or symbolically
/// bounded by `a`) sinks in `b`.
pub open spec fn spec_flow_step(g: ConstraintGraph, a: int, b: int) -> bool {
    &&& 0 <= a < g.n()
    &&& 0 <= b < g.n()
    &&& ((exists|k: int|
        0 <= k < g.usemap@[a]@.len() && g.oprs@[(#[trigger] g.usemap@[a]@[k]) as int].spec_sink()
            == b) || (exists|k: int|
        0 <= k < g.symbmap@[a]@.len() && g.oprs@[(#[trigger] g.symbmap@[a]@[k]) as int].spec_sink()
            == b))
}

/// Every consecutive pair of `p` is a dataflow step.
pub open spec fn spec_flow_path_ok(g: ConstraintGraph, p: Seq<int>) -> bool {
    &&& p.len() >= 1
    &&& forall|t: int| 0 <= t < p.len() ==> 0 <= #[trigger] p[t] < g.n()
    &&& forall|t: int| 0 <= t < p.len() - 1 ==> spec_flow_step(g, #[trigger] p[t], p[t + 1])
}

/// `b` is reachable from `a` over the def-use and symbolic-bound edges.
pub open spec fn spec_flow_reaches(g: ConstraintGraph, a: int, b: int) -> bool {
    exists|p: Seq<int>| #[trigger] spec_flow_path_ok(g, p) && p[0] == a && p.last() == b
}

proof fn lemma_flow_reach_trans(g: ConstraintGraph, a: int, b: int, c: int)
    requires
        spec_flow_reaches(g, a, b),
        spec_flow_reaches(g, b, c),
    ensures
        spec_flow_reaches(g, a, c),
{
    let p1 = choose|p: Seq<int>| #[trigger] spec_flow_path_ok(g, p) && p[0] == a && p.last() == b;
    let p2 = choose|p: Seq<int>| #[trigger] spec_flow_path_ok(g, p) && p[0] == b && p.last() == c;
    let q = p1 + p2.skip(1);
    if p2.len() == 1 {
        assert(q =~= p1);
        assert(q.last() == c);
    } else {
        assert(q.len() == p1.len() + p2.len() - 1);
        assert(q.last() == p2.last());
        assert forall|t: int| 0 <= t < q.len() - 1 implies spec_flow_step(
            g,
            #[trigger] q[t],
            q[t + 1],
        ) by {
            if t < p1.len() - 1 {
                assert(q[t] == p1[t] && q[t + 1] == p1[t + 1]);
            } else if t == p1.len() - 1 {
                assert(q[t] == p1.last());
                assert(q[t + 1] == p2.skip(1)[0]);
                assert(p2.skip(1)[0] == p2[1]);
                assert(spec_flow_step(g, p2[0], p2[1]));
            } else {
                assert(q[t] == p2.skip(1)[t - p1.len()]);
                assert(q[t + 1] == p2.skip(1)[t + 1 - p1.len()]);
                assert(p2.skip(1)[t - p1.len()] == p2[t - p1.len() + 1]);
                assert(p2.skip(1)[t + 1 - p1.len()] == p2[t + 1 - p1.len() + 1]);
                assert(spec_flow_step(g, p2[t - p1.len() + 1], p2[t - p1.len() + 2]));
            }
        }
        assert(spec_flow_path_ok(g, q));
        assert(q[0] == a);
    }
}

proof fn lemma_flow_reach_step(g: ConstraintGraph, start: int, a: int, b: int)
    requires
        spec_flow_reaches(g, start, a),
        spec_flow_step(g, a, b),
    ensures
        spec_flow_reaches(g, start, b),
{
    let p = choose|p: Seq<int>| #[trigger] spec_flow_path_ok(g, p) && p[0] == start && p.last() == a;
    let p2 = p.push(b);
    assert forall|t: int| 0 <= t < p2.len() - 1 implies spec_flow_step(g, #[trigger] p2[t], p2[t + 1]) by {
        if t < p.len() - 1 {
            assert(p2[t] == p[t] && p2[t + 1] == p[t + 1]);
        } else {
            assert(p2[t] == a && p2[t + 1] == b);
        }
    }
    assert(spec_flow_path_ok(g, p2));
    assert(p2[0] == start && p2.last() == b);
}

proof fn lemma_flow_closed_complete(g: ConstraintGraph, marked: Seq<bool>, p: Seq<int>)
    requires
        marked.len() == g.n(),
        spec_flow_path_ok(g, p),
        marked[p[0]],
        forall|a: int, b: int|
            0 <= a < marked.len() && marked[a] && spec_flow_step(g, a, b) ==> marked[b],
    ensures
        marked[p.last()],
    decreases p.len(),
{
    if p.len() > 1 {
        let q = p.drop_last();
        assert(spec_flow_path_ok(g, q));
        lemma_flow_closed_complete(g, marked, q);
        assert(spec_flow_step(g, p[p.len() - 2], p.last()));
    }
}

/// The fields reachability reads: operations, use and bound lists, and
/// the local count.
pub open spec fn spec_flow_core_equal(g1: ConstraintGraph, g2: ConstraintGraph) -> bool {
    g1.usemap@ == g2.usemap@ && g1.symbmap@ == g2.symbmap@ && g1.oprs@ == g2.oprs@ && g1.n()
        == g2.n()
}

proof fn lemma_flow_reaches_core(g1: ConstraintGraph, g2: ConstraintGraph, a: int, b: int)
    requires
        spec_flow_core_equal(g1, g2),
    ensures
        spec_flow_reaches(g1, a, b) == spec_flow_reaches(g2, a, b),
{
    assert forall|x: int, y: int| spec_flow_step(g1, x, y) == spec_flow_step(g2, x, y) by {}
    if spec_flow_reaches(g1, a, b) {
        let p = choose|p: Seq<int>|
            #[trigger] spec_flow_path_ok(g1, p) && p[0] == a && p.last() == b;
        assert(spec_flow_path_ok(g2, p));
    }
    if spec_flow_reaches(g2, a, b) {
        let p = choose|p: Seq<int>|
            #[trigger] spec_flow_path_ok(g2, p) && p[0] == a && p.last() == b;
        assert(spec_flow_path_ok(g1, p));
    }
}

impl ConstraintGraph {
    /// All locals whose defining operations can be affected, directly or
    /// transitively, by the range of `start`: an iterative saturation
    /// over the def-use edges, with the synthetic control-dependence
    /// edges (symbolic branch bounds) included so loop-carried
    /// conditions fall into the same component.
    #[verifier::loop_isolation(false)]
    #[verifier::loop_isolation(false)]
    pub fn visit(&self, start: usize) -> (marked: Vec<bool>)
        requires
            self.wf(),
            start < self.n(),
        ensures
            marked@.len() == self.n(),
            forall|i: int|
                0 <= i < marked@.len() ==> #[trigger] marked@[i] == spec_flow_reaches(
                    *self,
                    start as int,
                    i,
                ),
    {
        let n = self.vars.len();
        let mut marked: Vec<bool> = Vec::new();
        let mut i: usize = 0;
        while i < n
            invariant
                i <= n,
                marked@.len() == i,
                forall|t: int| 0 <= t < i ==> !(#[trigger] marked@[t]),
            decreases n - i,
        {
            marked.push(false);
            i = i + 1;
        }
        marked.set(start, true);
        proof {
            let p0 = seq![start as int];
            assert(spec_flow_path_ok(*self, p0));
            assert(p0[0] == start as int && p0.last() == start as int);
            assert(spec_flow_reaches(*self, start as int, start as int));
        }
        let mut changed = true;
        while changed
            invariant
                marked@.len() == n,
                forall|t: int|
                    0 <= t < n && #[trigger] marked@[t] ==> spec_flow_reaches(
                        *self,
                        start as int,
                        t,
                    ),
                marked@[start as int],
                !changed ==> (forall|a: int, b: int|
                    0 <= a < n && marked@[a] && spec_flow_step(*self, a, b) ==> marked@[b]),
            decreases crate::dataflow::count_false(marked@) + (if changed {
                1int
            } else {
                0int
            }),
        {
            changed = false;
            let ghost pass_start = marked@;
            let mut v: usize = 0;
            while v < n
                invariant
                    marked@.len() == n,
                    marked@[start as int],
                    v <= n,
                    pass_start.len() == n,
                    forall|t: int| 0 <= t < n && pass_start[t] ==> #[trigger] marked@[t],
                    forall|t: int|
                        0 <= t < n && #[trigger] marked@[t] ==> spec_flow_reaches(
                            *self,
                            start as int,
                            t,
                        ),
                    changed ==> crate::dataflow::count_false(marked@)
                        < crate::dataflow::count_false(pass_start),
                    !changed ==> marked@ == pass_start,
                    !changed ==> (forall|a: int, b: int|
                        0 <= a < v && marked@[a] && spec_flow_step(*self, a, b) ==> marked@[b]),
                decreases n - v,
            {
                if marked[v] {
                    let c = self.flow_expand(v, &mut marked, Ghost(start));
                    if c {
                        changed = true;
                    }
                }
                v = v + 1;
            }
        }
        proof {
            assert forall|i2: int|
                0 <= i2 < marked@.len() && spec_flow_reaches(*self, start as int, i2)
                    implies marked@[i2] by {
                let p = choose|p: Seq<int>|
                    #[trigger] spec_flow_path_ok(*self, p) && p[0] == start as int && p.last()
                        == i2;
                lemma_flow_closed_complete(*self, marked@, p);
            }
        }
        marked
    }

    /// Mark every direct dataflow successor of `v`; report whether a
    /// mark was added.
    #[verifier::loop_isolation(false)]
    fn flow_expand(&self, v: usize, marked: &mut Vec<bool>, start: Ghost<usize>) -> (changed: bool)
        requires
            self.wf(),
            start@ < self.n(),
            v < self.n(),
            old(marked)@.len() == self.n(),
            old(marked)@[v as int],
            forall|t: int|
                0 <= t < old(marked)@.len() && #[trigger] old(marked)@[t] ==> spec_flow_reaches(
                    *self,
                    start@ as int,
                    t,
                ),
        ensures
            final(marked)@.len() == old(marked)@.len(),
            forall|t: int|
                0 <= t < old(marked)@.len() && old(marked)@[t] ==> #[trigger] final(marked)@[t],
            forall|t: int|
                0 <= t < final(marked)@.len() && #[trigger] final(marked)@[t]
                    ==> spec_flow_reaches(*self, start@ as int, t),
            changed ==> crate::dataflow::count_false(final(marked)@) < crate::dataflow::count_false(
                old(marked)@,
            ),
            !changed ==> final(marked)@ == old(marked)@,
            !changed ==> (forall|b: int|
                spec_flow_step(*self, v as int, b) ==> final(marked)@[b]),
    {
        let mut changed = false;
        let ghost orig = old(marked)@;
        let uses_len = self.use_count(v);
        let mut k: usize = 0;
        while k < uses_len
            invariant
                marked@.len() == orig.len(),
                orig[v as int],
                uses_len == self.usemap@[v as int]@.len(),
                k <= uses_len,
                forall|t: int| 0 <= t < orig.len() && orig[t] ==> #[trigger] marked@[t],
                forall|t: int|
                    0 <= t < marked@.len() && #[trigger] marked@[t] ==> spec_flow_reaches(
                        *self,
                        start@ as int,
                        t,
                    ),
                changed ==> crate::dataflow::count_false(marked@) < crate::dataflow::count_false(
                    orig,
                ),
                !changed ==> marked@ == orig,
                forall|t: int|
                    0 <= t < k ==> marked@[
                        self.oprs@[(#[trigger] self.usemap@[v as int]@[t]) as int].spec_sink() as int
                    ],
            decreases uses_len - k,
        {
            let op_idx = self.use_at(v, k);
            let sink = self.oprs[op_idx].get_sink();
            proof {
                assert(self.oprs@[op_idx as int].bounded(self.n()));
            }
            if !marked[sink] {
                proof {
                    crate::dataflow::lemma_count_false_update(marked@, sink as int);
                    assert(spec_flow_step(*self, v as int, sink as int));
                    lemma_flow_reach_step(*self, start@ as int, v as int, sink as int);
                }
                marked.set(sink, true);
                changed = true;
            }
            k = k + 1;
        }
        let symb_len = self.symb_count(v);
        let mut k2: usize = 0;
        while k2 < symb_len
            invariant
                marked@.len() == orig.len(),
                orig[v as int],
                symb_len == self.symbmap@[v as int]@.len(),
                k2 <= symb_len,
                forall|t: int| 0 <= t < orig.len() && orig[t] ==> #[trigger] marked@[t],
                forall|t: int|
                    0 <= t < marked@.len() && #[trigger] marked@[t] ==> spec_flow_reaches(
                        *self,
                        start@ as int,
                        t,
                    ),
                changed ==> crate::dataflow::count_false(marked@) < crate::dataflow::count_false(
                    orig,
                ),
                !changed ==> marked@ == orig,
                forall|t: int|
                    0 <= t < self.usemap@[v as int]@.len() ==> marked@[
                        self.oprs@[(#[trigger] self.usemap@[v as int]@[t]) as int].spec_sink() as int
                    ],
                forall|t: int|
                    0 <= t < k2 ==> marked@[
                        self.oprs@[(#[trigger] self.symbmap@[v as int]@[t]) as int].spec_sink() as int
                    ],
            decreases symb_len - k2,
        {
            let op_idx = self.symb_at(v, k2);
            let sink = self.oprs[op_idx].get_sink();
            proof {
                assert(self.oprs@[op_idx as int].bounded(self.n()));
            }
            if !marked[sink] {
                proof {
                    crate::dataflow::lemma_count_false_update(marked@, sink as int);
                    assert(spec_flow_step(*self, v as int, sink as int));
                    lemma_flow_reach_step(*self, start@ as int, v as int, sink as int);
                }
                marked.set(sink, true);
                changed = true;
            }
            k2 = k2 + 1;
        }
        proof {
            if !changed {
                assert forall|b: int| spec_flow_step(*self, v as int, b) implies marked@[b] by {
                    if exists|k: int|
                        0 <= k < self.usemap@[v as int]@.len() && self.oprs@[(
                        #[trigger] self.usemap@[v as int]@[k]) as int].spec_sink() == b {
                        let k = choose|k: int|
                            0 <= k < self.usemap@[v as int]@.len() && self.oprs@[(
                            #[trigger] self.usemap@[v as int]@[k]) as int].spec_sink() == b;
                        assert(marked@[
                            self.oprs@[self.usemap@[v as int]@[k] as int].spec_sink() as int
                        ]);
                    } else {
                        let k = choose|k: int|
                            0 <= k < self.symbmap@[v as int]@.len() && self.oprs@[(
                            #[trigger] self.symbmap@[v as int]@[k]) as int].spec_sink() == b;
                        assert(marked@[
                            self.oprs@[self.symbmap@[v as int]@[k] as int].spec_sink() as int
                        ]);
                    }
                }
            }
        }
        changed
    }

    /// Number of operations reading `v`.
    fn use_count(&self, v: usize) -> (r: usize)
        requires
            self.wf(),
            v < self.n(),
        ensures
            r == self.usemap@[v as int]@.len(),
    {
        self.usemap[v].len()
    }

    /// The `k`-th operation reading `v`.
    fn use_at(&self, v: usize, k: usize) -> (r: usize)
        requires
            self.wf(),
            v < self.n(),
            k < self.usemap@[v as int]@.len(),
        ensures
            r < self.oprs@.len(),
            r == self.usemap@[v as int]@[k as int],
    {
        self.usemap[v][k]
    }

    /// Number of bound-intersections symbolically bounded by `v`.
    fn symb_count(&self, v: usize) -> (r: usize)
        requires
            self.wf(),
            v < self.n(),
        ensures
            r == self.symbmap@[v as int]@.len(),
    {
        self.symbmap[v].len()
    }

    /// The `k`-th bound-intersection symbolically bounded by `v`.
    fn symb_at(&self, v: usize, k: usize) -> (r: usize)
        requires
            self.wf(),
            v < self.n(),
            k < self.symbmap@[v as int]@.len(),
        ensures
            r < self.oprs@.len(),
            r == self.symbmap@[v as int]@[k as int],
    {
        self.symbmap[v][k]
    }

    /// Find the strongly connected components of the def-use graph and a
    /// topological order over them: members of a component are mutually
    /// reachable; components that can affect more of the graph come
    /// first, so every component is resolved before the components that
    /// read its values.  The detection is an iterative reachability
    /// pass, not a recursive visit, so deep graphs are safe.
    #[verifier::loop_isolation(false)]
    #[verifier::rlimit(100)]
    #[verifier::spinoff_prover]
    pub fn build_nuutila(&mut self, single: bool)
        requires
            old(self).wf(),
        ensures
            final(self).wf(),
            final(self).n() == old(self).n(),
            final(self).oprs@ == old(self).oprs@,
            final(self).vars@ == old(self).vars@,
            final(self).worklist@.len() == final(self).components@.len(),
            forall|c: int, t: int|
                0 <= c < final(self).components@.len() && 0 <= t
                    < final(self).components@[c]@.len()
                    ==> (#[trigger] final(self).components@[c]@[t]) < final(self).n(),
            forall|c: int|
                0 <= c < final(self).worklist@.len() ==> (#[trigger] final(self).worklist@[c])
                    < final(self).n(),
            // Members are tracked locals, mutually reachable with their
            // component's representative.
            forall|c: int, t: int|
                0 <= c < final(self).components@.len() && 0 <= t
                    < final(self).components@[c]@.len() ==> final(self).vars@[(
                #[trigger] final(self).components@[c]@[t]) as int] is Some && spec_flow_reaches(
                    *final(self),
                    final(self).worklist@[c] as int,
                    final(self).components@[c]@[t] as int,
                ) && spec_flow_reaches(
                    *final(self),
                    final(self).components@[c]@[t] as int,
                    final(self).worklist@[c] as int,
                ),
            // Every tracked local lies in some component.
            !single ==> (forall|v: int|
                0 <= v < final(self).n() && (#[trigger] final(self).vars@[v]) is Some ==> exists|
                    c: int,
                |
                    0 <= c < final(self).components@.len()
                        && (#[trigger] final(self).components@[c])@.contains(v as usize)),
            // Maximality: a tracked local mutually reachable with a
            // member belongs to that member's component.
            !single ==> (forall|c: int, t: int, b: int|
                #![trigger final(self).components@[c]@[t], final(self).vars@[b]]
                0 <= c < final(self).components@.len()
                    && 0 <= t < final(self).components@[c]@.len() && 0 <= b < final(self).n()
                    && final(self).vars@[b] is Some && spec_flow_reaches(
                    *final(self),
                    final(self).components@[c]@[t] as int,
                    b,
                ) && spec_flow_reaches(*final(self), b, final(self).components@[c]@[t] as int)
                    ==> final(self).components@[c]@.contains(b as usize)),
            // The components are pairwise disjoint: with the cover
            // above, each tracked local lies in exactly one.
            forall|c1: int, c2: int, t1: int, t2: int|
                0 <= c1 < c2 < final(self).components@.len()
                    && 0 <= t1 < final(self).components@[c1]@.len()
                    && 0 <= t2 < final(self).components@[c2]@.len()
                    ==> (#[trigger] final(self).components@[c1]@[t1])
                    != (#[trigger] final(self).components@[c2]@[t2]),
    {
        self.build_symbolic_intersect_map();
        self.worklist = Vec::new();
        self.components = Vec::new();
        self.num_sccs = 0;
        self.num_alone_sccs = 0;
        if single {
            return ;
        }
        let ghost g0 = *self;
        let n = self.vars.len();
        let mut reach_sets: Vec<Vec<bool>> = Vec::new();
        let mut v: usize = 0;
        while v < n
            invariant
                self.wf(),
                *self == g0,
                n == self.n(),
                v <= n,
                reach_sets@.len() == v,
                forall|t: int| 0 <= t < v ==> (#[trigger] reach_sets@[t])@.len() == n,
                forall|t: int, u: int|
                    0 <= t < v && 0 <= u < n ==> (#[trigger] reach_sets@[t]@[u])
                        == spec_flow_reaches(g0, t, u),
            decreases n - v,
        {
            let r = self.visit(v);
            reach_sets.push(r);
            v = v + 1;
        }
        let mut assigned: Vec<bool> = Vec::new();
        let mut i: usize = 0;
        while i < n
            invariant
                i <= n,
                assigned@.len() == i,
                forall|t: int| 0 <= t < i ==> !(#[trigger] assigned@[t]),
            decreases n - i,
        {
            assigned.push(false);
            i = i + 1;
        }
        // Components with their representative and reach count, unsorted.
        let mut reps: Vec<usize> = Vec::new();
        let mut comps: Vec<Vec<usize>> = Vec::new();
        let mut counts: Vec<usize> = Vec::new();
        let mut v2: usize = 0;
        while v2 < n
            invariant
                self.wf(),
                self.usemap@ == g0.usemap@,
                self.symbmap@ == g0.symbmap@,
                self.oprs@ == g0.oprs@,
                self.vars@ == g0.vars@,
                self.values_branchmap@ == g0.values_branchmap@,
                self.defmap@ == g0.defmap@,
                n == self.n(),
                self.n() == old(self).n(),
                self.oprs@ == old(self).oprs@,
                self.worklist@.len() == 0,
                self.components@.len() == 0,
                self.num_sccs <= v2,
                self.num_alone_sccs <= self.num_sccs,
                v2 <= n,
                assigned@.len() == n,
                reach_sets@.len() == n,
                forall|t: int| 0 <= t < n ==> (#[trigger] reach_sets@[t])@.len() == n,
                forall|t: int, u: int|
                    0 <= t < n && 0 <= u < n ==> (#[trigger] reach_sets@[t]@[u])
                        == spec_flow_reaches(g0, t, u),
                reps@.len() == comps@.len(),
                counts@.len() == comps@.len(),
                forall|c: int, t: int|
                    0 <= c < comps@.len() && 0 <= t < comps@[c]@.len() ==> (
                    #[trigger] comps@[c]@[t]) < n,
                forall|c: int| 0 <= c < reps@.len() ==> (#[trigger] reps@[c]) < n,
                forall|c: int, t: int|
                    0 <= c < comps@.len() && 0 <= t < comps@[c]@.len() ==> self.vars@[(
                    #[trigger] comps@[c]@[t]) as int] is Some && spec_flow_reaches(
                        g0,
                        reps@[c] as int,
                        comps@[c]@[t] as int,
                    ) && spec_flow_reaches(g0, comps@[c]@[t] as int, reps@[c] as int),
                forall|c: int, t: int|
                    0 <= c < comps@.len() && 0 <= t < comps@[c]@.len() ==> assigned@[(
                    #[trigger] comps@[c]@[t]) as int],
                forall|c1: int, c2: int, t1: int, t2: int|
                    0 <= c1 < c2 < comps@.len() && 0 <= t1 < comps@[c1]@.len() && 0 <= t2
                        < comps@[c2]@.len() ==> (#[trigger] comps@[c1]@[t1]) != (
                    #[trigger] comps@[c2]@[t2]),
                forall|x: int|
                    0 <= x < n && #[trigger] assigned@[x] ==> exists|c: int|
                        0 <= c < comps@.len() && (#[trigger] comps@[c])@.contains(x as usize),
                forall|x: int|
                    0 <= x < v2 && (#[trigger] self.vars@[x]) is Some ==> assigned@[x],
                forall|c: int, t: int, b: int|
                    #![trigger comps@[c]@[t], self.vars@[b]]
                    0 <= c < comps@.len() && 0 <= t < comps@[c]@.len() && 0 <= b < n
                        && self.vars@[b] is Some && spec_flow_reaches(
                        g0,
                        comps@[c]@[t] as int,
                        b,
                    ) && spec_flow_reaches(g0, b, comps@[c]@[t] as int) ==> comps@[c]@.contains(
                        b as usize,
                    ),
            decreases n - v2,
        {
            let present = self.vars[v2].is_some();
            if present && !assigned[v2] {
                proof {
                    let p0 = seq![v2 as int];
                    assert(spec_flow_path_ok(g0, p0));
                    assert(p0[0] == v2 as int && p0.last() == v2 as int);
                    assert(spec_flow_reaches(g0, v2 as int, v2 as int));
                }
                let ghost assigned_before = assigned@;
                let ghost comps_before = comps@;
                let mut members: Vec<usize> = Vec::new();
                let mut count: usize = 0;
                let mut u: usize = 0;
                while u < n
                    invariant
                        self.wf(),
                        self.vars@ == g0.vars@,
                        n == self.n(),
                        v2 < n,
                        self.vars@[v2 as int] is Some,
                        spec_flow_reaches(g0, v2 as int, v2 as int),
                        u <= n,
                        assigned@.len() == n,
                        assigned_before.len() == n,
                        reach_sets@.len() == n,
                        forall|t: int| 0 <= t < n ==> (#[trigger] reach_sets@[t])@.len() == n,
                        forall|t: int, u2: int|
                            0 <= t < n && 0 <= u2 < n ==> (#[trigger] reach_sets@[t]@[u2])
                                == spec_flow_reaches(g0, t, u2),
                        count <= u,
                        forall|t: int|
                            0 <= t < members@.len() ==> (#[trigger] members@[t]) < n,
                        forall|t: int|
                            0 <= t < members@.len() ==> self.vars@[(#[trigger] members@[t]) as int]
                                is Some && spec_flow_reaches(
                                g0,
                                v2 as int,
                                members@[t] as int,
                            ) && spec_flow_reaches(g0, members@[t] as int, v2 as int),
                        forall|t: int|
                            0 <= t < members@.len() ==> assigned@[(#[trigger] members@[t]) as int],
                        forall|x: int|
                            0 <= x < n ==> #[trigger] assigned@[x] == (assigned_before[x]
                                || members@.contains(x as usize)),
                        forall|t1: int, t2: int|
                            0 <= t1 < t2 < members@.len() ==> (#[trigger] members@[t1]) != (
                            #[trigger] members@[t2]),
                        forall|t: int|
                            0 <= t < members@.len() ==> !assigned_before[(
                            #[trigger] members@[t]) as int],
                        forall|u2: int|
                            0 <= u2 < u && spec_flow_reaches(g0, v2 as int, u2)
                                && spec_flow_reaches(g0, u2, v2 as int) && (
                            #[trigger] self.vars@[u2]) is Some && !assigned_before[u2]
                                ==> members@.contains(u2 as usize),
                    decreases n - u,
                {
                    let ghost members_iter_start = members@;
                    if reach_sets[v2][u] {
                        count = count + 1;
                        let mutual = reach_sets[u][v2];
                        if mutual && self.vars[u].is_some() && !assigned[u] {
                            let ghost members_before = members@;
                            members.push(u);
                            assigned.set(u, true);
                            proof {
                                assert forall|x: int|
                                    0 <= x < n implies #[trigger] assigned@[x] == (
                                assigned_before[x] || members@.contains(x as usize)) by {
                                    if members@.contains(x as usize) {
                                        let t = choose|t: int|
                                            0 <= t < members@.len() && #[trigger] members@[t]
                                                == x as usize;
                                        if t < members@.len() - 1 {
                                            assert(members_before[t] == x as usize);
                                            assert(members_before.contains(x as usize));
                                        }
                                    }
                                    if x != u as int && members_before.contains(x as usize) {
                                        let t = choose|t: int|
                                            0 <= t < members_before.len()
                                                && #[trigger] members_before[t] == x as usize;
                                        assert(members@[t] == x as usize);
                                        assert(members@.contains(x as usize));
                                    }
                                    if x == u as int {
                                        assert(members@.last() == u);
                                        assert(members@.contains(u));
                                    }
                                }
                            }
                        }
                    }
                    proof {
                        assert(members@ == members_iter_start || members@
                            == members_iter_start.push(u));
                        assert forall|u2: int|
                            0 <= u2 < u + 1 && spec_flow_reaches(g0, v2 as int, u2)
                                && spec_flow_reaches(g0, u2, v2 as int) && (
                            #[trigger] self.vars@[u2]) is Some && !assigned_before[u2]
                                implies members@.contains(u2 as usize) by {
                            if u2 < u {
                                assert(members_iter_start.contains(u2 as usize));
                                let t = choose|t: int|
                                    0 <= t < members_iter_start.len()
                                        && #[trigger] members_iter_start[t] == u2 as usize;
                                assert(members@[t] == u2 as usize);
                                assert(members@.contains(u2 as usize));
                            } else {
                                assert(assigned@[u as int] == (assigned_before[u as int]
                                    || members@.contains(u as usize)));
                            }
                        }
                    }
                    u = u + 1;
                }
                if members.len() == 1 {
                    self.num_alone_sccs = self.num_alone_sccs + 1;
                }
                self.num_sccs = self.num_sccs + 1;
                reps.push(v2);
                let ghost members_v = members@;
                comps.push(members);
                counts.push(count);
                proof {
                    assert(comps@.last()@ == members_v);
                    assert forall|c: int, t: int|
                        0 <= c < comps@.len() && 0 <= t < comps@[c]@.len() implies assigned@[(
                    #[trigger] comps@[c]@[t]) as int] by {
                        if c < comps@.len() - 1 {
                            assert(comps@[c] == comps_before[c]);
                            assert(assigned_before[comps@[c]@[t] as int]);
                            assert(assigned@[comps@[c]@[t] as int] == (assigned_before[comps@[c]@[t]
                                as int] || members_v.contains(comps@[c]@[t])));
                        } else {
                            assert(members_v.contains(members_v[t]));
                        }
                    }
                    assert forall|c1: int, c2: int, t1: int, t2: int|
                        0 <= c1 < c2 < comps@.len() && 0 <= t1 < comps@[c1]@.len() && 0 <= t2
                            < comps@[c2]@.len() implies (#[trigger] comps@[c1]@[t1]) != (
                    #[trigger] comps@[c2]@[t2]) by {
                        if c2 == comps@.len() - 1 {
                            assert(comps@[c1] == comps_before[c1]);
                            assert(assigned_before[comps@[c1]@[t1] as int]);
                            assert(!assigned_before[members_v[t2] as int]);
                        } else {
                            assert(comps@[c1] == comps_before[c1]);
                            assert(comps@[c2] == comps_before[c2]);
                        }
                    }
                    assert forall|x: int|
                        0 <= x < n && #[trigger] assigned@[x] implies exists|c: int|
                        0 <= c < comps@.len() && (#[trigger] comps@[c])@.contains(x as usize) by {
                        if assigned_before[x] {
                            let c = choose|c: int|
                                0 <= c < comps_before.len() && (#[trigger] comps_before[c])@.contains(
                                    x as usize,
                                );
                            assert(comps@[c] == comps_before[c]);
                            assert(comps@[c]@.contains(x as usize));
                        } else {
                            assert(members_v.contains(x as usize));
                            assert(comps@[comps@.len() - 1]@.contains(x as usize));
                        }
                    }
                    assert(members_v.contains(v2));
                    assert(assigned@[v2 as int]);
                    assert forall|c: int, t: int, b: int|
                        #![trigger comps@[c]@[t], self.vars@[b]]
                        0 <= c < comps@.len() && 0 <= t < comps@[c]@.len() && 0 <= b < n
                            && self.vars@[b] is Some && spec_flow_reaches(
                        g0,
                        comps@[c]@[t] as int,
                        b,
                    ) && spec_flow_reaches(g0, b, comps@[c]@[t] as int) implies comps@[c]@.contains(
                        b as usize,
                    ) by {
                        if c == comps@.len() - 1 {
                            let m_t = members_v[t] as int;
                            assert(spec_flow_reaches(g0, v2 as int, m_t));
                            assert(spec_flow_reaches(g0, m_t, v2 as int));
                            lemma_flow_reach_trans(g0, v2 as int, m_t, b);
                            lemma_flow_reach_trans(g0, b, m_t, v2 as int);
                            if assigned_before[b] {
                                let c2 = choose|c2: int|
                                    0 <= c2 < comps_before.len() && (
                                    #[trigger] comps_before[c2])@.contains(b as usize);
                                let t2 = choose|t2: int|
                                    0 <= t2 < comps_before[c2]@.len()
                                        && #[trigger] comps_before[c2]@[t2] == b as usize;
                                assert(spec_flow_reaches(g0, comps_before[c2]@[t2] as int, v2 as int));
                                assert(spec_flow_reaches(g0, v2 as int, comps_before[c2]@[t2] as int));
                                assert(comps_before[c2]@.contains(v2));
                                assert(assigned_before[v2 as int]);
                                assert(false);
                            }
                            assert(members_v.contains(b as usize));
                        } else {
                            assert(comps@[c] == comps_before[c]);
                        }
                    }
                }
            }
            v2 = v2 + 1;
        }
        // Selection sort by descending reach count: a component that can
        // affect strictly more of the graph precedes what it affects.
        let m = comps.len();
        let mut taken: Vec<bool> = Vec::new();
        let mut i2: usize = 0;
        while i2 < m
            invariant
                i2 <= m,
                taken@.len() == i2,
                forall|t: int| 0 <= t < i2 ==> !(#[trigger] taken@[t]),
            decreases m - i2,
        {
            taken.push(false);
            i2 = i2 + 1;
        }
        let ghost mut picks: Seq<int> = Seq::empty();
        let mut out: usize = 0;
        while out < m
            invariant
                self.wf(),
                self.n() == old(self).n(),
                self.oprs@ == old(self).oprs@,
                self.vars@ == g0.vars@,
                self.usemap@ == g0.usemap@,
                self.symbmap@ == g0.symbmap@,
                n == self.n(),
                out <= m,
                taken@.len() == m,
                reps@.len() == m,
                counts@.len() == m,
                comps@.len() == m,
                forall|c: int, t: int|
                    0 <= c < comps@.len() && 0 <= t < comps@[c]@.len() ==> (
                    #[trigger] comps@[c]@[t]) < self.n(),
                forall|c: int| 0 <= c < reps@.len() ==> (#[trigger] reps@[c]) < n,
                forall|c: int, t: int|
                    0 <= c < comps@.len() && 0 <= t < comps@[c]@.len() ==> self.vars@[(
                    #[trigger] comps@[c]@[t]) as int] is Some && spec_flow_reaches(
                        g0,
                        reps@[c] as int,
                        comps@[c]@[t] as int,
                    ) && spec_flow_reaches(g0, comps@[c]@[t] as int, reps@[c] as int),
                self.worklist@.len() == self.components@.len(),
                self.components@.len() == out,
                forall|c: int| 0 <= c < self.worklist@.len() ==> (#[trigger] self.worklist@[c]) < n,
                forall|c: int, t: int|
                    0 <= c < self.components@.len() && 0 <= t < self.components@[c]@.len() ==> (
                    #[trigger] self.components@[c]@[t]) < self.n(),
                forall|c: int, t: int|
                    0 <= c < self.components@.len() && 0 <= t < self.components@[c]@.len()
                        ==> self.vars@[(#[trigger] self.components@[c]@[t]) as int] is Some
                        && spec_flow_reaches(
                        g0,
                        self.worklist@[c] as int,
                        self.components@[c]@[t] as int,
                    ) && spec_flow_reaches(
                        g0,
                        self.components@[c]@[t] as int,
                        self.worklist@[c] as int,
                    ),
                forall|c1: int, c2: int, t1: int, t2: int|
                    0 <= c1 < c2 < comps@.len() && 0 <= t1 < comps@[c1]@.len() && 0 <= t2
                        < comps@[c2]@.len() ==> (#[trigger] comps@[c1]@[t1]) != (
                    #[trigger] comps@[c2]@[t2]),
                assigned@.len() == n,
                forall|x: int|
                    0 <= x < n && #[trigger] assigned@[x] ==> exists|c: int|
                        0 <= c < comps@.len() && (#[trigger] comps@[c])@.contains(x as usize),
                forall|x: int| 0 <= x < n && (#[trigger] self.vars@[x]) is Some ==> assigned@[x],
                forall|c: int, t: int, b: int|
                    #![trigger comps@[c]@[t], self.vars@[b]]
                    0 <= c < comps@.len() && 0 <= t < comps@[c]@.len() && 0 <= b < n
                        && self.vars@[b] is Some && spec_flow_reaches(
                        g0,
                        comps@[c]@[t] as int,
                        b,
                    ) && spec_flow_reaches(g0, b, comps@[c]@[t] as int) ==> comps@[c]@.contains(
                        b as usize,
                    ),
                forall|j: int| 0 <= j < m ==> (#[trigger] taken@[j] <==> picks.contains(j)),
                forall|c: int, t: int, b: int|
                    #![trigger self.components@[c]@[t], self.vars@[b]]
                    0 <= c < self.components@.len() && 0 <= t < self.components@[c]@.len() && 0 <= b
                        < n && self.vars@[b] is Some && spec_flow_reaches(
                        g0,
                        self.components@[c]@[t] as int,
                        b,
                    ) && spec_flow_reaches(g0, b, self.components@[c]@[t] as int)
                        ==> self.components@[c]@.contains(b as usize),
                picks.len() == out,
                forall|c: int|
                    0 <= c < out ==> 0 <= #[trigger] picks[c] < m && taken@[picks[c]]
                        && self.components@[c]@ == comps@[picks[c]]@,
                forall|c1: int, c2: int| 0 <= c1 < c2 < out ==> picks[c1] != picks[c2],
                forall|c1: int, c2: int, t1: int, t2: int|
                    0 <= c1 < c2 < self.components@.len() && 0 <= t1 < self.components@[c1]@.len()
                        && 0 <= t2 < self.components@[c2]@.len() ==> (
                    #[trigger] self.components@[c1]@[t1]) != (#[trigger] self.components@[c2]@[t2]),
            decreases m - out,
        {
            let mut best: usize = m;
            let mut best_count: usize = 0;
            let mut j: usize = 0;
            while j < m
                invariant
                    j <= m,
                    taken@.len() == m,
                    counts@.len() == m,
                    best == m || (best < m && !taken@[best as int]),
                    best == m ==> forall|j2: int| 0 <= j2 < j ==> taken@[j2],
                decreases m - j,
            {
                if !taken[j] {
                    if best == m || counts[j] > best_count {
                        best = j;
                        best_count = counts[j];
                    }
                }
                j = j + 1;
            }
            if best == m {
                proof {
                    broadcast use vstd::seq_lib::seq_to_set_is_finite;

                    assert(picks.no_duplicates());
                    picks.unique_seq_to_set();
                    vstd::set_lib::lemma_int_range(0, m as int);
                    let rng = vstd::set_lib::set_int_range(0, m as int);
                    assert(rng.subset_of(picks.to_set())) by {
                        assert forall|e: int| rng.contains(e) implies picks.to_set().contains(
                            e,
                        ) by {
                            assert(taken@[e]);
                        }
                    }
                    vstd::set_lib::lemma_len_subset(rng, picks.to_set());
                    assert(false);
                }
            }
            let ghost taken_before = taken@;
            taken.set(best, true);
            self.worklist.push(reps[best]);
            let mut copy: Vec<usize> = Vec::new();
            let src = &comps[best];
            let mut t: usize = 0;
            while t < src.len()
                invariant
                    t <= src@.len(),
                    src@ == comps@[best as int]@,
                    best < m,
                    comps@.len() == m,
                    copy@ == src@.subrange(0, t as int),
                decreases src.len() - t,
            {
                copy.push(src[t]);
                proof {
                    assert(src@.subrange(0, t + 1) =~= src@.subrange(0, t as int).push(
                        src@[t as int],
                    ));
                }
                t = t + 1;
            }
            proof {
                assert(copy@ =~= src@);
            }
            let ghost comps_out_before = self.components@;
            self.components.push(copy);
            proof {
                let picks_old = picks;
                picks = picks.push(best as int);
                assert(picks.drop_last() =~= picks_old);
                assert(self.components@.last()@ == comps@[best as int]@);
                assert forall|c: int|
                    0 <= c < out + 1 implies 0 <= #[trigger] picks[c] < m && taken@[picks[c]]
                    && self.components@[c]@ == comps@[picks[c]]@ by {
                    if c < out {
                        assert(self.components@[c] == comps_out_before[c]);
                        assert(taken_before[picks[c]]);
                    }
                }
                assert forall|c1: int, c2: int| 0 <= c1 < c2 < out + 1 implies picks[c1]
                    != picks[c2] by {
                    if c2 == out {
                        assert(taken_before[picks[c1]]);
                        assert(!taken_before[best as int]);
                    }
                }
                assert forall|c1: int, c2: int, t1: int, t2: int|
                    0 <= c1 < c2 < self.components@.len() && 0 <= t1 < self.components@[c1]@.len()
                        && 0 <= t2 < self.components@[c2]@.len() implies (
                #[trigger] self.components@[c1]@[t1]) != (#[trigger] self.components@[c2]@[t2]) by {
                    if c2 == self.components@.len() - 1 {
                        assert(self.components@[c1] == comps_out_before[c1]);
                        assert(self.components@[c1]@ == comps@[picks[c1]]@);
                        assert(self.components@[c2]@ == comps@[best as int]@);
                        assert(picks[c1] != best as int);
                        if picks[c1] < best as int {
                            assert(comps@[picks[c1]]@[t1] != comps@[best as int]@[t2]);
                        } else {
                            assert(comps@[best as int]@[t2] != comps@[picks[c1]]@[t1]);
                        }
                    } else {
                        assert(self.components@[c1] == comps_out_before[c1]);
                        assert(self.components@[c2] == comps_out_before[c2]);
                    }
                }
                assert forall|j: int| 0 <= j < m implies (#[trigger] taken@[j] <==> picks.contains(
                    j,
                )) by {
                    if j == best as int {
                        assert(picks.last() == best as int);
                        assert(picks.contains(j));
                    } else {
                        assert(taken@[j] == taken_before[j]);
                        if picks.contains(j) {
                            let c = choose|c: int| 0 <= c < picks.len() && #[trigger] picks[c] == j;
                            if c < picks.len() - 1 {
                                assert(picks.drop_last()[c] == j);
                                assert(picks.drop_last().contains(j));
                            }
                        }
                        if picks.drop_last().contains(j) {
                            let c = choose|c: int|
                                0 <= c < picks.drop_last().len() && #[trigger] picks.drop_last()[c]
                                    == j;
                            assert(picks[c] == j);
                            assert(picks.contains(j));
                        }
                    }
                }
                assert forall|c: int, t: int, b: int|
                    #![trigger self.components@[c]@[t], self.vars@[b]]
                    0 <= c < self.components@.len() && 0 <= t < self.components@[c]@.len() && 0 <= b
                        < n && self.vars@[b] is Some && spec_flow_reaches(
                    g0,
                    self.components@[c]@[t] as int,
                    b,
                ) && spec_flow_reaches(g0, b, self.components@[c]@[t] as int)
                    implies self.components@[c]@.contains(b as usize) by {
                    if c == self.components@.len() - 1 {
                        assert(self.components@[c]@ == comps@[best as int]@);
                        assert(comps@[best as int]@.contains(b as usize));
                    } else {
                        assert(self.components@[c] == comps_out_before[c]);
                    }
                }
            }
            out = out + 1;
        }
        proof {
            broadcast use vstd::seq_lib::seq_to_set_is_finite;
            broadcast use vstd::set::group_set_axioms;

            assert(out == m);
            // The selection is onto: every component found was placed.
            assert forall|j0: int| 0 <= j0 < m implies picks.contains(j0) by {
                if !picks.contains(j0) {
                    assert(picks.no_duplicates());
                    picks.unique_seq_to_set();
                    vstd::set_lib::lemma_int_range(0, m as int);
                    let rng = vstd::set_lib::set_int_range(0, m as int);
                    let rm = rng.remove(j0);
                    assert(picks.to_set().subset_of(rm)) by {
                        assert forall|e: int| picks.to_set().contains(e) implies rm.contains(
                            e,
                        ) by {
                            assert(picks.contains(e));
                            let c = choose|c: int|
                                0 <= c < picks.len() && #[trigger] picks[c] == e;
                        }
                    }
                    assert(rng.contains(j0));
                    assert(rm.len() == rng.len() - 1);
                    vstd::set_lib::lemma_len_subset(picks.to_set(), rm);
                    assert(false);
                }
            }
            assert forall|v: int| 0 <= v < n && (#[trigger] self.vars@[v]) is Some implies exists|
                c: int,
            |
                0 <= c < self.components@.len() && (#[trigger] self.components@[c])@.contains(
                    v as usize,
                ) by {
                assert(assigned@[v]);
                let cj = choose|cj: int|
                    0 <= cj < comps@.len() && (#[trigger] comps@[cj])@.contains(v as usize);
                assert(picks.contains(cj));
                let c = choose|c: int| 0 <= c < picks.len() && #[trigger] picks[c] == cj;
                assert(self.components@[c]@ == comps@[cj]@);
                assert(self.components@[c]@.contains(v as usize));
            }
        }
        proof {
            assert forall|a: int, b: int|
                spec_flow_reaches(g0, a, b) == spec_flow_reaches(*self, a, b) by {
                lemma_flow_reaches_core(g0, *self, a, b);
            }
        }
    }

    /// Per-local operations that read it and whose sink also lies in the
    /// component (mask over locals).
    fn build_use_map(&self, mask: &Vec<bool>) -> (r: Vec<Vec<usize>>)
        requires
            self.wf(),
            mask@.len() == self.n(),
        ensures
            r@.len() == self.n(),
            forall|v: int, k: int|
                0 <= v < r@.len() && 0 <= k < r@[v]@.len() ==> (#[trigger] r@[v]@[k])
                    < self.oprs@.len(),
    {
        let n = self.vars.len();
        let mut r: Vec<Vec<usize>> = Vec::new();
        let mut v: usize = 0;
        while v < n
            invariant
                self.wf(),
                n == self.n(),
                mask@.len() == n,
                v <= n,
                r@.len() == v,
                forall|v2: int, k: int|
                    0 <= v2 < r@.len() && 0 <= k < r@[v2]@.len() ==> (#[trigger] r@[v2]@[k])
                        < self.oprs@.len(),
            decreases n - v,
        {
            let mut lst: Vec<usize> = Vec::new();
            if mask[v] {
                let uses_len = self.use_count(v);
                let mut k: usize = 0;
                while k < uses_len
                    invariant
                        self.wf(),
                        n == self.n(),
                        mask@.len() == n,
                        v < n,
                        uses_len == self.usemap@[v as int]@.len(),
                        k <= uses_len,
                        forall|t: int|
                            0 <= t < lst@.len() ==> (#[trigger] lst@[t]) < self.oprs@.len(),
                    decreases uses_len - k,
                {
                    let op_idx = self.use_at(v, k);
                    let sink = self.oprs[op_idx].get_sink();
                    proof {
                        assert(self.oprs@[op_idx as int].bounded(self.n()));
                    }
                    if mask[sink] {
                        lst.push(op_idx);
                    }
                    k = k + 1;
                }
            }
            r.push(lst);
            v = v + 1;
        }
        r
    }

    /// Replace the symbolic constraint of every bound-intersection whose
    /// bound lies in the component by the concrete interval the bound's
    /// resolved range implies.
    fn fix_intersects(&mut self, members: &Vec<usize>)
        requires
            old(self).wf(),
            forall|t: int| 0 <= t < members@.len() ==> (#[trigger] members@[t]) < old(self).n(),
        ensures
            final(self).wf(),
            final(self).n() == old(self).n(),
            final(self).oprs@.len() == old(self).oprs@.len(),
            final(self).usemap@ == old(self).usemap@,
            final(self).symbmap@ == old(self).symbmap@,
            final(self).vars@ == old(self).vars@,
            final(self).defmap@ == old(self).defmap@,
            final(self).components@ == old(self).components@,
            final(self).worklist@ == old(self).worklist@,
            // An operation either stays or has its symbolic constraint
            // replaced by the concrete interval of its resolved bound.
            forall|t: int|
                0 <= t < final(self).oprs@.len() ==> #[trigger] final(self).oprs@[t] == old(
                    self,
                ).oprs@[t] || spec_symb_resolved(*old(self), old(self).oprs@[t], final(self).oprs@[t]),
    {
        let mut i: usize = 0;
        while i < members.len()
            invariant
                self.wf(),
                self.n() == old(self).n(),
                self.oprs@.len() == old(self).oprs@.len(),
                self.usemap@ == old(self).usemap@,
                self.symbmap@ == old(self).symbmap@,
                self.vars@ == old(self).vars@,
                self.defmap@ == old(self).defmap@,
                self.components@ == old(self).components@,
                self.worklist@ == old(self).worklist@,
                forall|t: int|
                    0 <= t < self.oprs@.len() ==> #[trigger] self.oprs@[t] == old(self).oprs@[t]
                        || spec_symb_resolved(*old(self), old(self).oprs@[t], self.oprs@[t]),
                forall|t: int| 0 <= t < members@.len() ==> (#[trigger] members@[t]) < self.n(),
                i <= members@.len(),
            decreases members.len() - i,
        {
            let place = members[i];
            let bound_range = self.range_of(place);
            let symb_len = self.symb_count(place);
            let mut k: usize = 0;
            while k < symb_len
                invariant
                    self.wf(),
                    self.n() == old(self).n(),
                    self.oprs@.len() == old(self).oprs@.len(),
                    self.usemap@ == old(self).usemap@,
                    self.symbmap@ == old(self).symbmap@,
                    self.vars@ == old(self).vars@,
                    self.defmap@ == old(self).defmap@,
                    self.components@ == old(self).components@,
                    self.worklist@ == old(self).worklist@,
                    forall|t: int|
                        0 <= t < self.oprs@.len() ==> #[trigger] self.oprs@[t] == old(
                            self,
                        ).oprs@[t] || spec_symb_resolved(
                            *old(self),
                            old(self).oprs@[t],
                            self.oprs@[t],
                        ),
                    place < self.n(),
                    bound_range == spec_range_of(*old(self), place as int),
                    symb_len == self.symbmap@[place as int]@.len(),
                    k <= symb_len,
                decreases symb_len - k,
            {
                let op_idx = self.symb_at(place, k);
                proof {
                    assert(self.oprs@[op_idx as int].bounded(self.n()));
                }
                let replacement: Option<BasicOp> = match &self.oprs[op_idx] {
                    BasicOp::Essa {
                        sink,
                        source,
                        intersect: IntervalConstraint::Symb { bound, op },
                        unresolved,
                    } => {
                        if *bound == place && !bound_range.is_unknown() {
                            let concrete = Self::symb_to_range(*op, bound_range);
                            Option::Some(
                                BasicOp::Essa {
                                    sink: *sink,
                                    source: *source,
                                    intersect: IntervalConstraint::Basic(concrete),
                                    unresolved: false,
                                },
                            )
                        } else {
                            Option::None
                        }
                    },
                    _ => Option::None,
                };
                match replacement {
                    Option::Some(newop) => {
                        proof {
                            assert(newop.bounded(self.n()));
                        }
                        let ghost before_ops = self.oprs@;
                        self.set_op(op_idx, newop);
                        proof {
                            assert forall|t: int|
                                0 <= t < self.oprs@.len() implies #[trigger] self.oprs@[t] == old(
                                self,
                            ).oprs@[t] || spec_symb_resolved(
                                *old(self),
                                old(self).oprs@[t],
                                self.oprs@[t],
                            ) by {
                                if t == op_idx as int {
                                    assert(before_ops[t] == old(self).oprs@[t]);
                                    assert(spec_symb_resolved(
                                        *old(self),
                                        old(self).oprs@[t],
                                        newop,
                                    ));
                                } else {
                                    assert(self.oprs@[t] == before_ops[t]);
                                }
                            }
                        }
                    },
                    Option::None => {},
                }
                k = k + 1;
            }
            i = i + 1;
        }
    }

    /// Overwrite one operation (used to resolve symbolic constraints).
    fn set_op(&mut self, op_idx: usize, op: BasicOp)
        requires
            old(self).wf(),
            op_idx < old(self).oprs@.len(),
            op.bounded(old(self).n()),
        ensures
            final(self).wf(),
            final(self).n() == old(self).n(),
            final(self).oprs@ == old(self).oprs@.update(op_idx as int, op),
            final(self).oprs@.len() == old(self).oprs@.len(),
            final(self).usemap@ == old(self).usemap@,
            final(self).symbmap@ == old(self).symbmap@,
            final(self).defmap@ == old(self).defmap@,
            final(self).vars@ == old(self).vars@,
            final(self).components@ == old(self).components@,
            final(self).worklist@ == old(self).worklist@,
    {
        self.oprs.set(op_idx, op);
        proof {
            assert forall|t: int| 0 <= t < self.oprs@.len() implies (#[trigger] self.oprs@[t]).bounded(
                self.n(),
            ) by {
                if t != op_idx as int {
                    assert(self.oprs@[t] == old(self).oprs@[t]);
                }
            }
        }
    }

    /// Resolve unresolved bound-intersections of the component and
    /// collect its members with known ranges as fixpoint entry points.
    fn generate_entry_points(&mut self, members: &Vec<usize>) -> (entries: Vec<usize>)
        requires
            old(self).wf(),
            forall|t: int| 0 <= t < members@.len() ==> (#[trigger] members@[t]) < old(self).n(),
        ensures
            final(self).wf(),
            final(self).n() == old(self).n(),
            final(self).oprs@.len() == old(self).oprs@.len(),
            final(self).usemap@ == old(self).usemap@,
            final(self).symbmap@ == old(self).symbmap@,
            final(self).components@ == old(self).components@,
            final(self).worklist@ == old(self).worklist@,
            forall|t: int| 0 <= t < entries@.len() ==> (#[trigger] entries@[t]) < final(self).n(),
            // Every entry point is one of the component's members.
            forall|t: int| 0 <= t < entries@.len() ==> members@.contains(#[trigger] entries@[t]),
            // The only operation change is clearing an unresolved flag.
            forall|j: int|
                0 <= j < final(self).oprs@.len() ==> #[trigger] final(self).oprs@[j] == old(
                    self,
                ).oprs@[j] || spec_essa_flagged_resolved(old(self).oprs@[j], final(self).oprs@[j]),
    {
        let mut entries: Vec<usize> = Vec::new();
        let mut i: usize = 0;
        while i < members.len()
            invariant
                self.wf(),
                self.n() == old(self).n(),
                self.oprs@.len() == old(self).oprs@.len(),
                self.usemap@ == old(self).usemap@,
                self.symbmap@ == old(self).symbmap@,
                self.components@ == old(self).components@,
                self.worklist@ == old(self).worklist@,
                forall|t: int| 0 <= t < members@.len() ==> (#[trigger] members@[t]) < self.n(),
                forall|t: int| 0 <= t < entries@.len() ==> (#[trigger] entries@[t]) < self.n(),
                forall|t: int| 0 <= t < entries@.len() ==> members@.contains(
                    #[trigger] entries@[t],
                ),
                forall|j: int|
                    0 <= j < self.oprs@.len() ==> #[trigger] self.oprs@[j] == old(self).oprs@[j]
                        || spec_essa_flagged_resolved(old(self).oprs@[j], self.oprs@[j]),
                i <= members@.len(),
            decreases members.len() - i,
        {
            let place = members[i];
            match self.defmap[place] {
                Option::Some(op_idx) => {
                    let resolve: Option<(usize, BasicOp)> = match &self.oprs[op_idx] {
                        BasicOp::Essa { sink, source, intersect, unresolved } => {
                            if *unresolved {
                                Option::Some(
                                    (
                                        *source,
                                        BasicOp::Essa {
                                            sink: *sink,
                                            source: *source,
                                            intersect: *intersect,
                                            unresolved: false,
                                        },
                                    ),
                                )
                            } else {
                                Option::None
                            }
                        },
                        _ => Option::None,
                    };
                    match resolve {
                        Option::Some((source, newop)) => {
                            proof {
                                assert(self.oprs@[op_idx as int].bounded(self.n()));
                                assert(newop.bounded(self.n()));
                            }
                            let refreshed = self.eval_op(op_idx);
                            self.set_var_range(source, refreshed);
                            self.set_op(op_idx, newop);
                        },
                        Option::None => {},
                    }
                },
                Option::None => {},
            }
            let r = self.range_of(place);
            if !r.is_unknown() {
                proof {
                    assert(members@[i as int] == place);
                    assert(members@.contains(place));
                }
                entries.push(place);
            }
            i = i + 1;
        }
        entries
    }

    /// Widening worklist over the component, bounded by the iteration
    /// cap: a triggered cap yields a sound but coarser result.
    fn pre_update(&mut self, comp_use_map: &Vec<Vec<usize>>, entries: &Vec<usize>)
        requires
            old(self).wf(),
            comp_use_map@.len() == old(self).n(),
            forall|v: int, k: int|
                0 <= v < comp_use_map@.len() && 0 <= k < comp_use_map@[v]@.len() ==> (
                #[trigger] comp_use_map@[v]@[k]) < old(self).oprs@.len(),
            forall|t: int| 0 <= t < entries@.len() ==> (#[trigger] entries@[t]) < old(self).n(),
        ensures
            final(self).wf(),
            final(self).n() == old(self).n(),
            final(self).oprs@ == old(self).oprs@,
            final(self).usemap@ == old(self).usemap@,
            final(self).symbmap@ == old(self).symbmap@,
            final(self).components@ == old(self).components@,
            final(self).worklist@ == old(self).worklist@,
            // A variable changes only as the sink of one of the
            // component's operations.
            forall|v: int|
                0 <= v < final(self).n() && #[trigger] final(self).vars@[v] != old(self).vars@[v]
                    ==> exists|w: int, k: int|
                        0 <= w < comp_use_map@.len() && 0 <= k < comp_use_map@[w]@.len() && old(
                            self,
                        ).oprs@[(#[trigger] comp_use_map@[w]@[k]) as int].spec_sink() == v,
    {
        let mut worklist: Vec<usize> = Vec::new();
        let mut i: usize = 0;
        while i < entries.len()
            invariant
                i <= entries@.len(),
                forall|t: int| 0 <= t < worklist@.len() ==> (#[trigger] worklist@[t]) < old(
                    self,
                ).n(),
                forall|t: int| 0 <= t < entries@.len() ==> (#[trigger] entries@[t]) < old(self).n(),
            decreases entries.len() - i,
        {
            worklist.push(entries[i]);
            i = i + 1;
        }
        let mut iterations: usize = 0;
        while worklist.len() > 0 && iterations < WIDEN_ITERATION_CAP
            invariant
                self.wf(),
                self.n() == old(self).n(),
                self.oprs@ == old(self).oprs@,
                self.usemap@ == old(self).usemap@,
                self.symbmap@ == old(self).symbmap@,
                self.components@ == old(self).components@,
                self.worklist@ == old(self).worklist@,
                comp_use_map@.len() == self.n(),
                forall|v: int, k: int|
                    0 <= v < comp_use_map@.len() && 0 <= k < comp_use_map@[v]@.len() ==> (
                    #[trigger] comp_use_map@[v]@[k]) < self.oprs@.len(),
                forall|t: int| 0 <= t < worklist@.len() ==> (#[trigger] worklist@[t]) < self.n(),
                forall|v: int|
                    0 <= v < self.n() && #[trigger] self.vars@[v] != old(self).vars@[v]
                        ==> exists|w: int, k2: int|
                            0 <= w < comp_use_map@.len() && 0 <= k2 < comp_use_map@[w]@.len()
                                && old(self).oprs@[(
                            #[trigger] comp_use_map@[w]@[k2]) as int].spec_sink() == v,
                iterations <= WIDEN_ITERATION_CAP,
            decreases WIDEN_ITERATION_CAP - iterations,
        {
            iterations = iterations + 1;
            let place = worklist[worklist.len() - 1];
            worklist.pop();
            let ops = &comp_use_map[place];
            let mut k: usize = 0;
            while k < ops.len()
                invariant
                    self.wf(),
                    self.n() == old(self).n(),
                    self.oprs@ == old(self).oprs@,
                    self.usemap@ == old(self).usemap@,
                    self.symbmap@ == old(self).symbmap@,
                    self.components@ == old(self).components@,
                    self.worklist@ == old(self).worklist@,
                    place < self.n(),
                    ops@ == comp_use_map@[place as int]@,
                    forall|v: int, k2: int|
                        0 <= v < comp_use_map@.len() && 0 <= k2 < comp_use_map@[v]@.len() ==> (
                        #[trigger] comp_use_map@[v]@[k2]) < self.oprs@.len(),
                    comp_use_map@.len() == self.n(),
                    k <= ops@.len(),
                    forall|t: int| 0 <= t < worklist@.len() ==> (#[trigger] worklist@[t])
                        < self.n(),
                    forall|v: int|
                    0 <= v < self.n() && #[trigger] self.vars@[v] != old(self).vars@[v]
                        ==> exists|w: int, k2: int|
                            0 <= w < comp_use_map@.len() && 0 <= k2 < comp_use_map@[w]@.len()
                                && old(self).oprs@[(
                            #[trigger] comp_use_map@[w]@[k2]) as int].spec_sink() == v,
                decreases ops.len() - k,
            {
                let op_idx = ops[k];
                let ghost before = *self;
                let changed = self.widen(op_idx);
                proof {
                    assert forall|v: int|
                        0 <= v < self.n() && #[trigger] self.vars@[v] != old(self).vars@[v]
                            implies exists|w: int, k2: int|
                            0 <= w < comp_use_map@.len() && 0 <= k2 < comp_use_map@[w]@.len()
                                && old(self).oprs@[(
                            #[trigger] comp_use_map@[w]@[k2]) as int].spec_sink() == v by {
                        if before.vars@[v] != old(self).vars@[v] {
                        } else {
                            assert(self.vars@[v] != before.vars@[v]);
                            assert(v == before.oprs@[op_idx as int].spec_sink() as int);
                            assert(comp_use_map@[place as int]@[k as int] == op_idx);
                            assert(0 <= place < comp_use_map@.len() && 0 <= (k as int)
                                < comp_use_map@[place as int]@.len() && old(self).oprs@[(
                            comp_use_map@[place as int]@[k as int]) as int].spec_sink() == v);
                        }
                    }
                }
                if changed {
                    let sink = self.oprs[op_idx].get_sink();
                    proof {
                        assert(self.oprs@[op_idx as int].bounded(self.n()));
                    }
                    worklist.push(sink);
                }
                k = k + 1;
            }
        }
    }

    /// Narrowing worklist over the component, bounded by its iteration
    /// cap.
    fn pos_update(&mut self, comp_use_map: &Vec<Vec<usize>>, entries: &Vec<usize>)
        requires
            old(self).wf(),
            comp_use_map@.len() == old(self).n(),
            forall|v: int, k: int|
                0 <= v < comp_use_map@.len() && 0 <= k < comp_use_map@[v]@.len() ==> (
                #[trigger] comp_use_map@[v]@[k]) < old(self).oprs@.len(),
            forall|t: int| 0 <= t < entries@.len() ==> (#[trigger] entries@[t]) < old(self).n(),
        ensures
            final(self).wf(),
            final(self).n() == old(self).n(),
            final(self).oprs@ == old(self).oprs@,
            final(self).usemap@ == old(self).usemap@,
            final(self).symbmap@ == old(self).symbmap@,
            final(self).components@ == old(self).components@,
            final(self).worklist@ == old(self).worklist@,
            // A variable changes only as the sink of one of the
            // component's operations.
            forall|v: int|
                0 <= v < final(self).n() && #[trigger] final(self).vars@[v] != old(self).vars@[v]
                    ==> exists|w: int, k: int|
                        0 <= w < comp_use_map@.len() && 0 <= k < comp_use_map@[w]@.len() && old(
                            self,
                        ).oprs@[(#[trigger] comp_use_map@[w]@[k]) as int].spec_sink() == v,
    {
        let mut worklist: Vec<usize> = Vec::new();
        let mut i: usize = 0;
        while i < entries.len()
            invariant
                i <= entries@.len(),
                forall|t: int| 0 <= t < worklist@.len() ==> (#[trigger] worklist@[t]) < old(
                    self,
                ).n(),
                forall|t: int| 0 <= t < entries@.len() ==> (#[trigger] entries@[t]) < old(self).n(),
            decreases entries.len() - i,
        {
            worklist.push(entries[i]);
            i = i + 1;
        }
        let mut iterations: usize = 0;
        while worklist.len() > 0 && iterations < NARROW_ITERATION_CAP
            invariant
                self.wf(),
                self.n() == old(self).n(),
                self.oprs@ == old(self).oprs@,
                self.usemap@ == old(self).usemap@,
                self.symbmap@ == old(self).symbmap@,
                self.components@ == old(self).components@,
                self.worklist@ == old(self).worklist@,
                comp_use_map@.len() == self.n(),
                forall|v: int, k: int|
                    0 <= v < comp_use_map@.len() && 0 <= k < comp_use_map@[v]@.len() ==> (
                    #[trigger] comp_use_map@[v]@[k]) < self.oprs@.len(),
                forall|t: int| 0 <= t < worklist@.len() ==> (#[trigger] worklist@[t]) < self.n(),
                forall|v: int|
                    0 <= v < self.n() && #[trigger] self.vars@[v] != old(self).vars@[v]
                        ==> exists|w: int, k2: int|
                            0 <= w < comp_use_map@.len() && 0 <= k2 < comp_use_map@[w]@.len()
                                && old(self).oprs@[(
                            #[trigger] comp_use_map@[w]@[k2]) as int].spec_sink() == v,
                iterations <= NARROW_ITERATION_CAP,
            decreases NARROW_ITERATION_CAP - iterations,
        {
            iterations = iterations + 1;
            let place = worklist[worklist.len() - 1];
            worklist.pop();
            let ops = &comp_use_map[place];
            let mut k: usize = 0;
            while k < ops.len()
                invariant
                    self.wf(),
                    self.n() == old(self).n(),
                    self.oprs@ == old(self).oprs@,
                    self.usemap@ == old(self).usemap@,
                    self.symbmap@ == old(self).symbmap@,
                    self.components@ == old(self).components@,
                    self.worklist@ == old(self).worklist@,
                    place < self.n(),
                    ops@ == comp_use_map@[place as int]@,
                    forall|v: int, k2: int|
                        0 <= v < comp_use_map@.len() && 0 <= k2 < comp_use_map@[v]@.len() ==> (
                        #[trigger] comp_use_map@[v]@[k2]) < self.oprs@.len(),
                    comp_use_map@.len() == self.n(),
                    k <= ops@.len(),
                    forall|t: int| 0 <= t < worklist@.len() ==> (#[trigger] worklist@[t])
                        < self.n(),
                    forall|v: int|
                    0 <= v < self.n() && #[trigger] self.vars@[v] != old(self).vars@[v]
                        ==> exists|w: int, k2: int|
                            0 <= w < comp_use_map@.len() && 0 <= k2 < comp_use_map@[w]@.len()
                                && old(self).oprs@[(
                            #[trigger] comp_use_map@[w]@[k2]) as int].spec_sink() == v,
                decreases ops.len() - k,
            {
                let op_idx = ops[k];
                let ghost before = *self;
                let changed = self.narrow(op_idx);
                proof {
                    assert forall|v: int|
                        0 <= v < self.n() && #[trigger] self.vars@[v] != old(self).vars@[v]
                            implies exists|w: int, k2: int|
                            0 <= w < comp_use_map@.len() && 0 <= k2 < comp_use_map@[w]@.len()
                                && old(self).oprs@[(
                            #[trigger] comp_use_map@[w]@[k2]) as int].spec_sink() == v by {
                        if before.vars@[v] != old(self).vars@[v] {
                        } else {
                            assert(self.vars@[v] != before.vars@[v]);
                            assert(v == before.oprs@[op_idx as int].spec_sink() as int);
                            assert(comp_use_map@[place as int]@[k as int] == op_idx);
                            assert(0 <= place < comp_use_map@.len() && 0 <= (k as int)
                                < comp_use_map@[place as int]@.len() && old(self).oprs@[(
                            comp_use_map@[place as int]@[k as int]) as int].spec_sink() == v);
                        }
                    }
                }
                if changed {
                    let sink = self.oprs[op_idx].get_sink();
                    proof {
                        assert(self.oprs@[op_idx as int].bounded(self.n()));
                    }
                    worklist.push(sink);
                }
                k = k + 1;
            }
        }
    }

    /// Push the component's resolved ranges into every operation that
    /// reads one of its members but sinks outside it; a bound
    /// intersection whose constraint is still unknown is marked
    /// unresolved for a later retry.
    fn propagate_to_next_scc(&mut self, members: &Vec<usize>, mask: &Vec<bool>)
        requires
            old(self).wf(),
            mask@.len() == old(self).n(),
            forall|t: int| 0 <= t < members@.len() ==> (#[trigger] members@[t]) < old(self).n(),
        ensures
            final(self).wf(),
            final(self).n() == old(self).n(),
            final(self).oprs@.len() == old(self).oprs@.len(),
            final(self).usemap@ == old(self).usemap@,
            final(self).symbmap@ == old(self).symbmap@,
            final(self).components@ == old(self).components@,
            final(self).worklist@ == old(self).worklist@,
            // Only locals outside the component are written.
            forall|v: int|
                0 <= v < final(self).n() && mask@[v] ==> #[trigger] final(self).vars@[v] == old(
                    self,
                ).vars@[v],
    {
        let mut i: usize = 0;
        while i < members.len()
            invariant
                self.wf(),
                self.n() == old(self).n(),
                self.oprs@.len() == old(self).oprs@.len(),
                self.usemap@ == old(self).usemap@,
                self.symbmap@ == old(self).symbmap@,
                self.components@ == old(self).components@,
                self.worklist@ == old(self).worklist@,
                forall|v: int|
                    0 <= v < self.n() && mask@[v] ==> #[trigger] self.vars@[v] == old(
                        self,
                    ).vars@[v],
                mask@.len() == self.n(),
                forall|t: int| 0 <= t < members@.len() ==> (#[trigger] members@[t]) < self.n(),
                i <= members@.len(),
            decreases members.len() - i,
        {
            let place = members[i];
            let uses_len = self.use_count(place);
            let mut k: usize = 0;
            while k < uses_len
                invariant
                    self.wf(),
                    self.n() == old(self).n(),
                    self.oprs@.len() == old(self).oprs@.len(),
                    self.usemap@ == old(self).usemap@,
                    self.symbmap@ == old(self).symbmap@,
                    self.components@ == old(self).components@,
                    self.worklist@ == old(self).worklist@,
                    forall|v: int|
                        0 <= v < self.n() && mask@[v] ==> #[trigger] self.vars@[v] == old(
                            self,
                        ).vars@[v],
                    mask@.len() == self.n(),
                    place < self.n(),
                    uses_len == self.usemap@[place as int]@.len(),
                    k <= uses_len,
                decreases uses_len - k,
            {
                let op_idx = self.use_at(place, k);
                let sink = self.oprs[op_idx].get_sink();
                proof {
                    assert(self.oprs@[op_idx as int].bounded(self.n()));
                }
                if !mask[sink] {
                    let new_range = self.eval_op(op_idx);
                    self.set_var_range(sink, new_range);
                    let remark: Option<BasicOp> = match &self.oprs[op_idx] {
                        BasicOp::Essa {
                            sink: s2,
                            source,
                            intersect: IntervalConstraint::Basic(c),
                            ..
                        } => {
                            if c.is_unknown() {
                                Option::Some(
                                    BasicOp::Essa {
                                        sink: *s2,
                                        source: *source,
                                        intersect: IntervalConstraint::Basic(*c),
                                        unresolved: true,
                                    },
                                )
                            } else {
                                Option::None
                            }
                        },
                        _ => Option::None,
                    };
                    match remark {
                        Option::Some(newop) => {
                            proof {
                                assert(newop.bounded(self.n()));
                            }
                            self.set_op(op_idx, newop);
                        },
                        Option::None => {},
                    }
                }
                k = k + 1;
            }
            i = i + 1;
        }
    }

    /// Resolve every component in topological order: singletons directly
    /// (defaulting still-unknown ranges to the type's full range),
    /// larger components by widen-then-narrow, then push the resolved
    /// ranges across the outgoing edges.
    pub fn find_intervals(&mut self)
        requires
            old(self).wf(),
        ensures
            final(self).wf(),
            final(self).n() == old(self).n(),
            // Every tracked local ends with a resolved range: the
            // components were solved, and anything a capped or
            // unreachable fixpoint left unknown is defaulted to the
            // type's full (sound) range.
            forall|v: int|
                0 <= v < final(self).n() && (#[trigger] final(self).vars@[v]) is Some
                    ==> !(final(self).vars@[v].unwrap().range.rtype is Unknown),
    {
        let mut c: usize = 0;
        while c < self.components.len()
            invariant
                self.wf(),
                self.n() == old(self).n(),
                c <= self.components@.len(),
                forall|c2: int, t: int|
                    0 <= c2 < self.components@.len() && 0 <= t < self.components@[c2]@.len() ==> (
                    #[trigger] self.components@[c2]@[t]) < self.n(),
            decreases self.components.len() - c,
        {
            // Copy the member list out to keep borrows simple.
            let mut members: Vec<usize> = Vec::new();
            let mlen = self.components[c].len();
            let mut t: usize = 0;
            while t < mlen
                invariant
                    self.wf(),
                    c < self.components@.len(),
                    mlen == self.components@[c as int]@.len(),
                    forall|c2: int, t2: int|
                        0 <= c2 < self.components@.len() && 0 <= t2 < self.components@[c2]@.len()
                            ==> (#[trigger] self.components@[c2]@[t2]) < self.n(),
                    t <= mlen,
                    forall|u: int| 0 <= u < members@.len() ==> (#[trigger] members@[u]) < self.n(),
                decreases mlen - t,
            {
                let m = self.components[c][t];
                members.push(m);
                t = t + 1;
            }
            let mut mask: Vec<bool> = Vec::new();
            let n = self.vars.len();
            let mut v: usize = 0;
            while v < n
                invariant
                    v <= n,
                    mask@.len() == v,
                decreases n - v,
            {
                mask.push(false);
                v = v + 1;
            }
            let mut u: usize = 0;
            while u < members.len()
                invariant
                    n == self.n(),
                    mask@.len() == n,
                    u <= members@.len(),
                    forall|t2: int| 0 <= t2 < members@.len() ==> (#[trigger] members@[t2])
                        < self.n(),
                decreases members.len() - u,
            {
                mask.set(members[u], true);
                u = u + 1;
            }
            if members.len() == 1 {
                self.fix_intersects(&members);
                let place = members[0];
                let r = self.range_of(place);
                if r.is_unknown() {
                    self.set_var_range(place, Range::full_regular());
                }
            } else if members.len() > 1 {
                let comp_use_map = self.build_use_map(&mask);
                let entries = self.generate_entry_points(&members);
                self.pre_update(&comp_use_map, &entries);
                self.fix_intersects(&members);
                self.pos_update(&comp_use_map, &entries);
            }
            self.propagate_to_next_scc(&members, &mask);
            c = c + 1;
        }
        // Defaulting sweep: a sound full range for anything still
        // unresolved (unreached components, capped fixpoints).
        let n = self.vars.len();
        let mut v: usize = 0;
        while v < n
            invariant
                self.wf(),
                self.n() == old(self).n(),
                n == self.n(),
                v <= n,
                forall|t: int|
                    0 <= t < v && (#[trigger] self.vars@[t]) is Some ==> !(self.vars@[t].unwrap().range.rtype
                        is Unknown),
            decreases n - v,
        {
            let present = self.vars[v].is_some();
            if present {
                let r = self.range_of(v);
                if r.is_unknown() {
                    self.set_var_range(v, Range::full_regular());
                }
            }
            v = v + 1;
        }
    }
}

} // verus!
